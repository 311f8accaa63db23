//! The media type that a file is served with.

use vstd::prelude::*;

use crate::path::{extension, extension_part};
use crate::text::{same_text, to_chars, to_text};

verus! {

/// The media type of files with the extension `ext`, where it is known.
pub open spec fn known_type(ext: Seq<char>) -> Option<Seq<char>> {
    if ext == "html"@ || ext == "htm"@ {
        Some("text/html; charset=utf-8"@)
    } else if ext == "css"@ {
        Some("text/css; charset=utf-8"@)
    } else if ext == "js"@ {
        Some("application/javascript"@)
    } else if ext == "json"@ {
        Some("application/json"@)
    } else if ext == "png"@ {
        Some("image/png"@)
    } else if ext == "jpg"@ || ext == "jpeg"@ {
        Some("image/jpeg"@)
    } else if ext == "gif"@ {
        Some("image/gif"@)
    } else if ext == "svg"@ {
        Some("image/svg+xml"@)
    } else if ext == "txt"@ {
        Some("text/plain; charset=utf-8"@)
    } else if ext == "pdf"@ {
        Some("application/pdf"@)
    } else if ext == "woff"@ {
        Some("font/woff"@)
    } else if ext == "woff2"@ {
        Some("font/woff2"@)
    } else {
        None
    }
}

/// The media type of the file `path`: by its extension, or the one for any
/// bytes.
pub open spec fn content_type(path: Seq<char>) -> Seq<char> {
    match extension_part(path) {
        Some(ext) => match known_type(ext) {
            Some(media_type) => media_type,
            None => "application/octet-stream"@,
        },
        None => "application/octet-stream"@,
    }
}

/// The media type of the file `path`.
pub fn guess_content_type(path: &str) -> (media_type: &'static str)
    ensures
        media_type@ == content_type(path@),
{
    let chars = to_chars(path);
    match extension(chars.as_slice()) {
        Some(ext_chars) => {
            let text = to_text(ext_chars.as_slice());
            let ext = text.as_str();
            if same_text(ext, "html") || same_text(ext, "htm") {
                "text/html; charset=utf-8"
            } else if same_text(ext, "css") {
                "text/css; charset=utf-8"
            } else if same_text(ext, "js") {
                "application/javascript"
            } else if same_text(ext, "json") {
                "application/json"
            } else if same_text(ext, "png") {
                "image/png"
            } else if same_text(ext, "jpg") || same_text(ext, "jpeg") {
                "image/jpeg"
            } else if same_text(ext, "gif") {
                "image/gif"
            } else if same_text(ext, "svg") {
                "image/svg+xml"
            } else if same_text(ext, "txt") {
                "text/plain; charset=utf-8"
            } else if same_text(ext, "pdf") {
                "application/pdf"
            } else if same_text(ext, "woff") {
                "font/woff"
            } else if same_text(ext, "woff2") {
                "font/woff2"
            } else {
                "application/octet-stream"
            }
        },
        None => "application/octet-stream",
    }
}

/// The media type of a file that comes with the server itself, where there is
/// one of that name.
pub open spec fn static_type(path: Seq<char>) -> Option<Seq<char>> {
    if path == "common.css"@ {
        Some("text/css; charset=utf-8"@)
    } else {
        None
    }
}

/// The media type of a file that comes with the server itself.
pub fn static_content_type(path: &str) -> (media_type: Option<&'static str>)
    ensures
        match media_type {
            Some(t) => static_type(path@) == Some(t@),
            None => static_type(path@) is None,
        },
{
    if same_text(path, "common.css") {
        Some("text/css; charset=utf-8")
    } else {
        None
    }
}

/// The media type of a file goes by its extension alone: files with the same extension
/// have the same type, and a file without one is any bytes.
pub proof fn law_type_goes_by_the_extension(a: Seq<char>, b: Seq<char>)
    ensures
        extension_part(a) == extension_part(b) ==> content_type(a) == content_type(b),
        extension_part(a) is None ==> content_type(a) == "application/octet-stream"@,
{
}

/// A file has the type of its extension, wherever it is and whatever it is called.
pub proof fn law_type_of_a_file(dir: Seq<char>, stem: Seq<char>, ext: Seq<char>)
    requires
        dir.len() > 0,
        dir.last() != '/',
        dir.len() > 1 && dir.last() == '.' ==> dir[dir.len() - 2] != '/',
        crate::path::laws::is_name(stem),
        !ext.contains('.'),
        !ext.contains('/'),
    ensures
        content_type(dir + seq!['/'] + (stem + seq!['.'] + ext)) == match known_type(ext) {
            Some(media_type) => media_type,
            None => "application/octet-stream"@,
        },
{
    crate::path::laws::law_extension_is_taken_off(dir, stem, ext);
}

/// The types of the files that pages are made of.
pub proof fn law_known_types(ext: Seq<char>)
    ensures
        ext == "html"@ || ext == "htm"@ ==> known_type(ext) == Some("text/html; charset=utf-8"@),
        ext == "css"@ ==> known_type(ext) == Some("text/css; charset=utf-8"@),
        ext == "js"@ ==> known_type(ext) == Some("application/javascript"@),
        ext == "json"@ ==> known_type(ext) == Some("application/json"@),
        ext == "png"@ ==> known_type(ext) == Some("image/png"@),
        ext == "jpg"@ || ext == "jpeg"@ ==> known_type(ext) == Some("image/jpeg"@),
        ext == "gif"@ ==> known_type(ext) == Some("image/gif"@),
        ext == "svg"@ ==> known_type(ext) == Some("image/svg+xml"@),
        ext == "txt"@ ==> known_type(ext) == Some("text/plain; charset=utf-8"@),
        ext == "pdf"@ ==> known_type(ext) == Some("application/pdf"@),
        ext == "woff"@ ==> known_type(ext) == Some("font/woff"@),
        ext == "woff2"@ ==> known_type(ext) == Some("font/woff2"@),
        known_type(ext) is Some ==> ext == "html"@ || ext == "htm"@ || ext == "css"@ || ext == "js"@
            || ext == "json"@ || ext == "png"@ || ext == "jpg"@ || ext == "jpeg"@ || ext == "gif"@
            || ext == "svg"@ || ext == "txt"@ || ext == "pdf"@ || ext == "woff"@ || ext == "woff2"@,
{
    reveal_strlit("html");
    reveal_strlit("htm");
    reveal_strlit("css");
    reveal_strlit("js");
    reveal_strlit("json");
    reveal_strlit("png");
    reveal_strlit("jpg");
    reveal_strlit("jpeg");
    reveal_strlit("gif");
    reveal_strlit("svg");
    reveal_strlit("txt");
    reveal_strlit("pdf");
    reveal_strlit("woff");
    reveal_strlit("woff2");
    assert("html"@[0] == 'h' && "htm"@[0] == 'h' && "css"@[0] == 'c');
    assert("js"@[0] == 'j' && "js"@.len() == 2 && "json"@.len() == 4 && "jpg"@.len() == 3);
    assert("json"@[1] == 's' && "jpeg"@[1] == 'p');
    assert("png"@[1] == 'n' && "pdf"@[1] == 'd' && "png"@[0] == 'p' && "pdf"@[0] == 'p');
    assert("gif"@[0] == 'g' && "svg"@[0] == 's' && "txt"@[0] == 't');
    assert("woff"@[0] == 'w' && "woff"@.len() == 4 && "woff2"@.len() == 5);
    assert("jpg"@[0] == 'j' && "jpeg"@[0] == 'j' && "json"@[0] == 'j' && "woff2"@[0] == 'w');
}

/// One file comes with the server itself.
pub proof fn law_one_static_file(path: Seq<char>)
    ensures
        static_type(path) == if path == "common.css"@ {
            Some("text/css; charset=utf-8"@)
        } else {
            None
        },
{
}

} // verus!
