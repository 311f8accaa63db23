//! What holds of the books that are found, at whatever depth.

use vstd::prelude::*;

use crate::edition::{EPUBS_DIR, HTML_DIR};
use crate::extractor::scan::{
    all_epubs_inside, all_marks_inside, book_dir, book_paths, epub_book, epub_books, epub_file,
    first_stray_epub, first_stray_html, html_book, html_books, law_book_path_components,
    law_converted_book_stays, law_every_book_is_converted, lemma_root_dirs, listed, output_dir,
    DirHelper, HtmlEntry,
};
use crate::path::laws::{
    are_names, is_name, law_components_of_names, law_extension_is_taken_off,
    law_name_is_the_last_component, law_parent_components, law_stem_and_extension,
    law_strip_prefix_components, law_stripped_is_relative, law_stripped_text, lemma_names_text,
    lemma_with_slashes_concat, with_slashes,
};
use crate::path::{
    component_seq, extension_part, is_absolute, joined, leads, name_part, prefix_stripped,
    stem_part,
};

verus! {

/// The components of the books' directory.
pub open spec fn epubs_components() -> Seq<Seq<char>> {
    seq![seq!['.'], seq!['e', 'p', 'u', 'b', 's']]
}

/// The components of the directory of converted books.
pub open spec fn html_components() -> Seq<Seq<char>> {
    seq![seq!['.'], seq!['h', 't', 'm', 'l']]
}

proof fn lemma_directories()
    ensures
        component_seq(EPUBS_DIR@) == epubs_components(),
        component_seq(HTML_DIR@) == html_components(),
{
    lemma_root_dirs();
    reveal_strlit("epubs");
    reveal_strlit("html");
    assert("epubs"@ == seq!['e', 'p', 'u', 'b', 's']);
    assert("html"@ == seq!['h', 't', 'm', 'l']);
}

/// Every entry below the books' directory whose last component has the extension `epub`
/// is a book, at whatever depth, unless it is below `api`; no other entry below that
/// directory is one, and an entry elsewhere is reported.
pub proof fn law_every_epub_is_a_book(entry: Seq<char>, stem: Seq<char>)
    ensures
        ({
            let cs = component_seq(entry);
            let inside = cs.len() >= 2 && cs.subrange(0, 2) == epubs_components();
            let reserved = cs.len() >= 3 && cs[2] == seq!['a', 'p', 'i'];
            &&& !inside ==> epub_book(entry) is None
            &&& inside && reserved ==> epub_book(entry) == Some(None::<Seq<char>>)
            &&& inside && !reserved && cs.len() >= 3 && stem.len() > 0 && cs[cs.len() - 1] == stem
                + seq!['.', 'e', 'p', 'u', 'b'] ==> (epub_book(entry) matches Some(Some(_)))
            &&& (epub_book(entry) matches Some(Some(_))) ==> inside && !reserved && cs.len() >= 3
                && extension_part(entry) == Some(seq!['e', 'p', 'u', 'b'])
        }),
{
    lemma_directories();
    reveal_strlit("api");
    reveal_strlit("epub");
    assert("api"@ == seq!['a', 'p', 'i']);
    assert("epub"@ == seq!['e', 'p', 'u', 'b']);
    let cs = component_seq(entry);
    law_strip_prefix_components(entry, EPUBS_DIR@);
    if let Some(rest) = prefix_stripped(entry, EPUBS_DIR@) {
        let tail = component_seq(rest);
        law_stripped_is_relative(entry, EPUBS_DIR@);
        assert(cs == epubs_components() + tail);
        assert(cs.subrange(0, 2) == epubs_components());
        assert(!"api"@.contains('/'));
        crate::path::laws::lemma_name_alone("api"@);
        assert(leads("api"@, rest) <==> tail.len() > 0 && tail[0] == "api"@) by {
            if tail.len() > 0 {
                assert(tail.subrange(0, 1) == seq![tail[0]]);
                if tail[0] == "api"@ {
                    assert(seq!["api"@].is_prefix_of(tail));
                }
                if leads("api"@, rest) {
                    assert(tail[0] == seq!["api"@][0]);
                }
            }
        }
        if tail.len() > 0 {
            assert(cs[2] == tail[0]);
            assert(cs[cs.len() - 1] == tail[tail.len() - 1]);
        }
        law_name_is_the_last_component(rest);
        law_name_is_the_last_component(entry);
        let ext = seq!['e', 'p', 'u', 'b'];
        assert(!ext.contains('.'));
        let name = stem + seq!['.', 'e', 'p', 'u', 'b'];
        assert(name == stem + seq!['.'] + ext);
        law_stem_and_extension(stem, ext);
        assert(name.len() > 3);
        if epub_book(entry) matches Some(Some(_)) {
            assert(tail.len() > 0);
        }
    } else {
        if cs.len() >= 2 && cs.subrange(0, 2) == epubs_components() {
            assert(epubs_components().is_prefix_of(cs));
        }
    }
}

/// Such a book, wherever it is, is among the books to convert, and its converted copy is
/// not removed. This leaves out a file whose stem is a single dot.
pub proof fn law_every_epub_is_converted_and_kept(
    entries: Seq<String>,
    i: int,
    stem: Seq<char>,
)
    requires
        0 <= i < entries.len(),
        stem.len() > 0,
        stem != seq!['.'],
        component_seq(entries[i]@).len() >= 3,
        component_seq(entries[i]@).subrange(0, 2) == epubs_components(),
        component_seq(entries[i]@)[2] != seq!['a', 'p', 'i'],
        component_seq(entries[i]@)[component_seq(entries[i]@).len() - 1] == stem + seq![
            '.',
            'e',
            'p',
            'u',
            'b',
        ],
    ensures
        epub_book(entries[i]@) matches Some(Some(path)) && listed(epub_books(entries), path)
            && component_seq(path) == component_seq(entries[i]@).subrange(
            2,
            component_seq(entries[i]@).len() - 1,
        ).push(stem) && (html_book(joined(book_dir(path), ".hash"@), true) matches Some(
            Some(marked),
        ) && listed(epub_books(entries), marked)),
{
    let entry = entries[i]@;
    let cs = component_seq(entry);
    law_every_epub_is_a_book(entry, stem);
    lemma_directories();
    let path = epub_book(entry)->0->0;
    let ext = seq!['e', 'p', 'u', 'b'];
    assert(!ext.contains('.'));
    let name = stem + seq!['.', 'e', 'p', 'u', 'b'];
    assert(name == stem + seq!['.'] + ext);
    law_stem_and_extension(stem, ext);
    law_name_is_the_last_component(entry);
    assert(name.len() > 3);
    assert(stem_part(entry) == Some(stem));
    law_book_path_components(entry, path);
    let front = component_seq(path).drop_last();
    assert(component_seq(path) == front.push(stem));
    assert(epubs_components() + front == cs.drop_last());
    assert(cs.drop_last().len() == 2 + front.len());
    assert((epubs_components() + front).subrange(2, 2 + front.len() as int) == front);
    assert(cs.drop_last().subrange(2, cs.len() - 1) == cs.subrange(2, cs.len() - 1));
    assert(cs.subrange(2, cs.len() - 1) == front);
    assert(component_seq(path) == cs.subrange(2, cs.len() - 1).push(stem));
    law_every_book_is_converted(entries, i, path);
    law_converted_book_stays(entries, i, path);
}

/// The path that a book is told by: its names below the books' directory, without the
/// extension.
pub proof fn law_path_of_a_book(names: Seq<Seq<char>>, stem: Seq<char>)
    requires
        are_names(names),
        is_name(stem),
        names.len() > 0,
        names[0] != seq!['a', 'p', 'i'],
    ensures
        epub_book(
            seq!['.', '/', 'e', 'p', 'u', 'b', 's', '/'] + with_slashes(names) + seq!['/'] + (stem
                + seq!['.', 'e', 'p', 'u', 'b']),
        ) == Some(Some(with_slashes(names) + seq!['/'] + stem)),
{
    let ext = seq!['e', 'p', 'u', 'b'];
    let name = stem + seq!['.'] + ext;
    let dir = with_slashes(names);
    let rest = dir + seq!['/'] + name;
    let epubs = seq!['e', 'p', 'u', 'b', 's'];
    let entry = seq!['.', '/', 'e', 'p', 'u', 'b', 's', '/'] + dir + seq!['/'] + (stem + seq![
        '.',
        'e',
        'p',
        'u',
        'b',
    ]);
    reveal_strlit("./epubs");
    reveal_strlit("epub");
    reveal_strlit("api");
    assert("epub"@ == ext);
    assert("api"@ == seq!['a', 'p', 'i']);
    assert(!ext.contains('.') && !ext.contains('/'));
    assert(is_name(epubs)) by {
        assert(epubs.len() == 5);
    }
    assert(is_name(name)) by {
        assert(name.len() > 4);
        if name.contains('/') {
            let i = choose|i: int| 0 <= i < name.len() && name[i] == '/';
            if i < stem.len() {
                assert(stem[i] == '/');
            } else if i > stem.len() {
                assert(ext[i - stem.len() - 1] == '/');
            }
        }
    }
    let below = names + seq![name];
    let all = seq![epubs] + below;
    assert forall|i: int| 0 <= i < all.len() implies is_name(#[trigger] all[i]) by {
        if i > 0 && i - 1 < names.len() {
            assert(all[i] == names[i - 1]);
        }
    }
    assert forall|i: int| 0 <= i < below.len() implies is_name(#[trigger] below[i]) by {
        assert(below[i] == all[i + 1]);
    }
    lemma_with_slashes_concat(names, seq![name]);
    assert(with_slashes(seq![name]) == name);
    assert(with_slashes(below) == rest);
    lemma_with_slashes_concat(seq![epubs], below);
    assert(with_slashes(seq![epubs]) == epubs);
    assert(entry == seq!['.', '/'] + with_slashes(all));
    assert(EPUBS_DIR@ == seq!['.', '/'] + with_slashes(seq![epubs]));
    law_stripped_text(seq![epubs], below);
    assert(prefix_stripped(entry, EPUBS_DIR@) == Some(rest));
    law_components_of_names(below);
    crate::path::laws::lemma_name_alone("api"@);
    assert(!leads("api"@, rest)) by {
        if leads("api"@, rest) {
            assert(below[0] == seq!["api"@][0]);
            assert(below[0] == names[0]);
        }
    }
    lemma_names_text(names);
    law_extension_is_taken_off(dir, stem, ext);
}

/// A file `.hash` below the directory of converted books marks the directory that it is
/// in, at whatever depth; nothing else marks a book, and such a file elsewhere is
/// reported.
pub proof fn law_every_fingerprint_marks_its_directory(entry: Seq<char>, is_file: bool)
    ensures
        ({
            let cs = component_seq(entry);
            let marks = is_file && cs.len() > 0 && cs[cs.len() - 1] == seq!['.', 'h', 'a', 's', 'h'];
            let inside = cs.len() >= 2 && cs.subrange(0, 2) == html_components();
            &&& !marks ==> html_book(entry, is_file) == Some(None::<Seq<char>>)
            &&& marks && !inside ==> html_book(entry, is_file) is None
            &&& marks && inside ==> (html_book(entry, is_file) matches Some(Some(dir))
                && component_seq(dir) == cs.subrange(2, cs.len() - 1))
        }),
{
    lemma_directories();
    reveal_strlit(".hash");
    let hash = seq!['.', 'h', 'a', 's', 'h'];
    assert(".hash"@ == hash);
    let cs = component_seq(entry);
    law_name_is_the_last_component(entry);
    assert(hash.len() == 5);
    law_strip_prefix_components(entry, HTML_DIR@);
    if is_file && name_part(entry) == Some(hash) {
        if let Some(rest) = prefix_stripped(entry, HTML_DIR@) {
            assert(cs == html_components() + component_seq(rest));
            assert(cs.subrange(0, 2) == html_components());
            crate::extractor::scan::law_hash_file_marks_a_book(entry);
            law_parent_components(rest);
            let tail = component_seq(rest);
            assert(cs.subrange(2, cs.len() - 1) == tail.drop_last());
        } else {
            if cs.len() >= 2 && cs.subrange(0, 2) == html_components() {
                assert(html_components().is_prefix_of(cs));
            }
        }
    }
}

/// Every converted book that is marked is among the converted books.
pub proof fn law_every_mark_is_seen(entries: Seq<HtmlEntry>, i: int, path: Seq<char>)
    requires
        0 <= i < entries.len(),
        html_book(entries[i].path@, entries[i].is_file) == Some(Some(path)),
    ensures
        listed(html_books(entries), path),
    decreases entries.len(),
{
    let front = entries.drop_last();
    let before = html_books(front);
    let all = html_books(entries);
    if i < front.len() {
        law_every_mark_is_seen(front, i, path);
        let k = choose|k: int|
            0 <= k < before.len() && crate::path::same_path(#[trigger] before[k], path);
        assert(all[k] == before[k]);
    } else if !listed(before, path) {
        assert(all[before.len() as int] == path);
        assert(crate::path::same_path(all[before.len() as int], path));
    }
}

/// Every book to convert was found as an entry, and none is listed twice.
pub proof fn law_books_come_from_entries(entries: Seq<String>, k: int)
    requires
        0 <= k < epub_books(entries).len(),
    ensures
        exists|i: int|
            0 <= i < entries.len() && epub_book((#[trigger] entries[i])@) == Some(
                Some(epub_books(entries)[k]),
            ),
        forall|l: int|
            0 <= l < epub_books(entries).len() && l != k ==> component_seq(
                #[trigger] epub_books(entries)[l],
            ) != component_seq(epub_books(entries)[k]),
    decreases entries.len(),
{
    let front = entries.drop_last();
    let before = epub_books(front);
    let all = epub_books(entries);
    if k < before.len() {
        law_books_come_from_entries(front, k);
        let i = choose|i: int|
            0 <= i < front.len() && epub_book((#[trigger] front[i])@) == Some(Some(before[k]));
        assert(entries[i] == front[i]);
        assert(epub_book(entries[i]@) == Some(Some(all[k])));
        assert forall|l: int| 0 <= l < all.len() && l != k implies component_seq(
            #[trigger] all[l],
        ) != component_seq(all[k]) by {
            if l < before.len() {
                assert(all[l] == before[l]);
            } else if component_seq(all[l]) == component_seq(all[k]) {
                assert(crate::path::same_path(before[k], all[l]));
                assert(listed(before, all[l]));
            }
        }
    } else {
        let last = entries[entries.len() - 1];
        assert(epub_book(last@) == Some(Some(all[k])));
        assert forall|l: int| 0 <= l < all.len() && l != k implies component_seq(
            #[trigger] all[l],
        ) != component_seq(all[k]) by {
            assert(all[l] == before[l]);
            if component_seq(all[l]) == component_seq(all[k]) {
                assert(crate::path::same_path(before[l], all[k]));
                assert(listed(before, all[k]));
            }
        }
    }
}

/// Every converted book was marked by an entry.
pub proof fn law_converted_books_come_from_marks(entries: Seq<HtmlEntry>, k: int)
    requires
        0 <= k < html_books(entries).len(),
    ensures
        exists|i: int|
            0 <= i < entries.len() && html_book(
                (#[trigger] entries[i]).path@,
                entries[i].is_file,
            ) == Some(Some(html_books(entries)[k])),
    decreases entries.len(),
{
    let front = entries.drop_last();
    let before = html_books(front);
    if k < before.len() {
        law_converted_books_come_from_marks(front, k);
        let i = choose|i: int|
            0 <= i < front.len() && html_book((#[trigger] front[i]).path@, front[i].is_file)
                == Some(Some(before[k]));
        assert(entries[i] == front[i]);
    } else {
        assert(html_book(
            entries[entries.len() - 1].path@,
            entries[entries.len() - 1].is_file,
        ) == Some(Some(html_books(entries)[k])));
    }
}

/// A book is among others just when one of them has the same components.
pub proof fn law_listed_by_components(books: Seq<Seq<char>>, path: Seq<char>)
    ensures
        listed(books, path) <==> exists|i: int|
            0 <= i < books.len() && component_seq(#[trigger] books[i]) == component_seq(path),
{
    if listed(books, path) {
        let i = choose|i: int|
            0 <= i < books.len() && crate::path::same_path(#[trigger] books[i], path);
        assert(component_seq(books[i]) == component_seq(path));
    }
    if exists|i: int|
        0 <= i < books.len() && component_seq(#[trigger] books[i]) == component_seq(path) {
        let i = choose|i: int|
            0 <= i < books.len() && component_seq(#[trigger] books[i]) == component_seq(path);
        assert(crate::path::same_path(books[i], path));
    }
}

/// The file and the directory of a book, as texts.
pub proof fn law_file_and_directory_of_a_book(path: Seq<char>)
    requires
        path.len() > 0,
        path[0] != '/',
    ensures
        epub_file(path) == seq!['.', '/', 'e', 'p', 'u', 'b', 's', '/'] + path + seq![
            '.',
            'e',
            'p',
            'u',
            'b',
        ],
        book_dir(path) == seq!['.', '/', 'h', 't', 'm', 'l', '/'] + path,
{
    reveal_strlit("./epubs");
    reveal_strlit("./html");
    reveal_strlit(".epub");
    assert(epub_file(path) == seq!['.', '/', 'e', 'p', 'u', 'b', 's', '/'] + path + seq![
        '.',
        'e',
        'p',
        'u',
        'b',
    ]);
    assert(book_dir(path) == seq!['.', '/', 'h', 't', 'm', 'l', '/'] + path);
}

/// What a list of books holds, one by one.
pub proof fn law_books_one_by_one(books: Seq<DirHelper>, i: int)
    requires
        0 <= i < books.len(),
    ensures
        book_paths(books).len() == books.len(),
        book_paths(books)[i] == books[i].path@,
{
}

/// The directory that a walk converts a book to: the names of the book's directory below
/// the root of the walk, and the stem of its file, below the other root.
pub proof fn law_walk_keeps_the_directories(
    root: Seq<Seq<char>>,
    names: Seq<Seq<char>>,
    stem: Seq<char>,
    html_root: Seq<char>,
)
    requires
        are_names(root + names),
        is_name(stem),
        stem != seq!['.', '.'],
        names.len() > 0,
        html_root.len() > 0,
        html_root.last() != '/',
    ensures
        output_dir(
            with_slashes(root + names) + seq!['/'] + (stem + seq!['.', 'e', 'p', 'u', 'b']),
            with_slashes(root),
            html_root,
        ) == Some(html_root + seq!['/'] + with_slashes(names) + seq!['/'] + stem),
{
    let ext = seq!['e', 'p', 'u', 'b'];
    let name = stem + seq!['.'] + ext;
    let all = root + names;
    assert(!ext.contains('.') && !ext.contains('/'));
    assert(is_name(name)) by {
        assert(name.len() > 4);
        if name.contains('/') {
            let i = choose|i: int| 0 <= i < name.len() && name[i] == '/';
            if i < stem.len() {
                assert(stem[i] == '/');
            } else if i > stem.len() {
                assert(ext[i - stem.len() - 1] == '/');
            }
        }
    }
    assert(stem + seq!['.', 'e', 'p', 'u', 'b'] == name);
    assert(are_names(names)) by {
        assert forall|i: int| 0 <= i < names.len() implies is_name(#[trigger] names[i]) by {
            assert(names[i] == all[root.len() + i]);
        }
    }
    let below = names + seq![name];
    let whole = all + seq![name];
    assert(whole == root + below);
    assert forall|i: int| 0 <= i < whole.len() implies is_name(#[trigger] whole[i]) by {
        if i < all.len() {
            assert(whole[i] == all[i]);
        }
    }
    assert(with_slashes(seq![name]) == name);
    lemma_with_slashes_concat(all, seq![name]);
    lemma_with_slashes_concat(names, seq![name]);
    law_stripped_text(root, below);
    let path = with_slashes(whole);
    let rest = with_slashes(names) + seq!['/'] + name;
    assert(prefix_stripped(path, with_slashes(root)) == Some(rest));
    lemma_names_text(all);
    lemma_names_text(names);
    law_extension_is_taken_off(with_slashes(all), stem, ext);
    assert(name != seq!['.', '.']) by {
        assert(name.len() > 4);
    }
    crate::path::laws::law_file_in_a_directory(with_slashes(names), name);
    let out = html_root + seq!['/'] + with_slashes(names);
    assert(joined(html_root, with_slashes(names)) == out);
    assert(out.last() == with_slashes(names).last());
    assert(!is_absolute(stem)) by {
        if is_absolute(stem) {
            assert(stem.contains(stem[0]));
        }
    }
    assert(joined(out, stem) == out + seq!['/'] + stem);
}

/// A book at the top of the books' directory is told by the stem of its file.
pub proof fn law_path_of_a_book_at_the_top(stem: Seq<char>)
    requires
        is_name(stem),
        stem != seq!['.'],
    ensures
        epub_book(
            seq!['.', '/', 'e', 'p', 'u', 'b', 's', '/'] + (stem + seq!['.', 'e', 'p', 'u', 'b']),
        ) == Some(Some(stem)),
{
    let ext = seq!['e', 'p', 'u', 'b'];
    let name = stem + seq!['.'] + ext;
    let epubs = seq!['e', 'p', 'u', 'b', 's'];
    let entry = seq!['.', '/', 'e', 'p', 'u', 'b', 's', '/'] + (stem + seq![
        '.',
        'e',
        'p',
        'u',
        'b',
    ]);
    reveal_strlit("./epubs");
    reveal_strlit("epub");
    reveal_strlit("api");
    assert("epub"@ == ext);
    assert(!ext.contains('.') && !ext.contains('/'));
    assert(is_name(epubs)) by {
        assert(epubs.len() == 5);
    }
    assert(is_name(name)) by {
        assert(name.len() > 4);
        if name.contains('/') {
            let i = choose|i: int| 0 <= i < name.len() && name[i] == '/';
            if i < stem.len() {
                assert(stem[i] == '/');
            } else if i > stem.len() {
                assert(ext[i - stem.len() - 1] == '/');
            }
        }
    }
    let below = seq![name];
    let all = seq![epubs] + below;
    assert forall|i: int| 0 <= i < all.len() implies is_name(#[trigger] all[i]) by {
    }
    assert(with_slashes(below) == name);
    lemma_with_slashes_concat(seq![epubs], below);
    assert(with_slashes(seq![epubs]) == epubs);
    assert(entry == seq!['.', '/'] + with_slashes(all));
    assert(EPUBS_DIR@ == seq!['.', '/'] + with_slashes(seq![epubs]));
    law_stripped_text(seq![epubs], below);
    law_components_of_names(below);
    crate::path::laws::lemma_name_alone("api"@);
    assert(!leads("api"@, name)) by {
        if leads("api"@, name) {
            assert(below[0] == seq!["api"@][0]);
            assert(name.len() != 3);
        }
    }
    law_stem_and_extension(stem, ext);
    let dir = seq!['d'];
    law_extension_is_taken_off(dir, stem, ext);
    law_name_is_the_last_component(name);
    assert(name != seq!['/'] && name != seq!['.'] && name != seq!['.', '.']) by {
        assert(name.len() > 4);
    }
}

/// When every entry is where it belongs, and which is the first that is not.
pub proof fn law_stray_entries(epubs: Seq<String>, marks: Seq<HtmlEntry>, i: int)
    ensures
        all_epubs_inside(epubs) <==> forall|k: int|
            0 <= k < epubs.len() ==> epub_book((#[trigger] epubs[k])@) is Some,
        all_marks_inside(marks) <==> forall|k: int|
            0 <= k < marks.len() ==> html_book(
                (#[trigger] marks[k]).path@,
                marks[k].is_file,
            ) is Some,
        first_stray_epub(epubs, i) <==> 0 <= i < epubs.len() && epub_book(epubs[i]@) is None
            && forall|k: int| 0 <= k < i ==> epub_book((#[trigger] epubs[k])@) is Some,
        first_stray_html(marks, i) <==> 0 <= i < marks.len() && html_book(
            marks[i].path@,
            marks[i].is_file,
        ) is None && forall|k: int|
            0 <= k < i ==> html_book((#[trigger] marks[k]).path@, marks[k].is_file) is Some,
{
    if 0 <= i < epubs.len() {
        let front = epubs.take(i);
        if all_epubs_inside(front) {
            assert forall|k: int| 0 <= k < i implies epub_book((#[trigger] epubs[k])@) is Some by {
                assert(front[k] == epubs[k]);
            }
        }
    }
    if 0 <= i < marks.len() {
        let front = marks.take(i);
        if all_marks_inside(front) {
            assert forall|k: int| 0 <= k < i implies html_book(
                (#[trigger] marks[k]).path@,
                marks[k].is_file,
            ) is Some by {
                assert(front[k] == marks[k]);
            }
        }
    }
}

} // verus!
