//! Clearing a book's directory before the book is converted again.

use vstd::prelude::*;

use crate::edition::{index_file, Edition};
use crate::extractor::sections::{section_file, section_name};
use crate::text::{begins_with, ends_in, ends_with, same_text, starts_with, to_chars};

verus! {

/// What to do with an entry of a book's directory.
#[derive(Clone, Copy, PartialEq, Eq, Structural)]
pub enum CleanAction {
    Keep,
    RemoveDirectory,
    RemoveFile,
}

/// A file that converting a book writes under this name: an index or a section.
pub open spec fn is_written_file(name: Seq<char>, edition: Edition) -> bool {
    ||| name == "index.html"@
    ||| edition is Reader && name == "index.json"@
    ||| begins_with(name, "section_"@) && ends_in(name, ".html"@)
}

/// What becomes of the entry `name`: files whose names begin with a dot stay,
/// directories go, and so do the files that a conversion writes.
pub open spec fn clean_rule(name: Seq<char>, is_dir: bool, edition: Edition) -> CleanAction {
    if begins_with(name, "."@) {
        CleanAction::Keep
    } else if is_dir {
        CleanAction::RemoveDirectory
    } else if is_written_file(name, edition) {
        CleanAction::RemoveFile
    } else {
        CleanAction::Keep
    }
}

/// What to do with an entry of a book's directory, so that no stale files from
/// an earlier conversion linger. An entry without a readable name stays.
pub fn clean_action(name: Option<&str>, is_dir: bool, edition: Edition) -> (action: CleanAction)
    ensures
        action == match name {
            Some(n) => clean_rule(n@, is_dir, edition),
            None => CleanAction::Keep,
        },
{
    match name {
        Some(n) => {
            let chars = to_chars(n);
            if starts_with(chars.as_slice(), ".") {
                return CleanAction::Keep;
            }
            if is_dir {
                return CleanAction::RemoveDirectory;
            }
            let reader = match edition {
                Edition::Plain => false,
                Edition::Reader => true,
            };
            if same_text(n, "index.html") || (reader && same_text(n, "index.json")) || (
            starts_with(chars.as_slice(), "section_") && ends_with(chars.as_slice(), ".html")) {
                CleanAction::RemoveFile
            } else {
                CleanAction::Keep
            }
        },
        None => CleanAction::Keep,
    }
}

/// Every section file and every index that a conversion writes is cleared away
/// before the next one.
pub proof fn law_written_files_are_cleared(edition: Edition, i: nat)
    ensures
        clean_rule(section_file(section_name(i)), false, edition) == CleanAction::RemoveFile,
        clean_rule(index_file(edition), false, edition) == CleanAction::RemoveFile,
{
    reveal_strlit(".");
    reveal_strlit("index.html");
    reveal_strlit("index.json");
    reveal_strlit("section_");
    let file = section_file(section_name(i));
    let prefix = "section_"@;
    let suffix = ".html"@;
    assert(file.subrange(0, prefix.len() as int) == prefix);
    assert(file.subrange(file.len() - suffix.len(), file.len() as int) == suffix);
    assert(begins_with(file, prefix));
    assert(ends_in(file, suffix));
    assert(file[0] == 's');
    assert(file.subrange(0, 1)[0] != "."@[0]);
    assert(index_file(edition)[0] == 'i');
    assert(index_file(edition).subrange(0, 1)[0] != "."@[0]);
}

/// What has a name that begins with a dot stays, like the kept fingerprint and
/// the kept reading positions.
pub proof fn law_dot_files_stay(name: Seq<char>, is_dir: bool, edition: Edition)
    requires
        begins_with(name, "."@),
    ensures
        clean_rule(name, is_dir, edition) == CleanAction::Keep,
{
}

/// Every directory is cleared away, but one whose name begins with a dot.
pub proof fn law_directories_are_cleared(name: Seq<char>, edition: Edition)
    ensures
        clean_rule(name, true, edition) == CleanAction::RemoveDirectory <==> !begins_with(
            name,
            "."@,
        ),
{
}

/// Every file named like a section is cleared away, whatever its number, and so are the
/// indexes.
pub proof fn law_every_section_file_is_cleared(number: Seq<char>, edition: Edition)
    ensures
        clean_rule("section_"@ + number + ".html"@, false, edition) == CleanAction::RemoveFile,
        clean_rule("index.html"@, false, edition) == CleanAction::RemoveFile,
        clean_rule("index.json"@, false, Edition::Reader) == CleanAction::RemoveFile,
{
    reveal_strlit(".");
    reveal_strlit("section_");
    reveal_strlit("index.html");
    reveal_strlit("index.json");
    let name = "section_"@ + number + ".html"@;
    assert(name.subrange(0, "section_"@.len() as int) == "section_"@);
    assert(name.subrange(name.len() - ".html"@.len(), name.len() as int) == ".html"@);
    assert(begins_with(name, "section_"@));
    assert(ends_in(name, ".html"@));
    assert(name.subrange(0, 1)[0] == 's');
    assert("index.html"@.subrange(0, 1)[0] == 'i');
    assert("index.json"@.subrange(0, 1)[0] == 'i');
}

/// Every other file stays: one that is no index and not named like a section.
pub proof fn law_other_files_stay(name: Seq<char>, edition: Edition)
    requires
        name != "index.html"@,
        edition is Plain || name != "index.json"@,
        forall|number: Seq<char>| name != #[trigger] ("section_"@ + number + ".html"@),
    ensures
        clean_rule(name, false, edition) == CleanAction::Keep,
{
    reveal_strlit("section_");
    reveal_strlit(".html");
    if begins_with(name, "section_"@) && ends_in(name, ".html"@) {
        crate::text::laws::law_beginnings_and_ends("section_"@, name, name);
        crate::text::laws::law_beginnings_and_ends(".html"@, name, name);
        let front = "section_"@;
        let back = ".html"@;
        if name.len() >= front.len() + back.len() {
            let number = name.subrange(front.len() as int, name.len() - back.len());
            assert(name == front + number + back);
        } else {
            let from = name.len() - back.len();
            assert(name[from] == '.');
            assert(name.subrange(0, front.len() as int)[from] == front[from]);
        }
    }
}

} // verus!
