//! A section of a book, wrapped in links to its neighbours.

use vstd::prelude::*;
use vstd::string::StringExecFns;

use crate::extractor::index_json::{BookIndex, SectionEntry};
use crate::extractor::links::directory_of;
use crate::path::{file_name, join, joined, name_part, parent, parent_path};
use crate::server::breadcrumbs::{build_breadcrumbs, crumb_views, trail, Breadcrumb};
use crate::text::{begins_with, ends_in, ends_with, same_text, starts_with, to_chars, to_text};

verus! {

/// The name of the section file at `full_path` and the index beside it: `None`
/// where the file is not named like a section.
pub open spec fn section_beside(full_path: Seq<char>) -> Option<(Seq<char>, Seq<char>)> {
    match (name_part(full_path), parent_path(full_path)) {
        (Some(name), Some(dir)) => if begins_with(name, "section_"@) && ends_in(name, ".html"@) {
            Some((name, joined(dir, "index.json"@)))
        } else {
            None
        },
        _ => None,
    }
}

/// The name of the section file at `full_path` and the path of the index of its
/// book.
pub fn locate_section(full_path: &str) -> (found: Option<(String, String)>)
    ensures
        match found {
            Some((name, index)) => section_beside(full_path@) == Some((name@, index@)),
            None => section_beside(full_path@) is None,
        },
{
    let path = to_chars(full_path);
    match (file_name(path.as_slice()), parent(path.as_slice())) {
        (Some(name), Some(dir)) => {
            if starts_with(name.as_slice(), "section_") && ends_with(name.as_slice(), ".html") {
                let index = join(dir.as_slice(), to_chars("index.json").as_slice());
                Some((to_text(name.as_slice()), to_text(index.as_slice())))
            } else {
                None
            }
        },
        _ => None,
    }
}

/// The first section of the list with the file name `name`.
pub open spec fn position_of(sections: Seq<SectionEntry>, name: Seq<char>) -> Option<int>
    decreases sections.len(),
{
    if sections.len() == 0 {
        None
    } else if sections[0].filename@ == name {
        Some(0)
    } else {
        match position_of(sections.drop_first(), name) {
            Some(k) => Some(k + 1),
            None => None,
        }
    }
}

/// The first section of the list with the file name `name`.
fn find_position(sections: &Vec<SectionEntry>, name: &str) -> (at: Option<usize>)
    ensures
        match at {
            Some(k) => k < sections@.len() && position_of(sections@, name@) == Some(k as int),
            None => position_of(sections@, name@) is None,
        },
{
    for k in 0..sections.len()
        invariant
            forall|j: int| 0 <= j < k ==> (#[trigger] sections@[j]).filename@ != name@,
    {
        if same_text(sections[k].filename.as_str(), name) {
            proof {
                lemma_position_is(sections@, name@, k as int);
            }
            return Some(k);
        }
    }
    proof {
        lemma_no_position(sections@, name@);
    }
    None
}

/// The position, told by what it is.
proof fn lemma_position_is(sections: Seq<SectionEntry>, name: Seq<char>, k: int)
    requires
        0 <= k < sections.len(),
        sections[k].filename@ == name,
        forall|j: int| 0 <= j < k ==> (#[trigger] sections[j]).filename@ != name,
    ensures
        position_of(sections, name) == Some(k),
    decreases k,
{
    if k > 0 {
        let rest = sections.drop_first();
        assert(sections[0].filename@ != name);
        assert(rest[k - 1] == sections[k]);
        assert forall|j: int| 0 <= j < k - 1 implies (#[trigger] rest[j]).filename@ != name by {
            assert(rest[j] == sections[j + 1]);
        }
        lemma_position_is(rest, name, k - 1);
    }
}

proof fn lemma_no_position(sections: Seq<SectionEntry>, name: Seq<char>)
    requires
        forall|j: int| 0 <= j < sections.len() ==> (#[trigger] sections[j]).filename@ != name,
    ensures
        position_of(sections, name) is None,
    decreases sections.len(),
{
    if sections.len() > 0 {
        let rest = sections.drop_first();
        assert(sections[0].filename@ != name);
        assert forall|j: int| 0 <= j < rest.len() implies (#[trigger] rest[j]).filename@ != name by {
            assert(rest[j] == sections[j + 1]);
        }
        lemma_no_position(rest, name);
    }
}

/// The file name of the section before the section `k`.
pub open spec fn previous_of(sections: Seq<SectionEntry>, k: int) -> Option<Seq<char>> {
    if k > 0 {
        Some(sections[k - 1].filename@)
    } else {
        None
    }
}

/// The file name of the section behind the section `k`.
pub open spec fn next_of(sections: Seq<SectionEntry>, k: int) -> Option<Seq<char>> {
    if k + 1 < sections.len() {
        Some(sections[k + 1].filename@)
    } else {
        None
    }
}

/// The text that an optional string holds.
pub open spec fn text_of(s: Option<String>) -> Option<Seq<char>> {
    match s {
        Some(text) => Some(text@),
        None => None,
    }
}

/// A section as the reader shows it.
pub struct SectionView {
    pub book_name: String,
    pub breadcrumbs: Vec<Breadcrumb>,
    pub iframe_src: String,
    pub prev_url: Option<String>,
    pub next_url: Option<String>,
}

/// The section `file_name` of a book, at `rel_path`, as the reader shows it: in
/// a frame, below the trail to its book, between links to the sections before
/// and behind it. A section that the index does not list has no neighbours.
pub fn section_view(book_index: &BookIndex, file_name: &str, rel_path: &str) -> (view: SectionView)
    ensures
        view.book_name@ == book_index.book_name@,
        crumb_views(view.breadcrumbs@) == trail(directory_of(rel_path@)),
        view.iframe_src@ == file_name@ + "?raw=true"@,
        text_of(view.prev_url) == match position_of(book_index.sections@, file_name@) {
            Some(k) => previous_of(book_index.sections@, k),
            None => None,
        },
        text_of(view.next_url) == match position_of(book_index.sections@, file_name@) {
            Some(k) => next_of(book_index.sections@, k),
            None => None,
        },
{
    let n: usize = book_index.sections.len();
    let mut prev_url: Option<String> = None;
    let mut next_url: Option<String> = None;
    if let Some(k) = find_position(&book_index.sections, file_name) {
        if k > 0 {
            prev_url = Some(book_index.sections[k - 1].filename.clone());
        }
        if n - k > 1 {
            next_url = Some(book_index.sections[k + 1].filename.clone());
        }
    }
    let dir: Vec<char> = match parent(to_chars(rel_path).as_slice()) {
        Some(dir) => dir,
        None => Vec::new(),
    };
    assert(dir@ == directory_of(rel_path@));
    let mut iframe_src = String::from_str(file_name);
    iframe_src.append("?raw=true");
    SectionView {
        book_name: book_index.book_name.clone(),
        breadcrumbs: build_breadcrumbs(to_text(dir.as_slice()).as_str()),
        iframe_src,
        prev_url,
        next_url,
    }
}

/// In a book whose sections have different file names, going on and then back
/// leads to the same section, and going back and then on does too.
pub proof fn law_next_and_previous_undo_each_other(sections: Seq<SectionEntry>, k: int)
    requires
        0 <= k < sections.len(),
        forall|i: int, j: int|
            0 <= i < j < sections.len() ==> (#[trigger] sections[i]).filename@ != (
            #[trigger] sections[j]).filename@,
    ensures
        position_of(sections, sections[k].filename@) == Some(k),
        next_of(sections, k) matches Some(name) ==> {
            &&& position_of(sections, name) == Some(k + 1)
            &&& previous_of(sections, k + 1) == Some(sections[k].filename@)
        },
        previous_of(sections, k) matches Some(name) ==> {
            &&& position_of(sections, name) == Some(k - 1)
            &&& next_of(sections, k - 1) == Some(sections[k].filename@)
        },
{
    lemma_position_is(sections, sections[k].filename@, k);
    if k + 1 < sections.len() {
        lemma_position_is(sections, sections[k + 1].filename@, k + 1);
    }
    if k > 0 {
        lemma_position_is(sections, sections[k - 1].filename@, k - 1);
    }
}

/// Every file named `section_` and something and `.html` is shown as a section, with the
/// index in its own directory; no other file is.
pub proof fn law_section_files_are_shown(dir: Seq<char>, number: Seq<char>, path: Seq<char>)
    requires
        dir.len() > 0,
        dir.last() != '/',
        dir.len() > 1 && dir.last() == '.' ==> dir[dir.len() - 2] != '/',
        !number.contains('/'),
    ensures
        section_beside(dir + seq!['/'] + ("section_"@ + number + ".html"@)) == Some(
            ("section_"@ + number + ".html"@, dir + seq!['/'] + "index.json"@),
        ),
        section_beside(path) matches Some((name, index)) ==> {
            &&& name_part(path) == Some(name)
            &&& begins_with(name, "section_"@)
            &&& ends_in(name, ".html"@)
            &&& parent_path(path) matches Some(above) && index == joined(above, "index.json"@)
        },
        section_beside(path) is None ==> name_part(path) is None || parent_path(path) is None
            || !begins_with(name_part(path)->0, "section_"@) || !ends_in(
            name_part(path)->0,
            ".html"@,
        ),
{
    reveal_strlit("section_");
    reveal_strlit(".html");
    reveal_strlit("index.json");
    let name = "section_"@ + number + ".html"@;
    assert(crate::path::laws::is_name(name)) by {
        assert(name.len() > 8);
        if name.contains('/') {
            let i = choose|i: int| 0 <= i < name.len() && name[i] == '/';
            if i < 8 {
                assert("section_"@[i] == '/');
            } else if i < 8 + number.len() {
                assert(number[i - 8] == '/');
            } else {
                assert(".html"@[i - 8 - number.len()] == '/');
            }
        }
    }
    assert(name != seq!['.', '.']) by {
        assert(name.len() > 8);
    }
    crate::path::laws::law_file_in_a_directory(dir, name);
    assert(name.subrange(0, "section_"@.len() as int) == "section_"@);
    assert(name.subrange(name.len() - ".html"@.len(), name.len() as int) == ".html"@);
    assert(joined(dir, "index.json"@) == dir + seq!['/'] + "index.json"@);
}

/// A section stands in its index where the first entry with its file name is, and
/// nowhere just when no entry has that name.
pub proof fn law_position_of_a_section(sections: Seq<SectionEntry>, name: Seq<char>, k: int)
    ensures
        position_of(sections, name) == Some(k) <==> 0 <= k < sections.len()
            && sections[k].filename@ == name && forall|j: int|
            0 <= j < k ==> (#[trigger] sections[j]).filename@ != name,
        position_of(sections, name) is None <==> forall|j: int|
            0 <= j < sections.len() ==> (#[trigger] sections[j]).filename@ != name,
{
    lemma_position(sections, name);
    if 0 <= k < sections.len() && sections[k].filename@ == name && forall|j: int|
        0 <= j < k ==> (#[trigger] sections[j]).filename@ != name {
        lemma_position_is(sections, name, k);
    }
    if forall|j: int| 0 <= j < sections.len() ==> (#[trigger] sections[j]).filename@ != name {
        lemma_no_position(sections, name);
    }
}

proof fn lemma_position(sections: Seq<SectionEntry>, name: Seq<char>)
    ensures
        match position_of(sections, name) {
            Some(k) => 0 <= k < sections.len() && sections[k].filename@ == name && forall|j: int|
                0 <= j < k ==> (#[trigger] sections[j]).filename@ != name,
            None => forall|j: int|
                0 <= j < sections.len() ==> (#[trigger] sections[j]).filename@ != name,
        },
    decreases sections.len(),
{
    if sections.len() > 0 && sections[0].filename@ != name {
        let rest = sections.drop_first();
        lemma_position(rest, name);
        match position_of(rest, name) {
            Some(k) => {
                assert(rest[k] == sections[k + 1]);
                assert forall|j: int| 0 <= j < k + 1 implies (#[trigger] sections[j]).filename@
                    != name by {
                    if j > 0 {
                        assert(rest[j - 1] == sections[j]);
                    }
                }
            },
            None => {
                assert forall|j: int| 0 <= j < sections.len() implies (
                #[trigger] sections[j]).filename@ != name by {
                    if j > 0 {
                        assert(rest[j - 1] == sections[j]);
                    }
                }
            },
        }
    }
}

/// The neighbours of a section: every section but the first has the one before it, and
/// every section but the last the one behind it.
pub proof fn law_neighbours_of_a_section(sections: Seq<SectionEntry>, k: int)
    requires
        0 <= k < sections.len(),
    ensures
        previous_of(sections, k) == if k == 0 {
            None
        } else {
            Some(sections[k - 1].filename@)
        },
        next_of(sections, k) == if k == sections.len() - 1 {
            None
        } else {
            Some(sections[k + 1].filename@)
        },
{
}

/// The text of an optional string.
pub proof fn law_text_of_a_string(s: Option<String>)
    ensures
        s matches Some(text) ==> text_of(s) == Some(text@),
        s is None ==> text_of(s) is None,
{
}

} // verus!
