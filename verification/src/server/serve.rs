//! Finding the answer to a request for a path.

use vstd::prelude::*;
use vstd::string::StringExecFns;

use crate::edition::{index_file, Edition, HTML_DIR};
use crate::path::{
    climbs, component_seq, has_parent_dir, is_absolute, join, joined, leads, pieces, up,
};
use crate::text::{same_text, to_chars, to_text};

verus! {

/// The paths that a request is answered from.
pub struct RequestPaths {
    pub full_path: String,
    pub index_path: String,
}

/// Where the requested path is in the directory of converted books.
pub open spec fn full_path_of(rel_path: Seq<char>) -> Seq<char> {
    joined(HTML_DIR@, rel_path)
}

/// The index that the requested path has if it is a book.
pub open spec fn index_path_of(rel_path: Seq<char>, edition: Edition) -> Seq<char> {
    joined(full_path_of(rel_path), index_file(edition))
}

/// The paths that the request for `rel_path` is answered from. A request with a
/// component `..` is refused.
pub fn request_paths(rel_path: &str, edition: Edition) -> (paths: Option<RequestPaths>)
    ensures
        match paths {
            Some(p) => {
                &&& !climbs(rel_path@)
                &&& p.full_path@ == full_path_of(rel_path@)
                &&& p.index_path@ == index_path_of(rel_path@, edition)
            },
            None => climbs(rel_path@),
        },
{
    let rel = to_chars(rel_path);
    if has_parent_dir(rel.as_slice()) {
        return None;
    }
    let full = join(to_chars(HTML_DIR).as_slice(), rel.as_slice());
    let index = join(full.as_slice(), to_chars(edition.index_name()).as_slice());
    Some(
        RequestPaths {
            full_path: to_text(full.as_slice()),
            index_path: to_text(index.as_slice()),
        },
    )
}

/// How a request is answered.
#[derive(Clone, Copy, PartialEq, Eq, Structural)]
pub enum Answer {
    Forbidden,
    BookIndex,
    Directory,
    File,
    NotFound,
}

/// What to try next for a request, or how to answer it.
#[derive(Clone, Copy, PartialEq, Eq, Structural)]
pub enum Step {
    ReadIndex,
    ReadDirectory,
    ReadFile,
    Done(Answer),
}

/// What to try first for the request for `rel_path`.
pub fn first_step(rel_path: &str) -> (step: Step)
    ensures
        step == if climbs(rel_path@) {
            Step::Done(Answer::Forbidden)
        } else {
            Step::ReadIndex
        },
{
    if has_parent_dir(to_chars(rel_path).as_slice()) {
        Step::Done(Answer::Forbidden)
    } else {
        Step::ReadIndex
    }
}

/// What follows the step `step`, which has succeeded or not.
pub open spec fn step_after(step: Step, succeeded: bool) -> Step {
    match step {
        Step::ReadIndex => if succeeded {
            Step::Done(Answer::BookIndex)
        } else {
            Step::ReadDirectory
        },
        Step::ReadDirectory => if succeeded {
            Step::Done(Answer::Directory)
        } else {
            Step::ReadFile
        },
        Step::ReadFile => if succeeded {
            Step::Done(Answer::File)
        } else {
            Step::Done(Answer::NotFound)
        },
        Step::Done(answer) => Step::Done(answer),
    }
}

/// What follows the step `step`: a book's index is tried first, then a
/// directory, then a file.
pub fn next_step(step: Step, succeeded: bool) -> (next: Step)
    ensures
        next == step_after(step, succeeded),
{
    match step {
        Step::ReadIndex => if succeeded {
            Step::Done(Answer::BookIndex)
        } else {
            Step::ReadDirectory
        },
        Step::ReadDirectory => if succeeded {
            Step::Done(Answer::Directory)
        } else {
            Step::ReadFile
        },
        Step::ReadFile => if succeeded {
            Step::Done(Answer::File)
        } else {
            Step::Done(Answer::NotFound)
        },
        Step::Done(answer) => Step::Done(answer),
    }
}

/// How a file is served.
#[derive(Clone, Copy, PartialEq, Eq, Structural)]
pub enum FileAnswer {
    /// Wrapped as a section of its book.
    Section,
    /// As it is.
    Bytes,
}

/// Whether a request with the parameters `names` asks for the file itself: the
/// parameter `raw` does, whatever its value.
pub fn asks_for_raw(names: &Vec<String>) -> (raw: bool)
    ensures
        raw == exists|i: int| 0 <= i < names@.len() && (#[trigger] names@[i])@ == "raw"@,
{
    for i in 0..names.len()
        invariant
            forall|j: int| 0 <= j < i ==> (#[trigger] names@[j])@ != "raw"@,
    {
        if same_text(names[i].as_str(), "raw") {
            return true;
        }
    }
    false
}

/// How a file is served: as a section, where it could be rendered as one and the
/// file itself was not asked for.
pub fn file_answer(raw: bool, rendered: bool) -> (answer: FileAnswer)
    ensures
        answer == if !raw && rendered {
            FileAnswer::Section
        } else {
            FileAnswer::Bytes
        },
{
    if !raw && rendered {
        FileAnswer::Section
    } else {
        FileAnswer::Bytes
    }
}

/// The page to keep as the one read last: a section that is shown is kept, and
/// nothing else.
pub fn page_to_keep(answer: FileAnswer, rel_path: &str) -> (kept: Option<String>)
    ensures
        match (answer, kept) {
            (FileAnswer::Section, Some(path)) => path@ == rel_path@,
            (FileAnswer::Bytes, None) => true,
            _ => false,
        },
{
    match answer {
        FileAnswer::Section => Some(String::from_str(rel_path)),
        FileAnswer::Bytes => None,
    }
}

/// The first of index, directory and file that is there answers the request; a
/// request is answered as not found just when none of them is.
pub proof fn law_first_found_answers(index: bool, directory: bool, file: bool)
    ensures
        step_after(
            step_after(step_after(Step::ReadIndex, index), directory),
            file,
        ) == Step::Done(
            if index {
                Answer::BookIndex
            } else if directory {
                Answer::Directory
            } else if file {
                Answer::File
            } else {
                Answer::NotFound
            },
        ),
{
}

/// A relative path that is not refused is answered from inside the directory of
/// converted books: its components come behind those of that directory, and none
/// of them is `..`.
pub proof fn law_answers_stay_inside(rel_path: Seq<char>, edition: Edition)
    requires
        !climbs(rel_path),
        !is_absolute(rel_path),
    ensures
        component_seq(full_path_of(rel_path)) == component_seq(HTML_DIR@) + pieces(rel_path),
        leads(HTML_DIR@, full_path_of(rel_path)),
        !climbs(full_path_of(rel_path)),
        leads(HTML_DIR@, index_path_of(rel_path, edition)),
        !climbs(index_path_of(rel_path, edition)),
{
    let full = full_path_of(rel_path);
    let index = index_path_of(rel_path, edition);
    let base = component_seq(HTML_DIR@);
    crate::extractor::scan::lemma_root_dirs();
    reveal_strlit("html");
    reveal_strlit("index.html");
    reveal_strlit("index.json");
    crate::path::laws::law_join_components(HTML_DIR@, rel_path);
    let name = index_file(edition);
    assert(!name.contains('/'));
    crate::path::laws::lemma_name_alone(name);
    crate::path::laws::law_join_components(full, name);
    assert(component_seq(full).subrange(0, base.len() as int) == base);
    assert(component_seq(index).subrange(0, base.len() as int) == base);
    assert(crate::path::here().len() != up().len());
    assert("html"@.len() != up().len());
    assert(name.len() != up().len());
    assert(!component_seq(full).contains(up())) by {
        if component_seq(full).contains(up()) {
            let i = choose|i: int| 0 <= i < component_seq(full).len() && component_seq(full)[i] == up();
            if i >= base.len() {
                let k = i - base.len();
                assert(pieces(rel_path)[k] == up());
                let at = crate::path::lead(rel_path).len() + k;
                assert(component_seq(rel_path)[at as int] == up());
            } else {
                assert(base[i] == up());
            }
        }
    }
    assert(!component_seq(index).contains(up())) by {
        if component_seq(index).contains(up()) {
            let i = choose|i: int|
                0 <= i < component_seq(index).len() && component_seq(index)[i] == up();
            if i < component_seq(full).len() {
                assert(component_seq(full)[i] == up());
            } else {
                assert(component_seq(index)[i] == name);
            }
        }
    }
}

/// A request for an absolute path is answered from that very path, wherever the
/// directory of converted books is.
pub proof fn law_absolute_request_stands_for_itself(rel_path: Seq<char>, edition: Edition)
    requires
        is_absolute(rel_path),
    ensures
        full_path_of(rel_path) == rel_path,
        index_path_of(rel_path, edition) == joined(rel_path, index_file(edition)),
        !leads(HTML_DIR@, full_path_of(rel_path)),
        !leads(HTML_DIR@, index_path_of(rel_path, edition)),
{
    crate::extractor::scan::lemma_root_dirs();
    reveal_strlit("index.html");
    reveal_strlit("index.json");
    let index = index_path_of(rel_path, edition);
    let base = component_seq(HTML_DIR@);
    assert(index[0] == '/');
    assert(component_seq(rel_path)[0] == crate::path::root());
    assert(component_seq(index)[0] == crate::path::root());
    assert(base[0] == crate::path::here());
    assert(crate::path::here()[0] != crate::path::root()[0]);
}

/// The paths of a request, as texts: a relative path is put below the directory of
/// converted books, and the index of a book into the book's directory.
pub proof fn law_paths_of_a_request(rel_path: Seq<char>, edition: Edition)
    requires
        rel_path.len() == 0 || rel_path[0] != '/',
    ensures
        full_path_of(rel_path) == seq!['.', '/', 'h', 't', 'm', 'l', '/'] + rel_path,
        index_path_of(rel_path, edition) == full_path_of(rel_path) + (if rel_path.len() == 0
            || rel_path.last() == '/' {
            seq![]
        } else {
            seq!['/']
        }) + match edition {
            Edition::Plain => "index.html"@,
            Edition::Reader => "index.json"@,
        },
{
    reveal_strlit("./html");
    reveal_strlit("index.html");
    reveal_strlit("index.json");
    let full = full_path_of(rel_path);
    assert(full == seq!['.', '/', 'h', 't', 'm', 'l', '/'] + rel_path);
    if rel_path.len() > 0 {
        assert(full.last() == rel_path.last());
    } else {
        assert(full.last() == '/');
    }
    let slash = if rel_path.len() == 0 || rel_path.last() == '/' {
        Seq::<char>::empty()
    } else {
        seq!['/']
    };
    assert(index_path_of(rel_path, edition) == full + slash + index_file(edition));
}

} // verus!
