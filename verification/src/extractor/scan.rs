//! Deciding, from what is found in the two directories, which books to convert
//! and which converted books to remove.

use vstd::prelude::*;
use vstd::string::StringExecFns;

use crate::edition::{EPUBS_DIR, HTML_DIR};
use crate::path::{
    bare, component_seq, extension, extension_part, file_name, file_stem, is_absolute, join, joined,
    leads, name_part, names_same_path, parent, parent_path, pieces, prefix_stripped, same_path,
    starts_with_path, stem_part, strip_prefix, without_extension,
};
use crate::text::{same_chars, to_chars, to_text};

pub mod laws;

verus! {

/// A book, told by its path below the books' directory, without the extension.
pub struct DirHelper {
    pub path: String,
}

/// The file of the book `path`.
pub open spec fn epub_file(path: Seq<char>) -> Seq<char> {
    joined(EPUBS_DIR@, path + ".epub"@)
}

/// The directory of the converted book `path`.
pub open spec fn book_dir(path: Seq<char>) -> Seq<char> {
    joined(HTML_DIR@, path)
}

impl DirHelper {
    /// The book `path`.
    pub fn new(path: String) -> (book: Self)
        ensures
            book.path@ == path@,
    {
        DirHelper { path }
    }

    /// The file of the book.
    pub fn epub_file_path(&self) -> (file: String)
        ensures
            file@ == epub_file(self.path@),
    {
        let mut file = self.path.clone();
        file.append(".epub");
        let whole = join(to_chars(EPUBS_DIR).as_slice(), to_chars(file.as_str()).as_slice());
        to_text(whole.as_slice())
    }

    /// The directory of the converted book.
    pub fn html_dir(&self) -> (dir: String)
        ensures
            dir@ == book_dir(self.path@),
    {
        let whole = join(to_chars(HTML_DIR).as_slice(), to_chars(self.path.as_str()).as_slice());
        to_text(whole.as_slice())
    }
}

/// The paths of a list of books.
pub open spec fn book_paths(books: Seq<DirHelper>) -> Seq<Seq<char>> {
    Seq::new(books.len(), |i: int| books[i].path@)
}

/// A path was found that is not below the directory it was found in.
pub struct OutsideRoot {
    pub path: String,
}

/// The book that an entry of the books' directory is, if it is one: `None` where
/// the entry is not below that directory.
pub open spec fn epub_book(entry: Seq<char>) -> Option<Option<Seq<char>>> {
    match prefix_stripped(entry, EPUBS_DIR@) {
        Some(rest) => if leads("api"@, rest) {
            Some(None)
        } else if extension_part(rest) == Some("epub"@) {
            Some(Some(bare(rest)))
        } else {
            Some(None)
        },
        None => None,
    }
}

/// The book that an entry of the books' directory is: a file or directory with
/// the extension `epub` that is not below `api`, which is kept for requests.
pub fn book_of_epub_entry(entry: &str) -> (book: Result<Option<DirHelper>, OutsideRoot>)
    ensures
        match book {
            Ok(Some(b)) => epub_book(entry@) == Some(Some(b.path@)),
            Ok(None) => epub_book(entry@) == Some(None::<Seq<char>>),
            Err(e) => epub_book(entry@) is None && e.path@ == entry@,
        },
{
    let chars = to_chars(entry);
    match strip_prefix(chars.as_slice(), to_chars(EPUBS_DIR).as_slice()) {
        Some(rest) => {
            if starts_with_path(rest.as_slice(), to_chars("api").as_slice()) {
                return Ok(None);
            }
            match extension(rest.as_slice()) {
                Some(ext) => if same_chars(ext.as_slice(), to_chars("epub").as_slice()) {
                    let path = without_extension(rest.as_slice());
                    Ok(Some(DirHelper::new(to_text(path.as_slice()))))
                } else {
                    Ok(None)
                },
                None => Ok(None),
            }
        },
        None => Err(OutsideRoot { path: String::from_str(entry) }),
    }
}

/// An entry of the directory of converted books.
pub struct HtmlEntry {
    pub path: String,
    pub is_file: bool,
}

/// The converted book that an entry belongs to, if the entry marks one: `None`
/// where a marking entry is not below the directory of converted books.
pub open spec fn html_book(entry: Seq<char>, is_file: bool) -> Option<Option<Seq<char>>> {
    if is_file && name_part(entry) == Some(".hash"@) {
        match prefix_stripped(entry, HTML_DIR@) {
            Some(rest) => Some(parent_path(rest)),
            None => None,
        }
    } else {
        Some(None)
    }
}

/// The converted book that an entry marks: the directory of a file `.hash`.
pub fn book_of_html_entry(entry: &HtmlEntry) -> (book: Result<Option<DirHelper>, OutsideRoot>)
    ensures
        match book {
            Ok(Some(b)) => html_book(entry.path@, entry.is_file) == Some(Some(b.path@)),
            Ok(None) => html_book(entry.path@, entry.is_file) == Some(None::<Seq<char>>),
            Err(e) => html_book(entry.path@, entry.is_file) is None && e.path@ == entry.path@,
        },
{
    if !entry.is_file {
        return Ok(None);
    }
    let chars = to_chars(entry.path.as_str());
    match file_name(chars.as_slice()) {
        Some(name) => if !same_chars(name.as_slice(), to_chars(".hash").as_slice()) {
            return Ok(None);
        },
        None => {
            return Ok(None);
        },
    }
    match strip_prefix(chars.as_slice(), to_chars(HTML_DIR).as_slice()) {
        Some(rest) => match parent(rest.as_slice()) {
            Some(dir) => Ok(Some(DirHelper::new(to_text(dir.as_slice())))),
            None => Ok(None),
        },
        None => Err(OutsideRoot { path: entry.path.clone() }),
    }
}

/// The book `path` is among `books`.
pub open spec fn listed(books: Seq<Seq<char>>, path: Seq<char>) -> bool {
    exists|i: int| 0 <= i < books.len() && same_path(#[trigger] books[i], path)
}

/// `books` with the book `path` among them.
pub open spec fn with_book(books: Seq<Seq<char>>, path: Seq<char>) -> Seq<Seq<char>> {
    if listed(books, path) {
        books
    } else {
        books.push(path)
    }
}

/// The books among the entries of the books' directory, each once.
pub open spec fn epub_books(entries: Seq<String>) -> Seq<Seq<char>>
    decreases entries.len(),
{
    if entries.len() == 0 {
        seq![]
    } else {
        let before = epub_books(entries.drop_last());
        match epub_book(entries.last()@) {
            Some(Some(path)) => with_book(before, path),
            _ => before,
        }
    }
}

/// The converted books that the entries mark, each once.
pub open spec fn html_books(entries: Seq<HtmlEntry>) -> Seq<Seq<char>>
    decreases entries.len(),
{
    if entries.len() == 0 {
        seq![]
    } else {
        let before = html_books(entries.drop_last());
        match html_book(entries.last().path@, entries.last().is_file) {
            Some(Some(path)) => with_book(before, path),
            _ => before,
        }
    }
}

/// Those of the converted books that are not among the books any more.
pub open spec fn stale(converted: Seq<Seq<char>>, books: Seq<Seq<char>>) -> Seq<Seq<char>>
    decreases converted.len(),
{
    if converted.len() == 0 {
        seq![]
    } else {
        let before = stale(converted.drop_last(), books);
        if listed(books, converted.last()) {
            before
        } else {
            before.push(converted.last())
        }
    }
}

/// What to do about the books: convert some, where they have changed, and remove
/// others.
pub struct Plan {
    pub convert: Vec<DirHelper>,
    pub remove: Vec<DirHelper>,
}

/// Whether a book is among `books`.
fn is_listed(books: &Vec<DirHelper>, path: &str) -> (b: bool)
    ensures
        b == listed(book_paths(books@), path@),
{
    let chars = to_chars(path);
    for i in 0..books.len()
        invariant
            chars@ == path@,
            forall|j: int|
                0 <= j < i ==> !same_path(#[trigger] book_paths(books@)[j], path@),
    {
        assert(book_paths(books@)[i as int] == books@[i as int].path@);
        if names_same_path(to_chars(books[i].path.as_str()).as_slice(), chars.as_slice()) {
            return true;
        }
    }
    false
}

/// Puts a book among `books`.
fn add_book(books: &mut Vec<DirHelper>, book: DirHelper)
    ensures
        book_paths(final(books)@) == with_book(book_paths(old(books)@), book.path@),
{
    let ghost before = book_paths(books@);
    let ghost path = book.path@;
    if !is_listed(books, book.path.as_str()) {
        books.push(book);
        assert(book_paths(books@) == before.push(path));
    }
}

/// Every entry is below the books' directory.
pub open spec fn all_epubs_inside(entries: Seq<String>) -> bool {
    forall|i: int| 0 <= i < entries.len() ==> epub_book((#[trigger] entries[i])@) is Some
}

/// Every entry that marks a book is below the directory of converted books.
pub open spec fn all_marks_inside(entries: Seq<HtmlEntry>) -> bool {
    forall|i: int|
        0 <= i < entries.len() ==> html_book(
            (#[trigger] entries[i]).path@,
            entries[i].is_file,
        ) is Some
}

/// The entry `i` is the first that is not below the books' directory.
pub open spec fn first_stray_epub(entries: Seq<String>, i: int) -> bool {
    &&& 0 <= i < entries.len()
    &&& epub_book(entries[i]@) is None
    &&& all_epubs_inside(entries.take(i))
}

/// The entry `i` is the first that marks a book elsewhere than below the directory
/// of converted books.
pub open spec fn first_stray_html(entries: Seq<HtmlEntry>, i: int) -> bool {
    &&& 0 <= i < entries.len()
    &&& html_book(entries[i].path@, entries[i].is_file) is None
    &&& all_marks_inside(entries.take(i))
}

/// Decides what to do about the books, from the entries found in the books'
/// directory and in the directory of converted books: every book there is is to
/// be converted, and every converted book whose file is gone is to be removed.
pub fn plan_extraction(epub_entries: &Vec<String>, html_entries: &Vec<HtmlEntry>) -> (plan: Result<
    Plan,
    OutsideRoot,
>)
    ensures
        plan is Ok <==> all_epubs_inside(epub_entries@) && all_marks_inside(html_entries@),
        plan matches Ok(p) ==> {
            &&& book_paths(p.convert@) == epub_books(epub_entries@)
            &&& book_paths(p.remove@) == stale(html_books(html_entries@), epub_books(epub_entries@))
        },
        plan matches Err(e) ==> {
            ||| exists|i: int| #[trigger]
                first_stray_epub(epub_entries@, i) && e.path@ == epub_entries@[i]@
            ||| all_epubs_inside(epub_entries@) && exists|i: int| #[trigger]
                first_stray_html(html_entries@, i) && e.path@ == html_entries@[i].path@
        },
{
    let mut convert: Vec<DirHelper> = Vec::new();
    assert(book_paths(convert@) == epub_books(epub_entries@.take(0)));
    for i in 0..epub_entries.len()
        invariant
            all_epubs_inside(epub_entries@.take(i as int)),
            book_paths(convert@) == epub_books(epub_entries@.take(i as int)),
    {
        proof {
            assert(epub_entries@.take(i + 1).drop_last() == epub_entries@.take(i as int));
            assert(epub_entries@.take(i + 1).last() == epub_entries@[i as int]);
        }
        match book_of_epub_entry(epub_entries[i].as_str()) {
            Ok(Some(book)) => {
                add_book(&mut convert, book);
            },
            Ok(None) => {},
            Err(e) => {
                assert(first_stray_epub(epub_entries@, i as int));
                return Err(e);
            },
        }
    }
    assert(epub_entries@.take(epub_entries@.len() as int) == epub_entries@);
    let mut converted: Vec<DirHelper> = Vec::new();
    assert(book_paths(converted@) == html_books(html_entries@.take(0)));
    for i in 0..html_entries.len()
        invariant
            all_epubs_inside(epub_entries@),
            all_marks_inside(html_entries@.take(i as int)),
            book_paths(converted@) == html_books(html_entries@.take(i as int)),
    {
        proof {
            assert(html_entries@.take(i + 1).drop_last() == html_entries@.take(i as int));
            assert(html_entries@.take(i + 1).last() == html_entries@[i as int]);
        }
        match book_of_html_entry(&html_entries[i]) {
            Ok(Some(book)) => {
                add_book(&mut converted, book);
            },
            Ok(None) => {},
            Err(e) => {
                assert(first_stray_html(html_entries@, i as int));
                return Err(e);
            },
        }
    }
    assert(html_entries@.take(html_entries@.len() as int) == html_entries@);
    let ghost books = book_paths(convert@);
    let ghost all = book_paths(converted@);
    let mut remove: Vec<DirHelper> = Vec::new();
    assert(book_paths(remove@) == stale(all.take(0), books));
    for i in 0..converted.len()
        invariant
            books == book_paths(convert@),
            all == book_paths(converted@),
            book_paths(remove@) == stale(all.take(i as int), books),
    {
        let ghost before = book_paths(remove@);
        proof {
            assert(all.take(i + 1).drop_last() == all.take(i as int));
            assert(all.take(i + 1).last() == converted@[i as int].path@);
        }
        if !is_listed(&convert, converted[i].path.as_str()) {
            remove.push(DirHelper::new(converted[i].path.clone()));
            assert(book_paths(remove@) == before.push(converted@[i as int].path@));
        }
    }
    assert(all.take(all.len() as int) == all);
    Ok(Plan { convert, remove })
}

/// What to do with an entry met on a walk through the books' directory.
pub enum WalkStep {
    Descend,
    Convert { out_dir: String },
    Skip,
}

/// The directory that the book at `path` is converted to, where the walk goes
/// from `epubs_root`: `None` where `path` is not below that directory.
pub open spec fn output_dir(path: Seq<char>, epubs_root: Seq<char>, html_root: Seq<char>) -> Option<
    Seq<char>,
> {
    match (prefix_stripped(path, epubs_root), stem_part(path)) {
        (Some(relative), Some(stem)) => {
            let dir = match parent_path(relative) {
                Some(dir) => dir,
                None => seq![],
            };
            Some(joined(joined(html_root, dir), stem))
        },
        _ => None,
    }
}

/// What to do with an entry met on a walk through the books' directory: go into
/// a directory, convert a book into the directory that answers to its own, and
/// pass by everything else.
pub fn walk_step(path: &str, is_dir: bool, epubs_root: &str, html_root: &str) -> (step: Result<
    WalkStep,
    OutsideRoot,
>)
    ensures
        is_dir ==> step matches Ok(WalkStep::Descend),
        !is_dir && extension_part(path@) != Some("epub"@) ==> step matches Ok(WalkStep::Skip),
        !is_dir && extension_part(path@) == Some("epub"@) ==> match step {
            Ok(WalkStep::Convert { out_dir }) => output_dir(path@, epubs_root@, html_root@) == Some(
                out_dir@,
            ),
            Ok(_) => false,
            Err(e) => prefix_stripped(path@, epubs_root@) is None && e.path@ == path@,
        },
{
    if is_dir {
        return Ok(WalkStep::Descend);
    }
    let chars = to_chars(path);
    match extension(chars.as_slice()) {
        Some(ext) => if !same_chars(ext.as_slice(), to_chars("epub").as_slice()) {
            return Ok(WalkStep::Skip);
        },
        None => {
            return Ok(WalkStep::Skip);
        },
    }
    match (
        strip_prefix(chars.as_slice(), to_chars(epubs_root).as_slice()),
        file_stem(chars.as_slice()),
    ) {
        (Some(relative), Some(stem)) => {
            let dir: Vec<char> = match parent(relative.as_slice()) {
                Some(dir) => dir,
                None => Vec::new(),
            };
            assert(dir@ == match parent_path(relative@) {
                Some(dir) => dir,
                None => seq![],
            });
            let out = join(to_chars(html_root).as_slice(), dir.as_slice());
            let out = join(out.as_slice(), stem.as_slice());
            Ok(WalkStep::Convert { out_dir: to_text(out.as_slice()) })
        },
        _ => Err(OutsideRoot { path: String::from_str(path) }),
    }
}

/// The components of the two directories.
pub proof fn lemma_root_dirs()
    ensures
        component_seq(EPUBS_DIR@) == seq![crate::path::here(), "epubs"@],
        component_seq(HTML_DIR@) == seq![crate::path::here(), "html"@],
        EPUBS_DIR@.len() > 0,
        HTML_DIR@.len() > 0,
{
    let here = crate::path::here();
    reveal_strlit("./epubs");
    reveal_strlit("./html");
    reveal_strlit("epubs");
    reveal_strlit("html");
    assert(EPUBS_DIR@ == joined(here, "epubs"@));
    assert(HTML_DIR@ == joined(here, "html"@));
    crate::path::laws::law_join_components(here, "epubs"@);
    crate::path::laws::law_join_components(here, "html"@);
    crate::path::laws::lemma_name_alone("epubs"@);
    crate::path::laws::lemma_name_alone("html"@);
    crate::path::laws::lemma_here_path();
    assert(seq![here] + seq!["epubs"@] == seq![here, "epubs"@]);
    assert(seq![here] + seq!["html"@] == seq![here, "html"@]);
}

/// The file of a book that was found is the file that it was found as. A file
/// whose stem is a single dot is not found again.
pub proof fn law_book_file_is_the_entry(entry: Seq<char>, path: Seq<char>)
    requires
        epub_book(entry) == Some(Some(path)),
        stem_part(entry) != Some(crate::path::here()),
    ensures
        same_path(epub_file(path), entry),
{
    lemma_root_dirs();
    reveal_strlit("epub");
    reveal_strlit(".epub");
    let rest = prefix_stripped(entry, EPUBS_DIR@)->0;
    crate::path::laws::law_strip_prefix_components(entry, EPUBS_DIR@);
    crate::path::laws::law_stripped_is_relative(entry, EPUBS_DIR@);
    let t = crate::path::trim_tail(rest);
    let name = name_part(rest)->0;
    let cut = crate::text::after_last(t, '/');
    crate::text::lemma_after_last(t, '/');
    crate::text::lemma_after_last(name, '.');
    crate::path::laws::lemma_trim_tail(rest);
    crate::path::laws::law_parent_components(rest);
    assert(component_seq(entry).last() == name);
    assert(name != crate::path::root()) by {
        if name == crate::path::root() {
            assert(name.contains(name[0]));
        }
    }
    crate::path::laws::lemma_last_component_is_name(entry);
    let dot = crate::text::after_last(name, '.');
    assert(name == name.take(dot - 1) + ".epub"@) by {
        let ext = name.skip(dot);
        assert(ext == "epub"@);
        assert(name.len() == dot + ext.len());
        assert(name[dot - 1] == '.');
        assert forall|i: int| 0 <= i < name.len() implies name[i] == #[trigger] (name.take(dot - 1)
            + ".epub"@)[i] by {
            if i >= dot {
                assert(name[i] == ext[i - dot]);
                assert(".epub"@[i - dot + 1] == "epub"@[i - dot]);
            }
        }
    }
    assert(path + ".epub"@ == t.take(cut) + name);
    assert(t.take(cut) + name == t);
    crate::path::laws::law_join_components(EPUBS_DIR@, t);
    crate::path::laws::law_trimmed_pieces(rest);
}

/// A file `.hash` below the directory of converted books always marks a book.
pub proof fn law_hash_file_marks_a_book(entry: Seq<char>)
    requires
        name_part(entry) == Some(".hash"@),
        prefix_stripped(entry, HTML_DIR@) is Some,
    ensures
        html_book(entry, true) matches Some(Some(_)),
{
    lemma_root_dirs();
    reveal_strlit(".hash");
    reveal_strlit("html");
    let rest = prefix_stripped(entry, HTML_DIR@)->0;
    crate::path::laws::law_strip_prefix_components(entry, HTML_DIR@);
    crate::path::laws::law_parent_components(entry);
    crate::path::laws::law_parent_components(rest);
    let all = component_seq(entry);
    let tail = component_seq(rest);
    assert(all.last() == ".hash"@);
    if tail.len() == 0 {
        assert(all.last() == "html"@);
        assert("html"@.len() != ".hash"@.len());
    } else {
        assert(all.last() == tail.last());
        if tail == seq![crate::path::root()] {
            assert(crate::path::root().len() != ".hash"@.len());
        }
    }
}

/// The fingerprint kept in the directory of a converted book marks that book.
pub proof fn law_kept_fingerprint_marks_its_book(path: Seq<char>)
    requires
        !is_absolute(path),
        component_seq(path) == pieces(path),
    ensures
        html_book(joined(book_dir(path), ".hash"@), true) matches Some(Some(marked)) && same_path(
            marked,
            path,
        ),
{
    lemma_root_dirs();
    reveal_strlit(".hash");
    let dir = book_dir(path);
    let file = joined(dir, ".hash"@);
    let base = component_seq(HTML_DIR@);
    crate::path::laws::law_join_components(HTML_DIR@, path);
    crate::path::laws::lemma_name_alone(".hash"@);
    assert(dir.len() > 0);
    crate::path::laws::law_join_components(dir, ".hash"@);
    assert(component_seq(file) == base + pieces(path) + seq![".hash"@]);
    assert(component_seq(file).last() == ".hash"@);
    assert(".hash"@ != crate::path::up() && ".hash"@ != crate::path::root()) by {
        assert(".hash"@.len() == 5);
    }
    crate::path::laws::lemma_last_component_is_name(file);
    assert(component_seq(file).subrange(0, base.len() as int) == base);
    assert(leads(HTML_DIR@, file));
    crate::path::laws::law_strip_prefix_components(file, HTML_DIR@);
    let rest = prefix_stripped(file, HTML_DIR@)->0;
    assert(component_seq(rest) == pieces(path) + seq![".hash"@]) by {
        assert(component_seq(file).skip(base.len() as int) == component_seq(rest));
        assert(component_seq(file).skip(base.len() as int) == pieces(path) + seq![".hash"@]);
    }
    crate::path::laws::law_parent_components(rest);
    law_hash_file_marks_a_book(file);
    assert((pieces(path) + seq![".hash"@]).drop_last() == pieces(path));
}

/// A converted book is removed just when its book is gone.
pub proof fn law_removed_when_gone(converted: Seq<Seq<char>>, books: Seq<Seq<char>>, path: Seq<char>)
    ensures
        stale(converted, books).contains(path) <==> converted.contains(path) && !listed(
            books,
            path,
        ),
    decreases converted.len(),
{
    if converted.len() > 0 {
        let front = converted.drop_last();
        let last = converted.last();
        law_removed_when_gone(front, books, path);
        let before = stale(front, books);
        assert(converted == front.push(last));
        assert(converted.contains(path) <==> front.contains(path) || path == last) by {
            if front.contains(path) {
                let i = choose|i: int| 0 <= i < front.len() && front[i] == path;
                assert(converted[i] == path);
            }
            if path == last {
                assert(converted[converted.len() - 1] == path);
            }
            if converted.contains(path) {
                let i = choose|i: int| 0 <= i < converted.len() && converted[i] == path;
                if i < front.len() {
                    assert(front[i] == path);
                }
            }
        }
        assert(before.push(last).contains(path) <==> before.contains(path) || path == last) by {
            let s = before.push(last);
            if before.contains(path) {
                let i = choose|i: int| 0 <= i < before.len() && before[i] == path;
                assert(s[i] == path);
            }
            assert(s[before.len() as int] == last);
            if s.contains(path) {
                let i = choose|i: int| 0 <= i < s.len() && s[i] == path;
                if i < before.len() {
                    assert(before[i] == path);
                }
            }
        }
    }
}

/// Every book that was found is to be converted.
pub proof fn law_every_book_is_converted(entries: Seq<String>, i: int, path: Seq<char>)
    requires
        0 <= i < entries.len(),
        epub_book(entries[i]@) == Some(Some(path)),
    ensures
        listed(epub_books(entries), path),
    decreases entries.len(),
{
    let front = entries.drop_last();
    let before = epub_books(front);
    let all = epub_books(entries);
    if i < front.len() {
        law_every_book_is_converted(front, i, path);
        let k = choose|k: int| 0 <= k < before.len() && same_path(#[trigger] before[k], path);
        assert(all[k] == before[k]);
    } else if !listed(before, path) {
        assert(all[before.len() as int] == path);
        assert(same_path(all[before.len() as int], path));
    }
}

/// A book that was found is told by a relative path with the components of the
/// file's path below the books' directory, the last without its extension. This
/// leaves out a file whose stem is a single dot.
pub proof fn law_book_path_components(entry: Seq<char>, path: Seq<char>)
    requires
        epub_book(entry) == Some(Some(path)),
        stem_part(entry) != Some(crate::path::here()),
    ensures
        !is_absolute(path),
        component_seq(path) == pieces(path),
        stem_part(entry) is Some,
        component_seq(path).len() > 0,
        component_seq(path).last() == stem_part(entry)->0,
        component_seq(EPUBS_DIR@) + component_seq(path).drop_last() == component_seq(
            entry,
        ).drop_last(),
{
    lemma_root_dirs();
    let rest = prefix_stripped(entry, EPUBS_DIR@)->0;
    crate::path::laws::law_strip_prefix_components(entry, EPUBS_DIR@);
    crate::path::laws::law_stripped_is_relative(entry, EPUBS_DIR@);
    crate::path::laws::law_parent_components(rest);
    let name = name_part(rest)->0;
    assert(component_seq(entry).last() == name);
    assert(name != crate::path::root()) by {
        if name == crate::path::root() {
            assert(name.contains(name[0]));
        }
    }
    crate::path::laws::lemma_last_component_is_name(entry);
    crate::path::laws::law_bare_components(rest);
    crate::path::laws::lemma_pieces_clean(rest);
    let stem = stem_part(rest)->0;
    let front = component_seq(rest).drop_last();
    assert(component_seq(path) == front.push(stem));
    assert forall|i: int| 0 <= i < component_seq(path).len() implies #[trigger] component_seq(
        path,
    )[i] != crate::path::here() by {
        if i < front.len() {
            assert(component_seq(path)[i] == pieces(rest)[i]);
            assert(crate::path::counts(pieces(rest)[i]));
        }
    }
    crate::path::laws::lemma_only_pieces(path);
    assert(component_seq(path).drop_last() == front);
    assert(component_seq(EPUBS_DIR@) + front == (component_seq(EPUBS_DIR@) + component_seq(
        rest,
    )).drop_last());
}

/// Both editions convert a book to the same directory.
pub proof fn law_editions_share_directories(entry: Seq<char>, path: Seq<char>)
    requires
        epub_book(entry) == Some(Some(path)),
        stem_part(entry) != Some(crate::path::here()),
        stem_part(entry) != Some(crate::path::up()),
    ensures
        output_dir(entry, EPUBS_DIR@, HTML_DIR@) matches Some(dir) && same_path(
            dir,
            book_dir(path),
        ),
{
    lemma_root_dirs();
    law_book_path_components(entry, path);
    let rest = prefix_stripped(entry, EPUBS_DIR@)->0;
    let stem = stem_part(entry)->0;
    crate::path::laws::law_strip_prefix_components(entry, EPUBS_DIR@);
    crate::path::laws::law_stripped_is_relative(entry, EPUBS_DIR@);
    crate::path::laws::law_parent_components(rest);
    crate::path::laws::law_parent_is_relative(rest);
    crate::path::laws::lemma_pieces_clean(rest);
    crate::path::laws::lemma_pieces_clean(path);
    let dir = parent_path(rest)->0;
    let front = component_seq(rest).drop_last();
    assert forall|i: int| 0 <= i < component_seq(dir).len() implies #[trigger] component_seq(
        dir,
    )[i] != crate::path::here() by {
        assert(component_seq(dir)[i] == pieces(rest)[i]);
        assert(crate::path::counts(pieces(rest)[i]));
    }
    crate::path::laws::lemma_only_pieces(dir);
    assert(stem == pieces(path)[pieces(path).len() - 1]);
    assert(!is_absolute(stem)) by {
        if is_absolute(stem) {
            assert(stem.contains(stem[0]));
        }
    }
    crate::path::laws::lemma_name_alone(stem);
    crate::path::laws::law_join_components(HTML_DIR@, dir);
    crate::path::laws::law_join_components(joined(HTML_DIR@, dir), stem);
    crate::path::laws::law_join_components(HTML_DIR@, path);
    let base = component_seq(HTML_DIR@);
    assert(component_seq(path).drop_last() == front) by {
        let epubs = component_seq(EPUBS_DIR@);
        assert((epubs + component_seq(rest)).drop_last() == epubs + front);
        assert((epubs + front).skip(epubs.len() as int) == front);
        assert((epubs + component_seq(path).drop_last()).skip(epubs.len() as int) == component_seq(
            path,
        ).drop_last());
    }
    assert(pieces(path) == front + seq![stem]);
    assert(base + front + seq![stem] == base + (front + seq![stem]));
}

/// A converted book stays as long as its file is found: the fingerprint kept in
/// its directory marks a book that is among the books. This leaves out a file
/// whose stem is a single dot.
pub proof fn law_converted_book_stays(entries: Seq<String>, i: int, path: Seq<char>)
    requires
        0 <= i < entries.len(),
        epub_book(entries[i]@) == Some(Some(path)),
        stem_part(entries[i]@) != Some(crate::path::here()),
    ensures
        html_book(joined(book_dir(path), ".hash"@), true) matches Some(Some(marked)) && listed(
            epub_books(entries),
            marked,
        ),
{
    law_book_path_components(entries[i]@, path);
    law_kept_fingerprint_marks_its_book(path);
    law_every_book_is_converted(entries, i, path);
    let books = epub_books(entries);
    let marked = html_book(joined(book_dir(path), ".hash"@), true)->0->0;
    let k = choose|k: int| 0 <= k < books.len() && same_path(#[trigger] books[k], path);
    assert(same_path(books[k], marked));
}

} // verus!
