//! The files that a converted book is written to.

use vstd::prelude::*;

use crate::edition::{index_file, Edition};
use crate::extractor::index_json::{self, index_tree};
use crate::extractor::index_page::{self, index_page, listing};
use crate::extractor::sections::{
    law_names_differ_in_a_book, name_section_file, section_file, section_name, section_views,
    sections_of, Book, Conversion, SectionView,
};
use crate::json::pretty_text;
use crate::path::{file_name, is_absolute, join, joined, name_part};
use crate::text::{to_chars, to_text};

verus! {

/// A file to write.
pub struct OutputFile {
    pub path: String,
    pub text: String,
}

/// What an [`OutputFile`] holds.
#[verifier::ext_equal]
pub struct FileView {
    pub path: Seq<char>,
    pub text: Seq<char>,
}

impl View for OutputFile {
    type V = FileView;

    open spec fn view(&self) -> FileView {
        FileView { path: self.path@, text: self.text@ }
    }
}

/// What a list of files holds.
pub open spec fn file_views(files: Seq<OutputFile>) -> Seq<FileView> {
    Seq::new(files.len(), |i: int| files[i]@)
}

/// The file `name` in the directory `dir`.
fn file_in(dir: &str, name: &str) -> (path: String)
    ensures
        path@ == joined(dir@, name@),
{
    to_text(join(to_chars(dir).as_slice(), to_chars(name).as_slice()).as_slice())
}

/// The file that a section is written to.
pub open spec fn page_file(out_dir: Seq<char>, section: SectionView) -> FileView {
    FileView { path: joined(out_dir, section_file(section.name)), text: section.page }
}

/// The files that the sections are written to, in order.
pub open spec fn pages_of(out_dir: Seq<char>, sections: Seq<SectionView>) -> Seq<FileView> {
    Seq::new(sections.len(), |i: int| page_file(out_dir, sections[i]))
}

/// The files that the sections of a book are written to.
pub fn page_files(converted: &Conversion, out_dir: &str) -> (files: Vec<OutputFile>)
    ensures
        file_views(files@) == pages_of(out_dir@, section_views(converted.sections@)),
{
    let mut files: Vec<OutputFile> = Vec::new();
    let ghost pages = pages_of(out_dir@, section_views(converted.sections@));
    for i in 0..converted.sections.len()
        invariant
            pages == pages_of(out_dir@, section_views(converted.sections@)),
            file_views(files@) == pages.take(i as int),
    {
        let ghost before = file_views(files@);
        let section = &converted.sections[i];
        let file = name_section_file(section.name.as_str());
        let page = OutputFile {
            path: file_in(out_dir, file.as_str()),
            text: section.page.clone(),
        };
        assert(page@ == pages[i as int]);
        files.push(page);
        assert(file_views(files@) == before.push(pages[i as int]));
        assert(pages.take(i + 1) == before.push(pages[i as int]));
    }
    assert(pages.take(pages.len() as int) == pages);
    files
}

/// The sections as an index lists them.
pub open spec fn contents(sections: Seq<SectionView>) -> Seq<(Seq<char>, Seq<char>)> {
    Seq::new(sections.len(), |i: int| (sections[i].title, section_file(sections[i].name)))
}

/// The titles and file names of the sections of a book.
fn list_contents(converted: &Conversion) -> (list: Vec<(String, String)>)
    ensures
        listing(list@) == contents(section_views(converted.sections@)),
{
    let mut list: Vec<(String, String)> = Vec::new();
    let ghost all = contents(section_views(converted.sections@));
    for i in 0..converted.sections.len()
        invariant
            all == contents(section_views(converted.sections@)),
            listing(list@) == all.take(i as int),
    {
        let ghost before = listing(list@);
        let section = &converted.sections[i];
        let file = name_section_file(section.name.as_str());
        list.push((section.title.clone(), file));
        assert(listing(list@).last() == all[i as int]);
        assert(listing(list@) == before.push(all[i as int]));
        assert(all.take(i + 1) == before.push(all[i as int]));
    }
    assert(all.take(all.len() as int) == all);
    list
}

/// The text of the index of the book `name`.
pub open spec fn index_text(
    name: Seq<char>,
    sections: Seq<(Seq<char>, Seq<char>)>,
    edition: Edition,
) -> Seq<char> {
    match edition {
        Edition::Plain => index_page(name, sections),
        Edition::Reader => pretty_text(index_tree(name, sections)),
    }
}

/// The index of a book, which is named like its directory.
pub fn index_of_book(converted: &Conversion, out_dir: &str, edition: Edition) -> (file: OutputFile)
    requires
        name_part(out_dir@) is Some,
    ensures
        file.path@ == joined(out_dir@, index_file(edition)),
        file.text@ == index_text(
            name_part(out_dir@)->0,
            contents(section_views(converted.sections@)),
            edition,
        ),
{
    let name: Vec<char> = match file_name(to_chars(out_dir).as_slice()) {
        Some(name) => name,
        None => Vec::new(),
    };
    let name = to_text(name.as_slice());
    let list = list_contents(converted);
    let text = match edition {
        Edition::Plain => index_page::generate_index(name.as_str(), list.as_slice()),
        Edition::Reader => index_json::generate_index(name.as_str(), list.as_slice()),
    };
    OutputFile { path: file_in(out_dir, edition.index_name()), text }
}

/// The file that the reading positions of a book are kept in.
pub fn info_file_path(out_dir: &str) -> (path: String)
    ensures
        path@ == joined(out_dir@, ".info.json"@),
{
    file_in(out_dir, ".info.json")
}

/// The file that the fingerprint of a book is kept in.
pub fn hash_file_path(out_dir: &str) -> (path: String)
    ensures
        path@ == joined(out_dir@, ".hash"@),
{
    file_in(out_dir, ".hash")
}

/// The index lists the files that are written, and no others.
pub proof fn law_index_lists_the_pages(out_dir: Seq<char>, sections: Seq<SectionView>)
    ensures
        contents(sections).len() == pages_of(out_dir, sections).len(),
        forall|k: int|
            0 <= k < sections.len() ==> joined(out_dir, (#[trigger] contents(sections)[k]).1)
                == pages_of(out_dir, sections)[k].path,
{
}

/// Two files in one directory are at different paths.
proof fn lemma_paths_differ(dir: Seq<char>, a: Seq<char>, b: Seq<char>)
    requires
        a != b,
        !is_absolute(a),
        !is_absolute(b),
    ensures
        joined(dir, a) != joined(dir, b),
{
    let pa = joined(dir, a);
    let pb = joined(dir, b);
    if pa == pb {
        let n = pa.len() - a.len();
        assert(pb.len() - b.len() == n);
        assert(pa.skip(n) == a);
        assert(pb.skip(n) == b);
    }
}

/// No section is written to the file of another one, and none to the file of the
/// index, of the fingerprint or of the reading positions.
pub proof fn law_no_page_overwrites_another(
    book: Book,
    n: int,
    edition: Edition,
    out_dir: Seq<char>,
    a: int,
)
    requires
        0 <= n,
        0 <= a < sections_of(book, n, edition).len(),
    ensures
        ({
            let pages = pages_of(out_dir, sections_of(book, n, edition));
            &&& forall|b: int|
                0 <= b < pages.len() && b != a ==> (#[trigger] pages[b]).path != pages[a].path
            &&& pages[a].path != joined(out_dir, index_file(edition))
            &&& pages[a].path != joined(out_dir, ".hash"@)
            &&& pages[a].path != joined(out_dir, ".info.json"@)
        }),
{
    let sections = sections_of(book, n, edition);
    let pages = pages_of(out_dir, sections);
    reveal_strlit(".html");
    reveal_strlit("section_");
    reveal_strlit("index.html");
    reveal_strlit("index.json");
    reveal_strlit(".hash");
    reveal_strlit(".info.json");
    lemma_begins_with_s(book, n, edition);
    let file = section_file(sections[a].name);
    assert(file[0] == 's');
    assert forall|b: int| 0 <= b < pages.len() && b != a implies (#[trigger] pages[b]).path
        != pages[a].path by {
        let other = section_file(sections[b].name);
        assert(other[0] == 's');
        if a < b {
            law_names_differ_in_a_book(book, n, edition, a, b);
        } else {
            law_names_differ_in_a_book(book, n, edition, b, a);
        }
        assert(file.take(file.len() - 5) == sections[a].name);
        assert(other.take(other.len() - 5) == sections[b].name);
        lemma_paths_differ(out_dir, other, file);
    }
    lemma_paths_differ(out_dir, file, index_file(edition));
    lemma_paths_differ(out_dir, file, ".hash"@);
    lemma_paths_differ(out_dir, file, ".info.json"@);
}

/// The names of the sections begin with a letter.
proof fn lemma_begins_with_s(book: Book, n: int, edition: Edition)
    requires
        0 <= n,
    ensures
        forall|k: int|
            0 <= k < sections_of(book, n, edition).len() ==> (#[trigger] sections_of(
                book,
                n,
                edition,
            )[k]).name.len() > 0 && sections_of(book, n, edition)[k].name[0] == 's',
    decreases n,
{
    reveal_strlit("section_");
    if n > 0 {
        lemma_begins_with_s(book, n - 1, edition);
        let before = sections_of(book, n - 1, edition);
        let all = sections_of(book, n, edition);
        assert forall|k: int| 0 <= k < all.len() implies (#[trigger] all[k]).name.len() > 0
            && all[k].name[0] == 's' by {
            if k < before.len() {
                assert(all[k] == before[k]);
            } else {
                assert(all[k].name == section_name((n - 1) as nat));
            }
        }
    }
}

/// The sections that an index lists have different file names.
pub proof fn law_listed_names_differ(book: Book, n: int, edition: Edition, a: int, b: int)
    requires
        0 <= n,
        0 <= a < b < sections_of(book, n, edition).len(),
    ensures
        contents(sections_of(book, n, edition))[a].1 != contents(
            sections_of(book, n, edition),
        )[b].1,
{
    let sections = sections_of(book, n, edition);
    let html = ".html"@;
    law_names_differ_in_a_book(book, n, edition, a, b);
    let x = section_file(sections[a].name);
    let y = section_file(sections[b].name);
    assert(x.take(x.len() - html.len()) == sections[a].name);
    assert(y.take(y.len() - html.len()) == sections[b].name);
}

/// Every section is written, as its page, to the file named after it, and listed with
/// its title and that file.
pub proof fn law_every_section_is_written(out_dir: Seq<char>, sections: Seq<SectionView>, k: int)
    requires
        0 <= k < sections.len(),
    ensures
        pages_of(out_dir, sections).len() == sections.len(),
        pages_of(out_dir, sections)[k].path == joined(
            out_dir,
            sections[k].name + seq!['.', 'h', 't', 'm', 'l'],
        ),
        pages_of(out_dir, sections)[k].text == sections[k].page,
        contents(sections).len() == sections.len(),
        contents(sections)[k].0 == sections[k].title,
        contents(sections)[k].1 == sections[k].name + seq!['.', 'h', 't', 'm', 'l'],
{
    reveal_strlit(".html");
    assert(".html"@ == seq!['.', 'h', 't', 'm', 'l']);
}

/// The index is a page in the plain edition, and a document for the reader.
pub proof fn law_index_of_each_edition(name: Seq<char>, sections: Seq<(Seq<char>, Seq<char>)>)
    ensures
        index_text(name, sections, Edition::Plain) == index_page(name, sections),
        index_text(name, sections, Edition::Reader) == pretty_text(index_tree(name, sections)),
{
}

/// What a list of files holds, one by one.
pub proof fn law_files_one_by_one(files: Seq<OutputFile>, i: int)
    requires
        0 <= i < files.len(),
    ensures
        file_views(files).len() == files.len(),
        file_views(files)[i].path == files[i].path@,
        file_views(files)[i].text == files[i].text@,
{
}

} // verus!
