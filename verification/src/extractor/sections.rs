//! The sections of a book: which spine items become one, and what is written
//! for each.

use vstd::prelude::*;
use vstd::string::StringExecFns;

use crate::edition::Edition;
use crate::extractor::links::{links_rewritten, rewrite_resource_paths};
use crate::extractor::read_position::{
    start_of, Position, ReadPosition, ReadPositionFileData,
};
use crate::extractor::script::{inject_scroll_script, with_script};
use crate::extractor::title::{extract_title_from_html, tag_text};
use crate::path::{names_same_path, same_path};
use crate::text::{
    find, find_chars, same_text, scan_until, slice_copy, to_chars, to_text, trim, trimmed, until,
};
use crate::util::{decimal, to_decimal, to_decimal3, zero_padded};

pub mod laws;

verus! {

/// An entry of a book's table of contents: a label, and the path it leads to,
/// perhaps with a fragment behind a `#`.
pub struct TocEntry {
    pub content: String,
    pub label: String,
}

/// A file of a book.
pub struct Resource {
    pub id: String,
    pub path: String,
    pub mime: String,
}

/// An item of a book's reading order, with the text and the media type of the
/// file it names, where that could be read.
pub struct SpineItem {
    pub idref: String,
    pub page: Option<(String, String)>,
}

/// What a book is made of, as far as its sections depend on it.
pub struct Book {
    pub root_base: String,
    pub toc: Vec<TocEntry>,
    pub resources: Vec<Resource>,
    pub spine: Vec<SpineItem>,
}

/// A section of a converted book.
pub struct Section {
    pub title: String,
    pub name: String,
    pub page: String,
}

/// What a [`Section`] holds.
#[verifier::ext_equal]
pub struct SectionView {
    pub title: Seq<char>,
    pub name: Seq<char>,
    pub page: Seq<char>,
}

impl View for Section {
    type V = SectionView;

    open spec fn view(&self) -> SectionView {
        SectionView { title: self.title@, name: self.name@, page: self.page@ }
    }
}

/// What a list of sections holds.
pub open spec fn section_views(sections: Seq<Section>) -> Seq<SectionView> {
    Seq::new(sections.len(), |i: int| sections[i]@)
}

/// A converted book.
pub struct Conversion {
    pub sections: Vec<Section>,
    pub info: ReadPositionFileData,
    pub toc_hits: usize,
}

/// The file with the id `id`.
pub open spec fn resource_named(resources: Seq<Resource>, id: Seq<char>) -> Option<Resource>
    decreases resources.len(),
{
    if resources.len() == 0 {
        None
    } else if resources[0].id@ == id {
        Some(resources[0])
    } else {
        resource_named(resources.drop_first(), id)
    }
}

/// The file with the id `id`.
fn find_resource<'a>(resources: &'a Vec<Resource>, id: &str) -> (found: Option<&'a Resource>)
    ensures
        match found {
            Some(r) => resource_named(resources@, id@) == Some(*r),
            None => resource_named(resources@, id@) is None,
        },
{
    assert(resources@.skip(0) == resources@);
    for i in 0..resources.len()
        invariant
            resource_named(resources@, id@) == resource_named(resources@.skip(i as int), id@),
    {
        if same_text(resources[i].id.as_str(), id) {
            return Some(&resources[i]);
        }
        assert(resources@.skip(i as int).drop_first() == resources@.skip(i + 1));
    }
    None
}

/// The path that an entry leads to, without the fragment.
pub open spec fn toc_target(entry: TocEntry) -> Seq<char> {
    entry.content@.take(until(entry.content@, '#'))
}

/// The label, without white space around it, of the last entry of the table of
/// contents that leads to `path`.
pub open spec fn toc_label(toc: Seq<TocEntry>, path: Seq<char>) -> Option<Seq<char>>
    decreases toc.len(),
{
    if toc.len() == 0 {
        None
    } else if same_path(toc_target(toc.last()), path) {
        Some(trimmed(toc.last().label@))
    } else {
        toc_label(toc.drop_last(), path)
    }
}

/// The label of the last entry that leads to `path`.
fn find_label(toc: &Vec<TocEntry>, path: &[char]) -> (label: Option<Vec<char>>)
    ensures
        match label {
            Some(l) => toc_label(toc@, path@) == Some(l@),
            None => toc_label(toc@, path@) is None,
        },
{
    let mut i: usize = toc.len();
    assert(toc@.take(toc@.len() as int) == toc@);
    while i > 0
        invariant
            i <= toc@.len(),
            toc_label(toc@, path@) == toc_label(toc@.take(i as int), path@),
        decreases i,
    {
        let ghost upto = toc@.take(i as int);
        let content = to_chars(toc[i - 1].content.as_str());
        assert(content@.skip(0) == content@);
        let cut = scan_until(content.as_slice(), '#', 0);
        let target = slice_copy(content.as_slice(), 0, cut);
        assert(upto.last() == toc@[i - 1]);
        assert(target@ == toc_target(upto.last()));
        if names_same_path(target.as_slice(), path) {
            return Some(trim(to_chars(toc[i - 1].label.as_str()).as_slice()));
        }
        assert(upto.drop_last() == toc@.take(i - 1));
        i = i - 1;
    }
    None
}

/// The name of the section made of the spine item `i`.
pub open spec fn section_name(i: nat) -> Seq<char> {
    "section_"@ + zero_padded(decimal(i + 1), 3)
}

/// The name of the section made of the spine item `i`.
pub fn name_section(i: usize) -> (name: String)
    requires
        i < usize::MAX,
    ensures
        name@ == section_name(i as nat),
{
    let mut name = to_text(to_chars("section_").as_slice());
    name.append(to_text(to_decimal3(i + 1).as_slice()).as_str());
    name
}

/// The name of the file that a section is written to.
pub open spec fn section_file(name: Seq<char>) -> Seq<char> {
    name + ".html"@
}

/// The name of the file that a section is written to.
pub fn name_section_file(name: &str) -> (file: String)
    ensures
        file@ == section_file(name@),
{
    let mut file = String::from_str(name);
    file.append(".html");
    file
}

/// The spine item `i` becomes a section: it names a file of the book, which
/// could be read and is HTML by its media type.
pub open spec fn is_section(book: Book, i: int) -> bool {
    let item = book.spine@[i];
    &&& resource_named(book.resources@, item.idref@) is Some
    &&& item.page matches Some((_, mime)) && find(mime@, "html"@) is Some
}

/// The path of the file that the spine item `i` names.
pub open spec fn section_path(book: Book, i: int) -> Seq<char> {
    match resource_named(book.resources@, book.spine@[i].idref@) {
        Some(resource) => resource.path@,
        None => seq![],
    }
}

/// The text of the file that the spine item `i` names.
pub open spec fn section_text(book: Book, i: int) -> Seq<char> {
    match book.spine@[i].page {
        Some((html, _)) => html@,
        None => seq![],
    }
}

/// The label that the table of contents gives to the spine item `i`.
pub open spec fn section_label(book: Book, i: int) -> Option<Seq<char>> {
    toc_label(book.toc@, section_path(book, i))
}

/// The title of the section made of the spine item `i`: its label in the table
/// of contents, else the title of its page, else its number.
pub open spec fn section_title(book: Book, i: int) -> Seq<char> {
    match section_label(book, i) {
        Some(label) => label,
        None => match tag_text(section_text(book, i)) {
            Some(title) => title,
            None => "Chapter "@ + decimal((i + 1) as nat),
        },
    }
}

/// The page of the section made of the spine item `i`.
pub open spec fn section_page(book: Book, i: int, edition: Edition) -> Seq<char> {
    let page = links_rewritten(section_text(book, i), section_path(book, i), book.root_base@);
    match edition {
        Edition::Plain => page,
        Edition::Reader => with_script(page),
    }
}

/// The section made of the spine item `i`.
pub open spec fn section_at(book: Book, i: int, edition: Edition) -> SectionView {
    SectionView {
        title: section_title(book, i),
        name: section_name(i as nat),
        page: section_page(book, i, edition),
    }
}

/// The sections made of the first `n` spine items.
pub open spec fn sections_of(book: Book, n: int, edition: Edition) -> Seq<SectionView>
    decreases n,
{
    if n <= 0 {
        seq![]
    } else {
        let before = sections_of(book, n - 1, edition);
        if is_section(book, n - 1) {
            before.push(section_at(book, n - 1, edition))
        } else {
            before
        }
    }
}

/// How many of the first `n` spine items have a label in the table of contents.
pub open spec fn labelled(book: Book, n: int) -> nat
    decreases n,
{
    if n <= 0 {
        0
    } else if is_section(book, n - 1) && section_label(book, n - 1) is Some {
        labelled(book, n - 1) + 1
    } else {
        labelled(book, n - 1)
    }
}

/// The reading positions of a book that nobody has read: the start of each
/// section. The plain edition keeps none.
pub open spec fn first_positions(sections: Seq<SectionView>, edition: Edition) -> Map<
    Seq<char>,
    Position,
>
    decreases sections.len(),
{
    if sections.len() == 0 || edition is Plain {
        Map::empty()
    } else {
        let name = sections.last().name;
        first_positions(sections.drop_last(), edition).insert(name, start_of(name))
    }
}

/// The title of the spine item `i`.
fn resolve_title(label: Option<Vec<char>>, html: &str, i: usize) -> (title: String)
    requires
        i < usize::MAX,
    ensures
        title@ == match label {
            Some(l) => l@,
            None => match tag_text(html@) {
                Some(found) => found,
                None => "Chapter "@ + decimal((i + 1) as nat),
            },
        },
{
    match label {
        Some(l) => to_text(l.as_slice()),
        None => match extract_title_from_html(html) {
            Some(found) => found,
            None => {
                let mut numbered = to_text(to_chars("Chapter ").as_slice());
                numbered.append(to_text(to_decimal(i + 1).as_slice()).as_str());
                numbered
            },
        },
    }
}

/// Whether a media type is one of HTML.
fn is_html(mime: &str) -> (b: bool)
    ensures
        b == (find(mime@, "html"@) is Some),
{
    find_chars(to_chars(mime).as_slice(), to_chars("html").as_slice(), 0).is_some()
}

/// The sections of `book` in reading order, and the reading positions to start
/// with.
pub fn convert_sections(book: &Book, edition: Edition) -> (converted: Conversion)
    ensures
        section_views(converted.sections@) == sections_of(
            *book,
            book.spine@.len() as int,
            edition,
        ),
        converted.info.wf(),
        converted.info@ == first_positions(
            sections_of(*book, book.spine@.len() as int, edition),
            edition,
        ),
        converted.toc_hits == labelled(*book, book.spine@.len() as int),
{
    let mut sections: Vec<Section> = Vec::new();
    let mut info = ReadPositionFileData::default();
    let mut toc_hits: usize = 0;
    assert(section_views(sections@) == sections_of(*book, 0, edition));
    for i in 0..book.spine.len()
        invariant
            section_views(sections@) == sections_of(*book, i as int, edition),
            info.wf(),
            info@ == first_positions(section_views(sections@), edition),
            toc_hits == labelled(*book, i as int),
            toc_hits <= i,
    {
        let item = &book.spine[i];
        let ghost before = section_views(sections@);
        match (find_resource(&book.resources, item.idref.as_str()), &item.page) {
            (Some(resource), Some(page)) => {
                if is_html(page.1.as_str()) {
                    assert(is_section(*book, i as int));
                    let path = to_chars(resource.path.as_str());
                    let label = find_label(&book.toc, path.as_slice());
                    if label.is_some() {
                        toc_hits = toc_hits + 1;
                    }
                    let title = resolve_title(label, page.0.as_str(), i);
                    assert(title@ == section_title(*book, i as int));
                    let linked = rewrite_resource_paths(
                        page.0.as_str(),
                        resource.path.as_str(),
                        book.root_base.as_str(),
                    );
                    let name = name_section(i);
                    let written = match edition {
                        Edition::Plain => linked,
                        Edition::Reader => {
                            info.insert(name.clone(), ReadPosition::new_default(name.clone()));
                            inject_scroll_script(linked.as_str())
                        },
                    };
                    assert(written@ == section_page(*book, i as int, edition));
                    sections.push(Section { title, name, page: written });
                    proof {
                        let section = section_at(*book, i as int, edition);
                        assert(sections@.last()@ == section);
                        assert(section_views(sections@) == before.push(section));
                        assert(before.push(section).drop_last() == before);
                    }
                }
            },
            _ => {},
        }
    }
    Conversion { sections, info, toc_hits }
}

/// Whether a book was converted without any help from its table of contents.
pub fn lacks_toc_titles(converted: &Conversion) -> (b: bool)
    ensures
        b == (converted.toc_hits == 0 && converted.sections@.len() > 0),
{
    converted.toc_hits == 0 && converted.sections.len() > 0
}

/// No two sections of a book share a name.
pub proof fn law_section_names_differ(i: nat, j: nat)
    requires
        i != j,
    ensures
        section_name(i) != section_name(j),
        section_file(section_name(i)) != section_file(section_name(j)),
{
    crate::util::law_padded_decimal_tells_number(i + 1, 3);
    crate::util::law_padded_decimal_tells_number(j + 1, 3);
    let prefix = "section_"@;
    let a = zero_padded(decimal(i + 1), 3);
    let b = zero_padded(decimal(j + 1), 3);
    assert((prefix + a).skip(prefix.len() as int) == a);
    assert((prefix + b).skip(prefix.len() as int) == b);
    let n = section_name(i);
    let m = section_name(j);
    let html = ".html"@;
    assert((n + html).take((n + html).len() - html.len()) == n);
    assert((m + html).take((m + html).len() - html.len()) == m);
}

/// The name of every section of a book is that of one of its spine items, and
/// the sections stand in the order of the spine.
proof fn lemma_sections_named(book: Book, n: int, edition: Edition, k: int)
    requires
        0 <= n,
        0 <= k < sections_of(book, n, edition).len(),
    ensures
        exists|i: int|
            0 <= i < n && #[trigger] is_section(book, i) && sections_of(book, n, edition)[k]
                == section_at(book, i, edition),
    decreases n,
{
    if n > 0 {
        let before = sections_of(book, n - 1, edition);
        if k < before.len() {
            lemma_sections_named(book, n - 1, edition, k);
            let i = choose|i: int|
                0 <= i < n - 1 && #[trigger] is_section(book, i) && before[k] == section_at(
                    book,
                    i,
                    edition,
                );
            assert(is_section(book, i));
        } else {
            assert(is_section(book, n - 1));
        }
    }
}

/// A converted book keeps a place for each of its sections, the start of it, and
/// for nothing else.
pub proof fn law_every_section_has_a_place(book: Book, n: int)
    requires
        0 <= n,
    ensures
        ({
            let sections = sections_of(book, n, Edition::Reader);
            let info = first_positions(sections, Edition::Reader);
            &&& forall|k: int|
                0 <= k < sections.len() ==> info.dom().contains((#[trigger] sections[k]).name)
                    && info[sections[k].name] == start_of(sections[k].name)
            &&& forall|name: Seq<char>| #[trigger]
                info.dom().contains(name) ==> exists|k: int|
                    0 <= k < sections.len() && (#[trigger] sections[k]).name == name
        }),
{
    lemma_first_positions(sections_of(book, n, Edition::Reader));
}

proof fn lemma_first_positions(sections: Seq<SectionView>)
    ensures
        ({
            let info = first_positions(sections, Edition::Reader);
            &&& forall|k: int|
                0 <= k < sections.len() ==> info.dom().contains((#[trigger] sections[k]).name)
                    && info[sections[k].name] == start_of(sections[k].name)
            &&& forall|name: Seq<char>| #[trigger]
                info.dom().contains(name) ==> exists|k: int|
                    0 <= k < sections.len() && (#[trigger] sections[k]).name == name
        }),
    decreases sections.len(),
{
    let info = first_positions(sections, Edition::Reader);
    if sections.len() > 0 {
        let front = sections.drop_last();
        let before = first_positions(front, Edition::Reader);
        lemma_first_positions(front);
        assert forall|k: int| 0 <= k < sections.len() implies info.dom().contains(
            (#[trigger] sections[k]).name,
        ) && info[sections[k].name] == start_of(sections[k].name) by {
            if k < front.len() {
                assert(front[k] == sections[k]);
            }
        }
        assert forall|name: Seq<char>| #[trigger] info.dom().contains(name) implies exists|k: int|
            0 <= k < sections.len() && (#[trigger] sections[k]).name == name by {
            if name == sections.last().name {
                assert(sections[sections.len() - 1].name == name);
            } else {
                assert(before.dom().contains(name));
                let k = choose|k: int| 0 <= k < front.len() && (#[trigger] front[k]).name == name;
                assert(sections[k].name == name);
            }
        }
    }
}

/// The sections of one book all have different names.
pub proof fn law_names_differ_in_a_book(book: Book, n: int, edition: Edition, a: int, b: int)
    requires
        0 <= n,
        0 <= a < b < sections_of(book, n, edition).len(),
    ensures
        sections_of(book, n, edition)[a].name != sections_of(book, n, edition)[b].name,
    decreases n,
{
    let before = sections_of(book, n - 1, edition);
    if b < before.len() {
        law_names_differ_in_a_book(book, n - 1, edition, a, b);
    } else {
        lemma_sections_named(book, n - 1, edition, a);
        let i = choose|i: int|
            0 <= i < n - 1 && #[trigger] is_section(book, i) && before[a] == section_at(
                book,
                i,
                edition,
            );
        law_section_names_differ(i as nat, (n - 1) as nat);
    }
}

} // verus!
