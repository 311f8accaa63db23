//! What holds of the sections of a book: which items become one, in which order, and
//! what each is called.

use vstd::prelude::*;

use crate::edition::Edition;
use crate::extractor::links::links_rewritten;
use crate::extractor::script::with_script;
use crate::extractor::sections::{
    first_positions, is_section, labelled, resource_named, section_at, section_file, section_label,
    section_name, section_page, section_path, section_text, section_title, section_views,
    sections_of, toc_label, toc_target, Book, Resource, Section, SectionView, TocEntry,
};
use crate::extractor::title::tag_text;
use crate::path::component_seq;
use crate::text::{find, lemma_find_from, lemma_until, lemma_until_is, occurs_at, trimmed, until};
use crate::util::{decimal, number};

verus! {

/// A file with the id `id` is listed.
pub open spec fn has_file(resources: Seq<Resource>, id: Seq<char>) -> bool {
    exists|r: int| 0 <= r < resources.len() && (#[trigger] resources[r]).id@ == id
}

/// The word `html` stands somewhere in a media type.
pub open spec fn names_html(mime: Seq<char>) -> bool {
    exists|at: int| 0 <= at <= mime.len() - 4 && #[trigger] mime.subrange(at, at + 4) == seq![
        'h',
        't',
        'm',
        'l',
    ]
}

proof fn lemma_resource_named(resources: Seq<Resource>, id: Seq<char>)
    ensures
        resource_named(resources, id) is Some <==> has_file(resources, id),
    decreases resources.len(),
{
    if resources.len() > 0 {
        let rest = resources.drop_first();
        lemma_resource_named(rest, id);
        if resources[0].id@ == id {
            assert(has_file(resources, id));
        } else {
            if has_file(rest, id) {
                let r = choose|r: int| 0 <= r < rest.len() && (#[trigger] rest[r]).id@ == id;
                assert(resources[r + 1].id@ == id);
            }
            if has_file(resources, id) {
                let r = choose|r: int|
                    0 <= r < resources.len() && (#[trigger] resources[r]).id@ == id;
                assert(rest[r - 1].id@ == id);
            }
        }
    }
}

/// An item of the spine becomes a section just when it names a file of the book that
/// could be read and whose media type has the word `html` in it.
pub proof fn law_html_items_are_sections(book: Book, i: int)
    requires
        0 <= i < book.spine@.len(),
    ensures
        is_section(book, i) <==> has_file(book.resources@, book.spine@[i].idref@) && match book.spine@[i].page {
            Some((_, mime)) => names_html(mime@),
            None => false,
        },
{
    lemma_resource_named(book.resources@, book.spine@[i].idref@);
    reveal_strlit("html");
    let word = seq!['h', 't', 'm', 'l'];
    assert("html"@ == word);
    if let Some((_, mime)) = book.spine@[i].page {
        lemma_find_from(mime@, word, 0);
        match find(mime@, word) {
            Some(at) => {
                assert(mime@.subrange(at, at + 4) == word);
                assert(names_html(mime@));
            },
            None => {
                if names_html(mime@) {
                    let at = choose|at: int|
                        0 <= at <= mime@.len() - 4 && #[trigger] mime@.subrange(at, at + 4) == word;
                    assert(occurs_at(mime@, word, at));
                }
            },
        }
    }
}

/// The file of an item is the first that has its id; its text is what was read.
pub proof fn law_file_of_an_item(book: Book, i: int, r: int)
    requires
        0 <= i < book.spine@.len(),
        0 <= r < book.resources@.len(),
        book.resources@[r].id@ == book.spine@[i].idref@,
        forall|k: int|
            0 <= k < r ==> (#[trigger] book.resources@[k]).id@ != book.spine@[i].idref@,
    ensures
        section_path(book, i) == book.resources@[r].path@,
        book.spine@[i].page matches Some((html, _)) ==> section_text(book, i) == html@,
{
    lemma_first_resource(book.resources@, book.spine@[i].idref@, r);
}

proof fn lemma_first_resource(resources: Seq<Resource>, id: Seq<char>, r: int)
    requires
        0 <= r < resources.len(),
        resources[r].id@ == id,
        forall|k: int| 0 <= k < r ==> (#[trigger] resources[k]).id@ != id,
    ensures
        resource_named(resources, id) == Some(resources[r]),
    decreases r,
{
    if r > 0 {
        let rest = resources.drop_first();
        assert(resources[0].id@ != id);
        assert(rest[r - 1] == resources[r]);
        assert forall|k: int| 0 <= k < r - 1 implies (#[trigger] rest[k]).id@ != id by {
            assert(rest[k] == resources[k + 1]);
        }
        lemma_first_resource(rest, id, r - 1);
    }
}

/// The entry leads to no part of the file `path`: what stands before its first `#`, or
/// all of it where there is none, is another path.
pub open spec fn leads_elsewhere(entry: TocEntry, path: Seq<char>) -> bool {
    forall|k: int|
        0 <= k <= entry.content@.len() && (k < entry.content@.len() ==> entry.content@[k] == '#')
            && !entry.content@.subrange(0, k).contains('#') ==> #[trigger] component_seq(
            entry.content@.subrange(0, k),
        ) != component_seq(path)
}

proof fn lemma_target(entry: TocEntry, path: Seq<char>)
    requires
        leads_elsewhere(entry, path),
    ensures
        component_seq(toc_target(entry)) != component_seq(path),
{
    let c = entry.content@;
    lemma_until(c, '#');
    let k = until(c, '#');
    let p = c.subrange(0, k);
    assert(!p.contains('#')) by {
        if p.contains('#') {
            let i = choose|i: int| 0 <= i < p.len() && p[i] == '#';
            assert(c[i] == '#');
        }
    }
    assert(p == toc_target(entry));
}

/// An entry of the table of contents gives its label to the section whose file it leads
/// to, with a fragment or without one: the last such entry does, and the label is
/// trimmed.
pub proof fn law_entry_labels_its_section(
    book: Book,
    i: int,
    e: int,
    target: Seq<char>,
    fragment: Seq<char>,
)
    requires
        0 <= e < book.toc@.len(),
        book.toc@[e].content@ == target || book.toc@[e].content@ == target + seq!['#'] + fragment,
        !target.contains('#'),
        component_seq(target) == component_seq(section_path(book, i)),
        forall|k: int|
            e < k < book.toc@.len() ==> leads_elsewhere(
                #[trigger] book.toc@[k],
                section_path(book, i),
            ),
    ensures
        section_label(book, i) == Some(trimmed(book.toc@[e].label@)),
        section_title(book, i) == trimmed(book.toc@[e].label@),
{
    let c = book.toc@[e].content@;
    assert forall|k: int| 0 <= k < target.len() implies c[k] != '#' by {
        assert(target.contains(target[k]));
        assert(c[k] == target[k]);
    }
    lemma_until_is(c, '#', target.len() as int);
    assert(c.take(target.len() as int) == target);
    lemma_last_label(book.toc@, section_path(book, i), e);
}

proof fn lemma_last_label(toc: Seq<TocEntry>, path: Seq<char>, e: int)
    requires
        0 <= e < toc.len(),
        component_seq(toc_target(toc[e])) == component_seq(path),
        forall|k: int| e < k < toc.len() ==> leads_elsewhere(#[trigger] toc[k], path),
    ensures
        toc_label(toc, path) == Some(trimmed(toc[e].label@)),
    decreases toc.len(),
{
    if e < toc.len() - 1 {
        assert(leads_elsewhere(toc[toc.len() - 1], path));
        lemma_target(toc.last(), path);
        let front = toc.drop_last();
        assert forall|k: int| e < k < front.len() implies leads_elsewhere(
            #[trigger] front[k],
            path,
        ) by {
            assert(front[k] == toc[k]);
        }
        lemma_last_label(front, path, e);
    }
}

/// A section that no entry leads to is called by the title of its page, and where the
/// page has none, by its number in the spine.
pub proof fn law_section_without_a_label(book: Book, i: int)
    requires
        0 <= i < book.spine@.len(),
        forall|k: int|
            0 <= k < book.toc@.len() ==> leads_elsewhere(
                #[trigger] book.toc@[k],
                section_path(book, i),
            ),
    ensures
        section_label(book, i) is None,
        tag_text(section_text(book, i)) matches Some(title) ==> section_title(book, i) == title,
        tag_text(section_text(book, i)) is None ==> section_title(book, i) == "Chapter "@ + decimal(
            (i + 1) as nat,
        ),
{
    lemma_no_label(book.toc@, section_path(book, i));
}

proof fn lemma_no_label(toc: Seq<TocEntry>, path: Seq<char>)
    requires
        forall|k: int| 0 <= k < toc.len() ==> leads_elsewhere(#[trigger] toc[k], path),
    ensures
        toc_label(toc, path) is None,
    decreases toc.len(),
{
    if toc.len() > 0 {
        assert(leads_elsewhere(toc[toc.len() - 1], path));
        lemma_target(toc.last(), path);
        let front = toc.drop_last();
        assert forall|k: int| 0 <= k < front.len() implies leads_elsewhere(
            #[trigger] front[k],
            path,
        ) by {
            assert(front[k] == toc[k]);
        }
        lemma_no_label(front, path);
    }
}

/// How many of the first `n` items of the spine become sections.
pub open spec fn html_items(book: Book, n: int) -> int
    decreases n,
{
    if n <= 0 {
        0
    } else {
        html_items(book, n - 1) + if is_section(book, n - 1) {
            1int
        } else {
            0
        }
    }
}

/// Every item that becomes a section does so in its turn: there are as many sections as
/// such items, and the section of an item stands behind those of the items before it.
pub proof fn law_sections_in_the_order_of_the_spine(book: Book, n: int, edition: Edition, i: int)
    requires
        0 <= i < n,
    ensures
        sections_of(book, n, edition).len() == html_items(book, n),
        is_section(book, i) ==> html_items(book, i) < html_items(book, n) && sections_of(
            book,
            n,
            edition,
        )[html_items(book, i)] == section_at(book, i, edition),
    decreases n,
{
    lemma_section_count(book, n - 1, edition);
    if i < n - 1 {
        law_sections_in_the_order_of_the_spine(book, n - 1, edition, i);
    }
    lemma_items_grow(book, i);
}

proof fn lemma_section_count(book: Book, n: int, edition: Edition)
    ensures
        sections_of(book, n, edition).len() == html_items(book, n),
    decreases n,
{
    if n > 0 {
        lemma_section_count(book, n - 1, edition);
    }
}

proof fn lemma_items_grow(book: Book, n: int)
    ensures
        html_items(book, n) >= 0,
    decreases n,
{
    if n > 0 {
        lemma_items_grow(book, n - 1);
    }
}

/// What a section is made of: its title, its name, and its page with the references
/// rewritten; the reader's page is the plain one with the script.
pub proof fn law_section_is_made_of(book: Book, i: int)
    ensures
        section_at(book, i, Edition::Plain).title == section_title(book, i),
        section_at(book, i, Edition::Reader).title == section_title(book, i),
        section_at(book, i, Edition::Plain).name == section_name(i as nat),
        section_at(book, i, Edition::Reader).name == section_name(i as nat),
        section_at(book, i, Edition::Plain).page == links_rewritten(
            section_text(book, i),
            section_path(book, i),
            book.root_base@,
        ),
        section_at(book, i, Edition::Reader).page == with_script(
            section_at(book, i, Edition::Plain).page,
        ),
        section_page(book, i, Edition::Plain) == section_at(book, i, Edition::Plain).page,
{
}

/// A hit is counted for each section that the table of contents labels, and for nothing
/// else.
pub proof fn law_hits_are_counted(book: Book, n: int)
    requires
        0 <= n,
    ensures
        labelled(book, 0) == 0,
        labelled(book, n + 1) == labelled(book, n) + (if is_section(book, n) && section_label(
            book,
            n,
        ) is Some {
            1nat
        } else {
            0
        }),
{
}

/// The name of a section is `section_` and its number in the spine, counted from one, in
/// at least three digits; its file has that name and the extension `html`.
pub proof fn law_section_is_named_by_its_number(i: nat)
    ensures
        section_name(i).len() >= 11,
        section_name(i).subrange(0, 8) == seq!['s', 'e', 'c', 't', 'i', 'o', 'n', '_'],
        number(section_name(i).subrange(8, section_name(i).len() as int)) == i + 1,
        forall|k: int|
            8 <= k < section_name(i).len() ==> '0' <= #[trigger] section_name(i)[k] <= '9',
        section_file(section_name(i)) == section_name(i) + seq!['.', 'h', 't', 'm', 'l'],
{
    reveal_strlit("section_");
    reveal_strlit(".html");
    let digits = crate::util::zero_padded(decimal(i + 1), 3);
    let name = section_name(i);
    crate::util::law_padded_decimal_tells_number(i + 1, 3);
    crate::util::laws::law_filling_up(decimal(i + 1), 3);
    crate::util::laws::law_decimal_form(i + 1);
    assert(name.subrange(8, name.len() as int) == digits);
    assert(name.subrange(0, 8) == "section_"@);
    assert(".html"@ == seq!['.', 'h', 't', 'm', 'l']);
    assert("section_"@ == seq!['s', 'e', 'c', 't', 'i', 'o', 'n', '_']);
    let zeros = digits.len() - decimal(i + 1).len();
    assert forall|k: int| 8 <= k < name.len() implies '0' <= #[trigger] name[k] <= '9' by {
        let d = k - 8;
        assert(name[k] == digits[d]);
        if d >= zeros {
            assert(digits.subrange(zeros, digits.len() as int)[d - zeros] == decimal(i + 1)[d
                - zeros]);
        }
    }
}

/// The plain edition keeps no reading positions.
pub proof fn law_plain_edition_keeps_no_places(sections: Seq<SectionView>)
    ensures
        first_positions(sections, Edition::Plain).dom() == Set::<Seq<char>>::empty(),
{
}

/// What a list of sections holds, one by one.
pub proof fn law_sections_one_by_one(sections: Seq<Section>, i: int)
    requires
        0 <= i < sections.len(),
    ensures
        section_views(sections).len() == sections.len(),
        section_views(sections)[i].title == sections[i].title@,
        section_views(sections)[i].name == sections[i].name@,
        section_views(sections)[i].page == sections[i].page@,
{
}

} // verus!
