//! The index of a book as a JSON document.

use vstd::prelude::*;
use vstd::string::StringExecFns;
use vstd::utf8::encode_utf8;

use crate::extractor::index_page::listing;
use crate::json::{
    json_items, json_list, json_member, json_object, json_parse, json_pretty, json_string,
    json_tree, json_trees, member_map, member_of, member_text, parsed_json, pretty_text, text_in,
    textual, JsonTree,
};

verus! {

/// The document of an object with two members.
pub open spec fn pair_tree(
    first: Seq<char>,
    first_tree: JsonTree,
    second: Seq<char>,
    second_tree: JsonTree,
) -> JsonTree {
    JsonTree::Object(Map::empty().insert(first, first_tree).insert(second, second_tree))
}

/// The document of one section in an index.
pub open spec fn section_tree(title: Seq<char>, filename: Seq<char>) -> JsonTree {
    pair_tree("title"@, JsonTree::Text(title), "filename"@, JsonTree::Text(filename))
}

/// The documents of the sections in an index.
pub open spec fn section_trees(sections: Seq<(Seq<char>, Seq<char>)>) -> Seq<JsonTree> {
    Seq::new(sections.len(), |i: int| section_tree(sections[i].0, sections[i].1))
}

/// The document of the index of a book.
pub open spec fn index_tree(
    book_name: Seq<char>,
    sections: Seq<(Seq<char>, Seq<char>)>,
) -> JsonTree {
    pair_tree(
        "book_name"@,
        JsonTree::Text(book_name),
        "sections"@,
        JsonTree::List(section_trees(sections)),
    )
}

/// The names of the members differ.
proof fn lemma_member_names()
    ensures
        "title"@ != "filename"@,
        "book_name"@ != "sections"@,
{
    reveal_strlit("title");
    reveal_strlit("filename");
    reveal_strlit("book_name");
    reveal_strlit("sections");
    assert("title"@.len() != "filename"@.len());
    assert("book_name"@.len() != "sections"@.len());
}

/// An object with two members.
fn json_pair(
    first: &str,
    first_value: serde_json::Value,
    second: &str,
    second_value: serde_json::Value,
) -> (value: serde_json::Value)
    requires
        first@ != second@,
    ensures
        json_tree(value) == pair_tree(
            first@,
            json_tree(first_value),
            second@,
            json_tree(second_value),
        ),
{
    let mut members: Vec<(String, serde_json::Value)> = Vec::new();
    members.push((String::from_str(first), first_value));
    let ghost one = members@;
    members.push((String::from_str(second), second_value));
    proof {
        reveal_with_fuel(member_map, 3);
        assert(members@.drop_last() == one);
        assert(one.drop_last() == Seq::<(String, serde_json::Value)>::empty());
    }
    json_object(members)
}

/// The document of an index is made of texts.
proof fn lemma_index_is_textual(book_name: Seq<char>, sections: Seq<(Seq<char>, Seq<char>)>)
    ensures
        textual(index_tree(book_name, sections), 3),
{
    reveal_with_fuel(textual, 4);
    reveal_strlit("title");
    reveal_strlit("filename");
    reveal_strlit("book_name");
    reveal_strlit("sections");
    let list = section_trees(sections);
    assert forall|i: int| 0 <= i < list.len() implies textual(#[trigger] list[i], 1) by {
        assert(list[i] == section_tree(sections[i].0, sections[i].1));
    }
    assert(textual(JsonTree::List(list), 2));
}

/// The index of a book: its name, and its sections as (title, file name). Reading
/// the text gives the same document back.
pub fn generate_index(book_name: &str, sections: &[(String, String)]) -> (json: String)
    ensures
        json@ == pretty_text(index_tree(book_name@, listing(sections@))),
        parsed_json(encode_utf8(json@)) == Some(index_tree(book_name@, listing(sections@))),
{
    proof {
        lemma_member_names();
    }
    let mut entries: Vec<serde_json::Value> = Vec::new();
    let ghost trees = section_trees(listing(sections@));
    assert(json_trees(entries@) == trees.take(0));
    for i in 0..sections.len()
        invariant
            "title"@ != "filename"@,
            trees == section_trees(listing(sections@)),
            json_trees(entries@) == trees.take(i as int),
    {
        let ghost before = json_trees(entries@);
        let entry = json_pair(
            "title",
            json_string(sections[i].0.as_str()),
            "filename",
            json_string(sections[i].1.as_str()),
        );
        assert(json_tree(entry) == trees[i as int]);
        entries.push(entry);
        assert(json_trees(entries@) == before.push(trees[i as int]));
        assert(trees.take(i + 1) == trees.take(i as int).push(trees[i as int]));
    }
    assert(trees.take(sections@.len() as int) == trees);
    let index = json_pair("book_name", json_string(book_name), "sections", json_list(entries));
    proof {
        lemma_index_is_textual(book_name@, listing(sections@));
    }
    json_pretty(&index)
}

/// The (title, file name) that the document of a section gives, if it is one.
pub open spec fn section_in(tree: JsonTree) -> Option<(Seq<char>, Seq<char>)> {
    match (text_in(member_of(tree, "title"@)), text_in(member_of(tree, "filename"@))) {
        (Some(title), Some(filename)) => Some((title, filename)),
        _ => None,
    }
}

/// The sections that the first `n` documents give, if each of them is one.
pub open spec fn sections_in(trees: Seq<JsonTree>, n: int) -> Option<Seq<(Seq<char>, Seq<char>)>>
    decreases n,
{
    if n <= 0 {
        Some(seq![])
    } else {
        match (sections_in(trees, n - 1), section_in(trees[n - 1])) {
            (Some(before), Some(section)) => Some(before.push(section)),
            _ => None,
        }
    }
}

/// The name and the sections that the document of an index gives, if it is one:
/// an object with a name and a list of sections, whatever else it has.
pub open spec fn index_in(tree: JsonTree) -> Option<
    (Seq<char>, Seq<(Seq<char>, Seq<char>)>),
> {
    match (text_in(member_of(tree, "book_name"@)), member_of(tree, "sections"@)) {
        (Some(book_name), Some(JsonTree::List(items))) => match sections_in(
            items,
            items.len() as int,
        ) {
            Some(sections) => Some((book_name, sections)),
            None => None,
        },
        _ => None,
    }
}

/// A section in the index of a book.
pub struct SectionEntry {
    pub title: String,
    pub filename: String,
}

/// The index of a book.
pub struct BookIndex {
    pub book_name: String,
    pub sections: Vec<SectionEntry>,
}

/// The (title, file name) of each section in a list.
pub open spec fn entry_listing(sections: Seq<SectionEntry>) -> Seq<(Seq<char>, Seq<char>)> {
    Seq::new(sections.len(), |i: int| (sections[i].title@, sections[i].filename@))
}

/// The sections of a list.
fn read_sections(items: &Vec<serde_json::Value>) -> (sections: Option<Vec<SectionEntry>>)
    ensures
        match sections {
            Some(s) => sections_in(json_trees(items@), items@.len() as int) == Some(
                entry_listing(s@),
            ),
            None => sections_in(json_trees(items@), items@.len() as int) is None,
        },
{
    let mut sections: Vec<SectionEntry> = Vec::new();
    let ghost trees = json_trees(items@);
    assert(entry_listing(sections@) == Seq::<(Seq<char>, Seq<char>)>::empty());
    for i in 0..items.len()
        invariant
            trees == json_trees(items@),
            sections_in(trees, i as int) == Some(entry_listing(sections@)),
    {
        let ghost before = entry_listing(sections@);
        let item = &items[i];
        assert(trees[i as int] == json_tree(*item));
        match (member_text(item, "title"), member_text(item, "filename")) {
            (Some(title), Some(filename)) => {
                sections.push(
                    SectionEntry {
                        title: String::from_str(title),
                        filename: String::from_str(filename),
                    },
                );
                assert(entry_listing(sections@) == before.push((title@, filename@)));
            },
            _ => {
                proof {
                    lemma_no_sections(trees, i as int, items@.len() as int);
                }
                return None;
            },
        }
    }
    Some(sections)
}

/// One document that is no section spoils the list.
proof fn lemma_no_sections(trees: Seq<JsonTree>, i: int, n: int)
    requires
        0 <= i < n,
        section_in(trees[i]) is None,
    ensures
        sections_in(trees, n) is None,
    decreases n,
{
    if i < n - 1 {
        lemma_no_sections(trees, i, n - 1);
    }
}

/// Reads the index of a book: `None` where `json` is no JSON, or no index.
pub fn read_index(json: &[u8]) -> (index: Option<BookIndex>)
    ensures
        match (parsed_json(json@), index) {
            (Some(tree), Some(found)) => index_in(tree) == Some(
                (found.book_name@, entry_listing(found.sections@)),
            ),
            (Some(tree), None) => index_in(tree) is None,
            (None, found) => found is None,
        },
{
    match json_parse(json) {
        Some(value) => index_of_value(&value),
        None => None,
    }
}

/// The index that a JSON value is, if it is one.
fn index_of_value(value: &serde_json::Value) -> (index: Option<BookIndex>)
    ensures
        match index {
            Some(found) => index_in(json_tree(*value)) == Some(
                (found.book_name@, entry_listing(found.sections@)),
            ),
            None => index_in(json_tree(*value)) is None,
        },
{
    match (member_text(value, "book_name"), json_member(value, "sections")) {
        (Some(book_name), Some(list)) => match json_items(list) {
            Some(items) => match read_sections(items) {
                Some(sections) => Some(
                    BookIndex { book_name: String::from_str(book_name), sections },
                ),
                None => None,
            },
            None => None,
        },
        _ => None,
    }
}

/// Reading the index of a book gives back what was written: the name of the book,
/// and its sections in order.
pub proof fn law_index_reads_back(book_name: Seq<char>, sections: Seq<(Seq<char>, Seq<char>)>)
    ensures
        index_in(index_tree(book_name, sections)) == Some((book_name, sections)),
{
    lemma_member_names();
    let trees = section_trees(sections);
    lemma_sections_read_back(sections, sections.len() as int);
    assert(sections.take(sections.len() as int) == sections);
    let tree = index_tree(book_name, sections);
    assert(member_of(tree, "book_name"@) == Some(JsonTree::Text(book_name)));
    assert(member_of(tree, "sections"@) == Some(JsonTree::List(trees)));
}

proof fn lemma_sections_read_back(sections: Seq<(Seq<char>, Seq<char>)>, n: int)
    requires
        0 <= n <= sections.len(),
    ensures
        sections_in(section_trees(sections), n) == Some(sections.take(n)),
    decreases n,
{
    lemma_member_names();
    if n > 0 {
        lemma_sections_read_back(sections, n - 1);
        let tree = section_trees(sections)[n - 1];
        assert(member_of(tree, "title"@) == Some(JsonTree::Text(sections[n - 1].0)));
        assert(member_of(tree, "filename"@) == Some(JsonTree::Text(sections[n - 1].1)));
        assert(sections.take(n) == sections.take(n - 1).push(sections[n - 1]));
    } else {
        assert(sections.take(n) == Seq::<(Seq<char>, Seq<char>)>::empty());
    }
}

/// What is read as an index has the name and the sections of its document, one for each
/// item of the list.
pub proof fn law_index_is_what_the_document_says(
    tree: JsonTree,
    book_name: Seq<char>,
    sections: Seq<(Seq<char>, Seq<char>)>,
)
    requires
        index_in(tree) == Some((book_name, sections)),
    ensures
        member_of(tree, "book_name"@) == Some(JsonTree::Text(book_name)),
        member_of(tree, "sections"@) matches Some(JsonTree::List(items)) && items.len()
            == sections.len() && forall|i: int|
            0 <= i < items.len() ==> member_of(#[trigger] items[i], "title"@) == Some(
                JsonTree::Text(sections[i].0),
            ) && member_of(items[i], "filename"@) == Some(JsonTree::Text(sections[i].1)),
{
    let items = member_of(tree, "sections"@)->0->List_0;
    lemma_sections_in(items, items.len() as int);
}

proof fn lemma_sections_in(items: Seq<JsonTree>, n: int)
    requires
        0 <= n <= items.len(),
        sections_in(items, n) is Some,
    ensures
        sections_in(items, n)->0.len() == n,
        forall|i: int|
            0 <= i < n ==> member_of(#[trigger] items[i], "title"@) == Some(
                JsonTree::Text(sections_in(items, n)->0[i].0),
            ) && member_of(items[i], "filename"@) == Some(
                JsonTree::Text(sections_in(items, n)->0[i].1),
            ),
    decreases n,
{
    if n > 0 {
        lemma_sections_in(items, n - 1);
    }
}

/// Whatever else a document holds does not matter: two documents with the same name and
/// the same list are read as the same index.
pub proof fn law_other_members_do_not_matter(a: JsonTree, b: JsonTree)
    requires
        member_of(a, "book_name"@) == member_of(b, "book_name"@),
        member_of(a, "sections"@) == member_of(b, "sections"@),
    ensures
        index_in(a) == index_in(b),
{
}

/// What a list of entries holds, one by one.
pub proof fn law_entries_one_by_one(sections: Seq<SectionEntry>, i: int)
    requires
        0 <= i < sections.len(),
    ensures
        entry_listing(sections).len() == sections.len(),
        entry_listing(sections)[i].0 == sections[i].title@,
        entry_listing(sections)[i].1 == sections[i].filename@,
{
}

/// Every document with a name and a list of titles and file names is read, whatever else
/// it or its sections hold.
pub proof fn law_every_index_is_read(tree: JsonTree, items: Seq<JsonTree>)
    requires
        member_of(tree, "book_name"@) matches Some(JsonTree::Text(_)),
        member_of(tree, "sections"@) == Some(JsonTree::List(items)),
        forall|i: int|
            0 <= i < items.len() ==> (member_of(#[trigger] items[i], "title"@) matches Some(
                JsonTree::Text(_),
            )) && (member_of(items[i], "filename"@) matches Some(JsonTree::Text(_))),
    ensures
        index_in(tree) is Some,
{
    lemma_sections_are_read(items, items.len() as int);
}

proof fn lemma_sections_are_read(items: Seq<JsonTree>, n: int)
    requires
        0 <= n <= items.len(),
        forall|i: int|
            0 <= i < items.len() ==> (member_of(#[trigger] items[i], "title"@) matches Some(
                JsonTree::Text(_),
            )) && (member_of(items[i], "filename"@) matches Some(JsonTree::Text(_))),
    ensures
        sections_in(items, n) is Some,
    decreases n,
{
    if n > 0 {
        lemma_sections_are_read(items, n - 1);
        assert(member_of(items[n - 1], "title"@) matches Some(JsonTree::Text(_)));
    }
}

} // verus!
