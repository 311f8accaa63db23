//! The page that was read last.

use vstd::prelude::*;
use vstd::string::StringExecFns;
use vstd::utf8::encode_utf8;

use crate::edition::DATA_DIR;
use crate::json::{
    json_items, json_object, json_parse, json_pretty, json_string, json_text, json_tree, json_trees,
    member_map, member_of, member_text, parsed_json, pretty_text, text_in, textual, JsonTree,
};
use crate::path::{join, joined};
use crate::text::{to_chars, to_text};

verus! {

/// The page that was read last.
pub struct PreviousPage {
    pub path: String,
}

impl Clone for PreviousPage {
    fn clone(&self) -> (page: Self)
        ensures
            page.path@ == self.path@,
    {
        PreviousPage { path: self.path.clone() }
    }
}

/// The file that the page is kept in.
pub open spec fn previous_path() -> Seq<char> {
    joined(DATA_DIR@, "previous.json"@)
}

/// The file that the page read last is kept in.
pub fn previous_file() -> (file: String)
    ensures
        file@ == previous_path(),
{
    let whole = join(to_chars(DATA_DIR).as_slice(), to_chars("previous.json").as_slice());
    to_text(whole.as_slice())
}

/// The document that a page is kept as.
pub open spec fn page_tree(path: Seq<char>) -> JsonTree {
    JsonTree::Object(Map::empty().insert("path"@, JsonTree::Text(path)))
}

/// The page that a document tells: the text of its member `path`, or the only text
/// in a list.
pub open spec fn page_in(tree: JsonTree) -> Option<Seq<char>> {
    match tree {
        JsonTree::List(items) => if items.len() == 1 {
            text_in(Some(items[0]))
        } else {
            None
        },
        _ => text_in(member_of(tree, "path"@)),
    }
}

/// The page that the stored bytes tell, where there are any.
pub open spec fn stored_page(stored: Option<Seq<u8>>) -> Option<Seq<char>> {
    match stored {
        Some(json) => match parsed_json(json) {
            Some(tree) => page_in(tree),
            None => None,
        },
        None => None,
    }
}

/// The text of the page that a JSON value tells.
fn page_text(value: &serde_json::Value) -> (path: Option<&str>)
    ensures
        match path {
            Some(p) => page_in(json_tree(*value)) == Some(p@),
            None => page_in(json_tree(*value)) is None,
        },
{
    match json_items(value) {
        Some(items) => if items.len() == 1 {
            assert(json_trees(items@)[0] == json_tree(items@[0]));
            json_text(&items[0])
        } else {
            None
        },
        None => member_text(value, "path"),
    }
}

impl PreviousPage {
    /// What to write to keep the page `path`, over whatever was kept. Reading the text
    /// gives the page back.
    pub fn set(path: &str) -> (json: String)
        ensures
            json@ == pretty_text(page_tree(path@)),
            parsed_json(encode_utf8(json@)) == Some(page_tree(path@)),
            stored_page(Some(encode_utf8(json@))) == Some(path@),
    {
        let mut members: Vec<(String, serde_json::Value)> = Vec::new();
        members.push((String::from_str("path"), json_string(path)));
        proof {
            reveal_strlit("path");
            reveal_with_fuel(member_map, 2);
            reveal_with_fuel(textual, 2);
            assert(members@.drop_last() == Seq::<(String, serde_json::Value)>::empty());
            law_page_set_is_read(path@);
        }
        json_pretty(&json_object(members))
    }

    /// Reads the page that was written: `None` where `json` is no JSON, or tells no
    /// page.
    pub fn read(json: &[u8]) -> (page: Option<PreviousPage>)
        ensures
            match page {
                Some(p) => stored_page(Some(json@)) == Some(p.path@),
                None => stored_page(Some(json@)) is None,
            },
    {
        match json_parse(json) {
            Some(value) => match page_text(&value) {
                Some(path) => Some(PreviousPage { path: String::from_str(path) }),
                None => None,
            },
            None => None,
        }
    }

    /// The page that was kept, from what is stored, if anything.
    pub fn get(stored: Option<&[u8]>) -> (path: Option<String>)
        ensures
            match (stored, path) {
                (Some(json), Some(p)) => stored_page(Some(json@)) == Some(p@),
                (Some(json), None) => stored_page(Some(json@)) is None,
                (None, p) => p is None,
            },
    {
        match stored {
            Some(json) => match PreviousPage::read(json) {
                Some(page) => Some(page.path),
                None => None,
            },
            None => None,
        }
    }
}

/// The document that a page is kept as tells that page.
pub proof fn law_page_set_is_read(path: Seq<char>)
    ensures
        page_in(page_tree(path)) == Some(path),
{
    assert(member_of(page_tree(path), "path"@) == Some(JsonTree::Text(path)));
}

/// Where a reader who asks for the page read last is sent: to that page, or to
/// the root.
pub fn redirect_target(previous: Option<String>) -> (url: String)
    ensures
        url@ == match previous {
            Some(path) => path@,
            None => "/"@,
        },
{
    match previous {
        Some(path) => path,
        None => String::from_str("/"),
    }
}

/// A page is told by the text of the member `path`, whatever else a document holds; a
/// document without that text, and that is no list, tells none.
pub proof fn law_page_is_told_by_its_path(tree: JsonTree)
    requires
        tree !is List,
    ensures
        member_of(tree, "path"@) matches Some(JsonTree::Text(path)) ==> page_in(tree) == Some(path),
        page_in(tree) matches Some(path) ==> member_of(tree, "path"@) == Some(JsonTree::Text(path)),
{
}

/// What is stored tells a page just when it is a document that does.
pub proof fn law_stored_page(json: Seq<u8>, tree: JsonTree)
    ensures
        parsed_json(json) == Some(tree) ==> stored_page(Some(json)) == page_in(tree),
        parsed_json(json) is None ==> stored_page(Some(json)) is None,
        stored_page(None) is None,
{
}

} // verus!
