//! The listing of a directory.

use vstd::prelude::*;
use vstd::relations::{sorted_by, total_ordering};
use vstd::string::StringExecFns;

use crate::edition::Edition;
use crate::path::{join, joined};
use crate::server::breadcrumbs::{build_breadcrumbs, crumb_views, trail, Breadcrumb};
use crate::text::{
    after_last, begins_with, lemma_after_last, scan_after_last, slice_copy, starts_with, to_chars,
    to_text,
};
use crate::util::{escape_html, escaped};

verus! {

/// An entry as it was read from a directory: its name, where it is readable
/// text, and whether it is a directory, where that could be told.
pub struct RawEntry {
    pub name: Option<String>,
    pub is_dir: Option<bool>,
}

/// An entry of a listing.
pub struct Entry {
    pub name: String,
    pub is_dir: bool,
}

/// What an [`Entry`] holds.
#[verifier::ext_equal]
pub struct Item {
    pub name: Seq<char>,
    pub is_dir: bool,
}

impl View for Entry {
    type V = Item;

    open spec fn view(&self) -> Item {
        Item { name: self.name@, is_dir: self.is_dir }
    }
}

/// What a list of entries holds.
pub open spec fn items(entries: Seq<Entry>) -> Seq<Item> {
    Seq::new(entries.len(), |i: int| entries[i]@)
}

/// What an entry is listed as. A name that is not readable or begins with a dot
/// is not listed. What cannot be told to be a directory is listed as a file by
/// the plain edition and not listed by the reader.
pub open spec fn listed_as(entry: RawEntry, edition: Edition) -> Option<Item> {
    match entry.name {
        Some(name) => if begins_with(name@, "."@) {
            None
        } else {
            match (entry.is_dir, edition) {
                (Some(is_dir), _) => Some(Item { name: name@, is_dir }),
                (None, Edition::Plain) => Some(Item { name: name@, is_dir: false }),
                (None, Edition::Reader) => None,
            }
        },
        None => None,
    }
}

/// The entries that are listed, in the order in which they were read.
pub open spec fn visible(entries: Seq<RawEntry>, edition: Edition) -> Seq<Item>
    decreases entries.len(),
{
    if entries.len() == 0 {
        seq![]
    } else {
        let before = visible(entries.drop_last(), edition);
        match listed_as(entries.last(), edition) {
            Some(item) => before.push(item),
            None => before,
        }
    }
}

/// `a` comes before `b` in the dictionary, or is `b`; characters go by their
/// code points.
pub open spec fn text_le(a: Seq<char>, b: Seq<char>) -> bool
    decreases a.len(),
{
    if a.len() == 0 {
        true
    } else if b.len() == 0 {
        false
    } else if a[0] != b[0] {
        a[0] < b[0]
    } else {
        text_le(a.drop_first(), b.drop_first())
    }
}

/// Directories come first, and names go by the alphabet.
pub open spec fn item_le(a: Item, b: Item) -> bool {
    if a.is_dir != b.is_dir {
        a.is_dir
    } else {
        text_le(a.name, b.name)
    }
}

/// The order of a listing.
pub open spec fn listing_order() -> spec_fn(Item, Item) -> bool {
    |a: Item, b: Item| item_le(a, b)
}

/// The listing of a directory.
pub open spec fn listing(entries: Seq<RawEntry>, edition: Edition) -> Seq<Item> {
    visible(entries, edition).sort_by(listing_order())
}

proof fn lemma_text_le_refl(a: Seq<char>)
    ensures
        text_le(a, a),
    decreases a.len(),
{
    if a.len() > 0 {
        lemma_text_le_refl(a.drop_first());
    }
}

proof fn lemma_text_le_total(a: Seq<char>, b: Seq<char>)
    ensures
        text_le(a, b) || text_le(b, a),
    decreases a.len(),
{
    if a.len() > 0 && b.len() > 0 && a[0] == b[0] {
        lemma_text_le_total(a.drop_first(), b.drop_first());
    }
}

proof fn lemma_text_le_trans(a: Seq<char>, b: Seq<char>, c: Seq<char>)
    requires
        text_le(a, b),
        text_le(b, c),
    ensures
        text_le(a, c),
    decreases a.len(),
{
    if a.len() > 0 && a[0] == b[0] && b[0] == c[0] {
        lemma_text_le_trans(a.drop_first(), b.drop_first(), c.drop_first());
    }
}

proof fn lemma_text_le_antisymm(a: Seq<char>, b: Seq<char>)
    requires
        text_le(a, b),
        text_le(b, a),
    ensures
        a == b,
    decreases a.len(),
{
    if a.len() > 0 && b.len() > 0 {
        lemma_text_le_antisymm(a.drop_first(), b.drop_first());
        assert(a == seq![a[0]] + a.drop_first());
        assert(b == seq![b[0]] + b.drop_first());
    } else {
        assert(a == b);
    }
}

/// The order of a listing leaves no two different entries in doubt.
pub proof fn law_listing_order_is_total()
    ensures
        total_ordering(listing_order()),
{
    let leq = listing_order();
    assert forall|a: Item| #[trigger] leq(a, a) by {
        lemma_text_le_refl(a.name);
    }
    assert forall|a: Item, b: Item| #[trigger] leq(a, b) && #[trigger] leq(b, a) implies a == b by {
        lemma_text_le_antisymm(a.name, b.name);
    }
    assert forall|a: Item, b: Item, c: Item| #[trigger]
        leq(a, b) && #[trigger] leq(b, c) implies leq(a, c) by {
        if a.is_dir == b.is_dir && b.is_dir == c.is_dir {
            lemma_text_le_trans(a.name, b.name, c.name);
        }
    }
    assert forall|a: Item, b: Item| #[trigger] leq(a, b) || #[trigger] leq(b, a) by {
        lemma_text_le_total(a.name, b.name);
    }
}

/// Whether `a` comes before `b` in the dictionary, or is `b`.
fn is_text_le(a: &[char], b: &[char]) -> (le: bool)
    ensures
        le == text_le(a@, b@),
{
    let mut i: usize = 0;
    assert(a@.skip(0) == a@);
    assert(b@.skip(0) == b@);
    while i < a.len() && i < b.len()
        invariant
            i <= a@.len(),
            i <= b@.len(),
            text_le(a@, b@) == text_le(a@.skip(i as int), b@.skip(i as int)),
        decreases a@.len() - i,
    {
        if a[i] != b[i] {
            return a[i] < b[i];
        }
        assert(a@.skip(i as int).drop_first() == a@.skip(i + 1));
        assert(b@.skip(i as int).drop_first() == b@.skip(i + 1));
        i = i + 1;
    }
    i == a.len()
}

/// Whether `a` comes before `b` in a listing, or is `b`.
fn is_item_le(a: &Entry, b: &Entry) -> (le: bool)
    ensures
        le == item_le(a@, b@),
{
    if a.is_dir != b.is_dir {
        a.is_dir
    } else {
        is_text_le(to_chars(a.name.as_str()).as_slice(), to_chars(b.name.as_str()).as_slice())
    }
}

/// Puts an entry into a sorted list, behind those that are not greater.
fn insert_sorted(list: &mut Vec<Entry>, entry: Entry)
    requires
        sorted_by(items(old(list)@), listing_order()),
    ensures
        sorted_by(items(final(list)@), listing_order()),
        items(final(list)@).to_multiset() == items(old(list)@).to_multiset().insert(entry@),
{
    let leq = Ghost(listing_order());
    let ghost before = items(list@);
    let ghost item = entry@;
    let mut at: usize = list.len();
    while at > 0 && !is_item_le(&list[at - 1], &entry)
        invariant
            before == items(list@),
            item == entry@,
            at <= list@.len(),
            forall|j: int| at <= j < before.len() ==> !item_le(#[trigger] before[j], item),
        decreases at,
    {
        assert(before[at - 1] == list@[at - 1]@);
        at = at - 1;
    }
    proof {
        law_listing_order_is_total();
        if at > 0 {
            assert(before[at - 1] == list@[at - 1]@);
        }
    }
    list.insert(at, entry);
    proof {
        let after = items(list@);
        assert(after == before.insert(at as int, item));
        vstd::seq_lib::to_multiset_insert(before, at as int, item);
        let order = leq@;
        assert forall|i: int, j: int| 0 <= i < j < after.len() implies #[trigger] order(
            after[i],
            after[j],
        ) by {
            if j < at {
                assert(order(before[i], before[j]));
            } else if i > at {
                assert(order(before[i - 1], before[j - 1]));
            } else if i < at && j > at {
                assert(order(before[i], before[j - 1]));
            } else if j == at {
                assert(order(before[at - 1], item));
                if i < at - 1 {
                    assert(order(before[i], before[at - 1]));
                }
            } else {
                assert(i == at);
                assert(!item_le(before[j - 1], item));
                lemma_text_le_total(before[j - 1].name, item.name);
            }
        }
    }
}

/// The listing of a directory: the entries without dot files, directories first,
/// and then by the alphabet.
pub fn list_entries(entries: &Vec<RawEntry>, edition: Edition) -> (list: Vec<Entry>)
    ensures
        items(list@) == listing(entries@, edition),
        sorted_by(items(list@), listing_order()),
        items(list@).to_multiset() == visible(entries@, edition).to_multiset(),
{
    let mut list: Vec<Entry> = Vec::new();
    proof {
        assert(items(list@) == Seq::<Item>::empty());
        assert(visible(entries@.take(0), edition) == Seq::<Item>::empty());
    }
    for i in 0..entries.len()
        invariant
            sorted_by(items(list@), listing_order()),
            items(list@).to_multiset() == visible(entries@.take(i as int), edition).to_multiset(),
    {
        let ghost seen = visible(entries@.take(i as int), edition);
        proof {
            assert(entries@.take(i + 1).drop_last() == entries@.take(i as int));
            assert(entries@.take(i + 1).last() == entries@[i as int]);
        }
        let is_dir: Option<bool> = match (entries[i].is_dir, edition) {
            (Some(is_dir), _) => Some(is_dir),
            (None, Edition::Plain) => Some(false),
            (None, Edition::Reader) => None,
        };
        match (&entries[i].name, is_dir) {
            (Some(name), Some(is_dir)) => {
                if !starts_with(to_chars(name.as_str()).as_slice(), ".") {
                    let entry = Entry { name: name.clone(), is_dir };
                    proof {
                        vstd::seq_lib::to_multiset_build(seen, entry@);
                    }
                    insert_sorted(&mut list, entry);
                }
            },
            _ => {},
        }
    }
    proof {
        assert(entries@.take(entries@.len() as int) == entries@);
        law_listing_order_is_total();
        visible(entries@, edition).lemma_sort_by_ensures(listing_order());
        vstd::seq_lib::lemma_sorted_unique(
            items(list@),
            listing(entries@, edition),
            listing_order(),
        );
    }
    list
}

/// What an entry is shown as, and linked to: its name, with a slash behind that
/// of a directory.
pub open spec fn display(item: Item) -> Seq<char> {
    if item.is_dir {
        item.name + "/"@
    } else {
        item.name
    }
}

/// What an entry is shown as, and linked to.
fn display_name(entry: &Entry) -> (text: String)
    ensures
        text@ == display(entry@),
{
    let mut text = entry.name.clone();
    if entry.is_dir {
        text.append("/");
    }
    text
}

/// The title of the page for the directory `rel_path`.
pub open spec fn page_title(rel_path: Seq<char>) -> Seq<char> {
    if rel_path.len() == 0 {
        "Index"@
    } else {
        rel_path.skip(after_last(rel_path, '/'))
    }
}

/// The lines of a listing, each a link.
pub open spec fn listing_lines(list: Seq<Item>) -> Seq<char>
    decreases list.len(),
{
    if list.len() == 0 {
        seq![]
    } else {
        let text = escaped(display(list.last()));
        listing_lines(list.drop_last()) + ("<a href=\""@ + text + "\">"@ + text + "</a>\n"@)
    }
}

/// The page that lists the directory `rel_path`.
pub open spec fn listing_page(rel_path: Seq<char>, list: Seq<Item>) -> Seq<char> {
    "<!DOCTYPE html>\n<html>\n<head><meta charset=\"utf-8\"><title>"@ + escaped(
        page_title(rel_path),
    ) + "</title></head>\n<body>\n<pre>\n"@ + (if rel_path.len() == 0 {
        seq![]
    } else {
        "<a href=\"../\">../</a>\n"@
    }) + listing_lines(list) + "</pre>\n</body>\n</html>\n"@
}

/// The page that lists the directory `rel_path`, with a link to the directory
/// above it unless it is the root.
pub fn render_directory(entries: &Vec<RawEntry>, rel_path: &str) -> (html: String)
    ensures
        html@ == listing_page(rel_path@, listing(entries@, Edition::Plain)),
{
    let list = list_entries(entries, Edition::Plain);
    let rel = to_chars(rel_path);
    let title: String = if rel.len() == 0 {
        String::from_str("Index")
    } else {
        let from = scan_after_last(rel.as_slice(), '/');
        proof {
            lemma_after_last(rel@, '/');
        }
        let last = slice_copy(rel.as_slice(), from, rel.len());
        assert(last@ == rel@.skip(from as int));
        to_text(last.as_slice())
    };
    let mut html = String::from_str(
        "<!DOCTYPE html>\n<html>\n<head><meta charset=\"utf-8\"><title>",
    );
    html.append(escape_html(title.as_str()).as_str());
    html.append("</title></head>\n<body>\n<pre>\n");
    let ghost above = html@;
    if rel.len() > 0 {
        html.append("<a href=\"../\">../</a>\n");
    }
    let ghost head = html@;
    let ghost all = items(list@);
    proof {
        let link = if rel_path@.len() == 0 {
            Seq::<char>::empty()
        } else {
            "<a href=\"../\">../</a>\n"@
        };
        assert(head == above + link);
        assert(head + listing_lines(all.take(0)) == head);
    }
    for i in 0..list.len()
        invariant
            all == items(list@),
            html@ == head + listing_lines(all.take(i as int)),
    {
        let ghost before = html@;
        assert(all.take(i + 1).drop_last() == all.take(i as int));
        assert(all.take(i + 1).last() == list@[i as int]@);
        let text = escape_html(display_name(&list[i]).as_str());
        html.append("<a href=\"");
        html.append(text.as_str());
        html.append("\">");
        html.append(text.as_str());
        html.append("</a>\n");
        assert(html@ == before + ("<a href=\""@ + text@ + "\">"@ + text@ + "</a>\n"@));
        assert(html@ == head + listing_lines(all.take(i + 1)));
    }
    assert(all.take(all.len() as int) == all);
    html.append("</pre>\n</body>\n</html>\n");
    html
}

/// An entry of a directory as the reader shows it.
pub struct EntryInfo {
    pub url: String,
    pub is_dir: bool,
    pub is_book: bool,
    pub name: String,
}

/// A directory as the reader shows it.
pub struct DirectoryView {
    pub current_path: String,
    pub breadcrumbs: Vec<Breadcrumb>,
    pub parent_url: Option<String>,
    pub entries: Vec<EntryInfo>,
}

/// The file whose presence makes a book of the directory `name` in `full_path`.
pub open spec fn book_marker(full_path: Seq<char>, name: Seq<char>) -> Seq<char> {
    joined(joined(full_path, name), "index.json"@)
}

/// The file whose presence makes a book of the directory `name` in `full_path`.
pub fn book_marker_path(full_path: &str, name: &str) -> (file: String)
    ensures
        file@ == book_marker(full_path@, name@),
{
    let dir = join(to_chars(full_path).as_slice(), to_chars(name).as_slice());
    let file = join(dir.as_slice(), to_chars("index.json").as_slice());
    to_text(file.as_slice())
}

/// The entry `info` shows the item `item`, which has a marker or not.
pub open spec fn shows(info: EntryInfo, item: Item, has_marker: bool) -> bool {
    &&& info.name@ == item.name
    &&& info.url@ == display(item)
    &&& info.is_dir == item.is_dir
    &&& info.is_book == (item.is_dir && has_marker)
}

/// The directory `rel_path` with the entries `list` as the reader shows it;
/// `has_marker` tells for each entry whether its marker was found.
pub fn directory_view(rel_path: &str, list: &Vec<Entry>, has_marker: &Vec<bool>) -> (view:
    DirectoryView)
    requires
        has_marker@.len() == list@.len(),
    ensures
        view.current_path@ == if rel_path@.len() == 0 {
            "/"@
        } else {
            "/"@ + rel_path@ + "/"@
        },
        crumb_views(view.breadcrumbs@) == trail(rel_path@),
        match view.parent_url {
            Some(url) => rel_path@.len() > 0 && url@ == "../"@,
            None => rel_path@.len() == 0,
        },
        view.entries@.len() == list@.len(),
        forall|i: int|
            0 <= i < list@.len() ==> shows(
                #[trigger] view.entries@[i],
                list@[i]@,
                has_marker@[i],
            ),
{
    let at_root = rel_path.is_empty();
    let mut current_path = String::from_str("/");
    if !at_root {
        current_path.append(rel_path);
        current_path.append("/");
    }
    let parent_url: Option<String> = if at_root {
        None
    } else {
        Some(String::from_str("../"))
    };
    let mut entries: Vec<EntryInfo> = Vec::new();
    for i in 0..list.len()
        invariant
            has_marker@.len() == list@.len(),
            entries@.len() == i,
            forall|j: int|
                0 <= j < i ==> shows(#[trigger] entries@[j], list@[j]@, has_marker@[j]),
    {
        let entry = &list[i];
        entries.push(
            EntryInfo {
                url: display_name(entry),
                is_dir: entry.is_dir,
                is_book: entry.is_dir && has_marker[i],
                name: entry.name.clone(),
            },
        );
    }
    DirectoryView { current_path, breadcrumbs: build_breadcrumbs(rel_path), parent_url, entries }
}

/// In a listing no file comes before a directory, and names go by the alphabet
/// among the directories and among the files.
pub proof fn law_listing_is_ordered(entries: Seq<RawEntry>, edition: Edition, i: int, j: int)
    requires
        0 <= i < j < listing(entries, edition).len(),
    ensures
        ({
            let a = listing(entries, edition)[i];
            let b = listing(entries, edition)[j];
            &&& b.is_dir ==> a.is_dir
            &&& a.is_dir == b.is_dir ==> text_le(a.name, b.name)
        }),
{
    law_listing_order_is_total();
    visible(entries, edition).lemma_sort_by_ensures(listing_order());
    let order = listing_order();
    assert(order(listing(entries, edition)[i], listing(entries, edition)[j]));
}

/// No dot file is ever listed.
pub proof fn law_no_dot_files(entries: Seq<RawEntry>, edition: Edition, i: int)
    requires
        0 <= i < listing(entries, edition).len(),
    ensures
        !begins_with(listing(entries, edition)[i].name, "."@),
{
    law_listing_order_is_total();
    visible(entries, edition).lemma_sort_by_ensures(listing_order());
    let item = listing(entries, edition)[i];
    assert(listing(entries, edition).contains(item));
    assert(visible(entries, edition).contains(item));
    lemma_visible_names(entries, edition, item);
}

proof fn lemma_visible_names(entries: Seq<RawEntry>, edition: Edition, item: Item)
    requires
        visible(entries, edition).contains(item),
    ensures
        !begins_with(item.name, "."@),
    decreases entries.len(),
{
    let all = visible(entries, edition);
    let k = choose|k: int| 0 <= k < all.len() && all[k] == item;
    if entries.len() > 0 {
        let before = visible(entries.drop_last(), edition);
        if k < before.len() {
            assert(before[k] == item);
            lemma_visible_names(entries.drop_last(), edition, item);
        }
    }
}

/// The entry is to be listed: its name is readable and does not begin with a dot, and it
/// could be told whether it is a directory, which the plain edition does not need.
pub open spec fn is_listed(entry: RawEntry, edition: Edition) -> bool {
    &&& entry.name matches Some(name) && !(name@.len() > 0 && name@[0] == '.')
    &&& entry.is_dir is Some || edition is Plain
}

/// How many of the first `n` entries are to be listed.
pub open spec fn count_listed(entries: Seq<RawEntry>, n: int, edition: Edition) -> int
    decreases n,
{
    if n <= 0 {
        0
    } else {
        count_listed(entries, n - 1, edition) + if is_listed(entries[n - 1], edition) {
            1int
        } else {
            0
        }
    }
}

/// Everything that is not a dot file is listed, under its name and as what it is, and
/// nothing else: the listing has as many items as there are such entries.
pub proof fn law_everything_else_is_listed(entries: Seq<RawEntry>, edition: Edition, i: int)
    requires
        0 <= i < entries.len(),
    ensures
        listing(entries, edition).len() == count_listed(entries, entries.len() as int, edition),
        is_listed(entries[i], edition) ==> listing(entries, edition).contains(
            Item {
                name: entries[i].name->0@,
                is_dir: match entries[i].is_dir {
                    Some(is_dir) => is_dir,
                    None => false,
                },
            },
        ),
{
    law_listing_order_is_total();
    let seen = visible(entries, edition);
    seen.lemma_sort_by_ensures(listing_order());
    let list = listing(entries, edition);
    seen.to_multiset_ensures();
    list.to_multiset_ensures();
    lemma_visible_count(entries, edition);
    assert(list.len() == seen.len());
    if is_listed(entries[i], edition) {
        let item = Item {
            name: entries[i].name->0@,
            is_dir: match entries[i].is_dir {
                Some(is_dir) => is_dir,
                None => false,
            },
        };
        lemma_visible_holds(entries, edition, i, item);
        assert(seen.to_multiset().count(item) > 0);
        assert(list.to_multiset().count(item) > 0);
    }
}

proof fn lemma_listed_as(entry: RawEntry, edition: Edition)
    ensures
        is_listed(entry, edition) <==> listed_as(entry, edition) is Some,
        is_listed(entry, edition) ==> listed_as(entry, edition) == Some(
            Item {
                name: entry.name->0@,
                is_dir: match entry.is_dir {
                    Some(is_dir) => is_dir,
                    None => false,
                },
            },
        ),
{
    reveal_strlit(".");
    if let Some(name) = entry.name {
        if name@.len() > 0 {
            assert(name@.subrange(0, 1)[0] == name@[0]);
            if name@[0] == '.' {
                assert(name@.subrange(0, 1) == "."@);
            }
        }
    }
}

proof fn lemma_count_same(a: Seq<RawEntry>, b: Seq<RawEntry>, n: int, edition: Edition)
    requires
        n <= a.len(),
        n <= b.len(),
        forall|i: int| 0 <= i < n ==> a[i] == b[i],
    ensures
        count_listed(a, n, edition) == count_listed(b, n, edition),
    decreases n,
{
    if n > 0 {
        lemma_count_same(a, b, n - 1, edition);
        assert(a[n - 1] == b[n - 1]);
    }
}

proof fn lemma_visible_count(entries: Seq<RawEntry>, edition: Edition)
    ensures
        visible(entries, edition).len() == count_listed(entries, entries.len() as int, edition),
    decreases entries.len(),
{
    if entries.len() > 0 {
        lemma_visible_count(entries.drop_last(), edition);
        lemma_count_same(entries, entries.drop_last(), entries.len() - 1, edition);
        lemma_listed_as(entries.last(), edition);
    }
}

proof fn lemma_visible_holds(entries: Seq<RawEntry>, edition: Edition, i: int, item: Item)
    requires
        0 <= i < entries.len(),
        is_listed(entries[i], edition),
        item == (Item {
            name: entries[i].name->0@,
            is_dir: match entries[i].is_dir {
                Some(is_dir) => is_dir,
                None => false,
            },
        }),
    ensures
        visible(entries, edition).contains(item),
    decreases entries.len(),
{
    let front = entries.drop_last();
    let before = visible(front, edition);
    let all = visible(entries, edition);
    if i < front.len() {
        assert(front[i] == entries[i]);
        lemma_visible_holds(front, edition, i, item);
        let k = choose|k: int| 0 <= k < before.len() && before[k] == item;
        assert(all[k] == item);
    } else {
        lemma_listed_as(entries[i], edition);
        assert(all[before.len() as int] == item);
    }
}

/// Nothing is listed twice as often as it was read: the listing is the entries that were
/// read, in another order.
pub proof fn law_listing_only_orders(entries: Seq<RawEntry>, edition: Edition)
    ensures
        listing(entries, edition).to_multiset() == visible(entries, edition).to_multiset(),
{
    law_listing_order_is_total();
    visible(entries, edition).lemma_sort_by_ensures(listing_order());
}

/// Names go by their first different character, and a name comes before every longer one
/// that begins with it.
pub proof fn law_order_of_names(p: Seq<char>, x: char, u: Seq<char>, y: char, v: Seq<char>)
    ensures
        text_le(p, p + u),
        u.len() > 0 ==> !text_le(p + u, p),
        x < y ==> text_le(p + seq![x] + u, p + seq![y] + v),
        x < y ==> !text_le(p + seq![y] + v, p + seq![x] + u),
    decreases p.len(),
{
    let a = p + seq![x] + u;
    let b = p + seq![y] + v;
    if p.len() > 0 {
        let q = p.drop_first();
        law_order_of_names(q, x, u, y, v);
        assert((p + u).drop_first() == q + u);
        assert(a.drop_first() == q + seq![x] + u);
        assert(b.drop_first() == q + seq![y] + v);
    } else {
        assert(p + u == u);
        assert(a[0] == x);
        assert(b[0] == y);
    }
}

/// What an entry is shown as: its name, and behind that of a directory a slash.
pub proof fn law_shown_as(item: Item)
    ensures
        item.is_dir ==> display(item) == item.name + seq!['/'],
        !item.is_dir ==> display(item) == item.name,
{
    reveal_strlit("/");
    assert("/"@ == seq!['/']);
}

/// The lines of two listings, one behind the other, are those of the one and then those
/// of the other; the line of an entry is a link to it, escaped.
pub proof fn law_listing_lines_one_by_one(a: Seq<Item>, b: Seq<Item>, item: Item)
    ensures
        listing_lines(a + b) == listing_lines(a) + listing_lines(b),
        listing_lines(seq![]) == Seq::<char>::empty(),
        listing_lines(seq![item]) == "<a href=\""@ + escaped(display(item)) + "\">"@ + escaped(
            display(item),
        ) + "</a>\n"@,
    decreases b.len(),
{
    reveal_with_fuel(listing_lines, 2);
    assert(seq![item].drop_last() == Seq::<Item>::empty());
    let line = "<a href=\""@ + escaped(display(item)) + "\">"@ + escaped(display(item))
        + "</a>\n"@;
    assert(Seq::<char>::empty() + line == line);
    if b.len() == 0 {
        assert(a + b == a);
        assert(listing_lines(a) + Seq::<char>::empty() == listing_lines(a));
    } else {
        law_listing_lines_one_by_one(a, b.drop_last(), item);
        assert((a + b).drop_last() == a + b.drop_last());
        let text = escaped(display(b.last()));
        let last = "<a href=\""@ + text + "\">"@ + text + "</a>\n"@;
        assert(listing_lines(a) + listing_lines(b.drop_last()) + last == listing_lines(a) + (
        listing_lines(b.drop_last()) + last));
    }
}

/// The page of a directory: titled by the last part of its path, with a link to the
/// directory above it and a line for each entry; the root is called the index and has
/// nothing above it.
pub proof fn law_listing_page_shows(above: Seq<char>, name: Seq<char>, list: Seq<Item>)
    requires
        !name.contains('/'),
    ensures
        ({
            let head = "<!DOCTYPE html>\n<html>\n<head><meta charset=\"utf-8\"><title>"@;
            let body = "</title></head>\n<body>\n<pre>\n"@;
            let up = "<a href=\"../\">../</a>\n"@;
            let end = "</pre>\n</body>\n</html>\n"@;
            &&& listing_page(above + seq!['/'] + name, list) == head + escaped(name) + body + up
                + listing_lines(list) + end
            &&& name.len() > 0 ==> listing_page(name, list) == head + escaped(name) + body + up
                + listing_lines(list) + end
            &&& listing_page(seq![], list) == head + escaped("Index"@) + body + listing_lines(list)
                + end
        }),
{
    let p = above + seq!['/'] + name;
    let cut = above.len() as int + 1;
    assert(p[cut - 1] == '/');
    assert forall|i: int| cut <= i < p.len() implies p[i] != '/' by {
        assert(p[i] == name[i - cut]);
        assert(name.contains(name[i - cut]));
    }
    crate::text::lemma_after_last_is(p, '/', cut);
    assert(p.skip(cut) == name);
    assert forall|i: int| 0 <= i < name.len() implies name[i] != '/' by {
        assert(name.contains(name[i]));
    }
    crate::text::lemma_after_last_is(name, '/', 0);
    assert(name.skip(0) == name);
    let head = "<!DOCTYPE html>\n<html>\n<head><meta charset=\"utf-8\"><title>"@ + escaped(
        "Index"@,
    ) + "</title></head>\n<body>\n<pre>\n"@;
    assert(head + Seq::<char>::empty() == head);
}

/// A directory is a book just when its index is there: the index of the directory `name`
/// in `full_path`.
pub proof fn law_marker_of_a_book(full_path: Seq<char>, name: Seq<char>)
    requires
        full_path.len() > 0,
        full_path.last() != '/',
        crate::path::laws::is_name(name),
    ensures
        book_marker(full_path, name) == full_path + seq!['/'] + name + seq!['/'] + "index.json"@,
{
    reveal_strlit("index.json");
    assert(name.contains(name[0]));
    assert(name.contains(name[name.len() - 1]));
    let dir = full_path + seq!['/'] + name;
    assert(joined(full_path, name) == dir);
    assert(dir.last() == name[name.len() - 1]);
}

/// How an entry is shown: under its name, linked to what it is shown as, and as a book
/// just when it is a directory with a marker.
pub proof fn law_how_an_entry_is_shown(info: EntryInfo, item: Item, has_marker: bool)
    ensures
        shows(info, item, has_marker) <==> info.name@ == item.name && info.is_dir == item.is_dir
            && info.is_book == (item.is_dir && has_marker) && info.url@ == display(item),
{
}

/// What a listing holds, one by one.
pub proof fn law_items_one_by_one(entries: Seq<Entry>, i: int)
    requires
        0 <= i < entries.len(),
    ensures
        items(entries).len() == entries.len(),
        items(entries)[i].name == entries[i].name@,
        items(entries)[i].is_dir == entries[i].is_dir,
{
}

} // verus!
