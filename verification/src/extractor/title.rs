//! The title of a section page.

use vstd::prelude::*;

use crate::text::{
    ascii_lower, find, find_chars, find_from, lemma_find_from, occurs_at, slice_copy,
    to_ascii_lowercase, to_chars, to_text, trim, trimmed,
};

verus! {

/// Where the text of the page's title stands: from behind the first `<title>` up
/// to the next `</title>`, in whatever case they are written.
pub open spec fn title_span(html: Seq<char>) -> Option<(int, int)> {
    let lower = ascii_lower(html);
    match find(lower, "<title>"@) {
        Some(at) => {
            let start = at + "<title>"@.len();
            match find_from(lower, "</title>"@, start) {
                Some(end) => Some((start, end)),
                None => None,
            }
        },
        None => None,
    }
}

/// The text of the title tag of a page, without the white space around it, where
/// anything is left.
pub open spec fn tag_text(html: Seq<char>) -> Option<Seq<char>> {
    match title_span(html) {
        Some((start, end)) => {
            let title = trimmed(html.subrange(start, end));
            if title.len() == 0 {
                None
            } else {
                Some(title)
            }
        },
        None => None,
    }
}

/// The title of a page: what stands between `<title>` and `</title>`, in
/// whatever case they are written, without the white space around it.
pub fn extract_title_from_html(html: &str) -> (title: Option<String>)
    ensures
        match title {
            Some(t) => tag_text(html@) == Some(t@),
            None => tag_text(html@) is None,
        },
{
    let chars = to_chars(html);
    let lower = to_ascii_lowercase(chars.as_slice());
    let open = to_chars("<title>");
    let close = to_chars("</title>");
    proof {
        lemma_find_from(lower@, open@, 0);
    }
    match find_chars(lower.as_slice(), open.as_slice(), 0) {
        Some(at) => {
            let n: usize = lower.len();
            assert(at + open@.len() <= n);
            let start: usize = at + open.len();
            proof {
                lemma_find_from(lower@, close@, start as int);
            }
            match find_chars(lower.as_slice(), close.as_slice(), start) {
                Some(end) => {
                    let title = slice_copy(chars.as_slice(), start, end);
                    let kept = trim(title.as_slice());
                    if kept.len() == 0 {
                        None
                    } else {
                        Some(to_text(kept.as_slice()))
                    }
                },
                None => None,
            }
        },
        None => None,
    }
}

/// The title of a page is the text of its title tag, whatever stands before and
/// behind the tag and however the tag is written.
pub proof fn law_title_is_the_text_of_its_tag(
    before: Seq<char>,
    open: Seq<char>,
    title: Seq<char>,
    close: Seq<char>,
    behind: Seq<char>,
)
    requires
        ascii_lower(open) == "<title>"@,
        ascii_lower(close) == "</title>"@,
        find(ascii_lower(before + open + title + close + behind), "<title>"@) == Some(
            before.len() as int,
        ),
        forall|i: int| !#[trigger] occurs_at(ascii_lower(title + close).drop_last(), "</title>"@, i),
    ensures
        tag_text(before + open + title + close + behind) == if trimmed(title).len() == 0 {
            None
        } else {
            Some(trimmed(title))
        },
{
    let html = before + open + title + close + behind;
    let lower = ascii_lower(html);
    let tag = "</title>"@;
    let start = before.len() as int + "<title>"@.len();
    let end = start + title.len();
    let inner = ascii_lower(title + close).drop_last();
    reveal_strlit("</title>");
    assert(open.len() == "<title>"@.len()) by {
        assert(ascii_lower(open).len() == open.len());
    }
    assert(close.len() == tag.len()) by {
        assert(ascii_lower(close).len() == close.len());
    }
    assert(occurs_at(lower, tag, end)) by {
        assert(lower.subrange(end, end + tag.len()) == ascii_lower(close));
    }
    assert forall|j: int| start <= j < end implies !#[trigger] occurs_at(lower, tag, j) by {
        if occurs_at(lower, tag, j) {
            let i = j - start;
            assert(inner.subrange(i, i + tag.len()) == lower.subrange(j, j + tag.len()));
            assert(occurs_at(inner, tag, i));
        }
    }
    lemma_find_from(lower, tag, start);
    assert(html.subrange(start, end) == title);
}

/// A page has no title where it has no title tag, or none that is closed.
pub proof fn law_page_without_a_title(html: Seq<char>, at: int)
    requires
        forall|i: int| !#[trigger] occurs_at(ascii_lower(html), "<title>"@, i) || i >= at,
        forall|i: int| i >= at ==> !#[trigger] occurs_at(ascii_lower(html), "</title>"@, i),
        0 <= at,
    ensures
        tag_text(html) is None,
{
    let lower = ascii_lower(html);
    lemma_find_from(lower, "<title>"@, 0);
    if let Some(k) = find(lower, "<title>"@) {
        lemma_find_from(lower, "</title>"@, k + "<title>"@.len());
        assert(k >= at);
    }
}

} // verus!
