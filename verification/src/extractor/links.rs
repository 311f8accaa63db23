//! References from a section page to the other files of its book.

use vstd::prelude::*;
use vstd::slice::slice_subrange;

use crate::path::{
    component_seq, join, joined, normal_form, normalize, parent, parent_path, prefix_stripped,
    resolved, strip_prefix,
};
use crate::text::{
    begins_with, find, find_chars, lemma_find_from, lemma_until, lemma_until_is, occurs_at,
    scan_until, slice_copy, starts_with, to_chars, to_text, until,
};

pub mod laws;

verus! {

/// An ASCII letter.
pub open spec fn is_letter(c: char) -> bool {
    'a' <= c <= 'z' || 'A' <= c <= 'Z'
}

/// A character of a URL scheme.
pub open spec fn is_scheme_char(c: char) -> bool {
    is_letter(c) || '0' <= c <= '9' || c == '+' || c == '-' || c == '.'
}

/// A reference that begins with a scheme, like `https:` or `mailto:`: a letter,
/// more letters, digits, `+`, `-` or `.`, and a colon.
pub open spec fn has_scheme(reference: Seq<char>) -> bool {
    let k = until(reference, ':');
    &&& 0 < k < reference.len()
    &&& is_letter(reference[0])
    &&& forall|i: int| 0 <= i < k ==> is_scheme_char(#[trigger] reference[i])
}

/// A reference that is left as it is: one that begins with a scheme, one into the
/// page itself, or none at all.
pub open spec fn is_external(reference: Seq<char>) -> bool {
    ||| has_scheme(reference)
    ||| begins_with(reference, "#"@)
    ||| reference.len() == 0
}

/// `path` below `base`, or `path` itself where it is not below it.
pub open spec fn relative_to(path: Seq<char>, base: Seq<char>) -> Seq<char> {
    match prefix_stripped(path, base) {
        Some(rest) => rest,
        None => path,
    }
}

/// The directory that holds the file `path`.
pub open spec fn directory_of(path: Seq<char>) -> Seq<char> {
    match parent_path(path) {
        Some(dir) => dir,
        None => seq![],
    }
}

/// What a reference in a section of the directory `dir` becomes: the path of
/// what it leads to, seen from the book's root `base`.
pub open spec fn rewritten_ref(reference: Seq<char>, dir: Seq<char>, base: Seq<char>) -> Seq<
    char,
> {
    if is_external(reference) {
        reference
    } else {
        relative_to(normal_form(joined(dir, reference)), base)
    }
}

/// `s` with the reference behind each `attr`, up to the next `quote`,
/// rewritten. An `attr` whose quote is never closed ends the search.
pub open spec fn attr_rewritten(
    s: Seq<char>,
    attr: Seq<char>,
    quote: char,
    dir: Seq<char>,
    base: Seq<char>,
) -> Seq<char>
    decreases s.len(),
{
    match find(s, attr) {
        Some(at) => {
            proof {
                lemma_find_from(s, attr, 0);
            }
            let from = at + attr.len();
            let rest = s.skip(from);
            let end = until(rest, quote);
            proof {
                lemma_until(rest, quote);
            }
            if attr.len() > 0 && end < rest.len() {
                s.take(from) + rewritten_ref(rest.take(end), dir, base) + attr_rewritten(
                    rest.skip(end),
                    attr,
                    quote,
                    dir,
                    base,
                )
            } else {
                s
            }
        },
        None => s,
    }
}

/// The page `html` of the section file `section` with every `src` and `href`
/// rewritten to lead from the book's root `base`.
pub open spec fn links_rewritten(html: Seq<char>, section: Seq<char>, base: Seq<char>) -> Seq<
    char,
> {
    let dir = directory_of(section);
    let s = attr_rewritten(html, "src=\""@, '"', dir, base);
    let s = attr_rewritten(s, "src='"@, '\'', dir, base);
    let s = attr_rewritten(s, "href=\""@, '"', dir, base);
    attr_rewritten(s, "href='"@, '\'', dir, base)
}

/// Whether a reference begins with a scheme.
fn begins_with_scheme(reference: &[char]) -> (b: bool)
    ensures
        b == has_scheme(reference@),
{
    assert(reference@.skip(0) == reference@);
    let k = scan_until(reference, ':', 0);
    if k == 0 || k == reference.len() {
        return false;
    }
    let first = reference[0];
    if !(('a' <= first && first <= 'z') || ('A' <= first && first <= 'Z')) {
        return false;
    }
    for i in 0..k
        invariant
            k < reference@.len(),
            k == until(reference@, ':'),
            forall|j: int| 0 <= j < i ==> is_scheme_char(#[trigger] reference@[j]),
    {
        let c = reference[i];
        let letter = ('a' <= c && c <= 'z') || ('A' <= c && c <= 'Z');
        if !(letter || ('0' <= c && c <= '9') || c == '+' || c == '-' || c == '.') {
            assert(!is_scheme_char(reference@[i as int]));
            return false;
        }
    }
    true
}

/// Whether a reference is left as it is.
fn is_left(reference: &[char]) -> (b: bool)
    ensures
        b == is_external(reference@),
{
    begins_with_scheme(reference) || starts_with(reference, "#") || reference.len() == 0
}

/// `path` below `base`, or `path` itself where it is not below it.
pub fn below(path: &[char], base: &[char]) -> (rest: Vec<char>)
    ensures
        rest@ == relative_to(path@, base@),
{
    match strip_prefix(path, base) {
        Some(rest) => rest,
        None => {
            let whole = slice_copy(path, 0, path.len());
            assert(whole@ == path@);
            whole
        },
    }
}

/// What a reference becomes.
fn rewrite_ref(reference: &[char], dir: &[char], base: &[char]) -> (target: Vec<char>)
    ensures
        target@ == rewritten_ref(reference@, dir@, base@),
{
    if is_left(reference) {
        let same = slice_copy(reference, 0, reference.len());
        assert(same@ == reference@);
        same
    } else {
        let whole = join(dir, reference);
        below(normalize(whole.as_slice()).as_slice(), base)
    }
}

/// Rewrites the references behind one attribute.
fn rewrite_attr(s: &[char], attr: &str, quote: char, dir: &[char], base: &[char]) -> (out: Vec<
    char,
>)
    requires
        attr@.len() > 0,
    ensures
        out@ == attr_rewritten(s@, attr@, quote, dir@, base@),
{
    let pat = to_chars(attr);
    let mut out: Vec<char> = Vec::new();
    let mut pos: usize = 0;
    let n: usize = s.len();
    assert(s@.skip(0) == s@);
    loop
        invariant
            n == s@.len(),
            pos <= n,
            pat@ == attr@,
            pat@.len() > 0,
            out@ + attr_rewritten(s@.skip(pos as int), attr@, quote, dir@, base@)
                == attr_rewritten(s@, attr@, quote, dir@, base@),
        decreases n - pos,
    {
        let rem = slice_subrange(s, pos, n);
        let ghost before = out@;
        assert(rem@ == s@.skip(pos as int));
        proof {
            lemma_find_from(rem@, pat@, 0);
        }
        match find_chars(rem, pat.as_slice(), 0) {
            Some(at) => {
                let from = at + pat.len();
                let end = scan_until(rem, quote, from);
                let ghost rest = rem@.skip(from as int);
                if end == rem.len() {
                    out.extend_from_slice(rem);
                    assert(out@ == before + rem@);
                    return out;
                }
                let head = slice_subrange(rem, 0, from);
                assert(head@ == rem@.take(from as int));
                let reference = slice_subrange(rem, from, end);
                assert(reference@ == rest.take(end - from));
                let target = rewrite_ref(reference, dir, base);
                out.extend_from_slice(head);
                assert(out@ == before + head@);
                out.extend_from_slice(target.as_slice());
                assert(out@ == before + head@ + target@);
                proof {
                    let tail = attr_rewritten(rest.skip(end - from), attr@, quote, dir@, base@);
                    assert(rest.skip(end - from) == s@.skip(pos + end));
                    assert(attr_rewritten(rem@, attr@, quote, dir@, base@) == head@ + target@
                        + tail);
                    assert(before + (head@ + target@ + tail) == before + head@ + target@ + tail);
                }
                pos = pos + end;
            },
            None => {
                out.extend_from_slice(rem);
                assert(out@ == before + rem@);
                return out;
            },
        }
    }
}

/// Rewrites the `src` and `href` attributes of a section page so that relative
/// references lead to the right files from the flat section file at the book's
/// root directory.
///
/// A section at `OEBPS/xhtml/ch01.xhtml` that refers to `../images/foo.jpg`
/// means `OEBPS/images/foo.jpg`; below the root `OEBPS` that is
/// `images/foo.jpg`, where the file is put.
pub fn rewrite_resource_paths(html: &str, section_epub_path: &str, root_base: &str) -> (page:
    String)
    ensures
        page@ == links_rewritten(html@, section_epub_path@, root_base@),
{
    let base = to_chars(root_base);
    let section = to_chars(section_epub_path);
    let dir: Vec<char> = match parent(section.as_slice()) {
        Some(dir) => dir,
        None => Vec::new(),
    };
    assert(dir@ == directory_of(section_epub_path@));
    let s = to_chars(html);
    proof {
        reveal_strlit("src=\"");
        reveal_strlit("src='");
        reveal_strlit("href=\"");
        reveal_strlit("href='");
    }
    let s = rewrite_attr(s.as_slice(), "src=\"", '"', dir.as_slice(), base.as_slice());
    let s = rewrite_attr(s.as_slice(), "src='", '\'', dir.as_slice(), base.as_slice());
    let s = rewrite_attr(s.as_slice(), "href=\"", '"', dir.as_slice(), base.as_slice());
    let s = rewrite_attr(s.as_slice(), "href='", '\'', dir.as_slice(), base.as_slice());
    to_text(s.as_slice())
}

/// A page in which none of the attributes occurs is left as it is.
pub proof fn law_page_without_links_unchanged(html: Seq<char>, section: Seq<char>, base: Seq<char>)
    requires
        find(html, "src=\""@) is None,
        find(html, "src='"@) is None,
        find(html, "href=\""@) is None,
        find(html, "href='"@) is None,
    ensures
        links_rewritten(html, section, base) == html,
{
}

/// A reference inside the book is rewritten to the components of what it leads
/// to, without those of the root.
pub proof fn law_rewritten_ref_components(
    reference: Seq<char>,
    section: Seq<char>,
    base: Seq<char>,
)
    requires
        !is_external(reference),
    ensures
        ({
            let dir = directory_of(section);
            let target = resolved(component_seq(joined(dir, reference)));
            let written = component_seq(rewritten_ref(reference, dir, base));
            if component_seq(base).is_prefix_of(target) {
                target == component_seq(base) + written
            } else {
                target == written
            }
        }),
{
    let dir = directory_of(section);
    let whole = normal_form(joined(dir, reference));
    crate::path::laws::law_normal_components(joined(dir, reference));
    crate::path::laws::law_strip_prefix_components(whole, base);
}

/// The four markers that a reference stands behind, in the order in which they
/// are looked for.
pub open spec fn marker(k: int) -> Seq<char> {
    if k == 0 {
        "src=\""@
    } else if k == 1 {
        "src='"@
    } else if k == 2 {
        "href=\""@
    } else {
        "href='"@
    }
}

/// The quote that ends a reference behind the marker `k`.
pub open spec fn marker_quote(k: int) -> char {
    if k == 0 || k == 2 {
        '"'
    } else {
        '\''
    }
}

/// A marker ends with its quote and holds no other.
proof fn lemma_marker(k: int)
    requires
        0 <= k < 4,
    ensures
        marker(k).len() > 0,
        marker(k).last() == marker_quote(k),
        forall|i: int|
            0 <= i < marker(k).len() - 1 ==> (#[trigger] marker(k)[i]) != '"' && marker(k)[i]
                != '\'',
{
    reveal_strlit("src=\"");
    reveal_strlit("src='");
    reveal_strlit("href=\"");
    reveal_strlit("href='");
}

/// The marker `k` at `at` is the only marker in `page`.
pub open spec fn sole_marker(page: Seq<char>, k: int, at: int) -> bool {
    forall|j: int, i: int|
        0 <= j < 4 && #[trigger] occurs_at(page, marker(j), i) ==> j == k && i == at
}

/// The reference behind the marker `j` at `i` stays what it is: no quote ends it, or
/// it is rewritten to itself.
pub open spec fn ref_stays(page: Seq<char>, j: int, i: int, dir: Seq<char>, base: Seq<char>) -> bool {
    let rest = page.skip(i + marker(j).len());
    let end = until(rest, marker_quote(j));
    end < rest.len() ==> rewritten_ref(rest.take(end), dir, base) == rest.take(end)
}

/// The pass for the marker `j` leaves `page` as it is, where every reference behind
/// that marker stays.
proof fn lemma_pass_changes_nothing(page: Seq<char>, j: int, dir: Seq<char>, base: Seq<char>)
    requires
        0 <= j < 4,
        forall|i: int| #[trigger]
            occurs_at(page, marker(j), i) ==> ref_stays(page, j, i, dir, base),
    ensures
        attr_rewritten(page, marker(j), marker_quote(j), dir, base) == page,
    decreases page.len(),
{
    let m = marker(j);
    lemma_find_from(page, m, 0);
    lemma_marker(j);
    if let Some(at) = find(page, m) {
        assert(ref_stays(page, j, at, dir, base));
        let from = at + m.len();
        let rest = page.skip(from);
        let end = until(rest, marker_quote(j));
        lemma_until(rest, marker_quote(j));
        if end < rest.len() {
            let tail = rest.skip(end);
            assert forall|i: int| #[trigger] occurs_at(tail, m, i) implies ref_stays(
                tail,
                j,
                i,
                dir,
                base,
            ) by {
                let k = from + end + i;
                assert(page.subrange(k, k + m.len()) == tail.subrange(i, i + m.len()));
                assert(occurs_at(page, m, k));
                assert(page.skip(k + m.len()) == tail.skip(i + m.len()));
            }
            lemma_pass_changes_nothing(tail, j, dir, base);
            assert(page.take(from) + rest.take(end) + tail == page);
        }
    }
}

/// A marker that is not in `page` leaves it as it is.
proof fn lemma_marker_absent(page: Seq<char>, j: int, dir: Seq<char>, base: Seq<char>)
    requires
        0 <= j < 4,
        forall|i: int| !#[trigger] occurs_at(page, marker(j), i),
    ensures
        attr_rewritten(page, marker(j), marker_quote(j), dir, base) == page,
{
    lemma_find_from(page, marker(j), 0);
}

/// Where `pre` ends with a quote, and no marker `j` is in `pre` or in the quote that
/// closes `t` with `b` behind it, every one in the whole is in `t` with that quote.
proof fn lemma_marker_in_reference(
    pre: Seq<char>,
    t: Seq<char>,
    quote: char,
    b: Seq<char>,
    j: int,
)
    requires
        0 <= j < 4,
        quote == '"' || quote == '\'',
        pre.len() > 0,
        pre.last() == quote,
        forall|i: int| !#[trigger] occurs_at(pre, marker(j), i),
        forall|i: int| !#[trigger] occurs_at(seq![quote] + b, marker(j), i),
    ensures
        forall|i: int| #[trigger]
            occurs_at(pre + t + seq![quote] + b, marker(j), i) ==> occurs_at(
                t.push(quote),
                marker(j),
                i - pre.len(),
            ),
{
    let whole = pre + t + seq![quote] + b;
    let m = marker(j);
    let close = pre.len() + t.len();
    lemma_marker(j);
    assert forall|i: int| #[trigger] occurs_at(whole, m, i) implies occurs_at(
        t.push(quote),
        m,
        i - pre.len(),
    ) by {
        let part = whole.subrange(i, i + m.len());
        assert(part == m);
        if i + m.len() <= pre.len() {
            assert(pre.subrange(i, i + m.len()) == m);
            assert(occurs_at(pre, m, i));
        } else if i < pre.len() {
            let at = pre.len() - 1 - i;
            assert(part[at] == quote);
            assert(m[at] != quote);
        } else if i + m.len() <= close + 1 {
            let from = i - pre.len();
            assert(t.push(quote).subrange(from, from + m.len()) == m);
        } else if i < close {
            let at = close - i;
            assert(part[at] == quote);
            assert(m[at] != quote);
        } else {
            let from = i - close;
            assert((seq![quote] + b).subrange(from, from + m.len()) == m);
            assert(occurs_at(seq![quote] + b, m, from));
        }
    }
}

/// Where the page's only marker stands behind `a`, the pass for it rewrites the
/// reference `r` and leaves the rest.
proof fn lemma_pass_over_marker(
    a: Seq<char>,
    r: Seq<char>,
    b: Seq<char>,
    k: int,
    dir: Seq<char>,
    base: Seq<char>,
)
    requires
        0 <= k < 4,
        !r.contains(marker_quote(k)),
        sole_marker(
            a + marker(k) + r + seq![marker_quote(k)] + b,
            k,
            a.len() as int,
        ),
    ensures
        attr_rewritten(
            a + marker(k) + r + seq![marker_quote(k)] + b,
            marker(k),
            marker_quote(k),
            dir,
            base,
        ) == a + marker(k) + rewritten_ref(r, dir, base) + seq![marker_quote(k)] + b,
{
    let m = marker(k);
    let quote = marker_quote(k);
    let page = a + m + r + seq![quote] + b;
    let tail = seq![quote] + b;
    let from = a.len() as int + m.len();
    lemma_marker(k);
    assert(page.subrange(a.len() as int, from) == m);
    assert(occurs_at(page, m, a.len() as int));
    lemma_find_from(page, m, 0);
    let rest = page.skip(from);
    assert(rest == r + tail);
    assert forall|i: int| 0 <= i < r.len() implies rest[i] != quote by {
        assert(rest[i] == r[i]);
        assert(r.contains(r[i]));
    }
    lemma_until_is(rest, quote, r.len() as int);
    assert(rest.take(r.len() as int) == r);
    assert(rest.skip(r.len() as int) == tail);
    assert forall|i: int| !#[trigger] occurs_at(tail, m, i) by {
        if occurs_at(tail, m, i) {
            let at = from + r.len() + i;
            assert(page.subrange(at, at + m.len()) == tail.subrange(i, i + m.len()));
            assert(occurs_at(page, m, at));
        }
    }
    lemma_marker_absent(tail, k, dir, base);
    assert(page.take(from) == a + m);
    assert(a + m + rewritten_ref(r, dir, base) + tail == a + m + rewritten_ref(r, dir, base) + seq![
        quote,
    ] + b);
}

/// In a page with one reference, only the reference is rewritten; what stands
/// before and behind it is kept. This leaves out a reference that is rewritten to
/// hold, with its quote, one of the markers that are looked for later, where what
/// stands behind that marker, up to a quote, is rewritten in turn.
pub proof fn law_one_reference_is_rewritten(
    a: Seq<char>,
    r: Seq<char>,
    b: Seq<char>,
    k: int,
    section: Seq<char>,
    base: Seq<char>,
)
    requires
        0 <= k < 4,
        !r.contains(marker_quote(k)),
        sole_marker(
            a + marker(k) + r + seq![marker_quote(k)] + b,
            k,
            a.len() as int,
        ),
        forall|j: int, i: int|
            k < j < 4 && #[trigger] occurs_at(
                rewritten_ref(r, directory_of(section), base).push(marker_quote(k)),
                marker(j),
                i,
            ) ==> ref_stays(
                rewritten_ref(r, directory_of(section), base).push(marker_quote(k)) + b,
                j,
                i,
                directory_of(section),
                base,
            ),
    ensures
        links_rewritten(a + marker(k) + r + seq![marker_quote(k)] + b, section, base) == a + marker(
            k,
        ) + rewritten_ref(r, directory_of(section), base) + seq![marker_quote(k)] + b,
{
    let dir = directory_of(section);
    let m = marker(k);
    let quote = marker_quote(k);
    let page = a + m + r + seq![quote] + b;
    let t = rewritten_ref(r, dir, base);
    let pre = a + m;
    let written = pre + t + seq![quote] + b;
    lemma_marker(k);
    lemma_pass_over_marker(a, r, b, k, dir, base);
    assert forall|j: int| 0 <= j < k implies #[trigger] attr_rewritten(
        page,
        marker(j),
        marker_quote(j),
        dir,
        base,
    ) == page by {
        lemma_marker_absent(page, j, dir, base);
    }
    assert forall|j: int| k < j < 4 implies #[trigger] attr_rewritten(
        written,
        marker(j),
        marker_quote(j),
        dir,
        base,
    ) == written by {
        let mj = marker(j);
        assert forall|i: int| !#[trigger] occurs_at(pre, mj, i) by {
            if occurs_at(pre, mj, i) {
                assert(page.subrange(i, i + mj.len()) == pre.subrange(i, i + mj.len()));
                assert(occurs_at(page, mj, i));
            }
        }
        assert forall|i: int| !#[trigger] occurs_at(seq![quote] + b, mj, i) by {
            if occurs_at(seq![quote] + b, mj, i) {
                let at = pre.len() + r.len() + i;
                assert(page.subrange(at, at + mj.len()) == (seq![quote] + b).subrange(
                    i,
                    i + mj.len(),
                ));
                assert(occurs_at(page, mj, at));
            }
        }
        lemma_marker_in_reference(pre, t, quote, b, j);
        assert forall|i: int| #[trigger] occurs_at(written, mj, i) implies ref_stays(
            written,
            j,
            i,
            dir,
            base,
        ) by {
            let at = i - pre.len();
            assert(occurs_at(t.push(quote), mj, at));
            assert(ref_stays(t.push(quote) + b, j, at, dir, base));
            assert(written.skip(i + mj.len()) == (t.push(quote) + b).skip(at + mj.len()));
        }
        lemma_pass_changes_nothing(written, j, dir, base);
    }
    let s0 = attr_rewritten(page, marker(0), marker_quote(0), dir, base);
    let s1 = attr_rewritten(s0, marker(1), marker_quote(1), dir, base);
    let s2 = attr_rewritten(s1, marker(2), marker_quote(2), dir, base);
    let s3 = attr_rewritten(s2, marker(3), marker_quote(3), dir, base);
    assert(s3 == links_rewritten(page, section, base));
    assert(s0 == if k == 0 {
        written
    } else {
        page
    });
    assert(s1 == if k <= 1 {
        written
    } else {
        page
    });
    assert(s2 == if k <= 2 {
        written
    } else {
        page
    });
    assert(s3 == written);
}

/// Where a page has one reference, to a file that is taken out of the book, the
/// reference becomes the path of that file seen from the book's directory.
pub proof fn law_one_reference_meets_its_file(
    a: Seq<char>,
    r: Seq<char>,
    b: Seq<char>,
    k: int,
    section: Seq<char>,
    base: Seq<char>,
    path: Seq<char>,
)
    requires
        0 <= k < 4,
        !r.contains(marker_quote(k)),
        !is_external(r),
        normal_form(joined(directory_of(section), r)) == path,
        sole_marker(
            a + marker(k) + r + seq![marker_quote(k)] + b,
            k,
            a.len() as int,
        ),
        forall|j: int, i: int|
            k < j < 4 && #[trigger] occurs_at(
                relative_to(path, base).push(marker_quote(k)),
                marker(j),
                i,
            ) ==> ref_stays(
                relative_to(path, base).push(marker_quote(k)) + b,
                j,
                i,
                directory_of(section),
                base,
            ),
    ensures
        links_rewritten(a + marker(k) + r + seq![marker_quote(k)] + b, section, base) == a + marker(
            k,
        ) + relative_to(path, base) + seq![marker_quote(k)] + b,
{
    law_one_reference_is_rewritten(a, r, b, k, section, base);
}

} // verus!
