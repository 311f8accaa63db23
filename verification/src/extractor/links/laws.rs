//! What holds of the references of a page, however many there are.

use vstd::prelude::*;

use crate::extractor::links::{
    attr_rewritten, directory_of, is_external, links_rewritten, marker, marker_quote, relative_to,
    rewritten_ref,
};
use crate::path::laws::{are_names, is_name, law_names_are_normal, law_stripped_text, with_slashes};
use crate::path::{joined, normal_form};
use crate::text::{
    begins_with, find, lemma_find_from, lemma_until, lemma_until_is, occurs_at, until,
};

verus! {

/// An ASCII letter or digit, or one of the signs `+`, `-` and `.`.
pub open spec fn in_scheme(c: char) -> bool {
    ||| 'a' <= c <= 'z'
    ||| 'A' <= c <= 'Z'
    ||| '0' <= c <= '9'
    ||| c == '+'
    ||| c == '-'
    ||| c == '.'
}

/// A reference with a scheme, whatever the scheme and whatever follows, one into the
/// page itself, and an empty one are left as they are.
pub proof fn law_references_that_stay(
    scheme: Seq<char>,
    rest: Seq<char>,
    dir: Seq<char>,
    base: Seq<char>,
)
    requires
        scheme.len() > 0,
        'a' <= scheme[0] <= 'z' || 'A' <= scheme[0] <= 'Z',
        forall|i: int| 0 <= i < scheme.len() ==> in_scheme(#[trigger] scheme[i]),
    ensures
        rewritten_ref(scheme + seq![':'] + rest, dir, base) == scheme + seq![':'] + rest,
        rewritten_ref(seq!['#'] + rest, dir, base) == seq!['#'] + rest,
        rewritten_ref(seq![], dir, base) == Seq::<char>::empty(),
        is_external(scheme + seq![':'] + rest),
        is_external(seq!['#'] + rest),
{
    reveal_strlit("#");
    let r = scheme + seq![':'] + rest;
    assert forall|i: int| 0 <= i < scheme.len() implies r[i] != ':' by {
        assert(r[i] == scheme[i]);
        assert(in_scheme(scheme[i]));
    }
    lemma_until_is(r, ':', scheme.len() as int);
    assert forall|i: int| 0 <= i < scheme.len() implies crate::extractor::links::is_scheme_char(
        #[trigger] r[i],
    ) by {
        assert(r[i] == scheme[i]);
        assert(in_scheme(scheme[i]));
    }
    let h = seq!['#'] + rest;
    assert(h.subrange(0, 1) == "#"@);
}

/// Every other reference is resolved from the section's directory, and what it leads
/// to is seen from the book's root: one without a colon, one that does not begin with a
/// letter, or one with something before the colon that is not in a scheme.
pub proof fn law_references_that_are_resolved(
    reference: Seq<char>,
    i: int,
    dir: Seq<char>,
    base: Seq<char>,
)
    requires
        reference.len() > 0,
        reference[0] != '#',
        !reference.contains(':') || !('a' <= reference[0] <= 'z' || 'A' <= reference[0] <= 'Z')
            || 0 <= i < reference.len() && !in_scheme(reference[i])
            && reference[i] != ':' && forall|k: int|
            0 <= k < i ==> #[trigger] reference[k] != ':',
    ensures
        !is_external(reference),
        rewritten_ref(reference, dir, base) == relative_to(
            normal_form(joined(dir, reference)),
            base,
        ),
{
    reveal_strlit("#");
    assert(!begins_with(reference, "#"@)) by {
        if begins_with(reference, "#"@) {
            assert(reference.subrange(0, 1)[0] == "#"@[0]);
        }
    }
    lemma_until(reference, ':');
    let k = until(reference, ':');
    if k < reference.len() && ('a' <= reference[0] <= 'z' || 'A' <= reference[0] <= 'Z') {
        assert(reference.contains(reference[k]));
        if i < k {
            assert(!crate::extractor::links::is_scheme_char(reference[i]));
        } else if k < i {
            assert(reference[k] != ':');
        }
    }
}

/// A reference to a file is rewritten to the path of that file below the book's root:
/// from the directory of the section itself, and out of the section's directory.
pub proof fn law_reference_to_a_file(
    root: Seq<Seq<char>>,
    sub: Seq<Seq<char>>,
    inner: Seq<char>,
    names: Seq<Seq<char>>,
)
    requires
        are_names(root + sub),
        are_names(names),
        is_name(inner),
        inner != seq!['.', '.'],
        names.len() > 0,
        (root + sub).len() > 0,
        forall|i: int| 0 <= i < (root + sub).len() ==> #[trigger] (root + sub)[i] != seq!['.', '.'],
        forall|i: int| 0 <= i < names.len() ==> #[trigger] names[i] != seq!['.', '.'],
        !is_external(with_slashes(names)),
    ensures
        rewritten_ref(with_slashes(names), with_slashes(root + sub), with_slashes(root))
            == with_slashes(sub + names),
        rewritten_ref(
            seq!['.', '.', '/'] + with_slashes(names),
            with_slashes(root + sub + seq![inner]),
            with_slashes(root),
        ) == with_slashes(sub + names),
{
    let dir = root + sub;
    let all = dir + names;
    let p = with_slashes(dir);
    let n = with_slashes(names);
    assert(are_names(all)) by {
        assert forall|i: int| 0 <= i < all.len() implies is_name(#[trigger] all[i]) by {
            if i < dir.len() {
                assert(all[i] == dir[i]);
            } else {
                assert(all[i] == names[i - dir.len()]);
            }
        }
    }
    assert forall|i: int| 0 <= i < all.len() implies #[trigger] all[i] != seq!['.', '.'] by {
        if i < dir.len() {
            assert(all[i] == dir[i]);
        } else {
            assert(all[i] == names[i - dir.len()]);
        }
    }
    crate::path::laws::lemma_with_slashes_concat(dir, names);
    crate::path::laws::lemma_names_text(dir);
    crate::path::laws::lemma_names_text(names);
    assert(joined(p, n) == with_slashes(all));
    law_names_are_normal(all);
    assert(all == root + (sub + names));
    assert(are_names(root + (sub + names)));
    law_stripped_text(root, sub + names);
    // Out of the directory `inner`.
    let deep = dir + seq![inner];
    assert(are_names(deep)) by {
        assert forall|i: int| 0 <= i < deep.len() implies is_name(#[trigger] deep[i]) by {
            if i < dir.len() {
                assert(deep[i] == dir[i]);
            }
        }
    }
    let q = with_slashes(deep);
    let up = seq!['.', '.', '/'] + n;
    crate::path::laws::lemma_names_text(deep);
    assert(deep.drop_last() == dir);
    assert(q == p + seq!['/'] + inner);
    let whole = joined(q, up);
    assert(whole == q + seq!['/'] + up);
    let back = q + seq!['/', '.', '.'];
    assert(whole == back + seq!['/'] + n);
    crate::path::laws::law_normalizing_takes_steps_back(p, inner);
    crate::path::laws::lemma_normal_behind(back, p, names);
    assert(p + seq!['/'] + n == with_slashes(all));
    assert(!is_external(up)) by {
        reveal_strlit("#");
        assert(up[2] == '/');
        if begins_with(up, "#"@) {
            assert(up.subrange(0, 1)[0] == "#"@[0]);
        }
        lemma_until(up, ':');
        assert(up[0] == '.');
    }
}

/// The pass for one marker goes on through the page: where the first of them stands
/// behind `a`, the reference `r` behind it is rewritten, and the pass is made over
/// what follows.
pub proof fn law_pass_goes_on(
    a: Seq<char>,
    r: Seq<char>,
    b: Seq<char>,
    k: int,
    dir: Seq<char>,
    base: Seq<char>,
)
    requires
        0 <= k < 4,
        !r.contains(marker_quote(k)),
        find(a + marker(k) + r + seq![marker_quote(k)] + b, marker(k)) == Some(a.len() as int),
    ensures
        attr_rewritten(
            a + marker(k) + r + seq![marker_quote(k)] + b,
            marker(k),
            marker_quote(k),
            dir,
            base,
        ) == a + marker(k) + rewritten_ref(r, dir, base) + attr_rewritten(
            seq![marker_quote(k)] + b,
            marker(k),
            marker_quote(k),
            dir,
            base,
        ),
{
    let m = marker(k);
    let quote = marker_quote(k);
    let page = a + m + r + seq![quote] + b;
    let from = a.len() as int + m.len();
    lemma_marker_shape(k);
    let rest = page.skip(from);
    assert(rest == r + (seq![quote] + b));
    assert forall|i: int| 0 <= i < r.len() implies rest[i] != quote by {
        assert(rest[i] == r[i]);
        assert(r.contains(r[i]));
    }
    lemma_until_is(rest, quote, r.len() as int);
    assert(rest.take(r.len() as int) == r);
    assert(rest.skip(r.len() as int) == seq![quote] + b);
    assert(page.take(from) == a + m);
}

/// The four markers.
pub proof fn lemma_marker_shape(k: int)
    requires
        0 <= k < 4,
    ensures
        marker(0) == "src=\""@,
        marker(1) == "src='"@,
        marker(2) == "href=\""@,
        marker(3) == "href='"@,
        marker(k).len() > 0,
        marker(k)[0] != '"' && marker(k)[0] != '\'',
        marker(k).last() == marker_quote(k),
        marker_quote(k) == '"' || marker_quote(k) == '\'',
        forall|i: int|
            0 <= i < marker(k).len() - 1 ==> (#[trigger] marker(k)[i]) != '"' && marker(k)[i]
                != '\'',
{
    reveal_strlit("src=\"");
    reveal_strlit("src='");
    reveal_strlit("href=\"");
    reveal_strlit("href='");
}

/// A part of a page: text, a marker (told by its number), and the reference behind it.
pub struct LinkPart {
    pub before: Seq<char>,
    pub kind: int,
    pub reference: Seq<char>,
}

/// The page made of parts, each closed by the quote of its marker, and of what stands
/// behind them.
pub open spec fn page_of(parts: Seq<LinkPart>, tail: Seq<char>) -> Seq<char>
    decreases parts.len(),
{
    if parts.len() == 0 {
        tail
    } else {
        let p = parts[0];
        p.before + marker(p.kind) + p.reference + seq![marker_quote(p.kind)] + page_of(
            parts.drop_first(),
            tail,
        )
    }
}

/// No marker stands in `s`.
pub open spec fn no_marker(s: Seq<char>) -> bool {
    forall|j: int, i: int| 0 <= j < 4 ==> !#[trigger] occurs_at(s, marker(j), i)
}

/// The part has no marker but its own: neither in the text before it nor in the
/// reference with its quote.
pub open spec fn is_part(p: LinkPart) -> bool {
    &&& 0 <= p.kind < 4
    &&& forall|j: int, i: int|
        0 <= j < 4 && #[trigger] occurs_at(p.before + marker(p.kind), marker(j), i) ==> j == p.kind
            && i == p.before.len()
    &&& no_marker(p.reference.push(marker_quote(p.kind)))
}

/// The part with its reference rewritten.
pub open spec fn part_rewritten(p: LinkPart, dir: Seq<char>, base: Seq<char>) -> LinkPart {
    LinkPart { reference: rewritten_ref(p.reference, dir, base), ..p }
}

/// The parts with every reference rewritten.
pub open spec fn parts_rewritten(
    parts: Seq<LinkPart>,
    dir: Seq<char>,
    base: Seq<char>,
) -> Seq<LinkPart> {
    Seq::new(parts.len(), |i: int| part_rewritten(parts[i], dir, base))
}

/// The parts with the references behind the first `n` markers rewritten.
spec fn parts_after(parts: Seq<LinkPart>, n: int, dir: Seq<char>, base: Seq<char>) -> Seq<
    LinkPart,
> {
    Seq::new(
        parts.len(),
        |i: int|
            if parts[i].kind < n {
                part_rewritten(parts[i], dir, base)
            } else {
                parts[i]
            },
    )
}

/// What a pass for the marker `j` needs of a part.
spec fn ready(p: LinkPart, j: int) -> bool {
    &&& 0 <= p.kind < 4
    &&& forall|i: int| #[trigger]
        occurs_at(p.before + marker(p.kind), marker(j), i) ==> j == p.kind && i == p.before.len()
    &&& p.kind == j ==> !p.reference.contains(marker_quote(j))
    &&& p.kind != j ==> forall|i: int|
        !#[trigger] occurs_at(p.reference.push(marker_quote(p.kind)), marker(j), i)
}

/// A pattern that does not begin in `p` is found behind it where it is found in `s`.
proof fn lemma_found_behind(p: Seq<char>, s: Seq<char>, m: Seq<char>)
    requires
        forall|i: int| 0 <= i < p.len() ==> !#[trigger] occurs_at(p + s, m, i),
    ensures
        match find(s, m) {
            Some(at) => find(p + s, m) == Some(p.len() + at),
            None => find(p + s, m) is None,
        },
{
    let whole = p + s;
    lemma_find_from(whole, m, 0);
    lemma_find_from(s, m, 0);
    if let Some(found) = find(whole, m) {
        let k = found - p.len();
        assert(s.subrange(k, k + m.len()) == whole.subrange(found, found + m.len()));
        assert(occurs_at(s, m, k));
    }
    if let Some(at) = find(s, m) {
        let i = p.len() + at;
        assert(whole.subrange(i, i + m.len()) == s.subrange(at, at + m.len()));
        assert(occurs_at(whole, m, i));
        let found = find(whole, m)->0;
        let k = found - p.len();
        assert(occurs_at(s, m, k));
        assert(at <= k);
    }
}

/// Text in which no marker `j` begins is passed over.
#[verifier::spinoff_prover]
#[verifier::rlimit(40)]
proof fn lemma_passed_over(
    p: Seq<char>,
    s: Seq<char>,
    j: int,
    dir: Seq<char>,
    base: Seq<char>,
)
    requires
        0 <= j < 4,
        forall|i: int| 0 <= i < p.len() ==> !#[trigger] occurs_at(p + s, marker(j), i),
    ensures
        attr_rewritten(p + s, marker(j), marker_quote(j), dir, base) == p + attr_rewritten(
            s,
            marker(j),
            marker_quote(j),
            dir,
            base,
        ),
{
    let m = marker(j);
    let quote = marker_quote(j);
    let whole = p + s;
    lemma_found_behind(p, s, m);
    assert(m.len() > 0) by {
        lemma_marker_shape(j);
    }
    if let Some(at) = find(s, m) {
        assert(0 <= at && at + m.len() <= s.len()) by {
            lemma_find_from(s, m, 0);
        }
        let from = at + m.len();
        let rest = s.skip(from);
        assert(whole.skip(p.len() + from) == rest);
        assert(whole.take(p.len() + from) == p + s.take(from));
        let end = until(rest, quote);
        if end < rest.len() {
            let tail = attr_rewritten(rest.skip(end), m, quote, dir, base);
            let target = rewritten_ref(rest.take(end), dir, base);
            assert(attr_rewritten(s, m, quote, dir, base) == s.take(from) + target + tail);
            assert(attr_rewritten(whole, m, quote, dir, base) == p + s.take(from) + target + tail);
            assert(p + s.take(from) + target + tail == p + (s.take(from) + target + tail));
        } else {
            assert(attr_rewritten(s, m, quote, dir, base) == s);
            assert(attr_rewritten(whole, m, quote, dir, base) == whole);
        }
    }
}

/// A marker in a text that follows a text with a quote at its end stands in the one or
/// in the other.
proof fn lemma_marker_in_one(x: Seq<char>, y: Seq<char>, j: int, i: int)
    requires
        0 <= j < 4,
        x.len() > 0,
        x.last() == '"' || x.last() == '\'',
        occurs_at(x + y, marker(j), i),
    ensures
        i < x.len() ==> occurs_at(x, marker(j), i),
{
    let m = marker(j);
    lemma_marker_shape(j);
    let part = (x + y).subrange(i, i + m.len());
    if i < x.len() {
        if i + m.len() > x.len() {
            let at = x.len() - 1 - i;
            assert(part[at] == x.last());
            assert(m[at] == x.last());
        } else {
            assert(x.subrange(i, i + m.len()) == part);
        }
    }
}

/// The pass for the marker `j` rewrites the references behind it, and no others.
proof fn lemma_one_pass(
    parts: Seq<LinkPart>,
    tail: Seq<char>,
    j: int,
    dir: Seq<char>,
    base: Seq<char>,
)
    requires
        0 <= j < 4,
        forall|i: int| 0 <= i < parts.len() ==> ready(#[trigger] parts[i], j),
        forall|i: int| !#[trigger] occurs_at(tail, marker(j), i),
    ensures
        attr_rewritten(page_of(parts, tail), marker(j), marker_quote(j), dir, base) == page_of(
            Seq::new(
                parts.len(),
                |i: int|
                    if parts[i].kind == j {
                        part_rewritten(parts[i], dir, base)
                    } else {
                        parts[i]
                    },
            ),
            tail,
        ),
    decreases parts.len(),
{
    let m = marker(j);
    let quote = marker_quote(j);
    let page = page_of(parts, tail);
    let done = Seq::new(
        parts.len(),
        |i: int|
            if parts[i].kind == j {
                part_rewritten(parts[i], dir, base)
            } else {
                parts[i]
            },
    );
    if parts.len() == 0 {
        lemma_find_from(tail, m, 0);
    } else {
        let p = parts[0];
        assert(ready(parts[0], j));
        let more = parts.drop_first();
        assert forall|i: int| 0 <= i < more.len() implies ready(#[trigger] more[i], j) by {
            assert(more[i] == parts[i + 1]);
        }
        lemma_one_pass(more, tail, j, dir, base);
        let rest = page_of(more, tail);
        let more_done = Seq::new(
            more.len(),
            |i: int|
                if more[i].kind == j {
                    part_rewritten(more[i], dir, base)
                } else {
                    more[i]
                },
        );
        assert(done.drop_first() == more_done);
        let own = marker(p.kind);
        let close = marker_quote(p.kind);
        lemma_marker_shape(p.kind);
        lemma_marker_shape(j);
        let head = p.before + own;
        assert(head.last() == close);
        if p.kind == j {
            assert(page == p.before + m + p.reference + seq![quote] + rest);
            let behind = p.reference + seq![quote] + rest;
            assert(page == head + behind);
            crate::text::laws::law_pattern_stands_where_it_was_put(p.before, m, behind);
            lemma_find_from(page, m, 0);
            let found = find(page, m)->0;
            assert(found == p.before.len()) by {
                if found < p.before.len() {
                    lemma_marker_in_one(head, behind, j, found);
                }
            }
            law_pass_goes_on(p.before, p.reference, rest, j, dir, base);
            let q = seq![quote];
            assert forall|i: int| 0 <= i < q.len() implies !#[trigger] occurs_at(q + rest, m, i) by {
                if occurs_at(q + rest, m, i) {
                    assert((q + rest).subrange(i, i + m.len())[0] == quote);
                }
            }
            lemma_passed_over(q, rest, j, dir, base);
            let t = rewritten_ref(p.reference, dir, base);
            assert(head + t + (q + page_of(more_done, tail)) == p.before + m + t + q + page_of(
                more_done,
                tail,
            ));
        } else {
            let body = p.reference.push(close);
            let whole = head + body;
            assert(page == whole + rest);
            assert forall|i: int| 0 <= i < whole.len() implies !#[trigger] occurs_at(
                whole + rest,
                m,
                i,
            ) by {
                if occurs_at(whole + rest, m, i) {
                    assert(whole.last() == close);
                    lemma_marker_in_one(whole, rest, j, i);
                    lemma_marker_in_one(head, body, j, i);
                    if i >= head.len() {
                        let k = i - head.len();
                        assert(body.subrange(k, k + m.len()) == whole.subrange(i, i + m.len()));
                        assert(occurs_at(body, m, k));
                    }
                }
            }
            lemma_passed_over(whole, rest, j, dir, base);
            assert(whole + page_of(more_done, tail) == p.before + own + p.reference + seq![close]
                + page_of(more_done, tail));
        }
    }
}

/// Every reference of a page is rewritten, however many there are and behind whichever
/// markers, and everything else stays. This leaves out pages with a marker in a
/// reference or in what a reference becomes.
pub proof fn law_every_reference_is_rewritten(
    parts: Seq<LinkPart>,
    tail: Seq<char>,
    section: Seq<char>,
    base: Seq<char>,
)
    requires
        forall|i: int|
            0 <= i < parts.len() ==> is_part(#[trigger] parts[i]) && !parts[i].reference.contains(
                marker_quote(parts[i].kind),
            ),
        forall|i: int|
            0 <= i < parts.len() ==> is_part(
                part_rewritten(#[trigger] parts[i], directory_of(section), base),
            ),
        no_marker(tail),
    ensures
        links_rewritten(page_of(parts, tail), section, base) == page_of(
            parts_rewritten(parts, directory_of(section), base),
            tail,
        ),
{
    let dir = directory_of(section);
    assert(parts_after(parts, 0, dir, base) == parts) by {
        assert forall|i: int| 0 <= i < parts.len() implies parts_after(parts, 0, dir, base)[i]
            == parts[i] by {
            assert(is_part(parts[i]));
        }
    }
    assert(parts_after(parts, 4, dir, base) == parts_rewritten(parts, dir, base)) by {
        assert forall|i: int| 0 <= i < parts.len() implies parts_after(parts, 4, dir, base)[i]
            == parts_rewritten(parts, dir, base)[i] by {
            assert(is_part(parts[i]));
        }
    }
    assert forall|j: int| 0 <= j < 4 implies #[trigger] attr_rewritten(
        page_of(parts_after(parts, j, dir, base), tail),
        marker(j),
        marker_quote(j),
        dir,
        base,
    ) == page_of(parts_after(parts, j + 1, dir, base), tail) by {
        let now = parts_after(parts, j, dir, base);
        assert forall|i: int| 0 <= i < now.len() implies ready(#[trigger] now[i], j) by {
            assert(is_part(parts[i]));
            assert(is_part(part_rewritten(parts[i], dir, base)));
            lemma_marker_shape(j);
        }
        lemma_one_pass(now, tail, j, dir, base);
        let after = Seq::new(
            now.len(),
            |i: int|
                if now[i].kind == j {
                    part_rewritten(now[i], dir, base)
                } else {
                    now[i]
                },
        );
        assert(after == parts_after(parts, j + 1, dir, base));
    }
    lemma_marker_shape(0);
    let s0 = page_of(parts_after(parts, 0, dir, base), tail);
    let s1 = attr_rewritten(s0, marker(0), marker_quote(0), dir, base);
    let s2 = attr_rewritten(s1, marker(1), marker_quote(1), dir, base);
    let s3 = attr_rewritten(s2, marker(2), marker_quote(2), dir, base);
    let s4 = attr_rewritten(s3, marker(3), marker_quote(3), dir, base);
    assert(s1 == page_of(parts_after(parts, 1, dir, base), tail));
    assert(s2 == page_of(parts_after(parts, 2, dir, base), tail));
    assert(s3 == page_of(parts_after(parts, 3, dir, base), tail));
    assert(s4 == page_of(parts_after(parts, 4, dir, base), tail));
    assert(s4 == links_rewritten(page_of(parts, tail), section, base));
}

/// A marker whose reference is never closed leaves the rest of the page to the pass as
/// it is.
pub proof fn law_open_reference_stays(
    a: Seq<char>,
    r: Seq<char>,
    k: int,
    dir: Seq<char>,
    base: Seq<char>,
)
    requires
        0 <= k < 4,
        !r.contains(marker_quote(k)),
        find(a + marker(k) + r, marker(k)) == Some(a.len() as int),
    ensures
        attr_rewritten(a + marker(k) + r, marker(k), marker_quote(k), dir, base) == a + marker(k)
            + r,
{
    let m = marker(k);
    let page = a + m + r;
    let rest = page.skip(a.len() as int + m.len());
    assert(rest == r);
    lemma_until(rest, marker_quote(k));
    let end = until(rest, marker_quote(k));
    if end < rest.len() {
        assert(r.contains(r[end]));
    }
}

/// The directory of a file is what stands before its name.
pub proof fn law_directory_of_a_file(dir: Seq<char>, name: Seq<char>)
    requires
        dir.len() > 0,
        dir.last() != '/',
        dir.len() > 1 && dir.last() == '.' ==> dir[dir.len() - 2] != '/',
        is_name(name),
        name != seq!['.', '.'],
    ensures
        directory_of(dir + seq!['/'] + name) == dir,
        directory_of(name).len() == 0,
{
    crate::path::laws::law_file_in_a_directory(dir, name);
    crate::path::laws::lemma_parent_of_name(name);
}

/// What lies below the book's root is seen from there, and what does not is told by its
/// whole path.
pub proof fn law_seen_from_the_root(path: Seq<char>, base: Seq<char>)
    ensures
        crate::path::prefix_stripped(path, base) matches Some(rest) ==> relative_to(path, base)
            == rest,
        crate::path::prefix_stripped(path, base) is None ==> relative_to(path, base) == path,
{
}

} // verus!
