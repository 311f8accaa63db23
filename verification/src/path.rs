//! Slash-separated paths as texts.
//!
//! A path is read as a list of components: a leading `/` is the root, a leading
//! `.` is kept, every other `.` and every empty piece is dropped, and `..` is a
//! component of its own. A component is its text, so the root is the component
//! `/`. Nothing here touches a file system.

use vstd::prelude::*;

use crate::text::{
    after_last, same_chars, scan_after_last, scan_until, slice_copy, split, split_chars, texts,
    to_chars, to_text, until,
};

pub mod laws;

verus! {

/// The component that stands for the root.
pub open spec fn root() -> Seq<char> {
    seq!['/']
}

/// The component that stands for the current directory.
pub open spec fn here() -> Seq<char> {
    seq!['.']
}

/// The component that stands for the parent directory.
pub open spec fn up() -> Seq<char> {
    seq!['.', '.']
}

/// `p` begins at the root.
pub open spec fn is_absolute(p: Seq<char>) -> bool {
    p.len() > 0 && p[0] == '/'
}

/// A piece between slashes that counts as a component.
pub open spec fn counts(piece: Seq<char>) -> bool {
    piece.len() > 0 && piece != here()
}

/// The pieces of `p` that count, in order.
pub open spec fn pieces(p: Seq<char>) -> Seq<Seq<char>> {
    split(p, '/').filter(|piece: Seq<char>| counts(piece))
}

/// What stands before the pieces: the root, a leading `.`, or nothing.
pub open spec fn lead(p: Seq<char>) -> Seq<Seq<char>> {
    if is_absolute(p) {
        seq![root()]
    } else if split(p, '/')[0] == here() {
        seq![here()]
    } else {
        seq![]
    }
}

/// The components of `p`.
pub open spec fn component_seq(p: Seq<char>) -> Seq<Seq<char>> {
    lead(p) + pieces(p)
}

/// `p` climbs: one of its components is `..`.
pub open spec fn climbs(p: Seq<char>) -> bool {
    component_seq(p).contains(up())
}

/// `p` put behind `base`: `p` itself where it is absolute.
pub open spec fn joined(base: Seq<char>, p: Seq<char>) -> Seq<char> {
    if is_absolute(p) {
        p
    } else if base.len() > 0 && base.last() != '/' {
        base + root() + p
    } else {
        base + p
    }
}

/// `p` without the slashes and single dots at its end that stand for nothing.
pub open spec fn trim_tail(p: Seq<char>) -> Seq<char>
    decreases p.len(),
{
    if p.len() > 1 && (p.last() == '/' || (p.last() == '.' && p[p.len() - 2] == '/')) {
        trim_tail(p.drop_last())
    } else {
        p
    }
}

/// `p` without the slashes and single dots at its start.
pub open spec fn trim_head(p: Seq<char>) -> Seq<char>
    decreases p.len(),
{
    if p.len() > 0 && (p[0] == '/' || (p[0] == '.' && (p.len() == 1 || p[1] == '/'))) {
        trim_head(p.drop_first())
    } else {
        p
    }
}

/// The last component of `p`, where it is a name.
pub open spec fn name_part(p: Seq<char>) -> Option<Seq<char>> {
    let t = trim_tail(p);
    let name = t.skip(after_last(t, '/'));
    if name.len() == 0 || name == here() || name == up() {
        None
    } else {
        Some(name)
    }
}

/// `p` without its last component.
pub open spec fn parent_path(p: Seq<char>) -> Option<Seq<char>> {
    let t = trim_tail(p);
    if t.len() == 0 || t == root() {
        None
    } else {
        Some(trim_tail(t.take(after_last(t, '/'))))
    }
}

/// A file name up to its last dot; a dot at its start does not count.
pub open spec fn stem_of(name: Seq<char>) -> Seq<char> {
    let k = after_last(name, '.');
    if k <= 1 {
        name
    } else {
        name.take(k - 1)
    }
}

/// What stands behind the last dot of a file name; a dot at its start does not
/// count.
pub open spec fn extension_of(name: Seq<char>) -> Option<Seq<char>> {
    let k = after_last(name, '.');
    if k <= 1 {
        None
    } else {
        Some(name.skip(k))
    }
}

/// The stem of the last component of `p`.
pub open spec fn stem_part(p: Seq<char>) -> Option<Seq<char>> {
    match name_part(p) {
        Some(name) => Some(stem_of(name)),
        None => None,
    }
}

/// The extension of the last component of `p`.
pub open spec fn extension_part(p: Seq<char>) -> Option<Seq<char>> {
    match name_part(p) {
        Some(name) => extension_of(name),
        None => None,
    }
}

/// `p` with the extension of its last component taken off. A name at the end of
/// `p` whose stem is a single dot keeps the dot before its extension as well.
pub open spec fn bare(p: Seq<char>) -> Seq<char> {
    match name_part(p) {
        Some(name) => {
            let t = trim_tail(p);
            let dir = t.take(after_last(t, '/'));
            if stem_of(name) == here() && t == p {
                dir + up()
            } else {
                dir + stem_of(name)
            }
        },
        None => p,
    }
}

/// What is left of `p` behind its first component.
pub open spec fn behind_first(p: Seq<char>) -> Seq<char> {
    if is_absolute(p) {
        trim_head(p.skip(1))
    } else {
        trim_head(p.skip(until(p, '/')))
    }
}

/// What is left of `p` behind its first `n` components.
pub open spec fn behind(p: Seq<char>, n: nat) -> Seq<char>
    decreases n,
{
    if n == 0 {
        trim_tail(p)
    } else {
        behind(behind_first(p), (n - 1) as nat)
    }
}

/// The components of `base` are the first components of `p`.
pub open spec fn leads(base: Seq<char>, p: Seq<char>) -> bool {
    component_seq(base).is_prefix_of(component_seq(p))
}

/// What is left of `p` behind the components of `base`, where `p` begins with them.
pub open spec fn prefix_stripped(p: Seq<char>, base: Seq<char>) -> Option<Seq<char>> {
    if leads(base, p) {
        Some(behind(p, component_seq(base).len()))
    } else {
        None
    }
}

/// The components `cs` with each `..` taken together with the component before
/// it, and every `.` left out. A `..` with nothing before it is dropped.
pub open spec fn resolved(cs: Seq<Seq<char>>) -> Seq<Seq<char>>
    decreases cs.len(),
{
    if cs.len() == 0 {
        seq![]
    } else {
        let done = resolved(cs.drop_last());
        let c = cs.last();
        if c == up() {
            if done.len() > 0 {
                done.drop_last()
            } else {
                done
            }
        } else if c == here() {
            done
        } else {
            done.push(c)
        }
    }
}

/// The path made by putting each component behind those before it.
pub open spec fn assembled(cs: Seq<Seq<char>>) -> Seq<char>
    decreases cs.len(),
{
    if cs.len() == 0 {
        seq![]
    } else {
        joined(assembled(cs.drop_last()), cs.last())
    }
}

/// `p` with `.` and `..` resolved.
pub open spec fn normal_form(p: Seq<char>) -> Seq<char> {
    assembled(resolved(component_seq(p)))
}

/// Whether a piece counts as a component.
fn counts_as_component(piece: &[char]) -> (b: bool)
    ensures
        b == counts(piece@),
{
    if piece.len() == 0 {
        return false;
    }
    if piece.len() == 1 && piece[0] == '.' {
        assert(piece@ == here());
        return false;
    }
    true
}

/// The components of `p`.
pub fn components(p: &[char]) -> (cs: Vec<Vec<char>>)
    ensures
        texts(cs@) == component_seq(p@),
{
    let parts = split_chars(p, '/');
    let ghost all = split(p@, '/');
    let ghost keep = |piece: Seq<char>| counts(piece);
    let mut cs: Vec<Vec<char>> = Vec::new();
    proof {
        assert(parts@.len() == texts(parts@).len());
        assert(parts@[0]@ == all[0]);
    }
    if p.len() > 0 && p[0] == '/' {
        cs.push(slice_copy(p, 0, 1));
        assert(cs@[0]@ == root());
        assert(texts(cs@) == seq![root()]);
    } else if parts[0].len() == 1 && parts[0][0] == '.' {
        cs.push(vec!['.']);
        assert(all[0] == here());
        assert(cs@[0]@ == here());
        assert(texts(cs@) == seq![here()]);
    } else {
        assert(texts(cs@) == Seq::<Seq<char>>::empty());
    }
    assert(all.take(0).filter(keep) == Seq::<Seq<char>>::empty()) by {
        assert(all.take(0) == Seq::<Seq<char>>::empty());
    }
    for i in 0..parts.len()
        invariant
            texts(parts@) == all,
            keep == (|piece: Seq<char>| counts(piece)),
            texts(cs@) == lead(p@) + all.take(i as int).filter(keep),
    {
        let ghost before = texts(cs@);
        proof {
            assert(all.take(i + 1).drop_last() == all.take(i as int));
            assert(all.take(i + 1).last() == parts@[i as int]@);
            reveal(Seq::filter);
        }
        if counts_as_component(parts[i].as_slice()) {
            cs.push(slice_copy(parts[i].as_slice(), 0, parts[i].len()));
            assert(cs@.last()@ == parts@[i as int]@);
            assert(texts(cs@) == before.push(parts@[i as int]@));
        }
    }
    assert(all.take(all.len() as int) == all);
    cs
}

/// Whether one of the components of `p` is `..`.
pub fn has_parent_dir(p: &[char]) -> (b: bool)
    ensures
        b == climbs(p@),
{
    let cs = components(p);
    let dots: Vec<char> = vec!['.', '.'];
    assert(dots@ == up());
    for i in 0..cs.len()
        invariant
            texts(cs@) == component_seq(p@),
            dots@ == up(),
            forall|j: int| 0 <= j < i ==> texts(cs@)[j] != up(),
    {
        if same_chars(cs[i].as_slice(), dots.as_slice()) {
            assert(component_seq(p@)[i as int] == up());
            return true;
        }
        assert(texts(cs@)[i as int] == cs@[i as int]@);
    }
    false
}

/// `p` put behind `base`.
pub fn join(base: &[char], p: &[char]) -> (j: Vec<char>)
    ensures
        j@ == joined(base@, p@),
{
    let mut j: Vec<char> = Vec::new();
    if !(p.len() > 0 && p[0] == '/') {
        j.extend_from_slice(base);
        assert(j@ == base@);
        if base.len() > 0 && base[base.len() - 1] != '/' {
            j.push('/');
            assert(j@ == base@ + root());
        }
    }
    let ghost front = j@;
    j.extend_from_slice(p);
    assert(j@ == front + p@);
    j
}

/// How much of `p` [`trim_tail`] leaves.
fn tail_end(p: &[char]) -> (k: usize)
    ensures
        k <= p@.len(),
        p@.take(k as int) == trim_tail(p@),
{
    let mut k: usize = p.len();
    assert(p@.take(k as int) == p@);
    while k > 1 && (p[k - 1] == '/' || (p[k - 1] == '.' && p[k - 2] == '/'))
        invariant
            k <= p@.len(),
            trim_tail(p@.take(k as int)) == trim_tail(p@),
        decreases k,
    {
        assert(p@.take(k as int).drop_last() == p@.take(k - 1));
        k = k - 1;
    }
    k
}

/// Where what [`trim_head`] leaves of `p`, from offset `from` on, begins.
fn head_start(p: &[char], from: usize) -> (k: usize)
    requires
        from <= p@.len(),
    ensures
        from <= k <= p@.len(),
        p@.skip(k as int) == trim_head(p@.skip(from as int)),
{
    let mut k: usize = from;
    let n: usize = p.len();
    while k < n && (p[k] == '/' || (p[k] == '.' && (n - k == 1 || p[k + 1] == '/')))
        invariant
            from <= k <= n,
            n == p@.len(),
            trim_head(p@.skip(k as int)) == trim_head(p@.skip(from as int)),
        decreases n - k,
    {
        assert(p@.skip(k as int).drop_first() == p@.skip(k + 1));
        k = k + 1;
    }
    k
}

/// The last component of `p`, where it is a name.
pub fn file_name(p: &[char]) -> (name: Option<Vec<char>>)
    ensures
        match name {
            Some(n) => name_part(p@) == Some(n@),
            None => name_part(p@) is None,
        },
{
    let end = tail_end(p);
    let t = slice_copy(p, 0, end);
    assert(t@ == trim_tail(p@));
    let from = scan_after_last(t.as_slice(), '/');
    proof {
        crate::text::lemma_after_last(t@, '/');
    }
    let name = slice_copy(t.as_slice(), from, t.len());
    assert(name@ == t@.skip(after_last(t@, '/')));
    if name.len() == 0 {
        return None;
    }
    if name.len() == 1 && name[0] == '.' {
        assert(name@ == here());
        return None;
    }
    if name.len() == 2 && name[0] == '.' && name[1] == '.' {
        assert(name@ == up());
        return None;
    }
    Some(name)
}

/// `p` without its last component.
pub fn parent(p: &[char]) -> (q: Option<Vec<char>>)
    ensures
        match q {
            Some(q) => parent_path(p@) == Some(q@),
            None => parent_path(p@) is None,
        },
{
    let end = tail_end(p);
    let t = slice_copy(p, 0, end);
    assert(t@ == trim_tail(p@));
    if t.len() == 0 {
        return None;
    }
    if t.len() == 1 && t[0] == '/' {
        assert(t@ == root());
        return None;
    }
    let from = scan_after_last(t.as_slice(), '/');
    proof {
        crate::text::lemma_after_last(t@, '/');
    }
    let dir = slice_copy(t.as_slice(), 0, from);
    assert(dir@ == t@.take(after_last(t@, '/')));
    let dir_end = tail_end(dir.as_slice());
    let q = slice_copy(dir.as_slice(), 0, dir_end);
    assert(q@ == trim_tail(dir@));
    Some(q)
}

/// The stem of the last component of `p`.
pub fn file_stem(p: &[char]) -> (stem: Option<Vec<char>>)
    ensures
        match stem {
            Some(s) => stem_part(p@) == Some(s@),
            None => stem_part(p@) is None,
        },
{
    match file_name(p) {
        Some(name) => {
            let k = scan_after_last(name.as_slice(), '.');
            if k <= 1 {
                Some(name)
            } else {
                proof {
                    crate::text::lemma_after_last(name@, '.');
                }
                let stem = slice_copy(name.as_slice(), 0, k - 1);
                assert(stem@ == name@.take(k - 1));
                Some(stem)
            }
        },
        None => None,
    }
}

/// The extension of the last component of `p`.
pub fn extension(p: &[char]) -> (ext: Option<Vec<char>>)
    ensures
        match ext {
            Some(e) => extension_part(p@) == Some(e@),
            None => extension_part(p@) is None,
        },
{
    match file_name(p) {
        Some(name) => {
            let k = scan_after_last(name.as_slice(), '.');
            if k <= 1 {
                None
            } else {
                proof {
                    crate::text::lemma_after_last(name@, '.');
                }
                let ext = slice_copy(name.as_slice(), k, name.len());
                assert(ext@ == name@.skip(k as int));
                Some(ext)
            }
        },
        None => None,
    }
}

/// `p` with the extension of its last component taken off.
pub fn without_extension(p: &[char]) -> (q: Vec<char>)
    ensures
        q@ == bare(p@),
{
    match file_stem(p) {
        Some(stem) => {
            let end = tail_end(p);
            let t = slice_copy(p, 0, end);
            assert(t@ == trim_tail(p@));
            let from = scan_after_last(t.as_slice(), '/');
            proof {
                crate::text::lemma_after_last(t@, '/');
            }
            let mut q = slice_copy(t.as_slice(), 0, from);
            assert(q@ == t@.take(after_last(t@, '/')));
            q.extend_from_slice(stem.as_slice());
            assert(q@ == t@.take(after_last(t@, '/')) + stem@);
            if stem.len() == 1 && stem[0] == '.' && end == p.len() {
                q.push('.');
                assert(t@ == p@);
                assert(stem@ == here());
                assert(q@ == t@.take(after_last(t@, '/')) + up());
            } else {
                assert(stem@ != here() || t@.len() != p@.len());
            }
            q
        },
        None => slice_copy(p, 0, p.len()),
    }
}

/// Two texts name the same path.
pub open spec fn same_path(a: Seq<char>, b: Seq<char>) -> bool {
    component_seq(a) == component_seq(b)
}

/// Whether two texts name the same path.
pub fn names_same_path(a: &[char], b: &[char]) -> (same: bool)
    ensures
        same == same_path(a@, b@),
{
    let ac = components(a);
    let bc = components(b);
    proof {
        assert(texts(ac@).len() == ac@.len());
        assert(texts(bc@).len() == bc@.len());
    }
    if ac.len() != bc.len() {
        return false;
    }
    for i in 0..ac.len()
        invariant
            texts(ac@) == component_seq(a@),
            texts(bc@) == component_seq(b@),
            ac@.len() == bc@.len(),
            forall|j: int| 0 <= j < i ==> texts(ac@)[j] == texts(bc@)[j],
    {
        assert(texts(ac@)[i as int] == ac@[i as int]@);
        assert(texts(bc@)[i as int] == bc@[i as int]@);
        if !same_chars(ac[i].as_slice(), bc[i].as_slice()) {
            return false;
        }
    }
    assert(texts(ac@) == texts(bc@));
    true
}

/// Whether the components of `base` are the first components of `p`.
pub fn starts_with_path(p: &[char], base: &[char]) -> (b: bool)
    ensures
        b == leads(base@, p@),
{
    let pc = components(p);
    let bc = components(base);
    if bc.len() > pc.len() {
        return false;
    }
    for i in 0..bc.len()
        invariant
            texts(pc@) == component_seq(p@),
            texts(bc@) == component_seq(base@),
            bc@.len() <= pc@.len(),
            forall|j: int| 0 <= j < i ==> component_seq(base@)[j] == component_seq(p@)[j],
    {
        assert(texts(bc@)[i as int] == bc@[i as int]@);
        assert(texts(pc@)[i as int] == pc@[i as int]@);
        if !same_chars(bc[i].as_slice(), pc[i].as_slice()) {
            return false;
        }
    }
    true
}

/// What is left of `p` behind the components of `base`, where `p` begins with
/// them.
pub fn strip_prefix(p: &[char], base: &[char]) -> (rest: Option<Vec<char>>)
    ensures
        match rest {
            Some(r) => prefix_stripped(p@, base@) == Some(r@),
            None => prefix_stripped(p@, base@) is None,
        },
{
    if !starts_with_path(p, base) {
        return None;
    }
    let count = components(base).len();
    let mut rest = slice_copy(p, 0, p.len());
    assert(rest@ == p@);
    let mut left: usize = count;
    while left > 0
        invariant
            count == component_seq(base@).len(),
            behind(rest@, left as nat) == behind(p@, count as nat),
        decreases left,
    {
        let mut from: usize = 0;
        if rest.len() > 0 && rest[0] == '/' {
            from = 1;
        } else {
            assert(rest@.skip(0) == rest@);
            from = scan_until(rest.as_slice(), '/', 0);
        }
        let start = head_start(rest.as_slice(), from);
        let next = slice_copy(rest.as_slice(), start, rest.len());
        assert(next@ == behind_first(rest@));
        rest = next;
        left = left - 1;
    }
    let end = tail_end(rest.as_slice());
    let kept = slice_copy(rest.as_slice(), 0, end);
    assert(kept@ == trim_tail(rest@));
    Some(kept)
}

/// `p` with `.` and `..` resolved.
pub fn normalize(p: &[char]) -> (q: Vec<char>)
    ensures
        q@ == normal_form(p@),
{
    let cs = components(p);
    let ghost all = component_seq(p@);
    let dots: Vec<char> = vec!['.', '.'];
    let dot: Vec<char> = vec!['.'];
    assert(dots@ == up());
    assert(dot@ == here());
    let mut parts: Vec<Vec<char>> = Vec::new();
    assert(texts(parts@) == resolved(all.take(0)));
    for i in 0..cs.len()
        invariant
            texts(cs@) == all,
            dots@ == up(),
            dot@ == here(),
            texts(parts@) == resolved(all.take(i as int)),
    {
        let ghost done = texts(parts@);
        proof {
            assert(all.take(i + 1).drop_last() == all.take(i as int));
            assert(all.take(i + 1).last() == cs@[i as int]@);
        }
        if same_chars(cs[i].as_slice(), dots.as_slice()) {
            if parts.len() > 0 {
                parts.pop();
                assert(texts(parts@) == done.drop_last());
            }
        } else if !same_chars(cs[i].as_slice(), dot.as_slice()) {
            parts.push(slice_copy(cs[i].as_slice(), 0, cs[i].len()));
            assert(parts@.last()@ == cs@[i as int]@);
            assert(texts(parts@) == done.push(cs@[i as int]@));
        }
    }
    let ghost kept = texts(parts@);
    assert(all.take(all.len() as int) == all);
    let mut q: Vec<char> = Vec::new();
    assert(q@ == assembled(kept.take(0)));
    for i in 0..parts.len()
        invariant
            texts(parts@) == kept,
            q@ == assembled(kept.take(i as int)),
    {
        proof {
            assert(kept.take(i + 1).drop_last() == kept.take(i as int));
            assert(kept.take(i + 1).last() == parts@[i as int]@);
        }
        q = join(q.as_slice(), parts[i].as_slice());
    }
    assert(kept.take(kept.len() as int) == kept);
    q
}

/// Normalizes a path by resolving `.` and `..` components without touching
/// the file system.
pub fn normalize_path(path: &str) -> (normal: String)
    ensures
        normal@ == normal_form(path@),
{
    to_text(normalize(to_chars(path).as_slice()).as_slice())
}

} // verus!
