//! What holds of paths: how joining, taking the parent, stripping a prefix and
//! normalizing act on the components.

use vstd::prelude::*;

use crate::path::{
    assembled, bare, behind, behind_first, climbs, component_seq, counts, extension_of,
    extension_part, here, is_absolute, joined, lead, leads, name_part, normal_form, parent_path,
    pieces, prefix_stripped, resolved, root, same_path, stem_of, stem_part, trim_head, trim_tail, up,
};
use crate::text::{after_last, lemma_after_last, lemma_until, lemma_until_is, split, until};

verus! {

/// Splitting never gives nothing.
proof fn lemma_split_some(s: Seq<char>, c: char)
    ensures
        split(s, c).len() > 0,
{
}

/// A text without the separator is one piece.
pub proof fn lemma_split_single(s: Seq<char>, c: char)
    requires
        !s.contains(c),
    ensures
        split(s, c) == seq![s],
{
    lemma_until(s, c);
    let k = until(s, c);
    if k < s.len() {
        assert(s.contains(s[k]));
    }
}

/// The pieces of two texts with a separator between them are those of the one
/// and then those of the other.
pub proof fn lemma_split_concat(a: Seq<char>, c: char, b: Seq<char>)
    ensures
        split(a.push(c) + b, c) == split(a, c) + split(b, c),
    decreases a.len(),
{
    let whole = a.push(c) + b;
    lemma_until(a, c);
    let k = until(a, c);
    if k < a.len() {
        lemma_until_is(whole, c, k);
        assert(whole.take(k) == a.take(k));
        assert(whole.skip(k + 1) == a.skip(k + 1).push(c) + b);
        lemma_split_concat(a.skip(k + 1), c, b);
        assert(seq![a.take(k)] + (split(a.skip(k + 1), c) + split(b, c)) == split(a, c) + split(
            b,
            c,
        ));
    } else {
        lemma_until_is(whole, c, a.len() as int);
        assert(whole.take(a.len() as int) == a);
        assert(whole.skip(a.len() as int + 1) == b);
    }
}

/// No piece holds the separator.
pub proof fn lemma_split_clean(s: Seq<char>, c: char)
    ensures
        forall|i: int| 0 <= i < split(s, c).len() ==> !(#[trigger] split(s, c)[i]).contains(c),
    decreases s.len(),
{
    lemma_until(s, c);
    let k = until(s, c);
    if k < s.len() {
        lemma_split_clean(s.skip(k + 1), c);
        assert forall|i: int| 0 <= i < split(s, c).len() implies !(
        #[trigger] split(s, c)[i]).contains(c) by {
            if i == 0 {
                assert(split(s, c)[0] == s.take(k));
            } else {
                assert(split(s, c)[i] == split(s.skip(k + 1), c)[i - 1]);
            }
        }
    } else {
        assert(split(s, c)[0] == s);
    }
}

/// The pieces that count of two texts with a slash between them.
proof fn lemma_pieces_concat(a: Seq<char>, b: Seq<char>)
    ensures
        pieces(a.push('/') + b) == pieces(a) + pieces(b),
        split(a.push('/') + b, '/')[0] == split(a, '/')[0],
{
    let keep = |piece: Seq<char>| counts(piece);
    lemma_split_concat(a, '/', b);
    lemma_split_some(a, '/');
    Seq::filter_distributes_over_add(split(a, '/'), split(b, '/'), keep);
}

/// A name is the only component of itself.
pub proof fn lemma_name_alone(name: Seq<char>)
    requires
        !name.contains('/'),
        counts(name),
    ensures
        pieces(name) == seq![name],
        component_seq(name) == seq![name],
{
    lemma_split_single(name, '/');
    assert(!is_absolute(name)) by {
        if is_absolute(name) {
            assert(name.contains(name[0]));
        }
    }
    reveal(Seq::filter);
    reveal_with_fuel(Seq::filter, 2);
    assert(seq![name].drop_last() == Seq::<Seq<char>>::empty());
    assert(pieces(name) == seq![name]);
    assert(component_seq(name) == seq![name]);
}

/// A piece that does not count adds no component.
proof fn lemma_no_pieces(piece: Seq<char>)
    requires
        piece.len() == 0 || piece == here(),
    ensures
        pieces(piece) == Seq::<Seq<char>>::empty(),
{
    assert(!piece.contains('/'));
    lemma_split_single(piece, '/');
    reveal(Seq::filter);
    reveal_with_fuel(Seq::filter, 2);
    assert(seq![piece].drop_last() == Seq::<Seq<char>>::empty());
}

/// The empty path has no components.
pub proof fn lemma_empty_path()
    ensures
        component_seq(seq![]) == Seq::<Seq<char>>::empty(),
{
    lemma_no_pieces(seq![]);
    lemma_split_single(seq![], '/');
    assert(split(seq![], '/')[0] == Seq::<char>::empty());
    assert(component_seq(seq![]) == Seq::<Seq<char>>::empty());
}

/// The root has the root as its only component.
pub proof fn lemma_root_path()
    ensures
        component_seq(root()) == seq![root()],
{
    let none = Seq::<char>::empty();
    assert(root() == none.push('/') + none);
    lemma_pieces_concat(none, none);
    lemma_no_pieces(none);
    assert(component_seq(root()) == seq![root()]);
}

/// The path `.` has itself as its only component.
pub proof fn lemma_here_path()
    ensures
        component_seq(here()) == seq![here()],
{
    lemma_split_single(here(), '/');
    lemma_no_pieces(here());
    assert(component_seq(here()) == seq![here()]);
}

/// A slash, with or without a piece that does not count behind it, adds no
/// component to a path that is not empty.
proof fn lemma_idle_tail(a: Seq<char>, idle: Seq<char>)
    requires
        idle.len() == 0 || idle == here(),
    ensures
        component_seq(a.push('/') + idle) == lead(a.push('/')) + pieces(a),
        a.len() > 0 ==> component_seq(a.push('/') + idle) == component_seq(a),
{
    let p = a.push('/') + idle;
    let none = Seq::<char>::empty();
    lemma_pieces_concat(a, idle);
    lemma_no_pieces(idle);
    lemma_pieces_concat(a, none);
    lemma_no_pieces(none);
    assert(a.push('/') + none == a.push('/'));
    assert(pieces(p) == pieces(a));
    assert(is_absolute(p) == is_absolute(a.push('/')));
    if a.len() > 0 {
        assert(is_absolute(a) == is_absolute(p));
    }
}

/// What trimming takes off the end of a path was no component of it.
pub proof fn lemma_trim_tail(p: Seq<char>)
    ensures
        component_seq(trim_tail(p)) == component_seq(p),
        trim_tail(p).len() > 0 <==> p.len() > 0,
        trim_tail(p).len() > 1 ==> trim_tail(p).last() != '/',
        trim_tail(p).len() > 1 && trim_tail(p).last() == '.' ==> trim_tail(p)[trim_tail(p).len()
            - 2] != '/',
        is_absolute(trim_tail(p)) == is_absolute(p),
    decreases p.len(),
{
    if p.len() > 1 && (p.last() == '/' || (p.last() == '.' && p[p.len() - 2] == '/')) {
        let q = p.drop_last();
        lemma_trim_tail(q);
        if p.last() == '/' {
            assert(p == q.push('/') + Seq::<char>::empty());
            lemma_idle_tail(q, seq![]);
        } else {
            let a = q.drop_last();
            assert(q == a.push('/'));
            assert(p == a.push('/') + here());
            lemma_idle_tail(a, here());
            lemma_idle_tail(a, seq![]);
            assert(a.push('/') + Seq::<char>::empty() == q);
        }
    }
}

/// Joining a relative path puts its pieces behind the components of the base.
pub proof fn law_join_components(base: Seq<char>, p: Seq<char>)
    requires
        base.len() > 0,
        !is_absolute(p),
    ensures
        component_seq(joined(base, p)) == component_seq(base) + pieces(p),
{
    let j = joined(base, p);
    if base.last() != '/' {
        assert(j == base.push('/') + p);
        lemma_pieces_concat(base, p);
    } else {
        let a = base.drop_last();
        assert(base == a.push('/'));
        assert(j == a.push('/') + p);
        lemma_pieces_concat(a, p);
        lemma_pieces_concat(a, seq![]);
        lemma_no_pieces(seq![]);
        assert(a.push('/') + Seq::<char>::empty() == base);
        assert(pieces(base) == pieces(a));
    }
    assert(is_absolute(j) == is_absolute(base));
    assert(lead(j) == lead(base));
    assert(lead(base) + pieces(base) + pieces(p) == lead(base) + (pieces(base) + pieces(p)));
}

/// No piece of a path is empty, a single dot, or holds a slash.
pub proof fn lemma_pieces_clean(p: Seq<char>)
    ensures
        forall|i: int|
            0 <= i < pieces(p).len() ==> counts(#[trigger] pieces(p)[i]) && !pieces(p)[i].contains(
                '/',
            ),
{
    let keep = |piece: Seq<char>| counts(piece);
    lemma_split_clean(p, '/');
    assert forall|i: int| 0 <= i < pieces(p).len() implies counts(#[trigger] pieces(p)[i])
        && !pieces(p)[i].contains('/') by {
        split(p, '/').lemma_filter_pred(keep, i);
        split(p, '/').lemma_filter_contains_rev(keep, pieces(p)[i]);
    }
}

/// A trimmed path cut behind its last slash: the front has all components but
/// the last, and the last is what is behind the cut.
proof fn lemma_cut(t: Seq<char>)
    requires
        t.len() > 0,
        t != root(),
        t.len() > 1 ==> t.last() != '/',
        t.len() > 1 && t.last() == '.' ==> t[t.len() - 2] != '/',
    ensures
        !t.skip(after_last(t, '/')).contains('/'),
        t.skip(after_last(t, '/')).len() > 0,
        component_seq(t) == component_seq(t.take(after_last(t, '/'))).push(
            t.skip(after_last(t, '/')),
        ),
{
    lemma_after_last(t, '/');
    let k = after_last(t, '/');
    let dir = t.take(k);
    let name = t.skip(k);
    assert(!name.contains('/')) by {
        if name.contains('/') {
            let i = choose|i: int| 0 <= i < name.len() && name[i] == '/';
            assert(t[k + i] == '/');
        }
    }
    assert(k < t.len()) by {
        if k == t.len() && t.len() == 1 {
            assert(t == root());
        }
    }
    if k == 0 {
        assert(name == t);
        assert(dir == Seq::<char>::empty());
        lemma_empty_path();
        if counts(name) {
            lemma_name_alone(name);
        } else {
            lemma_no_pieces(name);
            lemma_split_single(name, '/');
            assert(name == here());
            assert(component_seq(t) == seq![here()]);
        }
        assert(component_seq(t) == component_seq(dir).push(name));
    } else {
        let a = t.take(k - 1);
        assert(dir == a.push('/'));
        assert(t == a.push('/') + name);
        if name == here() {
            assert(t[t.len() - 1] == name[0]);
            assert(t[t.len() - 2] == '/');
        }
        lemma_pieces_concat(a, name);
        lemma_name_alone(name);
        lemma_pieces_concat(a, seq![]);
        lemma_no_pieces(seq![]);
        assert(a.push('/') + Seq::<char>::empty() == dir);
        assert(is_absolute(t) == is_absolute(dir));
        assert(component_seq(t) == component_seq(dir).push(name));
    }
}

/// The last component goes, and the others stay, when the parent is taken. Only
/// the empty path and the root have no parent. The name of a path is its last
/// component.
pub proof fn law_parent_components(p: Seq<char>)
    ensures
        match parent_path(p) {
            Some(q) => component_seq(p).len() > 0 && component_seq(q) == component_seq(
                p,
            ).drop_last(),
            None => component_seq(p).len() == 0 || component_seq(p) == seq![root()],
        },
        name_part(p) matches Some(name) ==> {
            &&& component_seq(p).len() > 0
            &&& component_seq(p).last() == name
            &&& counts(name)
            &&& !name.contains('/')
            &&& name != up()
            &&& parent_path(p) is Some
        },
{
    let t = trim_tail(p);
    lemma_trim_tail(p);
    if t.len() == 0 {
        lemma_empty_path();
        assert(t == Seq::<char>::empty());
    } else if t == root() {
        lemma_root_path();
        lemma_after_last(t, '/');
        assert(t[0] == '/');
        assert(after_last(t, '/') == 1);
    } else {
        lemma_cut(t);
        let dir = t.take(after_last(t, '/'));
        lemma_trim_tail(dir);
        assert(component_seq(dir).push(t.skip(after_last(t, '/'))).drop_last() == component_seq(
            dir,
        ));
    }
}

/// The parent of a relative path is relative.
pub proof fn law_parent_is_relative(p: Seq<char>)
    requires
        !is_absolute(p),
    ensures
        parent_path(p) matches Some(dir) ==> !is_absolute(dir),
{
    let t = trim_tail(p);
    lemma_trim_tail(p);
    lemma_after_last(t, '/');
    let front = t.take(after_last(t, '/'));
    lemma_trim_tail(front);
    if front.len() > 0 {
        assert(front[0] == t[0]);
    }
}

/// A last component that is a name is the name of the path.
pub proof fn lemma_last_component_is_name(p: Seq<char>)
    requires
        component_seq(p).len() > 0,
        counts(component_seq(p).last()),
        component_seq(p).last() != up(),
        component_seq(p).last() != root(),
    ensures
        name_part(p) == Some(component_seq(p).last()),
{
    let t = trim_tail(p);
    lemma_trim_tail(p);
    if t.len() == 0 {
        lemma_empty_path();
        assert(t == Seq::<char>::empty());
    } else if t == root() {
        lemma_root_path();
    } else {
        lemma_cut(t);
    }
}

/// What trimming takes off the front of a text was no piece of it, and what is
/// left has neither a root nor a dot at its front.
proof fn lemma_trim_head(p: Seq<char>)
    ensures
        pieces(trim_head(p)) == pieces(p),
        component_seq(trim_head(p)) == pieces(p),
    decreases p.len(),
{
    let none = Seq::<char>::empty();
    if p.len() > 0 && (p[0] == '/' || (p[0] == '.' && (p.len() == 1 || p[1] == '/'))) {
        let q = p.drop_first();
        lemma_trim_head(q);
        if p[0] == '/' {
            assert(p == none.push('/') + q);
            lemma_pieces_concat(none, q);
            lemma_no_pieces(none);
            assert(pieces(p) == pieces(q));
        } else if p.len() == 1 {
            assert(p == here());
            assert(q == none);
            lemma_no_pieces(p);
            lemma_no_pieces(q);
        } else {
            let rest = q.drop_first();
            assert(p == here().push('/') + rest);
            assert(q == none.push('/') + rest);
            lemma_pieces_concat(here(), rest);
            lemma_no_pieces(here());
            lemma_pieces_concat(none, rest);
            lemma_no_pieces(none);
        }
    } else {
        lemma_until(p, '/');
        let k = until(p, '/');
        if split(p, '/')[0] == here() {
            if k < p.len() {
                assert(p.take(k) == here());
                assert(p[0] == here()[0]);
            } else {
                assert(p == here());
            }
        }
        assert(component_seq(p) == pieces(p));
    }
}

/// Taking the first component off the text takes it off the components.
proof fn lemma_behind_first(p: Seq<char>)
    requires
        component_seq(p).len() > 0,
        is_absolute(p) || component_seq(p) != pieces(p) || trim_head(p) == p,
    ensures
        component_seq(behind_first(p)) == component_seq(p).drop_first(),
        trim_head(behind_first(p)) == behind_first(p),
{
    let none = Seq::<char>::empty();
    if is_absolute(p) {
        let q = p.skip(1);
        assert(p == none.push('/') + q);
        lemma_pieces_concat(none, q);
        lemma_no_pieces(none);
        lemma_trim_head(q);
        lemma_trim_head_done(q);
        assert(component_seq(p).drop_first() == pieces(p));
    } else {
        lemma_until(p, '/');
        let k = until(p, '/');
        let first = p.take(k);
        let q = p.skip(k);
        lemma_trim_head(q);
        lemma_trim_head_done(q);
        assert(!first.contains('/'));
        if k < p.len() {
            let rest = q.drop_first();
            assert(q == none.push('/') + rest);
            assert(p == first.push('/') + rest);
            lemma_pieces_concat(none, rest);
            lemma_no_pieces(none);
            lemma_pieces_concat(first, rest);
            assert(split(p, '/')[0] == first);
            if counts(first) {
                lemma_name_alone(first);
            } else {
                lemma_no_pieces(first);
            }
        } else {
            assert(first == p);
            assert(q == none);
            lemma_no_pieces(none);
            if counts(first) {
                lemma_name_alone(first);
            } else {
                lemma_no_pieces(first);
            }
        }
        if first == here() {
            assert(component_seq(p).drop_first() == pieces(p));
        } else {
            assert(lead(p) == Seq::<Seq<char>>::empty());
            assert(first.len() > 0) by {
                if first.len() == 0 && p.len() == 0 {
                    assert(p == none);
                }
            }
            assert(component_seq(p) == seq![first] + pieces(q));
            assert(component_seq(p).drop_first() == pieces(q));
        }
    }
}

/// Trimming twice is trimming once.
proof fn lemma_trim_head_done(p: Seq<char>)
    ensures
        trim_head(trim_head(p)) == trim_head(p),
    decreases p.len(),
{
    if p.len() > 0 && (p[0] == '/' || (p[0] == '.' && (p.len() == 1 || p[1] == '/'))) {
        lemma_trim_head_done(p.drop_first());
    }
}

/// The text behind the first `n` components has the other components.
proof fn lemma_behind(p: Seq<char>, n: nat)
    requires
        n <= component_seq(p).len(),
        is_absolute(p) || component_seq(p) != pieces(p) || trim_head(p) == p || n == 0,
    ensures
        component_seq(behind(p, n)) == component_seq(p).skip(n as int),
    decreases n,
{
    if n == 0 {
        lemma_trim_tail(p);
        assert(component_seq(p).skip(0) == component_seq(p));
    } else {
        lemma_behind_first(p);
        lemma_behind(behind_first(p), (n - 1) as nat);
        assert(component_seq(p).drop_first().skip(n - 1) == component_seq(p).skip(n as int));
    }
}

/// A path whose pieces are all its components has nothing to trim at its front.
proof fn lemma_front_clean(p: Seq<char>)
    ensures
        is_absolute(p) || component_seq(p) != pieces(p) || trim_head(p) == p,
{
    if !is_absolute(p) && trim_head(p) != p {
        lemma_until(p, '/');
        let k = until(p, '/');
        assert(p[0] == '.' && (p.len() == 1 || p[1] == '/'));
        lemma_until_is(p, '/', 1);
        assert(p.take(1) == here());
        if p.len() == 1 {
            assert(p == here());
        }
        assert(split(p, '/')[0] == here());
        assert(component_seq(p).len() == pieces(p).len() + 1);
    }
}

/// What is left behind one component or more is relative, and does not begin
/// with a dot that stands for nothing.
proof fn lemma_behind_is_relative(p: Seq<char>, n: nat)
    requires
        n > 0,
    ensures
        !is_absolute(behind(p, n)),
        lead(behind(p, n)) == Seq::<Seq<char>>::empty(),
    decreases n,
{
    let q = behind_first(p);
    let s = if is_absolute(p) {
        p.skip(1)
    } else {
        p.skip(until(p, '/'))
    };
    assert(q == trim_head(s));
    reveal_with_fuel(behind, 2);
    if n == 1 {
        lemma_trim_head(s);
        lemma_trim_head_done(s);
        lemma_trim_tail(q);
        let r = trim_tail(q);
        assert(component_seq(q) == pieces(q));
        assert(!is_absolute(q));
        law_trimmed_pieces(q);
        assert(component_seq(r) == pieces(r));
        assert(lead(r).len() == 0);
    } else {
        lemma_behind_is_relative(q, (n - 1) as nat);
    }
}

/// Trimming the end of a path takes no piece off.
pub proof fn law_trimmed_pieces(p: Seq<char>)
    ensures
        pieces(trim_tail(p)) == pieces(p),
{
    lemma_trim_tail(p);
    lemma_trim_tail_lead(p);
    assert(component_seq(p).skip(lead(p).len() as int) == pieces(p));
    assert(component_seq(trim_tail(p)).skip(lead(trim_tail(p)).len() as int) == pieces(
        trim_tail(p),
    ));
}

/// Trimming the end of a path leaves what stands before its pieces.
proof fn lemma_trim_tail_lead(p: Seq<char>)
    ensures
        lead(trim_tail(p)) == lead(p),
    decreases p.len(),
{
    if p.len() > 1 && (p.last() == '/' || (p.last() == '.' && p[p.len() - 2] == '/')) {
        let q = p.drop_last();
        lemma_trim_tail_lead(q);
        if p.last() == '/' {
            assert(p == q.push('/') + Seq::<char>::empty());
            lemma_pieces_concat(q, seq![]);
        } else {
            let a = q.drop_last();
            assert(q == a.push('/') + Seq::<char>::empty());
            assert(p == a.push('/') + here());
            lemma_pieces_concat(a, here());
            lemma_pieces_concat(a, seq![]);
        }
        assert(is_absolute(p) == is_absolute(q));
    }
}

/// What is left when a prefix is stripped that has components is relative, and
/// all its components are pieces.
pub proof fn law_stripped_is_relative(p: Seq<char>, base: Seq<char>)
    requires
        component_seq(base).len() > 0,
    ensures
        prefix_stripped(p, base) matches Some(rest) ==> !is_absolute(rest) && component_seq(rest)
            == pieces(rest),
{
    if leads(base, p) {
        let rest = behind(p, component_seq(base).len());
        lemma_behind_is_relative(p, component_seq(base).len());
        assert(component_seq(rest) == pieces(rest));
    }
}

/// Stripping a prefix takes just the components of the prefix off.
pub proof fn law_strip_prefix_components(p: Seq<char>, base: Seq<char>)
    ensures
        match prefix_stripped(p, base) {
            Some(rest) => component_seq(p) == component_seq(base) + component_seq(rest),
            None => !leads(base, p),
        },
{
    if leads(base, p) {
        let n = component_seq(base).len();
        lemma_front_clean(p);
        lemma_behind(p, n);
        assert(component_seq(p) == component_seq(base) + component_seq(p).skip(n as int)) by {
            assert(component_seq(p).take(n as int) == component_seq(base));
        }
    }
}

/// A name put behind a directory, written with its slash, is the last component.
proof fn lemma_name_behind(dir: Seq<char>, name: Seq<char>)
    requires
        dir.len() == 0 || dir.last() == '/',
        counts(name),
        !name.contains('/'),
    ensures
        component_seq(dir + name) == component_seq(dir).push(name),
        is_absolute(dir + name) == is_absolute(dir),
{
    let none = Seq::<char>::empty();
    lemma_name_alone(name);
    if dir.len() == 0 {
        lemma_empty_path();
        assert(dir == none);
        assert(dir + name == name);
        assert(component_seq(name) == Seq::<Seq<char>>::empty().push(name));
        assert(!is_absolute(name)) by {
            if is_absolute(name) {
                assert(name.contains(name[0]));
            }
        }
    } else {
        let a = dir.drop_last();
        assert(dir == a.push('/') + none);
        assert(dir + name == a.push('/') + name);
        lemma_pieces_concat(a, name);
        lemma_pieces_concat(a, none);
        lemma_no_pieces(none);
        assert(is_absolute(dir + name) == is_absolute(dir));
        assert(component_seq(dir + name) == component_seq(dir).push(name));
    }
}

/// A path that is not empty has a component.
pub proof fn lemma_some_component(p: Seq<char>)
    requires
        p.len() > 0,
    ensures
        component_seq(p).len() > 0,
{
    if lead(p).len() == 0 {
        let keep = |piece: Seq<char>| counts(piece);
        crate::text::lemma_until(p, '/');
        let first = split(p, '/')[0];
        assert(first.len() > 0);
        split(p, '/').lemma_filter_contains(keep, 0);
        assert(pieces(p).contains(first));
    }
}

/// A relative path with no dot among its components has only pieces.
pub proof fn lemma_only_pieces(p: Seq<char>)
    requires
        !is_absolute(p),
        forall|i: int| 0 <= i < component_seq(p).len() ==> #[trigger] component_seq(p)[i] != here(),
    ensures
        component_seq(p) == pieces(p),
{
    if lead(p).len() > 0 {
        assert(component_seq(p)[0] == here());
    } else {
        assert(component_seq(p) == pieces(p));
    }
}

/// Taking the extension off a path changes its last component to the stem.
pub proof fn law_bare_components(p: Seq<char>)
    requires
        name_part(p) matches Some(name) && stem_of(name) != here(),
    ensures
        stem_part(p) matches Some(stem) && component_seq(bare(p)) == component_seq(
            p,
        ).drop_last().push(stem),
        is_absolute(bare(p)) == is_absolute(p),
{
    let t = trim_tail(p);
    lemma_trim_tail(p);
    law_parent_components(p);
    let name = name_part(p)->0;
    let stem = stem_of(name);
    lemma_after_last(name, '.');
    lemma_after_last(t, '/');
    let cut = after_last(t, '/');
    let dir = t.take(cut);
    assert(t.len() > 0);
    assert(t != root()) by {
        if t == root() {
            assert(after_last(t, '/') == 1);
        }
    }
    lemma_cut(t);
    assert(!stem.contains('/')) by {
        if stem.contains('/') {
            let i = choose|i: int| 0 <= i < stem.len() && stem[i] == '/';
            assert(name[i] == '/');
        }
    }
    lemma_name_behind(dir, stem);
    assert(component_seq(dir).push(name).drop_last() == component_seq(dir));
    assert(is_absolute(dir) == is_absolute(t)) by {
        if cut == 0 {
            assert(t.skip(0) == t);
            if is_absolute(t) {
                assert(name.contains(name[0]));
            }
        }
    }
}

/// A list of components that a path can have once `.` and `..` are resolved.
pub open spec fn settled(cs: Seq<Seq<char>>) -> bool {
    forall|i: int|
        0 <= i < cs.len() ==> {
            ||| i == 0 && #[trigger] cs[i] == root()
            ||| counts(cs[i]) && !cs[i].contains('/') && cs[i] != up()
        }
}

/// Resolving leaves neither `.` nor `..`, and the root only at the front.
proof fn lemma_resolved_settled(p: Seq<char>, n: int)
    requires
        0 <= n <= component_seq(p).len(),
    ensures
        settled(resolved(component_seq(p).take(n))),
    decreases n,
{
    let cs = component_seq(p);
    if n > 0 {
        lemma_resolved_settled(p, n - 1);
        lemma_pieces_clean(p);
        assert(cs.take(n).drop_last() == cs.take(n - 1));
        assert(cs.take(n).last() == cs[n - 1]);
        let c = cs[n - 1];
        let done = resolved(cs.take(n - 1));
        if n - 1 >= lead(p).len() {
            assert(c == pieces(p)[n - 1 - lead(p).len()]);
        } else {
            assert(n == 1);
            assert(cs.take(0) == Seq::<Seq<char>>::empty());
            assert(done.len() == 0);
            assert(c == lead(p)[0]);
        }
    }
}

/// A settled list of components is the list of components of the path that is
/// put together from it.
pub proof fn lemma_assembled(cs: Seq<Seq<char>>)
    requires
        settled(cs),
    ensures
        component_seq(assembled(cs)) == cs,
        assembled(cs).len() == 0 <==> cs.len() == 0,
    decreases cs.len(),
{
    if cs.len() == 0 {
        lemma_empty_path();
        assert(assembled(cs) == Seq::<char>::empty());
        assert(cs == Seq::<Seq<char>>::empty());
    } else {
        let front = cs.drop_last();
        let c = cs.last();
        assert(settled(front)) by {
            assert forall|i: int| 0 <= i < front.len() implies {
                ||| i == 0 && #[trigger] front[i] == root()
                ||| counts(front[i]) && !front[i].contains('/') && front[i] != up()
            } by {
                assert(front[i] == cs[i]);
            }
        }
        lemma_assembled(front);
        assert(c == cs[cs.len() - 1]);
        if c == root() {
            assert(root().contains(root()[0]));
            assert(cs.len() == 1);
            lemma_root_path();
            assert(cs == seq![root()]);
            assert(assembled(cs) == root());
        } else {
            assert(!is_absolute(c)) by {
                if is_absolute(c) {
                    assert(c.contains(c[0]));
                }
            }
            lemma_name_alone(c);
            if front.len() == 0 {
                assert(assembled(front) == Seq::<char>::empty());
                assert(assembled(cs) == c);
                assert(cs == seq![c]);
            } else {
                law_join_components(assembled(front), c);
                assert(cs == front + seq![c]);
            }
        }
    }
}

/// Normalizing a path resolves its components, and leaves no `.` and no `..`.
pub proof fn law_normal_components(p: Seq<char>)
    ensures
        component_seq(normal_form(p)) == resolved(component_seq(p)),
        settled(component_seq(normal_form(p))),
{
    let cs = component_seq(p);
    lemma_resolved_settled(p, cs.len() as int);
    assert(cs.take(cs.len() as int) == cs);
    lemma_assembled(resolved(cs));
}

/// Resolving leaves settled components as they are.
pub proof fn lemma_resolved_same(cs: Seq<Seq<char>>)
    requires
        settled(cs),
    ensures
        resolved(cs) == cs,
    decreases cs.len(),
{
    if cs.len() > 0 {
        let front = cs.drop_last();
        assert forall|i: int| 0 <= i < front.len() implies {
            ||| i == 0 && #[trigger] front[i] == root()
            ||| counts(front[i]) && !front[i].contains('/') && front[i] != up()
        } by {
            assert(front[i] == cs[i]);
        }
        lemma_resolved_same(front);
        assert(cs.last() == cs[cs.len() - 1]);
        assert(root() != up() && root() != here()) by {
            assert(root()[0] == '/');
            assert(here()[0] == '.');
            assert(up()[0] == '.');
        }
        assert(front.push(cs.last()) == cs);
    }
}

/// Normalizing a normalized path changes nothing.
pub proof fn law_normalize_twice(p: Seq<char>)
    ensures
        normal_form(normal_form(p)) == normal_form(p),
{
    law_normal_components(p);
    lemma_resolved_same(resolved(component_seq(p)));
}

/// Names with a slash between each two of them.
pub open spec fn with_slashes(names: Seq<Seq<char>>) -> Seq<char>
    decreases names.len(),
{
    if names.len() == 0 {
        seq![]
    } else if names.len() == 1 {
        names[0]
    } else {
        with_slashes(names.drop_last()) + seq!['/'] + names.last()
    }
}

/// The text can be the name of a file: it is not empty, no single dot, and holds no
/// slash.
pub open spec fn is_name(name: Seq<char>) -> bool {
    name.len() > 0 && name != seq!['.'] && !name.contains('/')
}

/// Each of the texts can be the name of a file.
pub open spec fn are_names(names: Seq<Seq<char>>) -> bool {
    forall|i: int| 0 <= i < names.len() ==> is_name(#[trigger] names[i])
}

/// The components of names with slashes between them are those names, whether the
/// path is relative, or begins at the root or at the current directory.
pub proof fn law_components_of_names(names: Seq<Seq<char>>)
    requires
        are_names(names),
    ensures
        component_seq(with_slashes(names)) == names,
        component_seq(seq!['/'] + with_slashes(names)) == seq![seq!['/']] + names,
        component_seq(seq!['.', '/'] + with_slashes(names)) == seq![seq!['.']] + names,
        pieces(with_slashes(names)) == names,
{
    lemma_pieces_of_names(names);
    let p = with_slashes(names);
    let none = Seq::<char>::empty();
    let slash = seq!['/'];
    assert(slash + p == none.push('/') + p);
    lemma_pieces_concat(none, p);
    lemma_no_pieces(none);
    assert(none.push('/') + p == slash + p);
    assert(component_seq(slash + p) == seq![slash] + names);
    let dotted = seq!['.', '/'] + p;
    assert(dotted == here().push('/') + p);
    lemma_pieces_concat(here(), p);
    lemma_no_pieces(here());
    lemma_split_single(here(), '/');
    assert(!is_absolute(dotted));
    assert(component_seq(dotted) == seq![here()] + names);
}

proof fn lemma_pieces_of_names(names: Seq<Seq<char>>)
    requires
        are_names(names),
    ensures
        pieces(with_slashes(names)) == names,
        component_seq(with_slashes(names)) == names,
        !is_absolute(with_slashes(names)),
        names.len() > 0 ==> with_slashes(names).len() > 0 && split(with_slashes(names), '/')[0]
            == names[0],
    decreases names.len(),
{
    let p = with_slashes(names);
    if names.len() == 0 {
        lemma_empty_path();
        lemma_no_pieces(seq![]);
        assert(p == Seq::<char>::empty());
        assert(pieces(p) == names);
    } else if names.len() == 1 {
        assert(is_name(names[0]));
        lemma_name_alone(names[0]);
        lemma_split_single(names[0], '/');
        assert(seq![names[0]] == names);
        if is_absolute(p) {
            assert(p.contains(p[0]));
        }
    } else {
        let front = names.drop_last();
        let last = names.last();
        assert(are_names(front)) by {
            assert forall|i: int| 0 <= i < front.len() implies is_name(#[trigger] front[i]) by {
                assert(front[i] == names[i]);
            }
        }
        assert(is_name(names[names.len() - 1]));
        lemma_pieces_of_names(front);
        lemma_name_alone(last);
        let a = with_slashes(front);
        assert(p == a.push('/') + last);
        lemma_pieces_concat(a, last);
        assert(front + seq![last] == names);
        assert(is_absolute(p) == is_absolute(a));
        assert(is_name(names[0]));
        assert(lead(p) == Seq::<Seq<char>>::empty());
        assert(component_seq(p) == names);
    }
}

/// A slash or a dot too many changes no component: neither between two parts of a
/// path nor at its end.
pub proof fn law_idle_parts_are_no_components(a: Seq<char>, b: Seq<char>)
    requires
        a.len() > 0,
    ensures
        component_seq(a + seq!['/', '/'] + b) == component_seq(a + seq!['/'] + b),
        component_seq(a + seq!['/', '.', '/'] + b) == component_seq(a + seq!['/'] + b),
        component_seq(a + seq!['/']) == component_seq(a),
        component_seq(a + seq!['/', '.']) == component_seq(a),
        pieces(a + seq!['/'] + b) == pieces(a) + pieces(b),
{
    let none = Seq::<char>::empty();
    lemma_pieces_concat(a, b);
    lemma_pieces_concat(a.push('/'), b);
    lemma_pieces_concat(a, none);
    lemma_no_pieces(none);
    lemma_no_pieces(here());
    lemma_pieces_concat(a, here());
    let dotted = a.push('/') + here();
    lemma_pieces_concat(dotted, b);
    let one = a + seq!['/'] + b;
    let two = a + seq!['/', '/'] + b;
    let dot = a + seq!['/', '.', '/'] + b;
    assert(one == a.push('/') + b);
    assert(two == a.push('/').push('/') + b);
    assert(dot == dotted.push('/') + b);
    assert(a.push('/') + none == a.push('/'));
    assert(is_absolute(one) == is_absolute(a) && is_absolute(two) == is_absolute(a) && is_absolute(
        dot,
    ) == is_absolute(a));
    assert(pieces(two) == pieces(one));
    assert(pieces(dot) == pieces(one));
    lemma_idle_tail(a, none);
    lemma_idle_tail(a, here());
    assert(a + seq!['/'] == a.push('/') + none);
    assert(a + seq!['/', '.'] == a.push('/') + here());
}

/// A `.` changes nothing, a `..` takes the component before it back, and every other
/// component stays.
pub proof fn law_resolving_one_by_one(cs: Seq<Seq<char>>, c: Seq<char>)
    ensures
        resolved(seq![]) == Seq::<Seq<char>>::empty(),
        c == seq!['.'] ==> resolved(cs.push(c)) == resolved(cs),
        c == seq!['.', '.'] && resolved(cs).len() > 0 ==> resolved(cs.push(c)) == resolved(
            cs,
        ).subrange(0, resolved(cs).len() - 1),
        c == seq!['.', '.'] && resolved(cs).len() == 0 ==> resolved(cs.push(c)).len() == 0,
        c != seq!['.'] && c != seq!['.', '.'] ==> resolved(cs.push(c)) == resolved(cs).push(c),
{
    assert(cs.push(c).drop_last() == cs);
    assert(here().len() != up().len());
}

/// Going into a directory and out again leads back, and a dot leads nowhere.
pub proof fn law_normalizing_takes_steps_back(p: Seq<char>, name: Seq<char>)
    requires
        p.len() > 0,
        is_name(name),
        name != seq!['.', '.'],
    ensures
        normal_form(p + seq!['/'] + name + seq!['/', '.', '.']) == normal_form(p),
        normal_form(p + seq!['/', '.']) == normal_form(p),
        component_seq(normal_form(p + seq!['/'] + name)) == component_seq(normal_form(p)).push(name),
{
    let into = p + seq!['/'] + name;
    let out = into + seq!['/', '.', '.'];
    assert(into == p.push('/') + name);
    assert(out == into.push('/') + up());
    lemma_name_alone(name);
    lemma_pieces_concat(p, name);
    lemma_name_alone(up());
    lemma_pieces_concat(into, up());
    assert(component_seq(into) == component_seq(p).push(name)) by {
        assert(is_absolute(into) == is_absolute(p));
        assert(lead(p) + (pieces(p) + seq![name]) == (lead(p) + pieces(p)).push(name));
    }
    assert(component_seq(out) == component_seq(into).push(up())) by {
        assert(is_absolute(out) == is_absolute(into));
        assert(lead(into) + (pieces(into) + seq![up()]) == (lead(into) + pieces(into)).push(up()));
    }
    law_resolving_one_by_one(component_seq(p), name);
    law_resolving_one_by_one(component_seq(into), up());
    let done = resolved(component_seq(p));
    assert(done.push(name).subrange(0, done.len() as int) == done);
    law_idle_parts_are_no_components(p, seq![]);
    law_normal_components(p);
    law_normal_components(into);
}

/// Names with slashes between them are their own normal form, at the root or not.
pub proof fn law_names_are_normal(names: Seq<Seq<char>>)
    requires
        are_names(names),
        forall|i: int| 0 <= i < names.len() ==> #[trigger] names[i] != seq!['.', '.'],
    ensures
        normal_form(with_slashes(names)) == with_slashes(names),
        normal_form(seq!['/'] + with_slashes(names)) == seq!['/'] + with_slashes(names),
{
    law_components_of_names(names);
    assert(settled(names)) by {
        assert forall|i: int| 0 <= i < names.len() implies {
            ||| i == 0 && #[trigger] names[i] == root()
            ||| counts(names[i]) && !names[i].contains('/') && names[i] != up()
        } by {
            assert(is_name(names[i]));
        }
    }
    lemma_resolved_same(names);
    lemma_assembled_names(names);
    let rooted = seq![root()] + names;
    assert(settled(rooted)) by {
        assert forall|i: int| 0 <= i < rooted.len() implies {
            ||| i == 0 && #[trigger] rooted[i] == root()
            ||| counts(rooted[i]) && !rooted[i].contains('/') && rooted[i] != up()
        } by {
            if i > 0 {
                assert(rooted[i] == names[i - 1]);
                assert(is_name(names[i - 1]));
            }
        }
    }
    lemma_resolved_same(rooted);
    lemma_assembled_rooted(names);
}

proof fn lemma_assembled_names(names: Seq<Seq<char>>)
    requires
        are_names(names),
    ensures
        assembled(names) == with_slashes(names),
    decreases names.len(),
{
    if names.len() > 0 {
        let front = names.drop_last();
        assert forall|i: int| 0 <= i < front.len() implies is_name(#[trigger] front[i]) by {
            assert(front[i] == names[i]);
        }
        lemma_assembled_names(front);
        let last = names.last();
        assert(is_name(names[names.len() - 1]));
        assert(!is_absolute(last)) by {
            if is_absolute(last) {
                assert(last.contains(last[0]));
            }
        }
        if front.len() == 0 {
            assert(assembled(front) == Seq::<char>::empty());
            assert(assembled(names) == last);
        } else {
            lemma_names_end(front);
        }
    }
}

proof fn lemma_names_end(names: Seq<Seq<char>>)
    requires
        are_names(names),
        names.len() > 0,
    ensures
        with_slashes(names).len() > 0,
        with_slashes(names).last() != '/',
{
    let last = names.last();
    assert(is_name(names[names.len() - 1]));
    assert(last.contains(last[last.len() - 1]));
    assert(with_slashes(names).last() == last[last.len() - 1]);
}

proof fn lemma_assembled_rooted(names: Seq<Seq<char>>)
    requires
        are_names(names),
    ensures
        assembled(seq![root()] + names) == seq!['/'] + with_slashes(names),
    decreases names.len(),
{
    let rooted = seq![root()] + names;
    if names.len() == 0 {
        reveal_with_fuel(assembled, 2);
        assert(rooted.drop_last() == Seq::<Seq<char>>::empty());
        assert(rooted.last() == root());
        assert(with_slashes(names) == Seq::<char>::empty());
    } else {
        let front = names.drop_last();
        let last = names.last();
        assert forall|i: int| 0 <= i < front.len() implies is_name(#[trigger] front[i]) by {
            assert(front[i] == names[i]);
        }
        lemma_assembled_rooted(front);
        assert(rooted.drop_last() == seq![root()] + front);
        assert(is_name(names[names.len() - 1]));
        assert(!is_absolute(last)) by {
            if is_absolute(last) {
                assert(last.contains(last[0]));
            }
        }
        if front.len() == 0 {
            assert(with_slashes(front) == Seq::<char>::empty());
            assert(seq!['/'] + with_slashes(front) == root());
            assert(assembled(rooted) == root() + last);
        } else {
            lemma_names_end(front);
            let a = seq!['/'] + with_slashes(front);
            assert(a.last() == with_slashes(front).last());
            assert(a + root() + last == seq!['/'] + (with_slashes(front) + seq!['/'] + last));
        }
    }
}

/// The name of a path is its last component, unless that is the root, `.` or `..`.
pub proof fn law_name_is_the_last_component(p: Seq<char>)
    ensures
        name_part(p) == if component_seq(p).len() == 0 {
            None
        } else {
            let last = component_seq(p)[component_seq(p).len() - 1];
            if last == seq!['/'] || last == seq!['.'] || last == seq!['.', '.'] {
                None
            } else {
                Some(last)
            }
        },
{
    law_parent_components(p);
    let cs = component_seq(p);
    if cs.len() > 0 {
        let last = cs[cs.len() - 1];
        lemma_pieces_clean(p);
        if last != root() && last != here() && last != up() {
            if pieces(p).len() > 0 {
                assert(last == pieces(p)[pieces(p).len() - 1]);
            } else {
                assert(cs == lead(p));
                assert(last == lead(p)[0]);
            }
            lemma_last_component_is_name(p);
        } else if let Some(name) = name_part(p) {
            assert(name == last);
            if name == root() {
                assert(name.contains(name[0]));
            }
        }
    }
}

/// The file `name` in the directory `dir`: its name, its directory, and the text of
/// its path.
pub proof fn law_file_in_a_directory(dir: Seq<char>, name: Seq<char>)
    requires
        dir.len() > 0,
        dir.last() != '/',
        dir.len() > 1 && dir.last() == '.' ==> dir[dir.len() - 2] != '/',
        is_name(name),
        name != seq!['.', '.'],
    ensures
        joined(dir, name) == dir + seq!['/'] + name,
        name_part(dir + seq!['/'] + name) == Some(name),
        parent_path(dir + seq!['/'] + name) == Some(dir),
{
    let p = dir + seq!['/'] + name;
    assert(!is_absolute(name)) by {
        if is_absolute(name) {
            assert(name.contains(name[0]));
        }
    }
    assert(p.last() == name[name.len() - 1]);
    assert(name.contains(name[name.len() - 1]));
    if p.last() == '.' && p[p.len() - 2] == '/' {
        if name.len() > 1 {
            assert(p[p.len() - 2] == name[name.len() - 2]);
            assert(name.contains(name[name.len() - 2]));
        } else {
            assert(name == seq!['.']);
        }
    }
    assert(trim_tail(p) == p);
    let cut = dir.len() as int + 1;
    assert(p[cut - 1] == '/');
    assert forall|i: int| cut <= i < p.len() implies p[i] != '/' by {
        assert(p[i] == name[i - cut]);
        assert(name.contains(name[i - cut]));
    }
    crate::text::lemma_after_last_is(p, '/', cut);
    assert(p.skip(cut) == name);
    let front = p.take(cut);
    assert(front == dir.push('/'));
    assert(front.drop_last() == dir);
    assert(trim_tail(dir) == dir);
    assert(trim_tail(front) == dir);
}

/// Joining: an absolute path stands for itself, and another one is put behind the
/// base, with a slash between them where the base has none.
pub proof fn law_joined_text(base: Seq<char>, p: Seq<char>)
    ensures
        p.len() > 0 && p[0] == '/' ==> joined(base, p) == p,
        !(p.len() > 0 && p[0] == '/') ==> joined(base, p) == if base.len() == 0
            || base[base.len() - 1] == '/' {
            base + p
        } else {
            base + seq!['/'] + p
        },
{
}

/// A file name falls into a stem and an extension at its last dot; a dot at its
/// front does not count, and a name without a dot has no extension.
pub proof fn law_stem_and_extension(stem: Seq<char>, ext: Seq<char>)
    requires
        !ext.contains('.'),
    ensures
        stem.len() > 0 ==> stem_of(stem + seq!['.'] + ext) == stem,
        stem.len() > 0 ==> extension_of(stem + seq!['.'] + ext) == Some(ext),
        stem_of(ext) == ext,
        extension_of(ext) is None,
        stem_of(seq!['.'] + ext) == seq!['.'] + ext,
        extension_of(seq!['.'] + ext) is None,
{
    let name = stem + seq!['.'] + ext;
    let dot = stem.len() as int + 1;
    assert(name[dot - 1] == '.');
    assert forall|i: int| dot <= i < name.len() implies name[i] != '.' by {
        assert(name[i] == ext[i - dot]);
        assert(ext.contains(ext[i - dot]));
    }
    crate::text::lemma_after_last_is(name, '.', dot);
    assert(name.take(dot - 1) == stem);
    assert(name.skip(dot) == ext);
    assert forall|i: int| 0 <= i < ext.len() implies ext[i] != '.' by {
        assert(ext.contains(ext[i]));
    }
    crate::text::lemma_after_last_is(ext, '.', 0);
    let hidden = seq!['.'] + ext;
    assert forall|i: int| 1 <= i < hidden.len() implies hidden[i] != '.' by {
        assert(hidden[i] == ext[i - 1]);
    }
    crate::text::lemma_after_last_is(hidden, '.', 1);
}

/// Taking the extension off a file leaves the file's directory and stem.
pub proof fn law_extension_is_taken_off(dir: Seq<char>, stem: Seq<char>, ext: Seq<char>)
    requires
        dir.len() > 0,
        dir.last() != '/',
        dir.len() > 1 && dir.last() == '.' ==> dir[dir.len() - 2] != '/',
        is_name(stem),
        !ext.contains('.'),
        !ext.contains('/'),
    ensures
        bare(dir + seq!['/'] + (stem + seq!['.'] + ext)) == dir + seq!['/'] + stem,
        bare(stem + seq!['.'] + ext) == stem,
        stem_part(dir + seq!['/'] + (stem + seq!['.'] + ext)) == Some(stem),
        extension_part(dir + seq!['/'] + (stem + seq!['.'] + ext)) == Some(ext),
{
    let name = stem + seq!['.'] + ext;
    let p = dir + seq!['/'] + name;
    law_stem_and_extension(stem, ext);
    assert(!name.contains('/')) by {
        if name.contains('/') {
            let i = choose|i: int| 0 <= i < name.len() && name[i] == '/';
            if i < stem.len() {
                assert(stem[i] == '/');
            } else if i > stem.len() {
                assert(ext[i - stem.len() - 1] == '/');
            }
        }
    }
    assert(name != up()) by {
        if name == up() {
            assert(stem[0] == name[0]);
            assert(stem == seq!['.']);
        }
    }
    assert(name != here()) by {
        assert(name.len() > 1);
    }
    law_file_in_a_directory(dir, name);
    let t = trim_tail(p);
    lemma_text_of_file(dir, name);
    assert(t.take(after_last(t, '/')) + stem == dir + seq!['/'] + stem);
    assert(trim_tail(name) == name) by {
        assert(name.contains(name[name.len() - 1]));
        assert(name.contains(name[name.len() - 2]));
    }
    assert forall|i: int| 0 <= i < name.len() implies name[i] != '/' by {
        assert(name.contains(name[i]));
    }
    crate::text::lemma_after_last_is(name, '/', 0);
    assert(name.skip(0) == name);
    assert(name.take(0) + stem == stem);
}

/// A path that ends with a name is cut where the name begins.
proof fn lemma_text_of_file(dir: Seq<char>, name: Seq<char>)
    requires
        is_name(name),
    ensures
        trim_tail(dir + seq!['/'] + name) == dir + seq!['/'] + name,
        after_last(dir + seq!['/'] + name, '/') == dir.len() + 1,
{
    let p = dir + seq!['/'] + name;
    assert(p.last() == name[name.len() - 1]);
    assert(name.contains(name[name.len() - 1]));
    if p.last() == '.' && p[p.len() - 2] == '/' {
        if name.len() > 1 {
            assert(p[p.len() - 2] == name[name.len() - 2]);
            assert(name.contains(name[name.len() - 2]));
        } else {
            assert(name == seq!['.']);
        }
    }
    let cut = dir.len() as int + 1;
    assert(p[cut - 1] == '/');
    assert forall|i: int| cut <= i < p.len() implies p[i] != '/' by {
        assert(p[i] == name[i - cut]);
        assert(name.contains(name[i - cut]));
    }
    crate::text::lemma_after_last_is(p, '/', cut);
}

/// A path climbs just when one of its parts between slashes is `..`.
pub proof fn law_climbing_parts(a: Seq<char>, b: Seq<char>)
    ensures
        climbs(a + seq!['/'] + b) <==> climbs(a) || climbs(b),
        !a.contains('/') ==> (climbs(a) <==> a == seq!['.', '.']),
{
    let p = a + seq!['/'] + b;
    assert(p == a.push('/') + b);
    lemma_pieces_concat(a, b);
    lemma_climbs_by_pieces(p);
    lemma_climbs_by_pieces(a);
    lemma_climbs_by_pieces(b);
    if climbs(a) {
        let i = choose|i: int| 0 <= i < pieces(a).len() && pieces(a)[i] == up();
        assert(pieces(p)[i] == up());
    }
    if climbs(b) {
        let i = choose|i: int| 0 <= i < pieces(b).len() && pieces(b)[i] == up();
        assert(pieces(p)[pieces(a).len() + i] == up());
    }
    if climbs(p) {
        let i = choose|i: int| 0 <= i < pieces(p).len() && pieces(p)[i] == up();
        if i < pieces(a).len() {
            assert(pieces(a)[i] == up());
        } else {
            assert(pieces(b)[i - pieces(a).len()] == up());
        }
    }
    if !a.contains('/') {
        if counts(a) {
            lemma_name_alone(a);
            if a == up() {
                assert(pieces(a)[0] == up());
            }
        } else {
            lemma_no_pieces(a);
            assert(here().len() != up().len());
        }
    }
}

proof fn lemma_climbs_by_pieces(p: Seq<char>)
    ensures
        climbs(p) <==> pieces(p).contains(up()),
{
    if climbs(p) {
        let i = choose|i: int| 0 <= i < component_seq(p).len() && component_seq(p)[i] == up();
        if i < lead(p).len() {
            assert(lead(p)[i] == up());
            assert(root().len() != up().len());
            assert(here().len() != up().len());
        } else {
            assert(pieces(p)[i - lead(p).len()] == up());
        }
    }
    if pieces(p).contains(up()) {
        let i = choose|i: int| 0 <= i < pieces(p).len() && pieces(p)[i] == up();
        assert(component_seq(p)[lead(p).len() + i] == up());
    }
}

/// Stripping a directory off a path that was put behind it gives that path back, and
/// only paths behind a directory can have it stripped.
pub proof fn law_stripping_undoes_joining(base: Seq<char>, rest: Seq<Seq<char>>, p: Seq<char>)
    requires
        base.len() > 0,
        are_names(rest),
    ensures
        prefix_stripped(joined(base, with_slashes(rest)), base) matches Some(r) && component_seq(r)
            == rest,
        prefix_stripped(p, base) is Some <==> component_seq(base).len() <= component_seq(p).len()
            && component_seq(p).subrange(0, component_seq(base).len() as int) == component_seq(
            base,
        ),
        leads(base, p) <==> prefix_stripped(p, base) is Some,
        same_path(base, p) <==> component_seq(base) == component_seq(p),
{
    law_components_of_names(rest);
    lemma_pieces_of_names(rest);
    let whole = joined(base, with_slashes(rest));
    law_join_components(base, with_slashes(rest));
    let n = component_seq(base).len() as int;
    assert((component_seq(base) + rest).subrange(0, n) == component_seq(base));
    assert(leads(base, whole));
    law_strip_prefix_components(whole, base);
    let r = prefix_stripped(whole, base)->0;
    assert((component_seq(base) + component_seq(r)).subrange(
        n,
        n + component_seq(r).len(),
    ) == component_seq(r));
    assert((component_seq(base) + rest).subrange(n, n + rest.len()) == rest);
}

/// The parent of a name alone is the empty path.
pub proof fn lemma_parent_of_name(name: Seq<char>)
    requires
        is_name(name),
        name != seq!['.', '.'],
    ensures
        parent_path(name) == Some(Seq::<char>::empty()),
        name_part(name) == Some(name),
{
    assert forall|i: int| 0 <= i < name.len() implies name[i] != '/' by {
        assert(name.contains(name[i]));
    }
    crate::text::lemma_after_last_is(name, '/', 0);
    assert(name.skip(0) == name);
    assert(name.take(0) == Seq::<char>::empty());
    assert(trim_tail(name) == name);
    assert(name != root()) by {
        if name == root() {
            assert(name[0] == '/');
        }
    }
}

/// Names with slashes, one list of them behind another.
pub proof fn lemma_with_slashes_concat(a: Seq<Seq<char>>, b: Seq<Seq<char>>)
    requires
        a.len() > 0,
        b.len() > 0,
    ensures
        with_slashes(a + b) == with_slashes(a) + seq!['/'] + with_slashes(b),
    decreases b.len(),
{
    let whole = a + b;
    let front = b.drop_last();
    assert(whole.drop_last() == a + front);
    assert(whole.last() == b.last());
    if b.len() == 1 {
        assert(a + front == a);
        assert(b.last() == b[0]);
    } else {
        lemma_with_slashes_concat(a, front);
        assert(with_slashes(a) + seq!['/'] + with_slashes(front) + seq!['/'] + b.last()
            == with_slashes(a) + seq!['/'] + (with_slashes(front) + seq!['/'] + b.last()));
    }
}

/// Names with slashes between them neither begin nor end with one, and end with no
/// dot behind a slash.
pub proof fn lemma_names_text(names: Seq<Seq<char>>)
    requires
        are_names(names),
        names.len() > 0,
    ensures
        with_slashes(names).len() > 0,
        with_slashes(names)[0] != '/',
        with_slashes(names).last() != '/',
        with_slashes(names).len() > 1 && with_slashes(names).last() == '.' ==> with_slashes(
            names,
        )[with_slashes(names).len() - 2] != '/',
        trim_tail(with_slashes(names)) == with_slashes(names),
{
    let p = with_slashes(names);
    lemma_pieces_of_names(names);
    lemma_names_end(names);
    assert(!is_absolute(p));
    let last = names.last();
    assert(is_name(names[names.len() - 1]));
    assert(last.contains(last[last.len() - 1]));
    if p.len() > 1 && p.last() == '.' && p[p.len() - 2] == '/' {
        if last.len() > 1 {
            assert(p[p.len() - 2] == last[last.len() - 2]);
            assert(last.contains(last[last.len() - 2]));
        } else {
            assert(last == seq!['.']);
        }
    }
}

/// What is left of names behind the first `n` of them.
proof fn lemma_behind_names(names: Seq<Seq<char>>, n: nat)
    requires
        are_names(names),
        n <= names.len(),
    ensures
        behind(with_slashes(names), n) == with_slashes(names.skip(n as int)),
    decreases n,
{
    let p = with_slashes(names);
    if n == 0 {
        assert(names.skip(0) == names);
        if names.len() > 0 {
            lemma_names_text(names);
        }
    } else {
        let rest = names.skip(1);
        assert(are_names(rest)) by {
            assert forall|i: int| 0 <= i < rest.len() implies is_name(#[trigger] rest[i]) by {
                assert(rest[i] == names[i + 1]);
            }
        }
        let first = names[0];
        assert(is_name(names[0]));
        assert forall|i: int| 0 <= i < first.len() implies first[i] != '/' by {
            assert(first.contains(first[i]));
        }
        lemma_pieces_of_names(names);
        if rest.len() == 0 {
            assert(names == seq![first]);
            assert(p == first);
            lemma_until_is(p, '/', p.len() as int);
            assert(p.skip(p.len() as int) == Seq::<char>::empty());
            assert(with_slashes(rest) == Seq::<char>::empty());
            assert(trim_head(Seq::<char>::empty()) == Seq::<char>::empty());
        } else {
            assert(seq![first] + rest == names);
            lemma_with_slashes_concat(seq![first], rest);
            assert(with_slashes(seq![first]) == first);
            let q = with_slashes(rest);
            lemma_names_text(rest);
            lemma_until_is(p, '/', first.len() as int);
            assert(p.skip(first.len() as int) == seq!['/'] + q);
            assert((seq!['/'] + q).drop_first() == q);
            lemma_trim_head_of_names(rest);
        }
        assert(behind_first(p) == with_slashes(rest));
        lemma_behind_names(rest, (n - 1) as nat);
        assert(rest.skip(n - 1) == names.skip(n as int));
    }
}

/// Nothing is trimmed off the front of names.
proof fn lemma_trim_head_of_names(names: Seq<Seq<char>>)
    requires
        are_names(names),
        names.len() > 0,
    ensures
        trim_head(with_slashes(names)) == with_slashes(names),
{
    let p = with_slashes(names);
    let first = names[0];
    lemma_names_text(names);
    assert(is_name(names[0]));
    let rest = names.skip(1);
    assert(seq![first] + rest == names);
    if rest.len() == 0 {
        assert(names == seq![first]);
        assert(p == first);
        if p.len() > 1 {
            assert(first.contains(first[1]));
        } else if p[0] == '.' {
            assert(first == seq!['.']);
        }
    } else {
        lemma_with_slashes_concat(seq![first], rest);
        assert(with_slashes(seq![first]) == first);
        assert(p[0] == first[0]);
        if first.len() > 1 {
            assert(p[1] == first[1]);
            assert(first.contains(first[1]));
        } else if p[0] == '.' {
            assert(first == seq!['.']);
        }
    }
}

/// Stripping the names of a directory leaves the names behind them, whether the
/// directory is told from the current one or not.
pub proof fn law_stripped_text(base: Seq<Seq<char>>, rest: Seq<Seq<char>>)
    requires
        are_names(base + rest),
    ensures
        prefix_stripped(with_slashes(base + rest), with_slashes(base)) == Some(with_slashes(rest)),
        prefix_stripped(
            seq!['.', '/'] + with_slashes(base + rest),
            seq!['.', '/'] + with_slashes(base),
        ) == Some(with_slashes(rest)),
{
    let all = base + rest;
    assert(are_names(base)) by {
        assert forall|i: int| 0 <= i < base.len() implies is_name(#[trigger] base[i]) by {
            assert(base[i] == all[i]);
        }
    }
    assert(are_names(rest)) by {
        assert forall|i: int| 0 <= i < rest.len() implies is_name(#[trigger] rest[i]) by {
            assert(rest[i] == all[base.len() + i]);
        }
    }
    law_components_of_names(all);
    law_components_of_names(base);
    assert(all.subrange(0, base.len() as int) == base);
    lemma_behind_names(all, base.len());
    assert(all.skip(base.len() as int) == rest);
    let p = with_slashes(all);
    let dotted = seq!['.', '/'] + p;
    assert((seq![here()] + all).subrange(0, 1 + base.len() as int) == seq![here()] + base);
    lemma_until_is(dotted, '/', 1);
    assert(dotted.skip(1) == seq!['/'] + p);
    assert((seq!['/'] + p).drop_first() == p);
    if all.len() > 0 {
        lemma_trim_head_of_names(all);
    } else {
        assert(p == Seq::<char>::empty());
        assert(trim_head(p) == p);
    }
    assert(behind_first(dotted) == p);
    assert(behind(dotted, (base.len() + 1) as nat) == behind(p, base.len()));
}

/// Two paths with one normal form have one with the same names behind them.
pub proof fn lemma_normal_behind(a: Seq<char>, b: Seq<char>, names: Seq<Seq<char>>)
    requires
        a.len() > 0,
        b.len() > 0,
        are_names(names),
        normal_form(a) == normal_form(b),
    ensures
        normal_form(a + seq!['/'] + with_slashes(names)) == normal_form(
            b + seq!['/'] + with_slashes(names),
        ),
{
    lemma_pieces_of_names(names);
    let n = with_slashes(names);
    lemma_components_behind(a, n);
    lemma_components_behind(b, n);
    law_normal_components(a);
    law_normal_components(b);
    lemma_resolved_behind(component_seq(a), component_seq(b), names);
}

proof fn lemma_components_behind(a: Seq<char>, b: Seq<char>)
    requires
        a.len() > 0,
    ensures
        component_seq(a + seq!['/'] + b) == component_seq(a) + pieces(b),
{
    let p = a + seq!['/'] + b;
    assert(p == a.push('/') + b);
    lemma_pieces_concat(a, b);
    assert(is_absolute(p) == is_absolute(a));
    assert(lead(a) + (pieces(a) + pieces(b)) == lead(a) + pieces(a) + pieces(b));
}

proof fn lemma_resolved_behind(a: Seq<Seq<char>>, b: Seq<Seq<char>>, more: Seq<Seq<char>>)
    requires
        resolved(a) == resolved(b),
    ensures
        resolved(a + more) == resolved(b + more),
    decreases more.len(),
{
    if more.len() == 0 {
        assert(a + more == a);
        assert(b + more == b);
    } else {
        lemma_resolved_behind(a, b, more.drop_last());
        assert((a + more).drop_last() == a + more.drop_last());
        assert((b + more).drop_last() == b + more.drop_last());
    }
}

/// The stem and the extension of a path are those of its name, and a path without a name
/// has neither.
pub proof fn law_stem_and_extension_of_the_name(p: Seq<char>)
    ensures
        name_part(p) matches Some(name) ==> stem_part(p) == Some(stem_of(name)) && extension_part(p)
            == extension_of(name),
        name_part(p) is None ==> stem_part(p) is None && extension_part(p) is None,
{
}

/// The normal form of a path is its resolved components with slashes between them, behind
/// the root where they begin there.
pub proof fn law_text_of_the_normal_form(p: Seq<char>)
    ensures
        ({
            let cs = resolved(component_seq(p));
            normal_form(p) == if cs.len() > 0 && cs[0] == seq!['/'] {
                seq!['/'] + with_slashes(cs.subrange(1, cs.len() as int))
            } else {
                with_slashes(cs)
            }
        }),
{
    let cs = resolved(component_seq(p));
    let all = component_seq(p);
    lemma_resolved_settled(p, all.len() as int);
    assert(all.take(all.len() as int) == all);
    if cs.len() > 0 && cs[0] == root() {
        let names = cs.subrange(1, cs.len() as int);
        assert forall|i: int| 0 <= i < names.len() implies is_name(#[trigger] names[i]) by {
            assert(names[i] == cs[i + 1]);
        }
        assert(seq![root()] + names == cs);
        lemma_assembled_rooted(names);
    } else {
        assert forall|i: int| 0 <= i < cs.len() implies is_name(#[trigger] cs[i]) by {
            assert(i == 0 ==> cs[i] != root());
        }
        lemma_assembled_names(cs);
    }
}

} // verus!
