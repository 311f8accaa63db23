//! Texts as sequences of characters: searching, splitting, trimming, and the
//! passage between `str` and `char` vectors.

use vstd::prelude::*;

pub mod laws;

verus! {

/// `String::push`: the character is appended to the string.
pub assume_specification[ String::push ](s: &mut String, ch: char)
    ensures
        final(s)@ == old(s)@.push(ch),
;

/// The characters of `s`.
pub fn to_chars(s: &str) -> (chars: Vec<char>)
    ensures
        chars@ == s@,
{
    let mut chars: Vec<char> = Vec::new();
    for c in it: s.chars()
        invariant
            it.seq() == s@,
            chars@ == s@.take(it.index() as int),
    {
        chars.push(c);
    }
    assert(s@.take(s@.len() as int) == s@);
    chars
}

/// The string made of `chars`.
pub fn to_text(chars: &[char]) -> (s: String)
    ensures
        s@ == chars@,
{
    let mut s = String::new();
    for i in 0..chars.len()
        invariant
            s@ == chars@.take(i as int),
    {
        s.push(chars[i]);
        assert(chars@.take(i as int).push(chars@[i as int]) == chars@.take(i + 1));
    }
    assert(chars@.take(chars@.len() as int) == chars@);
    s
}

/// The elements `pat` stand in `s` at offset `i`.
pub open spec fn occurs_at<T>(s: Seq<T>, pat: Seq<T>, i: int) -> bool {
    &&& 0 <= i
    &&& i + pat.len() <= s.len()
    &&& s.subrange(i, i + pat.len()) == pat
}

/// The first offset, `from` or later, at which `pat` stands in `s`.
pub open spec fn find_from<T>(s: Seq<T>, pat: Seq<T>, from: int) -> Option<int>
    decreases s.len() - from + 1,
{
    if from < 0 || from + pat.len() > s.len() {
        None
    } else if occurs_at(s, pat, from) {
        Some(from)
    } else {
        find_from(s, pat, from + 1)
    }
}

/// The first offset at which `pat` stands in `s`.
pub open spec fn find<T>(s: Seq<T>, pat: Seq<T>) -> Option<int> {
    find_from(s, pat, 0)
}

/// The last offset, `to` or earlier, at which `pat` stands in `s`.
pub open spec fn rfind_to<T>(s: Seq<T>, pat: Seq<T>, to: int) -> Option<int>
    decreases to + 1,
{
    if to < 0 {
        None
    } else if occurs_at(s, pat, to) {
        Some(to)
    } else {
        rfind_to(s, pat, to - 1)
    }
}

/// The last offset at which `pat` stands in `s`.
pub open spec fn rfind<T>(s: Seq<T>, pat: Seq<T>) -> Option<int> {
    rfind_to(s, pat, s.len() - pat.len())
}

/// What [`find_from`] finds is an occurrence, and nothing before it is one.
pub proof fn lemma_find_from<T>(s: Seq<T>, pat: Seq<T>, from: int)
    requires
        from >= 0,
    ensures
        match find_from(s, pat, from) {
            Some(i) => {
                &&& from <= i
                &&& occurs_at(s, pat, i)
                &&& forall|j: int| from <= j < i ==> !#[trigger] occurs_at(s, pat, j)
            },
            None => forall|j: int| from <= j ==> !#[trigger] occurs_at(s, pat, j),
        },
    decreases s.len() - from + 1,
{
    if from + pat.len() > s.len() {
    } else if occurs_at(s, pat, from) {
    } else {
        lemma_find_from(s, pat, from + 1);
    }
}

/// What [`rfind_to`] finds is an occurrence, and nothing behind it is one.
pub proof fn lemma_rfind_to<T>(s: Seq<T>, pat: Seq<T>, to: int)
    ensures
        match rfind_to(s, pat, to) {
            Some(i) => {
                &&& i <= to
                &&& occurs_at(s, pat, i)
                &&& forall|j: int| i < j <= to ==> !#[trigger] occurs_at(s, pat, j)
            },
            None => forall|j: int| j <= to ==> !#[trigger] occurs_at(s, pat, j),
        },
    decreases to + 1,
{
    if to < 0 {
    } else if occurs_at(s, pat, to) {
    } else {
        lemma_rfind_to(s, pat, to - 1);
    }
}

/// Whether `pat` stands in `s` at offset `i`.
pub fn matches_at(s: &[char], pat: &[char], i: usize) -> (b: bool)
    ensures
        b == occurs_at(s@, pat@, i as int),
{
    let n: usize = s.len();
    if pat.len() > n || i > n - pat.len() {
        return false;
    }
    for k in 0..pat.len()
        invariant
            n == s@.len(),
            i + pat@.len() <= n,
            forall|j: int| 0 <= j < k ==> s@[i + j] == pat@[j],
    {
        if s[i + k] != pat[k] {
            assert(s@.subrange(i as int, i + pat@.len())[k as int] != pat@[k as int]);
            return false;
        }
    }
    assert(s@.subrange(i as int, i + pat@.len()) == pat@);
    true
}

/// The first offset, `from` or later, at which `pat` stands in `s`.
pub fn find_chars(s: &[char], pat: &[char], from: usize) -> (at: Option<usize>)
    ensures
        match at {
            Some(i) => find_from(s@, pat@, from as int) == Some(i as int),
            None => find_from(s@, pat@, from as int) is None,
        },
{
    if pat.len() > s.len() {
        return None;
    }
    let last: usize = s.len() - pat.len();
    let mut i: usize = from;
    while i <= last
        invariant
            last == s@.len() - pat@.len(),
            from <= i,
            i <= last + 1 || i == from,
            find_from(s@, pat@, from as int) == find_from(s@, pat@, i as int),
        decreases last + 1 - i,
    {
        if matches_at(s, pat, i) {
            return Some(i);
        }
        if i == last {
            assert(find_from(s@, pat@, i + 1) is None);
            return None;
        }
        i = i + 1;
    }
    None
}

/// The last offset at which `pat` stands in `s`.
pub fn rfind_chars(s: &[char], pat: &[char]) -> (at: Option<usize>)
    ensures
        match at {
            Some(i) => rfind(s@, pat@) == Some(i as int),
            None => rfind(s@, pat@) is None,
        },
{
    if pat.len() > s.len() {
        return None;
    }
    let mut i: usize = s.len() - pat.len();
    loop
        invariant
            i <= s@.len() - pat@.len(),
            rfind(s@, pat@) == rfind_to(s@, pat@, i as int),
        decreases i,
    {
        if matches_at(s, pat, i) {
            return Some(i);
        }
        if i == 0 {
            assert(rfind_to(s@, pat@, -1) is None);
            return None;
        }
        i = i - 1;
    }
}

/// `s` begins with `pat`.
pub open spec fn begins_with<T>(s: Seq<T>, pat: Seq<T>) -> bool {
    occurs_at(s, pat, 0)
}

/// `s` ends with `pat`.
pub open spec fn ends_in<T>(s: Seq<T>, pat: Seq<T>) -> bool {
    occurs_at(s, pat, s.len() - pat.len())
}

/// Whether `s` begins with `pat`.
pub fn starts_with(s: &[char], pat: &str) -> (b: bool)
    ensures
        b == begins_with(s@, pat@),
{
    matches_at(s, to_chars(pat).as_slice(), 0)
}

/// Whether `s` ends with `pat`.
pub fn ends_with(s: &[char], pat: &str) -> (b: bool)
    ensures
        b == ends_in(s@, pat@),
{
    let pat_chars = to_chars(pat);
    if pat_chars.len() > s.len() {
        return false;
    }
    matches_at(s, pat_chars.as_slice(), s.len() - pat_chars.len())
}

/// Whether two texts hold the same characters.
pub fn same_chars(a: &[char], b: &[char]) -> (same: bool)
    ensures
        same == (a@ == b@),
{
    if a.len() != b.len() {
        return false;
    }
    proof {
        assert(b@.subrange(0, b@.len() as int) == b@);
        assert(a@.subrange(0, a@.len() as int) == a@);
    }
    matches_at(a, b, 0)
}

/// Whether two texts hold the same characters.
pub fn same_text(a: &str, b: &str) -> (same: bool)
    ensures
        same == (a@ == b@),
{
    same_chars(to_chars(a).as_slice(), to_chars(b).as_slice())
}

/// The offset of the first `c` in `s`, or the length of `s` where there is none.
pub open spec fn until(s: Seq<char>, c: char) -> int
    decreases s.len(),
{
    if s.len() == 0 || s[0] == c {
        0
    } else {
        1 + until(s.drop_first(), c)
    }
}

/// [`until`] stops at the first `c`.
pub proof fn lemma_until(s: Seq<char>, c: char)
    ensures
        0 <= until(s, c) <= s.len(),
        until(s, c) < s.len() ==> s[until(s, c)] == c,
        forall|i: int| 0 <= i < until(s, c) ==> s[i] != c,
    decreases s.len(),
{
    if s.len() > 0 && s[0] != c {
        let rest = s.drop_first();
        lemma_until(rest, c);
        assert forall|i: int| 0 <= i < until(s, c) implies s[i] != c by {
            if i > 0 {
                assert(s[i] == rest[i - 1]);
            }
        }
    }
}

/// The offset of the first `c`, told by what it is.
pub proof fn lemma_until_is(s: Seq<char>, c: char, k: int)
    requires
        0 <= k <= s.len(),
        k < s.len() ==> s[k] == c,
        forall|i: int| 0 <= i < k ==> s[i] != c,
    ensures
        until(s, c) == k,
{
    lemma_until(s, c);
    let u = until(s, c);
    if u < k {
        assert(s[u] != c);
    }
}

/// The offset of the first `c` in `s` at `from` or later, or the length of `s`.
pub fn scan_until(s: &[char], c: char, from: usize) -> (k: usize)
    requires
        from <= s@.len(),
    ensures
        from <= k <= s@.len(),
        k - from == until(s@.skip(from as int), c),
{
    let ghost rest = s@.skip(from as int);
    let mut k: usize = from;
    while k < s.len() && s[k] != c
        invariant
            from <= k <= s@.len(),
            rest == s@.skip(from as int),
            forall|i: int| 0 <= i < k - from ==> rest[i] != c,
        decreases s@.len() - k,
    {
        k = k + 1;
    }
    proof {
        lemma_until_is(rest, c, k - from);
    }
    k
}

/// The offset just behind the last `c` in `s`, or 0 where there is none.
pub open spec fn after_last(s: Seq<char>, c: char) -> int
    decreases s.len(),
{
    if s.len() == 0 {
        0
    } else if s.last() == c {
        s.len() as int
    } else {
        after_last(s.drop_last(), c)
    }
}

/// Behind [`after_last`] there is no `c`, and just before it there is one.
pub proof fn lemma_after_last(s: Seq<char>, c: char)
    ensures
        0 <= after_last(s, c) <= s.len(),
        after_last(s, c) > 0 ==> s[after_last(s, c) - 1] == c,
        forall|i: int| after_last(s, c) <= i < s.len() ==> s[i] != c,
    decreases s.len(),
{
    if s.len() > 0 && s.last() != c {
        let front = s.drop_last();
        lemma_after_last(front, c);
        assert forall|i: int| after_last(s, c) <= i < s.len() implies s[i] != c by {
            if i < s.len() - 1 {
                assert(s[i] == front[i]);
            }
        }
    }
}

/// The offset just behind the last `c`, told by what it is.
pub proof fn lemma_after_last_is(s: Seq<char>, c: char, k: int)
    requires
        0 <= k <= s.len(),
        k > 0 ==> s[k - 1] == c,
        forall|i: int| k <= i < s.len() ==> s[i] != c,
    ensures
        after_last(s, c) == k,
{
    lemma_after_last(s, c);
    let a = after_last(s, c);
    if a < k {
        assert(s[k - 1] != c);
    } else if a > k {
        assert(s[a - 1] == c);
    }
}

/// The offset just behind the last `c` in `s`, or 0.
pub fn scan_after_last(s: &[char], c: char) -> (k: usize)
    ensures
        k == after_last(s@, c),
{
    let mut k: usize = s.len();
    while k > 0 && s[k - 1] != c
        invariant
            k <= s@.len(),
            forall|i: int| k <= i < s@.len() ==> s@[i] != c,
        decreases k,
    {
        k = k - 1;
    }
    proof {
        lemma_after_last_is(s@, c, k as int);
    }
    k
}

/// The pieces of `s` between the separators `c`: always one more than there
/// are separators.
pub open spec fn split(s: Seq<char>, c: char) -> Seq<Seq<char>>
    decreases s.len(),
{
    let k = until(s, c);
    if 0 <= k < s.len() {
        seq![s.take(k)] + split(s.skip(k + 1), c)
    } else {
        seq![s]
    }
}

/// The texts that a vector of character vectors holds.
pub open spec fn texts(v: Seq<Vec<char>>) -> Seq<Seq<char>> {
    Seq::new(v.len(), |i: int| v[i]@)
}

/// The pieces of `s` between the separators `c`.
pub fn split_chars(s: &[char], c: char) -> (pieces: Vec<Vec<char>>)
    ensures
        texts(pieces@) == split(s@, c),
{
    let mut pieces: Vec<Vec<char>> = Vec::new();
    let mut from: usize = 0;
    proof {
        assert(s@.skip(0) == s@);
        assert(texts(pieces@) + split(s@, c) == split(s@, c));
    }
    loop
        invariant
            from <= s@.len(),
            texts(pieces@) + split(s@.skip(from as int), c) == split(s@, c),
        decreases s@.len() - from,
    {
        let k = scan_until(s, c, from);
        let ghost rest = s@.skip(from as int);
        let ghost before = texts(pieces@);
        let piece = slice_copy(s, from, k);
        pieces.push(piece);
        proof {
            assert(piece@ == rest.take(k - from));
            assert(texts(pieces@) == before.push(piece@));
        }
        if k == s.len() {
            proof {
                assert(rest.take(k - from) == rest);
                assert(before.push(rest) == before + seq![rest]);
            }
            return pieces;
        }
        proof {
            assert(rest.skip(k - from + 1) == s@.skip(k + 1));
            assert(before.push(piece@) + split(s@.skip(k + 1), c) == before + (seq![piece@] + split(
                s@.skip(k + 1),
                c,
            )));
        }
        from = k + 1;
    }
}

/// The characters of `s` from offset `i` up to offset `j`.
pub fn slice_copy(s: &[char], i: usize, j: usize) -> (part: Vec<char>)
    requires
        i <= j <= s@.len(),
    ensures
        part@ == s@.subrange(i as int, j as int),
{
    let mut part: Vec<char> = Vec::new();
    part.extend_from_slice(vstd::slice::slice_subrange(s, i, j));
    assert(part@ == s@.subrange(i as int, j as int));
    part
}

/// Unicode's `White_Space` property.
pub open spec fn is_white(c: char) -> bool {
    ||| '\u{9}' <= c <= '\u{d}'
    ||| c == ' '
    ||| c == '\u{85}'
    ||| c == '\u{a0}'
    ||| c == '\u{1680}'
    ||| '\u{2000}' <= c <= '\u{200a}'
    ||| c == '\u{2028}'
    ||| c == '\u{2029}'
    ||| c == '\u{202f}'
    ||| c == '\u{205f}'
    ||| c == '\u{3000}'
}

/// Whether `c` has Unicode's `White_Space` property.
pub fn is_whitespace(c: char) -> (b: bool)
    ensures
        b == is_white(c),
{
    ('\u{9}' <= c && c <= '\u{d}') || c == ' ' || c == '\u{85}' || c == '\u{a0}' || c == '\u{1680}' || (
    '\u{2000}' <= c && c <= '\u{200a}') || c == '\u{2028}' || c == '\u{2029}' || c == '\u{202f}' || c
        == '\u{205f}' || c == '\u{3000}'
}

/// `s` without its leading white space.
pub open spec fn trim_start(s: Seq<char>) -> Seq<char>
    decreases s.len(),
{
    if s.len() > 0 && is_white(s[0]) {
        trim_start(s.drop_first())
    } else {
        s
    }
}

/// `s` without its trailing white space.
pub open spec fn trim_end(s: Seq<char>) -> Seq<char>
    decreases s.len(),
{
    if s.len() > 0 && is_white(s.last()) {
        trim_end(s.drop_last())
    } else {
        s
    }
}

/// `s` without leading and trailing white space.
pub open spec fn trimmed(s: Seq<char>) -> Seq<char> {
    trim_end(trim_start(s))
}

/// `s` without leading and trailing white space.
pub fn trim(s: &[char]) -> (t: Vec<char>)
    ensures
        t@ == trimmed(s@),
{
    let mut i: usize = 0;
    assert(s@.skip(0) == s@);
    while i < s.len() && is_whitespace(s[i])
        invariant
            i <= s@.len(),
            trim_start(s@) == trim_start(s@.skip(i as int)),
        decreases s@.len() - i,
    {
        assert(s@.skip(i as int).drop_first() == s@.skip(i + 1));
        i = i + 1;
    }
    assert(trim_start(s@) == s@.skip(i as int));
    let ghost rest = s@.skip(i as int);
    let mut j: usize = s.len();
    assert(s@.subrange(i as int, j as int) == rest);
    while i < j && is_whitespace(s[j - 1])
        invariant
            i <= j <= s@.len(),
            trim_end(rest) == trim_end(s@.subrange(i as int, j as int)),
        decreases j,
    {
        assert(s@.subrange(i as int, j as int).drop_last() == s@.subrange(i as int, j - 1));
        assert(s@.subrange(i as int, j as int).last() == s@[j - 1]);
        j = j - 1;
    }
    proof {
        let kept = s@.subrange(i as int, j as int);
        if i < j {
            assert(kept.last() == s@[j - 1]);
        }
        assert(trim_end(kept) == kept);
    }
    slice_copy(s, i, j)
}

/// `c` with an ASCII capital turned into its small letter.
pub open spec fn lower_char(c: char) -> char {
    if 'A' <= c <= 'Z' {
        ((c as u8) + 32) as char
    } else {
        c
    }
}

/// `s` with its ASCII capitals turned into small letters.
pub open spec fn ascii_lower(s: Seq<char>) -> Seq<char> {
    Seq::new(s.len(), |i: int| lower_char(s[i]))
}

/// `s` with its ASCII capitals turned into small letters.
pub fn to_ascii_lowercase(s: &[char]) -> (t: Vec<char>)
    ensures
        t@ == ascii_lower(s@),
{
    let mut t: Vec<char> = Vec::new();
    for i in 0..s.len()
        invariant
            t@ == ascii_lower(s@).take(i as int),
    {
        let c = s[i];
        if 'A' <= c && c <= 'Z' {
            t.push((c as u8 + 32) as char);
        } else {
            t.push(c);
        }
        assert(ascii_lower(s@).take(i + 1) == ascii_lower(s@).take(i as int).push(
            lower_char(s@[i as int]),
        ));
    }
    assert(ascii_lower(s@).take(s@.len() as int) == ascii_lower(s@));
    t
}

} // verus!
