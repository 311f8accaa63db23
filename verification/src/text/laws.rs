//! What holds of texts: where a pattern stands, what trimming and small letters
//! change.

use vstd::prelude::*;

use crate::text::{
    ascii_lower, begins_with, ends_in, is_white, occurs_at, split, texts, trim_end, trim_start,
    trimmed,
};

verus! {

/// A pattern that was put between two texts stands there.
pub proof fn law_pattern_stands_where_it_was_put<T>(a: Seq<T>, pat: Seq<T>, b: Seq<T>)
    ensures
        occurs_at(a + pat + b, pat, a.len() as int),
{
    assert((a + pat + b).subrange(a.len() as int, a.len() as int + pat.len()) == pat);
}

/// A text with a pattern in it is what stands before the pattern, the pattern, and
/// what stands behind it.
pub proof fn law_text_around_a_pattern<T>(s: Seq<T>, pat: Seq<T>, i: int)
    requires
        occurs_at(s, pat, i),
    ensures
        0 <= i <= s.len() - pat.len(),
        s == s.subrange(0, i) + pat + s.subrange(i + pat.len(), s.len() as int),
{
    assert(s == s.subrange(0, i) + s.subrange(i, i + pat.len()) + s.subrange(
        i + pat.len(),
        s.len() as int,
    ));
}

/// A text begins with a pattern just when it is the pattern with something behind
/// it, and ends with it just when it is the pattern with something before it.
pub proof fn law_beginnings_and_ends<T>(pat: Seq<T>, t: Seq<T>, s: Seq<T>)
    ensures
        begins_with(pat + t, pat),
        ends_in(t + pat, pat),
        begins_with(s, pat) ==> pat.len() <= s.len() && s == pat + s.subrange(
            pat.len() as int,
            s.len() as int,
        ),
        ends_in(s, pat) ==> pat.len() <= s.len() && s == s.subrange(0, s.len() - pat.len()) + pat,
{
    assert((pat + t).subrange(0, pat.len() as int) == pat);
    assert((t + pat).subrange(t.len() as int, t.len() as int + pat.len()) == pat);
    if begins_with(s, pat) {
        law_text_around_a_pattern(s, pat, 0);
        assert(s == pat + s.subrange(pat.len() as int, s.len() as int));
    }
    if ends_in(s, pat) {
        law_text_around_a_pattern(s, pat, s.len() - pat.len());
        assert(s == s.subrange(0, s.len() - pat.len()) + pat);
    }
}

/// Trimming takes off the white space around a text, and nothing else.
pub proof fn law_trimming_takes_white_space_off(
    before: Seq<char>,
    s: Seq<char>,
    behind: Seq<char>,
)
    requires
        forall|i: int| 0 <= i < before.len() ==> is_white(#[trigger] before[i]),
        forall|i: int| 0 <= i < behind.len() ==> is_white(#[trigger] behind[i]),
        s.len() > 0 ==> !is_white(s[0]) && !is_white(s[s.len() - 1]),
    ensures
        trimmed(before + s + behind) == s,
    decreases before.len() + behind.len(),
{
    let whole = before + s + behind;
    if before.len() > 0 {
        let rest = before.drop_first();
        assert forall|i: int| 0 <= i < rest.len() implies is_white(#[trigger] rest[i]) by {
            assert(rest[i] == before[i + 1]);
        }
        assert(whole[0] == before[0]);
        assert(whole.drop_first() == rest + s + behind);
        law_trimming_takes_white_space_off(rest, s, behind);
    } else if s.len() == 0 {
        assert(whole == behind);
        if behind.len() > 0 {
            let rest = behind.drop_first();
            assert forall|i: int| 0 <= i < rest.len() implies is_white(#[trigger] rest[i]) by {
                assert(rest[i] == behind[i + 1]);
            }
            assert(whole[0] == behind[0]);
            assert(whole.drop_first() == before + s + rest);
            law_trimming_takes_white_space_off(before, s, rest);
        } else {
            assert(trimmed(whole) == s);
        }
    } else {
        assert(whole == s + behind);
        assert(whole[0] == s[0]);
        assert(trim_start(whole) == whole);
        lemma_trim_end(s, behind);
    }
}

/// Trimming the end takes off the white space there.
proof fn lemma_trim_end(s: Seq<char>, behind: Seq<char>)
    requires
        forall|i: int| 0 <= i < behind.len() ==> is_white(#[trigger] behind[i]),
        s.len() > 0 ==> !is_white(s[s.len() - 1]),
    ensures
        trim_end(s + behind) == s,
    decreases behind.len(),
{
    let whole = s + behind;
    if behind.len() > 0 {
        let rest = behind.drop_last();
        assert forall|i: int| 0 <= i < rest.len() implies is_white(#[trigger] rest[i]) by {
            assert(rest[i] == behind[i]);
        }
        assert(whole.last() == behind[behind.len() - 1]);
        assert(whole.drop_last() == s + rest);
        lemma_trim_end(s, rest);
    } else {
        assert(whole == s);
    }
}

/// Small letters: the ASCII capitals change, each to its own small letter, and
/// nothing else does.
pub proof fn law_only_ascii_capitals_change(s: Seq<char>, i: int)
    requires
        0 <= i < s.len(),
    ensures
        ascii_lower(s).len() == s.len(),
        'A' <= s[i] <= 'Z' ==> ascii_lower(s)[i] as int == s[i] as int + ('a' as int - 'A' as int),
        !('A' <= s[i] <= 'Z') ==> ascii_lower(s)[i] == s[i],
{
}

/// The small letters of two texts, one behind the other, are those of the one and
/// then those of the other.
pub proof fn law_small_letters_one_by_one(a: Seq<char>, b: Seq<char>)
    ensures
        ascii_lower(a + b) == ascii_lower(a) + ascii_lower(b),
{
}

/// What a list of character vectors holds, one by one.
pub proof fn law_texts_one_by_one(v: Seq<Vec<char>>, i: int)
    requires
        0 <= i < v.len(),
    ensures
        texts(v).len() == v.len(),
        texts(v)[i] == v[i]@,
{
}

/// A text split at a separator: a text without the separator is one piece, and two
/// texts with the separator between them are split each for itself.
pub proof fn law_splitting(a: Seq<char>, c: char, b: Seq<char>)
    ensures
        !a.contains(c) ==> split(a, c) == seq![a],
        split(a + seq![c] + b, c) == split(a, c) + split(b, c),
{
    if !a.contains(c) {
        crate::path::laws::lemma_split_single(a, c);
    }
    crate::path::laws::lemma_split_concat(a, c, b);
    assert(a + seq![c] + b == a.push(c) + b);
}

} // verus!
