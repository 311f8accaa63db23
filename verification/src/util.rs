//! Small texts that the pages are made of: escaped text and numbers.

use vstd::prelude::*;
use vstd::string::StringExecFns;

use crate::text::to_chars;

pub mod laws;

verus! {

/// What stands for the character `c` in HTML text and attribute values.
pub open spec fn escaped_char(c: char) -> Seq<char> {
    if c == '&' {
        "&amp;"@
    } else if c == '<' {
        "&lt;"@
    } else if c == '>' {
        "&gt;"@
    } else if c == '"' {
        "&quot;"@
    } else {
        seq![c]
    }
}

/// `s` with every character that means something in HTML escaped.
pub open spec fn escaped(s: Seq<char>) -> Seq<char>
    decreases s.len(),
{
    if s.len() == 0 {
        seq![]
    } else {
        escaped(s.drop_last()) + escaped_char(s.last())
    }
}

/// `s` with every character that means something in HTML escaped.
pub fn escape_html(s: &str) -> (out: String)
    ensures
        out@ == escaped(s@),
{
    let chars = to_chars(s);
    let mut out = String::new();
    for i in 0..chars.len()
        invariant
            chars@ == s@,
            out@ == escaped(s@.take(i as int)),
    {
        assert(s@.take(i + 1).drop_last() == s@.take(i as int));
        let c = chars[i];
        if c == '&' {
            out.append("&amp;");
        } else if c == '<' {
            out.append("&lt;");
        } else if c == '>' {
            out.append("&gt;");
        } else if c == '"' {
            out.append("&quot;");
        } else {
            let ghost before = out@;
            out.push(c);
            assert(before.push(c) == before + seq![c]);
        }
    }
    assert(s@.take(s@.len() as int) == s@);
    out
}

/// Escaped text holds no character that could open or close a tag or end a
/// quoted attribute value.
pub proof fn law_escaped_is_inert(s: Seq<char>)
    ensures
        forall|i: int|
            0 <= i < escaped(s).len() ==> (#[trigger] escaped(s)[i]) != '<' && escaped(s)[i] != '>'
                && escaped(s)[i] != '"',
    decreases s.len(),
{
    if s.len() > 0 {
        law_escaped_is_inert(s.drop_last());
        reveal_strlit("&amp;");
        reveal_strlit("&lt;");
        reveal_strlit("&gt;");
        reveal_strlit("&quot;");
        let front = escaped(s.drop_last());
        let back = escaped_char(s.last());
        assert forall|i: int| 0 <= i < escaped(s).len() implies (#[trigger] escaped(s)[i]) != '<'
            && escaped(s)[i] != '>' && escaped(s)[i] != '"' by {
            if i < front.len() {
                assert(escaped(s)[i] == front[i]);
            } else {
                assert(escaped(s)[i] == back[i - front.len()]);
            }
        }
    }
}

/// The decimal digit `d`.
pub open spec fn digit(d: nat) -> char {
    (48 + d) as char
}

/// `n` in decimal.
pub open spec fn decimal(n: nat) -> Seq<char>
    decreases n,
{
    if n < 10 {
        seq![digit(n)]
    } else {
        decimal(n / 10).push(digit(n % 10))
    }
}

/// `s` filled up with zeros on the left to `width` characters.
pub open spec fn zero_padded(s: Seq<char>, width: nat) -> Seq<char>
    decreases width - s.len(),
{
    if s.len() < width {
        zero_padded(seq!['0'] + s, width)
    } else {
        s
    }
}

/// The number that the digits `s` stand for.
pub open spec fn number(s: Seq<char>) -> int
    decreases s.len(),
{
    if s.len() == 0 {
        0
    } else {
        10 * number(s.drop_last()) + (s.last() as int - 48)
    }
}

proof fn lemma_number_of_decimal(n: nat)
    ensures
        number(decimal(n)) == n,
    decreases n,
{
    if n < 10 {
        let s = decimal(n);
        assert(s.drop_last() == Seq::<char>::empty());
        assert(number(s.drop_last()) == 0);
        assert(s.last() as int == 48 + n);
    } else {
        lemma_number_of_decimal(n / 10);
        assert(decimal(n).drop_last() == decimal(n / 10));
        assert(decimal(n).last() as int == 48 + n % 10);
    }
}

proof fn lemma_number_zero_front(s: Seq<char>)
    ensures
        number(seq!['0'] + s) == number(s),
    decreases s.len(),
{
    let z = seq!['0'] + s;
    if s.len() == 0 {
        assert(z.drop_last() == Seq::<char>::empty());
        assert(number(z.drop_last()) == 0);
        assert(z.last() == '0');
    } else {
        assert(z.drop_last() == seq!['0'] + s.drop_last());
        lemma_number_zero_front(s.drop_last());
    }
}

proof fn lemma_number_zero_padded(s: Seq<char>, width: nat)
    ensures
        number(zero_padded(s, width)) == number(s),
    decreases width - s.len(),
{
    if s.len() < width {
        lemma_number_zero_front(s);
        lemma_number_zero_padded(seq!['0'] + s, width);
    }
}

/// A number can be told from its padded decimal form, so two numbers never
/// share one.
pub proof fn law_padded_decimal_tells_number(n: nat, width: nat)
    ensures
        number(zero_padded(decimal(n), width)) == n,
{
    lemma_number_of_decimal(n);
    lemma_number_zero_padded(decimal(n), width);
}

/// `n` in decimal.
pub fn to_decimal(n: usize) -> (s: Vec<char>)
    ensures
        s@ == decimal(n as nat),
    decreases n,
{
    let mut s: Vec<char> = Vec::new();
    if n >= 10 {
        s = to_decimal(n / 10);
    }
    s.push((48 + (n % 10) as u8) as char);
    assert(s@ == decimal(n as nat));
    s
}

/// `n` in decimal, filled up with zeros on the left to three digits.
pub fn to_decimal3(n: usize) -> (s: Vec<char>)
    ensures
        s@ == zero_padded(decimal(n as nat), 3),
{
    let mut s = to_decimal(n);
    while s.len() < 3
        invariant
            zero_padded(s@, 3) == zero_padded(decimal(n as nat), 3),
        decreases 3 - s@.len(),
    {
        let ghost before = s@;
        s.insert(0, '0');
        assert(s@ == seq!['0'] + before);
    }
    s
}

} // verus!
