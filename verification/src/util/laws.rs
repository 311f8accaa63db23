//! What holds of escaped text and of numbers.

use vstd::prelude::*;

use crate::util::{decimal, escaped, number, zero_padded};

verus! {

/// Texts are escaped character by character.
pub proof fn law_escaped_one_by_one(a: Seq<char>, b: Seq<char>)
    ensures
        escaped(a + b) == escaped(a) + escaped(b),
    decreases b.len(),
{
    if b.len() == 0 {
        assert(a + b == a);
    } else {
        law_escaped_one_by_one(a, b.drop_last());
        assert((a + b).drop_last() == a + b.drop_last());
    }
}

/// The four characters that mean something in HTML are written out by name, and
/// every other character stands for itself.
pub proof fn law_escaped_characters(c: char)
    ensures
        escaped(seq!['&']) == "&amp;"@,
        escaped(seq!['<']) == "&lt;"@,
        escaped(seq!['>']) == "&gt;"@,
        escaped(seq!['"']) == "&quot;"@,
        c != '&' && c != '<' && c != '>' && c != '"' ==> escaped(seq![c]) == seq![c],
        escaped(seq![]) == Seq::<char>::empty(),
{
    reveal_with_fuel(escaped, 2);
    assert(seq!['&'].drop_last() == Seq::<char>::empty());
    assert(seq!['<'].drop_last() == Seq::<char>::empty());
    assert(seq!['>'].drop_last() == Seq::<char>::empty());
    assert(seq!['"'].drop_last() == Seq::<char>::empty());
    assert(seq![c].drop_last() == Seq::<char>::empty());
}

/// A number is written with digits alone, stands for itself, and has no zero at its
/// front but the number zero.
pub proof fn law_decimal_form(n: nat)
    ensures
        decimal(n).len() > 0,
        forall|i: int| 0 <= i < decimal(n).len() ==> '0' <= #[trigger] decimal(n)[i] <= '9',
        number(decimal(n)) == n,
        n > 0 ==> decimal(n)[0] != '0',
        n == 0 ==> decimal(n) == seq!['0'],
    decreases n,
{
    let s = decimal(n);
    if n < 10 {
        reveal_with_fuel(number, 2);
        assert(s.drop_last() == Seq::<char>::empty());
        assert(s.last() as int == 48 + n);
        assert('0' as int == 48);
    } else {
        law_decimal_form(n / 10);
        assert(s.drop_last() == decimal(n / 10));
        assert(s.last() as int == 48 + n % 10);
        assert forall|i: int| 0 <= i < s.len() implies '0' <= #[trigger] s[i] <= '9' by {
            if i < decimal(n / 10).len() {
                assert(s[i] == decimal(n / 10)[i]);
            }
        }
        assert(s[0] == decimal(n / 10)[0]);
    }
}

/// Filling up puts zeros before a text until it is wide enough, and no more.
pub proof fn law_filling_up(s: Seq<char>, width: nat)
    ensures
        zero_padded(s, width).len() == if s.len() < width {
            width
        } else {
            s.len()
        },
        zero_padded(s, width).subrange(
            zero_padded(s, width).len() - s.len(),
            zero_padded(s, width).len() as int,
        ) == s,
        forall|i: int|
            0 <= i < zero_padded(s, width).len() - s.len() ==> #[trigger] zero_padded(s, width)[i]
                == '0',
    decreases width - s.len(),
{
    if s.len() < width {
        let t = seq!['0'] + s;
        law_filling_up(t, width);
        let p = zero_padded(s, width);
        let from = p.len() - t.len();
        assert(p.subrange(from, p.len() as int) == t);
        assert(p.subrange(p.len() - s.len(), p.len() as int) == s) by {
            assert forall|i: int| 0 <= i < s.len() implies p[from + 1 + i] == s[i] by {
                assert(p.subrange(from, p.len() as int)[i + 1] == t[i + 1]);
            }
        }
        assert forall|i: int| 0 <= i < p.len() - s.len() implies #[trigger] p[i] == '0' by {
            if i == from {
                assert(p.subrange(from, p.len() as int)[0] == t[0]);
            }
        }
    } else {
        assert(s.subrange(0, s.len() as int) == s);
    }
}

} // verus!
