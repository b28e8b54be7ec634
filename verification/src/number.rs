//! Decimal numbers in text.
use vstd::prelude::*;

use crate::text::chars_of;

verus! {

/// The decimal digit of value `d`.
pub open spec fn digit(d: int) -> char {
    ('0' as int + d) as char
}

/// `c` is a decimal digit.
pub open spec fn is_digit(c: char) -> bool {
    '0' <= c <= '9'
}

/// `n` in decimal, without leading zeros.
pub open spec fn decimal(n: nat) -> Seq<char>
    decreases n,
{
    if n < 10 {
        seq![digit(n as int)]
    } else {
        decimal(n / 10).push(digit((n % 10) as int))
    }
}

/// All characters of `s` are decimal digits.
pub open spec fn all_digits(s: Seq<char>) -> bool {
    forall|i: int| 0 <= i < s.len() ==> is_digit(#[trigger] s[i])
}

/// The value of a sequence of decimal digits.
pub open spec fn digits_value(s: Seq<char>) -> nat
    decreases s.len(),
{
    if s.len() == 0 {
        0
    } else {
        digits_value(s.drop_last()) * 10 + (s.last() as int - '0' as int) as nat
    }
}

/// `s` without the plus sign that begins it, if one does.
pub open spec fn unsigned_part(s: Seq<char>) -> Seq<char> {
    if s.len() > 0 && s[0] == '+' {
        s.skip(1)
    } else {
        s
    }
}

/// The number that `s` writes: digits, at least one, after an optional plus sign.
pub open spec fn number_in(s: Seq<char>) -> Option<nat> {
    let t = unsigned_part(s);
    if t.len() > 0 && all_digits(t) {
        Some(digits_value(t))
    } else {
        None
    }
}

/// The number that `s` writes, where it fits in `usize`.
pub open spec fn size_in(s: Seq<char>) -> Option<usize> {
    match number_in(s) {
        Some(n) => if n <= usize::MAX {
            Some(n as usize)
        } else {
            None
        },
        None => None,
    }
}

/// Appends `n` in decimal.
pub fn push_decimal(out: &mut String, n: u128)
    ensures
        final(out)@ == old(out)@ + decimal(n as nat),
    decreases n,
{
    if n >= 10 {
        push_decimal(out, n / 10);
    }
    let d: u8 = (n % 10) as u8;
    let ghost before = out@;
    out.push(('0' as u8 + d) as char);
    proof {
        assert(n < 10 ==> n % 10 == n);
        if n >= 10 {
            assert(decimal(n as nat) == decimal((n / 10) as nat).push(digit((n % 10) as int)));
        }
        assert(out@ =~= old(out)@ + decimal(n as nat));
    }
}

proof fn lemma_value_grows(s: Seq<char>, n: int)
    requires
        0 <= n <= s.len(),
        all_digits(s),
    ensures
        digits_value(s.take(n)) <= digits_value(s),
    decreases s.len(),
{
    if n < s.len() {
        let t = s.drop_last();
        assert(t.take(n) =~= s.take(n));
        assert forall|i: int| 0 <= i < t.len() implies is_digit(#[trigger] t[i]) by {
            assert(s[i] == t[i]);
        }
        lemma_value_grows(t, n);
        assert(is_digit(s[s.len() - 1]));
    } else {
        assert(s.take(n) =~= s);
    }
}

/// Reads a number that fits in `usize`.
pub fn parse_size(s: &str) -> (r: Option<usize>)
    ensures
        r == size_in(s@),
{
    let chars = chars_of(s);
    let start: usize = if chars.len() > 0 && chars[0] == '+' {
        1
    } else {
        0
    };
    let ghost t = unsigned_part(s@);
    assert(t =~= s@.skip(start as int));
    if chars.len() == start {
        return None;
    }
    let mut value: usize = 0;
    let mut i: usize = start;
    assert(t.take(0) =~= Seq::empty());
    while i < chars.len()
        invariant
            chars@ == s@,
            t == unsigned_part(s@),
            t == chars@.skip(start as int),
            t.len() > 0,
            start <= i <= chars@.len(),
            value == digits_value(t.take(i - start)),
            forall|k: int| 0 <= k < i - start ==> is_digit(#[trigger] t[k]),
        decreases chars@.len() - i,
    {
        let c = chars[i];
        assert(t[i - start] == c);
        if !('0' <= c && c <= '9') {
            return None;
        }
        let d: usize = c as usize - '0' as usize;
        let ghost u = t.take(i - start + 1);
        proof {
            assert(u.drop_last() =~= t.take(i - start));
            assert(u.last() == c);
            assert(digits_value(u) == value * 10 + d);
            if all_digits(t) {
                lemma_value_grows(t, i - start + 1);
            }
        }
        match value.checked_mul(10) {
            Some(v) => match v.checked_add(d) {
                Some(w) => {
                    value = w;
                },
                None => {
                    return None;
                },
            },
            None => {
                return None;
            },
        }
        i += 1;
    }
    assert(t.take(t.len() as int) =~= t);
    Some(value)
}

proof fn lemma_decimal_digits(n: nat)
    ensures
        decimal(n).len() > 0,
        all_digits(decimal(n)),
        digits_value(decimal(n)) == n,
    decreases n,
{
    if n < 10 {
        let s = decimal(n);
        assert(s.drop_last() =~= Seq::empty());
        assert(digits_value(s.drop_last()) == 0);
        assert(s.last() == digit(n as int));
    } else {
        lemma_decimal_digits(n / 10);
        let s = decimal(n);
        assert(s.drop_last() =~= decimal(n / 10));
        assert forall|i: int| 0 <= i < s.len() implies is_digit(#[trigger] s[i]) by {
            if i < s.len() - 1 {
                assert(decimal(n / 10)[i] == s[i]);
            }
        }
    }
}

/// Reading a number back from the decimal text that was written for it gives that number.
pub proof fn law_decimal_reads_back(n: usize)
    ensures
        size_in(decimal(n as nat)) == Some(n),
{
    lemma_decimal_digits(n as nat);
    assert(is_digit(decimal(n as nat)[0]));
    assert(unsigned_part(decimal(n as nat)) == decimal(n as nat));
}

/// A number is written in decimal digits, without leading zeros, and each digit counts ten times
/// what the one behind it does.
pub proof fn law_decimal(n: nat)
    ensures
        decimal(n).len() > 0,
        forall|i: int| 0 <= i < decimal(n).len() ==> '0' <= #[trigger] decimal(n)[i] <= '9',
        n > 0 ==> decimal(n)[0] != '0',
        n == 0 ==> decimal(n) == seq!['0'],
        decimal(n).last() as int - '0' as int == n % 10,
        n >= 10 ==> decimal(n).drop_last() == decimal(n / 10),
    decreases n,
{
    if n >= 10 {
        law_decimal(n / 10);
        assert(decimal(n).drop_last() =~= decimal(n / 10));
        assert forall|i: int| 0 <= i < decimal(n).len() implies '0' <= #[trigger] decimal(n)[i]
            <= '9' by {
            if i < decimal(n / 10).len() {
                assert(decimal(n)[i] == decimal(n / 10)[i]);
            }
        }
        assert(decimal(n)[0] == decimal(n / 10)[0]);
    } else {
        assert(n == 0 ==> decimal(n) =~= seq!['0']);
    }
}

/// A size is read from digits alone, with or without a plus sign before them: leading zeros make
/// no difference, one more digit makes ten times as much and the digit, and any other character
/// makes it no size.
pub proof fn law_size(s: Seq<char>, c: char)
    requires
        s.len() > 0,
        s[0] != '+',
    ensures
        size_in(seq!['+'] + s) == size_in(s),
        size_in(seq!['0'] + s) == size_in(s),
        size_in(s) is Some ==> forall|i: int| 0 <= i < s.len() ==> '0' <= #[trigger] s[i] <= '9',
        '0' <= c <= '9' && size_in(s) is Some ==> {
            let n = size_in(s)->0 * 10 + (c as int - '0' as int);
            size_in(s.push(c)) == (if n <= usize::MAX {
                Some(n as usize)
            } else {
                None
            })
        },
        '0' <= c <= '9' ==> size_in(seq![c]) == Some((c as int - '0' as int) as usize),
        size_in(Seq::empty()) is None,
{
    assert((seq!['+'] + s).skip(1) =~= s);
    let z = seq!['0'] + s;
    lemma_leading_zero(s);
    if all_digits(s) {
        assert forall|i: int| 0 <= i < z.len() implies is_digit(#[trigger] z[i]) by {
            if i > 0 {
                assert(z[i] == s[i - 1]);
            }
        }
    }
    if all_digits(z) {
        assert forall|i: int| 0 <= i < s.len() implies is_digit(#[trigger] s[i]) by {
            assert(s[i] == z[i + 1]);
        }
    }
    let p = s.push(c);
    assert(p.drop_last() =~= s);
    assert(p[0] == s[0]);
    if all_digits(s) && is_digit(c) {
        assert forall|i: int| 0 <= i < p.len() implies is_digit(#[trigger] p[i]) by {
            if i < s.len() {
                assert(p[i] == s[i]);
            }
        }
    }
    assert(seq![c].drop_last() =~= Seq::empty());
    assert(digits_value(Seq::empty()) == 0);
    assert(digits_value(seq![c]) == (c as int - '0' as int) as nat);
}

proof fn lemma_leading_zero(s: Seq<char>)
    ensures
        digits_value(seq!['0'] + s) == digits_value(s),
    decreases s.len(),
{
    let z = seq!['0'] + s;
    if s.len() > 0 {
        lemma_leading_zero(s.drop_last());
        assert(z.drop_last() =~= seq!['0'] + s.drop_last());
    } else {
        assert(z.drop_last() =~= Seq::empty());
        assert(digits_value(Seq::empty()) == 0);
    }
}

} // verus!
