//! Searching and cutting byte buffers.
use vstd::prelude::*;

use crate::text::{find, found_at, lemma_find_is};

verus! {

/// The byte of the lower-case ASCII letter for an upper-case one, any other byte unchanged.
pub open spec fn lower_byte(b: u8) -> u8 {
    if 65 <= b <= 90 {
        (b + 32) as u8
    } else {
        b
    }
}

/// The bytes of `s` with ASCII letters in lower case.
pub open spec fn lower_bytes(s: Seq<u8>) -> Seq<u8> {
    Seq::new(s.len(), |i: int| lower_byte(s[i]))
}

/// Tells whether `pat` stands in `s` at index `i`.
pub fn bytes_at(s: &[u8], pat: &[u8], i: usize) -> (r: bool)
    requires
        i + pat@.len() <= s@.len(),
    ensures
        r == found_at(s@, pat@, i as int),
{
    let n: usize = pat.len();
    let m: usize = s.len();
    for k in 0..n
        invariant
            n == pat@.len(),
            m == s@.len(),
            i + n <= m,
            forall|j: int| 0 <= j < k ==> s@[i + j] == #[trigger] pat@[j],
    {
        if s[i + k] != pat[k] {
            assert(s@[i + k] != pat@[k as int]);
            return false;
        }
    }
    true
}

/// The first index at which `pat` stands in `s`.
pub fn find_bytes(s: &[u8], pat: &[u8]) -> (r: Option<usize>)
    ensures
        match r {
            Some(i) => find(s@, pat@) == Some(i as int) && i + pat@.len() <= s@.len(),
            None => find(s@, pat@) is None,
        },
{
    if pat.len() > s.len() {
        return None;
    }
    let last: usize = s.len() - pat.len();
    let mut i: usize = 0;
    while i <= last
        invariant
            last + pat@.len() == s@.len(),
            i <= last + 1,
            forall|j: int| 0 <= j < i ==> !#[trigger] found_at(s@, pat@, j),
        decreases last + 1 - i,
    {
        if bytes_at(s, pat, i) {
            proof {
                lemma_find_is(s@, pat@, i as int);
            }
            return Some(i);
        }
        if i == last {
            return None;
        }
        i += 1;
    }
    None
}

/// The bytes of `s` with ASCII letters in lower case.
pub fn lowered(s: &[u8]) -> (r: Vec<u8>)
    ensures
        r@ == lower_bytes(s@),
{
    let mut out: Vec<u8> = Vec::new();
    let n: usize = s.len();
    for i in 0..n
        invariant
            n == s@.len(),
            out@ == lower_bytes(s@).take(i as int),
    {
        let b: u8 = s[i];
        if 65 <= b && b <= 90 {
            out.push(b + 32);
        } else {
            out.push(b);
        }
    }
    out
}

/// A copy of `s[from..to]`.
pub fn copy_range(s: &[u8], from: usize, to: usize) -> (r: Vec<u8>)
    requires
        from <= to <= s@.len(),
    ensures
        r@ == s@.subrange(from as int, to as int),
{
    let mut out: Vec<u8> = Vec::new();
    append_range(&mut out, s, from, to);
    assert(out@ =~= s@.subrange(from as int, to as int));
    out
}

/// Appends `s[from..to]` to `out`.
pub fn append_range(out: &mut Vec<u8>, s: &[u8], from: usize, to: usize)
    requires
        from <= to <= s@.len(),
    ensures
        final(out)@ == old(out)@ + s@.subrange(from as int, to as int),
{
    let ghost start = out@;
    for i in from..to
        invariant
            from <= to <= s@.len(),
            out@ == start + s@.subrange(from as int, i as int),
    {
        out.push(s[i]);
        assert(out@ =~= start + s@.subrange(from as int, i + 1));
    }
}

/// Appends all of `s` to `out`.
pub fn append_all(out: &mut Vec<u8>, s: &[u8])
    ensures
        final(out)@ == old(out)@ + s@,
{
    append_range(out, s, 0, s.len());
    assert(s@.subrange(0, s@.len() as int) =~= s@);
}

/// Upper-case ASCII letters become the lower-case ones, and every other byte stays; so bytes that
/// differ only in the case of ASCII letters become the same.
pub proof fn law_bytes_in_lower_case(a: Seq<u8>, b: Seq<u8>)
    requires
        a.len() == b.len(),
    ensures
        lower_bytes(a).len() == a.len(),
        forall|i: int|
            0 <= i < a.len() ==> #[trigger] lower_bytes(a)[i] == a[i] + (if 65 <= a[i] <= 90 {
                32int
            } else {
                0
            }),
        (forall|i: int|
            0 <= i < a.len() ==> #[trigger] a[i] == b[i] || (65 <= a[i] <= 90 && b[i] == a[i] + 32)
                || (65 <= b[i] <= 90 && a[i] == b[i] + 32)) ==> lower_bytes(a) == lower_bytes(b),
{
    if forall|i: int|
        0 <= i < a.len() ==> #[trigger] a[i] == b[i] || (65 <= a[i] <= 90 && b[i] == a[i] + 32) || (
        65 <= b[i] <= 90 && a[i] == b[i] + 32) {
        assert forall|i: int| 0 <= i < a.len() implies lower_bytes(a)[i] == lower_bytes(b)[i] by {
            assert(a[i] == b[i] || (65 <= a[i] <= 90 && b[i] == a[i] + 32) || (65 <= b[i] <= 90
                && a[i] == b[i] + 32));
        }
        assert(lower_bytes(a) =~= lower_bytes(b));
    }
}

} // verus!
