//! Bytes as text, and text in lower case.
use vstd::prelude::*;
use vstd::utf8::{decode_utf8, valid_utf8};

use crate::text::is_space;

verus! {

/// The text that `String::from_utf8_lossy` makes of some bytes.
pub uninterp spec fn lossy(bytes: Seq<u8>) -> Seq<char>;

/// The text that `str::to_lowercase` makes of a text.
pub uninterp spec fn lowercase(s: Seq<char>) -> Seq<char>;

/// The lower-case ASCII letter for an upper-case one, any other character unchanged.
pub open spec fn ascii_lower_char(c: char) -> char {
    if 'A' <= c <= 'Z' {
        (c as int + 32) as char
    } else {
        c
    }
}

/// A text with its ASCII letters in lower case.
pub open spec fn ascii_lower(s: Seq<char>) -> Seq<char> {
    Seq::new(s.len(), |i: int| ascii_lower_char(s[i]))
}

/// A text of which each character is an ASCII character or white space.
pub open spec fn is_plain(s: Seq<char>) -> bool {
    forall|i: int| 0 <= i < s.len() ==> (#[trigger] s[i] <= '\u{7f}' || is_space(s[i]))
}

/// A text with its ASCII letters in lower case.
pub fn lower_ascii(s: &[char]) -> (r: Vec<char>)
    ensures
        r@ == ascii_lower(s@),
{
    let mut out: Vec<char> = Vec::new();
    let n: usize = s.len();
    for i in 0..n
        invariant
            n == s@.len(),
            out@.len() == i,
            forall|k: int| 0 <= k < i ==> #[trigger] out@[k] == ascii_lower_char(s@[k]),
    {
        let c = s[i];
        if 'A' <= c && c <= 'Z' {
            out.push((c as u8 + 32) as char);
        } else {
            out.push(c);
        }
    }
    assert(out@ =~= ascii_lower(s@));
    out
}

/// `std::str::from_utf8` gives the text that the bytes encode where they are valid UTF-8, and
/// an error, left out here, where they are not.
#[verifier::external_body]
pub(crate) fn decode_text(bytes: &[u8]) -> (r: Option<String>)
    ensures
        r is Some <==> valid_utf8(bytes@),
        r is Some ==> r->0@ == decode_utf8(bytes@),
{
    std::str::from_utf8(bytes).ok().map(String::from)
}

/// `String::from_utf8_lossy` gives the text that the bytes encode where they are valid UTF-8;
/// of other bytes it puts replacement characters in place of what is not, and of those only
/// that the result depends on the bytes alone is claimed.
#[verifier::external_body]
pub(crate) fn decode_lossy(bytes: &[u8]) -> (r: String)
    ensures
        r@ == lossy(bytes@),
        valid_utf8(bytes@) ==> r@ == decode_utf8(bytes@),
{
    String::from_utf8_lossy(bytes).into_owned()
}

/// `str::to_lowercase` follows Unicode's lower-case mapping. Of ASCII characters it changes the
/// letters A to Z and nothing else, and no white space has a lower-case form; of text with other
/// characters only that the result depends on the text alone is claimed.
#[verifier::external_body]
pub(crate) fn to_lower(s: &str) -> (r: String)
    ensures
        r@ == lowercase(s@),
        is_plain(s@) ==> r@ == ascii_lower(s@),
{
    s.to_lowercase()
}

/// The letters A to Z become a to z, and every other character stays.
pub proof fn law_text_in_lower_case(s: Seq<char>)
    ensures
        ascii_lower(s).len() == s.len(),
        forall|i: int|
            0 <= i < s.len() ==> #[trigger] ascii_lower(s)[i] as int == s[i] as int + (if 'A'
                <= s[i] <= 'Z' {
                32int
            } else {
                0
            }),
{
}

} // verus!
