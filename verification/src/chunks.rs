//! Bodies that come in chunks, each behind a line with its size.
use vstd::prelude::*;

use crate::bytes::{append_range, bytes_at};
use crate::http::blank_bytes;
use crate::text::{find, first_at, found_at, lemma_find_is, lemma_find_some, occurs};

verus! {

/// The bytes that end a line.
pub open spec fn crlf() -> Seq<u8> {
    seq![13u8, 10]
}

/// A byte is a hexadecimal digit.
pub open spec fn is_hex(b: u8) -> bool {
    48 <= b <= 57 || 65 <= b <= 70 || 97 <= b <= 102
}

/// The value of a hexadecimal digit.
pub open spec fn hex_value(b: u8) -> nat {
    if b <= 57 {
        (b - 48) as nat
    } else if b <= 70 {
        (b - 55) as nat
    } else {
        (b - 87) as nat
    }
}

/// The number that some hexadecimal digits write.
pub open spec fn hex_number(s: Seq<u8>) -> nat
    decreases s.len(),
{
    if s.len() == 0 {
        0
    } else {
        hex_number(s.drop_last()) * 16 + hex_value(s.last())
    }
}

/// The number of hexadecimal digits at the beginning of `s`.
pub open spec fn hex_run(s: Seq<u8>) -> int
    decreases s.len(),
{
    if s.len() == 0 || !is_hex(s[0]) {
        0
    } else {
        1 + hex_run(s.skip(1))
    }
}

/// What may follow the size in its line: a semicolon or white space before an extension.
pub open spec fn ends_size(b: u8) -> bool {
    b == 59 || b == 32 || b == 9
}

/// The size that the line before a chunk gives, if it gives one.
pub open spec fn chunk_size(line: Seq<u8>) -> Option<nat> {
    let k = hex_run(line);
    if k > 0 && (k == line.len() || ends_size(line[k])) {
        Some(hex_number(line.take(k)))
    } else {
        None
    }
}

/// What a chunked body holds so far: the data of its chunks, and whether it has come to its end.
#[verifier::ext_equal]
pub struct Chunks {
    pub data: Seq<u8>,
    pub ended: bool,
}

/// What a chunked body holds. It ends at the empty line behind a chunk of size zero. A chunk of
/// which a part is missing gives that part, and nothing is read behind a line that gives no size.
pub open spec fn chunks_in(body: Seq<u8>) -> Chunks
    decreases body.len(),
    via chunks_in_decreases
{
    match find(body, crlf()) {
        None => Chunks { data: Seq::empty(), ended: false },
        Some(i) => match chunk_size(body.take(i)) {
            None => Chunks { data: Seq::empty(), ended: false },
            Some(n) => {
                let rest = body.skip(i + 2);
                if n == 0 {
                    Chunks { data: Seq::empty(), ended: occurs(body.skip(i), blank_bytes()) }
                } else if rest.len() < n + 2 {
                    Chunks {
                        data: if rest.len() < n {
                            rest
                        } else {
                            rest.take(n as int)
                        },
                        ended: false,
                    }
                } else {
                    let more = chunks_in(rest.skip(n as int + 2));
                    Chunks { data: rest.take(n as int) + more.data, ended: more.ended }
                }
            },
        },
    }
}

#[via_fn]
proof fn chunks_in_decreases(body: Seq<u8>) {
    if occurs(body, crlf()) {
        lemma_find_some(body, crlf());
    }
}

/// The data of a chunked body.
pub open spec fn dechunked(body: Seq<u8>) -> Seq<u8> {
    chunks_in(body).data
}

proof fn lemma_hex_run_is(s: Seq<u8>, n: int)
    requires
        0 <= n <= s.len(),
        forall|i: int| 0 <= i < n ==> is_hex(#[trigger] s[i]),
        n == s.len() || !is_hex(s[n]),
    ensures
        hex_run(s) == n,
    decreases s.len(),
{
    if n > 0 {
        let t = s.skip(1);
        assert forall|i: int| 0 <= i < n - 1 implies is_hex(#[trigger] t[i]) by {
            assert(t[i] == s[i + 1]);
        }
        lemma_hex_run_is(t, n - 1);
    }
}

/// The value of a hexadecimal digit.
fn digit_value(b: u8) -> (r: usize)
    requires
        is_hex(b),
    ensures
        r == hex_value(b),
        r < 16,
{
    if b <= 57 {
        (b - 48) as usize
    } else if b <= 70 {
        (b - 55) as usize
    } else {
        (b - 87) as usize
    }
}

fn is_hex_digit(b: u8) -> (r: bool)
    ensures
        r == is_hex(b),
{
    (48 <= b && b <= 57) || (65 <= b && b <= 70) || (97 <= b && b <= 102)
}

/// A size, or the largest `usize` in place of one that is larger.
spec fn size_fits(n: nat, r: usize) -> bool {
    if n <= usize::MAX {
        r == n
    } else {
        r == usize::MAX
    }
}

/// Reads the size in the line between two places of a body.
fn read_size(body: &[u8], from: usize, to: usize) -> (r: Option<usize>)
    requires
        from <= to <= body@.len(),
    ensures
        match chunk_size(body@.subrange(from as int, to as int)) {
            Some(n) => r is Some && size_fits(n, r->0),
            None => r is None,
        },
{
    let ghost line = body@.subrange(from as int, to as int);
    let mut i: usize = from;
    let mut value: usize = 0;
    let mut large: bool = false;
    assert(line.take(0) =~= Seq::empty());
    while i < to && is_hex_digit(body[i])
        invariant
            from <= i <= to <= body@.len(),
            line == body@.subrange(from as int, to as int),
            forall|k: int| 0 <= k < i - from ==> is_hex(#[trigger] line[k]),
            !large ==> value == hex_number(line.take(i - from)),
            large ==> hex_number(line.take(i - from)) > usize::MAX,
        decreases to - i,
    {
        let d: usize = digit_value(body[i]);
        let ghost seen = line.take(i - from + 1);
        proof {
            assert(seen.drop_last() =~= line.take(i - from));
            assert(seen.last() == body@[i as int]);
            assert(line[i - from] == body@[i as int]);
        }
        if !large {
            match value.checked_mul(16) {
                Some(v) => match v.checked_add(d) {
                    Some(w) => {
                        value = w;
                    },
                    None => {
                        large = true;
                    },
                },
                None => {
                    large = true;
                },
            }
        }
        i += 1;
    }
    proof {
        if i < to {
            assert(line[i - from] == body@[i as int]);
        }
        lemma_hex_run_is(line, i - from);
    }
    if i == from {
        return None;
    }
    if i < to && body[i] != 59 && body[i] != 32 && body[i] != 9 {
        return None;
    }
    if large {
        Some(usize::MAX)
    } else {
        Some(value)
    }
}

/// The first place at or behind `from` at which `pat` stands.
fn find_from(body: &[u8], from: usize, pat: &[u8]) -> (r: Option<usize>)
    requires
        from <= body@.len(),
        pat@.len() > 0,
    ensures
        match r {
            Some(i) => from <= i && i + pat@.len() <= body@.len() && find(
                body@.skip(from as int),
                pat@,
            ) == Some(i - from),
            None => find(body@.skip(from as int), pat@) is None,
        },
{
    let ghost tail = body@.skip(from as int);
    let size: usize = body.len();
    let n: usize = pat.len();
    let mut i: usize = from;
    while i < size && n <= size - i
        invariant
            from <= i <= size,
            size == body@.len(),
            n == pat@.len(),
            n > 0,
            tail == body@.skip(from as int),
            forall|j: int| 0 <= j < i - from ==> !#[trigger] found_at(tail, pat@, j),
        decreases size - i,
    {
        let hit = bytes_at(body, pat, i);
        proof {
            assert(found_at(body@, pat@, i as int) == found_at(tail, pat@, i - from)) by {
                if found_at(body@, pat@, i as int) {
                    assert forall|k: int| 0 <= k < pat@.len() implies tail[i - from + k]
                        == #[trigger] pat@[k] by {
                        assert(body@[i + k] == pat@[k]);
                    }
                }
                if found_at(tail, pat@, i - from) {
                    assert forall|k: int| 0 <= k < pat@.len() implies body@[i + k]
                        == #[trigger] pat@[k] by {
                        assert(tail[i - from + k] == pat@[k]);
                    }
                }
            }
        }
        if hit {
            proof {
                lemma_find_is(tail, pat@, i - from);
            }
            return Some(i);
        }
        i += 1;
    }
    assert forall|j: int| !found_at(tail, pat@, j) by {
        if found_at(tail, pat@, j) && j < i - from {
            assert(!found_at(tail, pat@, j));
        }
    }
    None
}

/// Reads a chunked body: the data of its chunks, and whether it has come to its end.
fn read_chunks(body: &[u8]) -> (r: (Vec<u8>, bool))
    ensures
        (Chunks { data: r.0@, ended: r.1 }) == chunks_in(body@),
{
    let line_end: [u8; 2] = [13, 10];
    let empty: [u8; 4] = [13, 10, 13, 10];
    assert(line_end@ =~= crlf());
    assert(empty@ =~= blank_bytes());
    let size: usize = body.len();
    let mut out: Vec<u8> = Vec::new();
    let mut pos: usize = 0;
    assert(body@.skip(0) =~= body@);
    assert(out@ + chunks_in(body@).data =~= chunks_in(body@).data);
    loop
        invariant
            pos <= size,
            size == body@.len(),
            line_end@ == crlf(),
            empty@ == blank_bytes(),
            chunks_in(body@) == (Chunks {
                data: out@ + chunks_in(body@.skip(pos as int)).data,
                ended: chunks_in(body@.skip(pos as int)).ended,
            }),
        decreases size - pos,
    {
        let ghost tail = body@.skip(pos as int);
        let end: usize = match find_from(body, pos, &line_end) {
            Some(i) => i,
            None => {
                assert(out@ + Seq::<u8>::empty() =~= out@);
                return (out, false);
            },
        };
        assert(tail.take(end - pos) =~= body@.subrange(pos as int, end as int));
        assert(tail.skip(end - pos) =~= body@.skip(end as int));
        assert(tail.skip(end - pos + 2) =~= body@.skip(end + 2));
        let n: usize = match read_size(body, pos, end) {
            Some(n) => n,
            None => {
                assert(out@ + Seq::<u8>::empty() =~= out@);
                return (out, false);
            },
        };
        let start: usize = end + 2;
        if n == 0 {
            let ended = find_from(body, end, &empty).is_some();
            assert(out@ + Seq::<u8>::empty() =~= out@);
            return (out, ended);
        }
        let have: usize = size - start;
        let ghost before = out@;
        let ghost rest = body@.skip(start as int);
        if have < n {
            append_range(&mut out, body, start, size);
            assert(out@ =~= before + rest);
            return (out, false);
        }
        append_range(&mut out, body, start, start + n);
        assert(rest.take(n as int) =~= body@.subrange(start as int, start + n));
        if have - n < 2 {
            return (out, false);
        }
        pos = start + n + 2;
        proof {
            assert(rest.skip(n + 2) =~= body@.skip(pos as int));
            let more = chunks_in(body@.skip(pos as int));
            assert(before + (rest.take(n as int) + more.data) =~= out@ + more.data);
        }
    }
}

/// The data of a chunked body.
pub fn dechunk(body: &[u8]) -> (r: Vec<u8>)
    ensures
        r@ == dechunked(body@),
{
    read_chunks(body).0
}

/// Tells whether a chunked body has come to its end.
pub fn chunks_ended(body: &[u8]) -> (r: bool)
    ensures
        r == chunks_in(body@).ended,
{
    read_chunks(body).1
}

/// The hexadecimal digit of value `n`.
pub open spec fn hex_byte(n: int) -> u8 {
    if n < 10 {
        (48 + n) as u8
    } else {
        (87 + n) as u8
    }
}

/// A number in hexadecimal.
pub open spec fn hex_text(n: nat) -> Seq<u8>
    decreases n,
{
    if n < 16 {
        seq![hex_byte(n as int)]
    } else {
        hex_text(n / 16).push(hex_byte((n % 16) as int))
    }
}

/// Some pieces, one behind the other.
pub open spec fn joined(pieces: Seq<Seq<u8>>) -> Seq<u8>
    decreases pieces.len(),
{
    if pieces.len() == 0 {
        Seq::empty()
    } else {
        pieces[0] + joined(pieces.skip(1))
    }
}

/// The chunked body that has the given pieces as its chunks.
pub open spec fn chunk_framed(pieces: Seq<Seq<u8>>) -> Seq<u8>
    decreases pieces.len(),
{
    if pieces.len() == 0 {
        hex_text(0) + crlf() + crlf()
    } else {
        hex_text(pieces[0].len()) + crlf() + pieces[0] + crlf() + chunk_framed(pieces.skip(1))
    }
}

proof fn lemma_hex_text(n: nat)
    ensures
        hex_text(n).len() > 0,
        forall|i: int| 0 <= i < hex_text(n).len() ==> is_hex(#[trigger] hex_text(n)[i]),
        hex_number(hex_text(n)) == n,
    decreases n,
{
    if n >= 16 {
        lemma_hex_text(n / 16);
        assert(hex_text(n).drop_last() =~= hex_text(n / 16));
    } else {
        assert(hex_text(n).drop_last() =~= Seq::empty());
        assert(hex_number(Seq::empty()) == 0);
    }
}

/// The line that is made of digits, with a line end behind it.
proof fn lemma_size_line(n: nat, more: Seq<u8>)
    ensures
        ({
            let body = hex_text(n) + crlf() + more;
            let k = hex_text(n).len() as int;
            &&& find(body, crlf()) == Some(k)
            &&& chunk_size(body.take(k)) == Some(n)
        }),
{
    lemma_hex_text(n);
    let text = hex_text(n);
    let body = text + crlf() + more;
    let k = text.len() as int;
    assert forall|i: int| 0 <= i < crlf().len() implies body[k + i] == #[trigger] crlf()[i] by {}
    assert(found_at(body, crlf(), k));
    assert forall|j: int| 0 <= j < k implies !#[trigger] found_at(body, crlf(), j) by {
        if found_at(body, crlf(), j) {
            assert(body[j + 0] == crlf()[0]);
            assert(is_hex(text[j]));
        }
    }
    lemma_find_is(body, crlf(), k);
    assert(body.take(k) =~= text);
    lemma_hex_run_is(text, k);
    assert(text.take(k) =~= text);
}

proof fn lemma_zero_chunk(more: Seq<u8>)
    ensures
        chunks_in(hex_text(0) + crlf() + more) == (Chunks {
            data: Seq::empty(),
            ended: occurs(crlf() + more, blank_bytes()),
        }),
{
    let body = hex_text(0) + crlf() + more;
    lemma_size_line(0, more);
    assert(body.skip(hex_text(0).len() as int) =~= crlf() + more);
}

proof fn lemma_two_line_ends()
    ensures
        occurs(crlf() + crlf(), blank_bytes()),
{
    assert(crlf() + crlf() =~= blank_bytes());
    assert(found_at(blank_bytes(), blank_bytes(), 0));
}

proof fn lemma_first_chunk(piece: Seq<u8>, others: Seq<u8>)
    requires
        piece.len() > 0,
    ensures
        chunks_in(hex_text(piece.len()) + crlf() + (piece + crlf() + others)) == (Chunks {
            data: piece + chunks_in(others).data,
            ended: chunks_in(others).ended,
        }),
{
    let more = piece + crlf() + others;
    let body = hex_text(piece.len()) + crlf() + more;
    lemma_size_line(piece.len(), more);
    let k = hex_text(piece.len()).len() as int;
    assert(body.skip(k + 2) =~= more);
    assert(more.take(piece.len() as int) =~= piece);
    assert(more.skip(piece.len() as int + 2) =~= others);
}

/// A body that was cut into chunks, none of them empty, is put together again as it was, and is
/// seen to have come to its end.
pub proof fn law_chunks_are_put_together(pieces: Seq<Seq<u8>>)
    requires
        forall|i: int| 0 <= i < pieces.len() ==> (#[trigger] pieces[i]).len() > 0,
    ensures
        dechunked(chunk_framed(pieces)) == joined(pieces),
        chunks_in(chunk_framed(pieces)).ended,
    decreases pieces.len(),
{
    if pieces.len() == 0 {
        lemma_zero_chunk(crlf());
        lemma_two_line_ends();
    } else {
        let piece = pieces[0];
        let others = chunk_framed(pieces.skip(1));
        assert forall|i: int| 0 <= i < pieces.skip(1).len() implies (
        #[trigger] pieces.skip(1)[i]).len() > 0 by {
            assert(pieces[i + 1].len() > 0);
        }
        law_chunks_are_put_together(pieces.skip(1));
        lemma_first_chunk(piece, others);
        assert(chunk_framed(pieces) =~= hex_text(piece.len()) + crlf() + (piece + crlf()
            + others));
    }
}

/// The size of a chunk is the number that the hexadecimal digits at the beginning of its line
/// write, with letters in either case. What follows a semicolon, a space or a tab is left out.
pub proof fn law_size_of_a_chunk(digits: Seq<u8>, b: u8, more: Seq<u8>)
    requires
        forall|i: int|
            0 <= i < digits.len() ==> 48 <= #[trigger] digits[i] <= 57 || 65 <= digits[i] <= 70
                || 97 <= digits[i] <= 102,
    ensures
        digits.len() == 0 ==> chunk_size(digits) is None,
        digits.len() > 0 ==> chunk_size(digits) == Some(hex_number(digits)),
        digits.len() > 0 && (b == 59 || b == 32 || b == 9) ==> chunk_size(digits + seq![b] + more)
            == Some(hex_number(digits)),
        !(48 <= b <= 57 || 65 <= b <= 70 || 97 <= b <= 102 || b == 59 || b == 32 || b == 9)
            ==> chunk_size(digits + seq![b] + more) is None,
        48 <= b <= 57 ==> hex_number(digits.push(b)) == hex_number(digits) * 16 + (b - 48),
        65 <= b <= 70 ==> hex_number(digits.push(b)) == hex_number(digits) * 16 + (b - 55),
        97 <= b <= 102 ==> hex_number(digits.push(b)) == hex_number(digits) * 16 + (b - 87),
        hex_number(Seq::empty()) == 0,
{
    let n = digits.len() as int;
    let line = digits + seq![b] + more;
    assert forall|i: int| 0 <= i < n implies is_hex(#[trigger] line[i]) by {
        assert(line[i] == digits[i]);
    }
    assert(line[n] == b);
    lemma_hex_run_is(digits, n);
    if !is_hex(b) {
        lemma_hex_run_is(line, n);
    }
    assert(line.take(n) =~= digits);
    assert(digits.take(n) =~= digits);
    assert(digits.push(b).drop_last() =~= digits);
}

/// The first place of `pat` does not move when more follows.
proof fn lemma_find_stays(a: Seq<u8>, b: Seq<u8>, pat: Seq<u8>)
    requires
        find(a, pat) is Some,
    ensures
        find(a + b, pat) == find(a, pat),
        0 <= find(a, pat)->0,
        find(a, pat)->0 + pat.len() <= a.len(),
{
    lemma_find_some(a, pat);
    let i = find(a, pat)->0;
    let c = a + b;
    assert forall|k: int| 0 <= k < pat.len() implies c[i + k] == #[trigger] pat[k] by {
        assert(a[i + k] == pat[k]);
    }
    assert(found_at(c, pat, i));
    assert forall|j: int| 0 <= j < i implies !#[trigger] found_at(c, pat, j) by {
        if found_at(c, pat, j) {
            assert(!found_at(a, pat, j));
            assert forall|k: int| 0 <= k < pat.len() implies a[j + k] == #[trigger] pat[k] by {
                assert(c[j + k] == pat[k]);
            }
        }
    }
    lemma_find_is(c, pat, i);
}

/// What has come of a chunked body gives a beginning of the data that all of it gives, and what
/// follows its end adds nothing.
pub proof fn law_chunks_are_read_as_they_come(a: Seq<u8>, b: Seq<u8>)
    ensures
        dechunked(a).len() <= dechunked(a + b).len(),
        dechunked(a + b).take(dechunked(a).len() as int) == dechunked(a),
        chunks_in(a).ended ==> chunks_in(a + b) == chunks_in(a),
    decreases a.len(),
{
    let all = a + b;
    if find(a, crlf()) is Some {
        lemma_find_stays(a, b, crlf());
        let i = find(a, crlf())->0;
        assert(all.take(i) =~= a.take(i));
        if let Some(n) = chunk_size(a.take(i)) {
            let rest = a.skip(i + 2);
            assert(all.skip(i + 2) =~= rest + b);
            if n == 0 {
                assert(all.skip(i) =~= a.skip(i) + b);
                if occurs(a.skip(i), blank_bytes()) {
                    lemma_find_some(a.skip(i), blank_bytes());
                    lemma_find_stays(a.skip(i), b, blank_bytes());
                    let j = find(a.skip(i), blank_bytes())->0;
                    assert(found_at(a.skip(i), blank_bytes(), j));
                    assert forall|k: int| 0 <= k < blank_bytes().len() implies all.skip(i)[j + k]
                        == #[trigger] blank_bytes()[k] by {
                        assert(a.skip(i)[j + k] == blank_bytes()[k]);
                    }
                    assert(found_at(all.skip(i), blank_bytes(), j));
                }
            } else if rest.len() >= n + 2 {
                let tail = rest.skip(n as int + 2);
                law_chunks_are_read_as_they_come(tail, b);
                assert((rest + b).skip(n as int + 2) =~= tail + b);
                let piece = rest.take(n as int);
                assert((rest + b).take(n as int) =~= piece);
                let some = dechunked(tail).len();
                assert((piece + dechunked(tail + b)).take((n + some) as int) =~= piece + dechunked(
                    tail + b,
                ).take(some as int));
            } else {
                let part = dechunked(a);
                let more = rest + b;
                if more.len() < n + 2 {
                    assert(dechunked(all).take(part.len() as int) =~= part);
                } else {
                    let later = dechunked(more.skip(n as int + 2));
                    assert((more.take(n as int) + later).take(part.len() as int) =~= part);
                }
            }
        }
    }
    assert(dechunked(all).take(0) =~= Seq::empty());
}

/// A chunk of which only a part has come gives that part, and the body has not come to its end.
pub proof fn law_broken_chunk_gives_its_part(n: nat, part: Seq<u8>)
    requires
        part.len() < n,
    ensures
        dechunked(hex_text(n) + seq![13u8, 10] + part) == part,
        !chunks_in(hex_text(n) + seq![13u8, 10] + part).ended,
{
    lemma_size_line(n, part);
    let body = hex_text(n) + crlf() + part;
    assert(body.skip(hex_text(n).len() as int + 2) =~= part);
}

/// A chunked body ends with an empty line behind its last chunk, which has the size zero; header
/// fields may stand before that line. The last chunk gives no data.
pub proof fn law_last_chunk(fields: Seq<u8>, more: Seq<u8>)
    ensures
        chunks_in(seq![48u8, 13, 10] + (fields + seq![13u8, 10, 13, 10] + more)).ended,
        chunks_in(seq![48u8, 13, 10] + (seq![13u8, 10] + more)).ended,
        dechunked(seq![48u8, 13, 10] + more) == Seq::<u8>::empty(),
{
    let tail = fields + seq![13u8, 10, 13, 10] + more;
    lemma_bare_zero_chunk(tail);
    let behind = crlf() + tail;
    let k = 2 + fields.len() as int;
    assert forall|i: int| 0 <= i < blank_bytes().len() implies behind[k + i]
        == #[trigger] blank_bytes()[i] by {}
    assert(found_at(behind, blank_bytes(), k));
    let short = seq![13u8, 10] + more;
    lemma_bare_zero_chunk(short);
    let both = crlf() + short;
    assert forall|i: int| 0 <= i < blank_bytes().len() implies both[0 + i]
        == #[trigger] blank_bytes()[i] by {}
    assert(found_at(both, blank_bytes(), 0));
    lemma_bare_zero_chunk(more);
}

proof fn lemma_bare_zero_chunk(more: Seq<u8>)
    ensures
        chunks_in(seq![48u8, 13, 10] + more) == (Chunks {
            data: Seq::empty(),
            ended: occurs(crlf() + more, blank_bytes()),
        }),
{
    assert(hex_text(0) =~= seq![48u8]);
    lemma_zero_chunk(more);
    assert(hex_text(0) + crlf() + more =~= seq![48u8, 13, 10] + more);
}

/// A body without a line end, or whose last chunk has no empty line behind it, has not come to its
/// end.
pub proof fn law_body_without_an_end(body: Seq<u8>, tail: Seq<u8>)
    requires
        !occurs(body, seq![13u8, 10]),
        tail.len() >= 2 && tail[0] == 13 && tail[1] == 10,
        forall|i: int|
            0 <= i && i + 4 <= tail.len() ==> #[trigger] tail.subrange(i, i + 4) != seq![
                13u8,
                10,
                13,
                10,
            ],
    ensures
        !chunks_in(body).ended,
        dechunked(body) == Seq::<u8>::empty(),
        !chunks_in(seq![48u8] + tail).ended,
{
    let more = tail.skip(2);
    lemma_bare_zero_chunk(more);
    assert(seq![48u8] + tail =~= seq![48u8, 13, 10] + more);
    assert(crlf() + more =~= tail);
    assert forall|i: int| !found_at(tail, blank_bytes(), i) by {
        if found_at(tail, blank_bytes(), i) {
            assert forall|k: int| 0 <= k < 4 implies tail.subrange(i, i + 4)[k]
                == blank_bytes()[k] by {
                assert(tail[i + k] == blank_bytes()[k]);
            }
            assert(tail.subrange(i, i + 4) =~= seq![13u8, 10, 13, 10]);
        }
    }
    assert forall|i: int| !first_at(body, crlf(), i) by {
        assert(!found_at(body, crlf(), i));
    }
}

} // verus!
