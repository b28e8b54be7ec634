//! Requests and responses as the gateway reads and writes them.
use vstd::hash_map::StringHashMap;
use vstd::prelude::*;
use vstd::utf8::encode_utf8;

use crate::bytes::{
    append_all, append_range, bytes_at, copy_range, find_bytes, lower_byte, lower_bytes, lowered,
};
use crate::encoding::{ascii_lower, lower_ascii};
use crate::number::{
    decimal, law_decimal, law_decimal_reads_back, parse_size, push_decimal, size_in,
};
use crate::text::{
    before, chars_of, find, find_chars, found_at, is_space, law_find, law_find_none, law_lines,
    law_split, law_trim, law_words, lemma_find_is, lemma_find_some, lemma_run, lemma_run_is,
    lemma_split_not_empty, lines, lines_of, occurs, run, run_end, same_chars, slice_of,
    split_chars, split_on, string_of, trim, trim_chars, views, words, words_of, Stop,
};

verus! {

/// The request line and the header fields of a request.
pub struct Request {
    pub method: String,
    pub path: String,
    pub version: String,
    pub headers: StringHashMap<String>,
}

/// What a [`Request`] holds.
#[verifier::ext_equal]
pub struct RequestView {
    pub method: Seq<char>,
    pub path: Seq<char>,
    pub version: Seq<char>,
    pub headers: Map<Seq<char>, Seq<char>>,
}

/// The texts that a table of strings holds.
pub open spec fn texts(m: Map<Seq<char>, String>) -> Map<Seq<char>, Seq<char>> {
    Map::new(|k: Seq<char>| m.dom().contains(k), |k: Seq<char>| m[k]@)
}

impl View for Request {
    type V = RequestView;

    open spec fn view(&self) -> RequestView {
        RequestView {
            method: self.method@,
            path: self.path@,
            version: self.version@,
            headers: texts(self.headers@),
        }
    }
}

/// The blank line that ends the header fields.
pub open spec fn blank_line() -> Seq<char> {
    seq!['\r', '\n', '\r', '\n']
}

/// The `i`th of a list of words, empty where the list is shorter.
pub open spec fn word_at(list: Seq<Seq<char>>, i: int) -> Seq<char> {
    if i < list.len() {
        list[i]
    } else {
        Seq::empty()
    }
}

/// The header fields that some lines hold: of each line with a colon, the trimmed text
/// before the first colon names the field and the trimmed text after it is its value.
/// Of two lines that name the same field the later one counts.
pub open spec fn fields(list: Seq<Seq<char>>) -> Map<Seq<char>, Seq<char>>
    decreases list.len(),
{
    if list.len() == 0 {
        Map::empty()
    } else {
        let earlier = fields(list.drop_last());
        let line = list.last();
        let n = run(line, Stop::At(':'));
        if n < line.len() {
            earlier.insert(trim(line.take(n)), trim(line.skip(n + 1)))
        } else {
            earlier
        }
    }
}

/// A list without its first item.
pub open spec fn rest_of(list: Seq<Seq<char>>) -> Seq<Seq<char>> {
    if list.len() == 0 {
        list
    } else {
        list.skip(1)
    }
}

/// The lines of a text that hold header fields: those behind its first line and before the first
/// blank line.
pub open spec fn field_lines(text: Seq<char>) -> Seq<Seq<char>> {
    rest_of(lines(before(text, blank_line())))
}

/// What the text of a request says: the words of its first line, and the fields of the other
/// lines before the first blank line.
pub open spec fn request_in(text: Seq<char>) -> RequestView {
    let parts = words(word_at(lines(text), 0));
    RequestView {
        method: word_at(parts, 0),
        path: word_at(parts, 1),
        version: word_at(parts, 2),
        headers: fields(field_lines(text)),
    }
}

fn word_of(list: &Vec<Vec<char>>, i: usize) -> (r: String)
    ensures
        r@ == word_at(views(list@), i as int),
{
    if i < list.len() {
        string_of(&list[i])
    } else {
        String::new()
    }
}

fn lines_before_blank(chars: &[char]) -> (r: Vec<Vec<char>>)
    ensures
        views(r@) == lines(before(chars@, blank_line())),
{
    let blank: [char; 4] = ['\r', '\n', '\r', '\n'];
    assert(blank@ =~= blank_line());
    let end: usize = match find_chars(chars, &blank) {
        Some(i) => i,
        None => chars.len(),
    };
    let block = slice_of(chars, 0, end);
    assert(block@ =~= before(chars@, blank_line()));
    lines_of(&block)
}

/// A line is the Transfer-Encoding field, its name in any case, and the last coding that it lists
/// is `chunked`.
pub open spec fn is_chunked_line(line: Seq<char>) -> bool {
    let n = run(line, Stop::At(':'));
    &&& n < line.len()
    &&& ascii_lower(trim(line.take(n))) == "transfer-encoding"@
    &&& ascii_lower(trim(split_on(line.skip(n + 1), ',').last())) == "chunked"@
}

/// The text of a request says in its Transfer-Encoding field that the body comes in chunks.
pub open spec fn announces_chunks(text: Seq<char>) -> bool {
    exists|i: int|
        0 <= i < field_lines(text).len() && is_chunked_line(#[trigger] field_lines(text)[i])
}

fn test_chunked_line(line: &Vec<char>) -> (r: bool)
    ensures
        r == is_chunked_line(line@),
{
    assert(line@.skip(0) =~= line@);
    let colon: usize = run_end(line, 0, Stop::At(':'));
    if colon == line.len() {
        return false;
    }
    let name = slice_of(line, 0, colon);
    assert(name@ =~= line@.take(colon as int));
    let value = slice_of(line, colon + 1, line.len());
    assert(value@ =~= line@.skip(colon + 1));
    let codings = split_chars(&value, ',');
    proof {
        lemma_split_not_empty(value@, ',');
        assert(views(codings@).len() == codings@.len());
    }
    let last = &codings[codings.len() - 1];
    assert(last@ == split_on(value@, ',').last());
    same_chars(&lower_ascii(&trim_chars(&name)), &chars_of("transfer-encoding")) && same_chars(
        &lower_ascii(&trim_chars(last)),
        &chars_of("chunked"),
    )
}

/// Tells whether the text of a request says that the body comes in chunks.
pub fn has_chunked_coding(text: &str) -> (r: bool)
    ensures
        r == announces_chunks(text@),
{
    let list = lines_before_blank(&chars_of(text));
    let n: usize = list.len();
    let ghost found = field_lines(text@);
    let mut i: usize = 1;
    while i < n
        invariant
            n == list@.len(),
            1 <= i,
            n > 0 ==> i <= n,
            views(list@) == lines(before(text@, blank_line())),
            found == field_lines(text@),
            forall|k: int|
                0 <= k < i - 1 && k < found.len() ==> !is_chunked_line(#[trigger] found[k]),
        decreases n - i,
    {
        assert(found[i - 1] == list@[i as int]@);
        if test_chunked_line(&list[i]) {
            return true;
        }
        i += 1;
    }
    false
}

/// Reads a request. What is missing comes out empty.
pub fn parse_request(request: &str) -> (r: Request)
    ensures
        r@ == request_in(request@),
{
    let chars = chars_of(request);
    let all = lines_of(&chars);
    let first = if all.len() > 0 {
        slice_of(&all[0], 0, all[0].len())
    } else {
        Vec::new()
    };
    assert(first@ =~= word_at(lines(request@), 0));
    let parts = words_of(&first);

    let list = lines_before_blank(&chars);
    let ghost all_fields = rest_of(views(list@));

    let mut headers: StringHashMap<String> = StringHashMap::new();
    let n: usize = list.len();
    let mut i: usize = 1;
    assert(texts(headers@) =~= Map::empty());
    assert(n > 0 ==> all_fields.take(0) =~= Seq::empty());
    while i < n
        invariant
            n == list@.len(),
            1 <= i,
            n > 0 ==> i <= n,
            n == 0 ==> i == 1,
            all_fields == rest_of(views(list@)),
            n > 0 ==> texts(headers@) == fields(all_fields.take(i - 1)),
            n == 0 ==> texts(headers@) == Map::<Seq<char>, Seq<char>>::empty(),
        decreases n - i,
    {
        let line = &list[i];
        let ghost seen = all_fields.take(i as int);
        assert(seen.drop_last() =~= all_fields.take(i - 1));
        assert(seen.last() == line@);
        assert(line@.skip(0) =~= line@);
        let colon: usize = run_end(line, 0, Stop::At(':'));
        if colon < line.len() {
            let name = slice_of(line, 0, colon);
            assert(name@ =~= line@.take(colon as int));
            let value = slice_of(line, colon + 1, line.len());
            assert(value@ =~= line@.skip(colon + 1));
            let key = string_of(&trim_chars(&name));
            let val = string_of(&trim_chars(&value));
            let ghost earlier = headers@;
            headers.insert(key, val);
            assert(texts(headers@) =~= texts(earlier).insert(key@, val@));
        }
        i += 1;
    }
    assert(n > 0 ==> all_fields.take(n - 1) =~= all_fields);
    Request {
        method: word_of(&parts, 0),
        path: word_of(&parts, 1),
        version: word_of(&parts, 2),
        headers,
    }
}

impl Request {
    /// The value of a header field.
    pub fn header(&self, name: &str) -> (r: Option<String>)
        ensures
            match r {
                Some(v) => self@.headers.contains_key(name@) && v@ == self@.headers[name@],
                None => !self@.headers.contains_key(name@),
            },
    {
        match self.headers.get(name) {
            Some(v) => Some(v.clone()),
            None => None,
        }
    }
}

/// The value of a header field of a request, if it has the field.
pub open spec fn field(req: RequestView, name: Seq<char>) -> Option<Seq<char>> {
    if req.headers.contains_key(name) {
        Some(req.headers[name])
    } else {
        None
    }
}

/// The API key that a request presents.
pub fn authenticate(req: &Request) -> (r: Option<String>)
    ensures
        r is Some <==> field(req@, "X-API-Key"@) is Some,
        r is Some ==> Some(r->0@) == field(req@, "X-API-Key"@),
{
    req.header("X-API-Key")
}

/// The body length that a request announces: none is zero, and so is one that is not a number.
pub open spec fn announced_length(req: RequestView) -> usize {
    match field(req, "Content-Length"@) {
        Some(v) => match size_in(v) {
            Some(n) => n,
            None => 0,
        },
        None => 0,
    }
}

/// The body length that a request announces.
pub fn content_length(req: &Request) -> (r: usize)
    ensures
        r == announced_length(req@),
{
    match req.header("Content-Length") {
        Some(v) => match parse_size(v.as_str()) {
            Some(n) => n,
            None => 0,
        },
        None => 0,
    }
}

/// The bytes of the blank line that ends the header fields.
pub open spec fn blank_bytes() -> Seq<u8> {
    seq![13u8, 10, 13, 10]
}

/// The index just past the first blank line of a buffer, if it holds one.
pub open spec fn body_start(buffer: Seq<u8>) -> Option<int> {
    match find(buffer, blank_bytes()) {
        Some(i) => Some(i + 4),
        None => None,
    }
}

/// The index just past the first blank line of a buffer.
pub fn find_body(buffer: &[u8]) -> (r: Option<usize>)
    ensures
        match r {
            Some(i) => body_start(buffer@) == Some(i as int) && 4 <= i <= buffer@.len(),
            None => body_start(buffer@) is None,
        },
{
    let blank: [u8; 4] = [13, 10, 13, 10];
    assert(blank@ =~= blank_bytes());
    let size: usize = buffer.len();
    assert(size == buffer@.len());
    match find_bytes(buffer, &blank) {
        Some(i) => Some(i + 4),
        None => None,
    }
}

/// Where the body of a buffer can begin, and when it does.
pub proof fn lemma_body_start(buffer: Seq<u8>)
    ensures
        body_start(buffer) matches Some(i) ==> 4 <= i <= buffer.len(),
        body_start(buffer) is Some <==> occurs(buffer, blank_bytes()),
{
    if occurs(buffer, blank_bytes()) {
        lemma_find_some(buffer, blank_bytes());
    }
}

/// The header bytes of a buffer: those up to the blank line and the blank line itself, or all
/// bytes where there is none.
pub open spec fn head_of(buffer: Seq<u8>) -> Seq<u8> {
    match body_start(buffer) {
        Some(n) => buffer.take(n),
        None => buffer,
    }
}

/// The header bytes of a buffer.
pub fn head_bytes(buffer: &[u8]) -> (r: Vec<u8>)
    ensures
        r@ == head_of(buffer@),
{
    let end: usize = match find_body(buffer) {
        Some(n) => n,
        None => buffer.len(),
    };
    let head = copy_range(buffer, 0, end);
    assert(head@ =~= head_of(buffer@));
    head
}

/// The body bytes of a buffer: those behind the blank line, or none where there is none.
pub open spec fn body_of(buffer: Seq<u8>) -> Seq<u8> {
    match body_start(buffer) {
        Some(n) => buffer.skip(n),
        None => Seq::empty(),
    }
}

/// The body bytes of a buffer.
pub fn body_bytes(buffer: &[u8]) -> (r: Vec<u8>)
    ensures
        r@ == body_of(buffer@),
{
    let start: usize = match find_body(buffer) {
        Some(n) => n,
        None => buffer.len(),
    };
    let body = copy_range(buffer, start, buffer.len());
    assert(body@ =~= body_of(buffer@));
    body
}

/// More bytes do not move the end of a header.
pub proof fn lemma_body_start_stays(a: Seq<u8>, b: Seq<u8>)
    requires
        body_start(a) is Some,
    ensures
        body_start(a + b) == body_start(a),
        head_of(a + b) == head_of(a),
        body_of(a + b) == body_of(a) + b,
{
    let pat = blank_bytes();
    lemma_body_start(a);
    lemma_find_some(a, pat);
    let i = find(a, pat)->0;
    let c = a + b;
    assert forall|k: int| 0 <= k < pat.len() implies c[i + k] == #[trigger] pat[k] by {
        assert(a[i + k] == pat[k]);
    }
    assert(found_at(c, pat, i));
    assert forall|j: int| 0 <= j < i implies !#[trigger] found_at(c, pat, j) by {
        if found_at(c, pat, j) {
            assert(!found_at(a, pat, j));
            assert forall|k: int| 0 <= k < pat.len() implies a[j + k] == #[trigger] pat[k] by {
                assert(c[j + k] == pat[k]);
            }
        }
    }
    lemma_find_is(c, pat, i);
    assert(c.take(i + 4) =~= a.take(i + 4));
    assert(c.skip(i + 4) =~= a.skip(i + 4) + b);
}

/// `Host: ` and the name of a host, as bytes.
pub open spec fn host_line(host: Seq<char>) -> Seq<u8> {
    encode_utf8("Host: "@ + host)
}

/// The name of the field that gives the host, in lower case, up to its value.
pub open spec fn host_name() -> Seq<u8> {
    seq![104u8, 111, 115, 116, 58, 32]
}

/// A line of `head` begins at `p`.
pub open spec fn starts_line(head: Seq<u8>, p: int) -> bool {
    &&& 0 <= p < head.len()
    &&& p == 0 || head[p - 1] == 10
}

/// The end of the line of `head` that `p` lies in, without the line feed and without a carriage
/// return before it.
pub open spec fn line_end(head: Seq<u8>, p: int) -> int {
    match find(head.skip(p), seq![10u8]) {
        Some(e) => if e > 0 && head[p + e - 1] == 13 {
            p + e - 1
        } else {
            p + e
        },
        None => head.len() as int,
    }
}

/// A line of `head` that gives the host, its name in any case, begins at `p`.
pub open spec fn host_at(head: Seq<u8>, p: int) -> bool {
    starts_line(head, p) && found_at(lower_bytes(head), host_name(), p)
}

/// The first line of `head` that gives the host begins at `p`.
pub open spec fn first_host_at(head: Seq<u8>, p: int) -> bool {
    &&& host_at(head, p)
    &&& forall|j: int| 0 <= j < p ==> !#[trigger] host_at(head, j)
}

/// Where the first line of `head` that gives the host begins, if there is one.
pub open spec fn host_place(head: Seq<u8>) -> Option<int> {
    if exists|p: int| first_host_at(head, p) {
        Some(choose|p: int| first_host_at(head, p))
    } else {
        None
    }
}

/// Some header bytes with the first line that gives the host replaced by one that names the given
/// host.
pub open spec fn with_host(head: Seq<u8>, host: Seq<char>) -> Seq<u8> {
    match host_place(head) {
        Some(p) => head.take(p) + host_line(host) + head.skip(line_end(head, p)),
        None => head,
    }
}

/// The header bytes that go upstream for a buffer: those up to the blank line, for the given
/// host. A buffer without a blank line goes as it is.
pub open spec fn upstream_head(buffer: Seq<u8>, host: Seq<char>) -> Seq<u8> {
    match body_start(buffer) {
        Some(n) => with_host(buffer.take(n), host),
        None => buffer,
    }
}

fn find_host(head: &[u8]) -> (r: Option<usize>)
    ensures
        match r {
            Some(p) => host_place(head@) == Some(p as int) && first_host_at(head@, p as int) && p
                < head@.len(),
            None => host_place(head@) is None,
        },
{
    let name: [u8; 6] = [104, 111, 115, 116, 58, 32];
    assert(name@ =~= host_name());
    let low = lowered(head);
    let size: usize = head.len();
    let mut i: usize = 0;
    while i < size && 6 <= size - i
        invariant
            i <= size,
            size == head@.len(),
            size == low@.len(),
            low@ == lower_bytes(head@),
            name@ == host_name(),
            forall|j: int| 0 <= j < i ==> !#[trigger] host_at(head@, j),
        decreases size - i,
    {
        if (i == 0 || head[i - 1] == 10) && bytes_at(&low, &name, i) {
            proof {
                assert(first_host_at(head@, i as int));
                let c = choose|c: int| first_host_at(head@, c);
                if c < i {
                    assert(!host_at(head@, c));
                }
                if i < c {
                    assert(!host_at(head@, i as int));
                }
            }
            return Some(i);
        }
        i += 1;
    }
    assert forall|p: int| !first_host_at(head@, p) by {
        if first_host_at(head@, p) {
            assert(host_at(head@, p));
            assert(p + 6 <= size);
            assert(p < i);
        }
    }
    None
}

fn find_line_end(head: &[u8], p: usize) -> (r: usize)
    requires
        p < head@.len(),
    ensures
        r == line_end(head@, p as int),
        p <= r <= head@.len(),
{
    let tail = copy_range(head, p, head.len());
    assert(tail@ =~= head@.skip(p as int));
    let feed: [u8; 1] = [10];
    assert(feed@ =~= seq![10u8]);
    match find_bytes(&tail, &feed) {
        Some(e) => if e > 0 && head[p + e - 1] == 13 {
            p + e - 1
        } else {
            p + e
        },
        None => head.len(),
    }
}

/// The header bytes that go upstream, addressed to `host`.
pub fn rewrite_host(buffer: &[u8], host: &str) -> (r: Vec<u8>)
    ensures
        r@ == upstream_head(buffer@, host@),
{
    let head = head_bytes(buffer);
    if find_body(buffer).is_none() {
        return head;
    }
    match find_host(&head) {
        Some(p) => {
            let q: usize = find_line_end(&head, p);
            let mut out = copy_range(&head, 0, p);
            assert(out@ =~= head@.take(p as int));
            let mut line = String::from_str("Host: ");
            line.append(host);
            append_all(&mut out, line.as_str().as_bytes());
            append_range(&mut out, &head, q, head.len());
            assert(head@.subrange(q as int, head@.len() as int) =~= head@.skip(q as int));
            out
        },
        None => head,
    }
}

/// A response with a content type.
pub open spec fn typed_response(kind: Seq<char>, body: Seq<char>) -> Seq<char> {
    "HTTP/1.1 200 OK\r\nContent-Type: "@ + kind + "\r\nContent-Length: "@ + decimal(
        encode_utf8(body).len(),
    ) + "\r\n\r\n"@ + body
}

/// A response of which only the status and the body are given.
pub open spec fn bare_response(status: Seq<char>, body: Seq<char>) -> Seq<char> {
    "HTTP/1.1 "@ + status + "\r\nContent-Length: "@ + decimal(encode_utf8(body).len())
        + "\r\n\r\n"@ + body
}

/// A response that names the request it answers and the time it took.
pub open spec fn traced_response(
    status: Seq<char>,
    body: Seq<char>,
    request_id: Seq<char>,
    millis: nat,
) -> Seq<char> {
    "HTTP/1.1 "@ + status + "\r\nX-Request-ID: "@ + request_id + "\r\nX-Response-Time: "@
        + decimal(millis) + "ms\r\nContent-Length: "@ + decimal(encode_utf8(body).len())
        + "\r\n\r\n"@ + body
}

/// Writes a successful response of the given content type.
pub fn ok_response(kind: &str, body: &str) -> (r: String)
    ensures
        r@ == typed_response(kind@, body@),
{
    let mut out = String::from_str("HTTP/1.1 200 OK\r\nContent-Type: ");
    out.append(kind);
    out.append("\r\nContent-Length: ");
    push_decimal(&mut out, body.as_bytes().len() as u128);
    out.append("\r\n\r\n");
    out.append(body);
    out
}

/// Writes a response with no header field but the length.
pub fn plain_response(status: &str, body: &str) -> (r: String)
    ensures
        r@ == bare_response(status@, body@),
{
    let mut out = String::from_str("HTTP/1.1 ");
    out.append(status);
    out.append("\r\nContent-Length: ");
    push_decimal(&mut out, body.as_bytes().len() as u128);
    out.append("\r\n\r\n");
    out.append(body);
    out
}

/// Writes the response that [`traced_response`] describes.
pub fn format_response(status: &str, body: &str, request_id: &str, millis: u128) -> (r: String)
    ensures
        r@ == traced_response(status@, body@, request_id@, millis as nat),
{
    let mut out = String::from_str("HTTP/1.1 ");
    out.append(status);
    out.append("\r\nX-Request-ID: ");
    out.append(request_id);
    out.append("\r\nX-Response-Time: ");
    push_decimal(&mut out, millis);
    out.append("ms\r\nContent-Length: ");
    push_decimal(&mut out, body.as_bytes().len() as u128);
    out.append("\r\n\r\n");
    out.append(body);
    out
}

/// The line feed that ends the line at `p` is the first one from there.
proof fn lemma_line_end(head: Seq<u8>, p: int, f: int)
    requires
        0 <= p <= f < head.len(),
        head[f] == 10,
    ensures
        p <= line_end(head, p) <= f,
        forall|i: int| p <= i < line_end(head, p) ==> #[trigger] head[i] != 10,
{
    let tail = head.skip(p);
    let feed = seq![10u8];
    assert(found_at(tail, feed, f - p));
    lemma_find_some(tail, feed);
    let e = find(tail, feed)->0;
    assert(tail[e + 0] == feed[0]);
    if f - p < e {
        assert(!found_at(tail, feed, f - p));
    }
    assert forall|i: int| p <= i < line_end(head, p) implies #[trigger] head[i] != 10 by {
        if head[i] == 10 {
            assert(tail[i - p] == 10);
            assert(found_at(tail, feed, i - p));
        }
    }
}

/// Where a line of `head` that begins at `a` begins in the same header bytes for another host.
pub open spec fn moved(head: Seq<u8>, host: Seq<char>, a: int) -> int {
    match host_place(head) {
        Some(p) => if a <= p {
            a
        } else {
            a + host_line(host).len() - (line_end(head, p) - p)
        },
        None => a,
    }
}

/// Only the host is rewritten: of the header bytes that go upstream, the line that gives the host
/// names the upstream host, and every other line is the one that came in, in its place.
pub proof fn law_only_host_changes(buffer: Seq<u8>, host: Seq<char>, a: int)
    requires
        body_start(buffer) is Some,
        starts_line(head_of(buffer), a),
    ensures
        ({
            let head = head_of(buffer);
            let sent = upstream_head(buffer, host);
            let b = line_end(head, a);
            let at = moved(head, host, a);
            if host_place(head) == Some(a) {
                sent.subrange(a, a + host_line(host).len()) == host_line(host)
            } else {
                &&& a <= b <= head.len()
                &&& 0 <= at
                &&& at + (b - a) <= sent.len()
                &&& sent.subrange(at, at + (b - a)) == head.subrange(a, b)
            }
        }),
{
    lemma_body_start(buffer);
    let n = body_start(buffer)->0;
    let head = buffer.take(n);
    let sent = upstream_head(buffer, host);
    lemma_find_some(buffer, blank_bytes());
    assert(buffer[n - 4 + 3] == blank_bytes()[3]);
    assert(head[n - 1] == 10);
    lemma_line_end(head, a, n - 1);
    match host_place(head) {
        Some(p) => {
            lemma_line_end(head, p, n - 1);
            let q = line_end(head, p);
            let line = host_line(host);
            if a == p {
                assert(sent.subrange(a, a + line.len()) =~= line);
            } else if a < p {
                assert(head[p - 1] == 10);
                lemma_line_end(head, a, p - 1);
                let b = line_end(head, a);
                assert(sent.subrange(a, b) =~= head.subrange(a, b));
            } else {
                assert(head[a - 1] == 10);
                lemma_line_end(head, p, a - 1);
                let b = line_end(head, a);
                let at = moved(head, host, a);
                assert(sent.len() == p + line.len() + (n - q));
                assert(sent.subrange(at, at + (b - a)) =~= head.subrange(a, b));
            }
        },
        None => {},
    }
}

/// Header bytes with a line that gives the host go upstream with the upstream host in it, and
/// header bytes without one go as they are.
pub proof fn law_host_is_rewritten(buffer: Seq<u8>, host: Seq<char>)
    requires
        body_start(buffer) is Some,
    ensures
        ({
            let head = head_of(buffer);
            if exists|p: int| host_at(head, p) {
                host_place(head) is Some && host_at(head, host_place(head)->0)
            } else {
                upstream_head(buffer, host) == head
            }
        }),
{
    let head = head_of(buffer);
    if exists|p: int| host_at(head, p) {
        let w = choose|p: int| host_at(head, p);
        lemma_first_host(head, w);
    } else {
        assert forall|p: int| !first_host_at(head, p) by {
            assert(!host_at(head, p));
        }
    }
}

proof fn lemma_first_host(head: Seq<u8>, w: int)
    requires
        host_at(head, w),
    ensures
        exists|p: int| first_host_at(head, p),
    decreases w,
{
    if exists|j: int| 0 <= j < w && #[trigger] host_at(head, j) {
        let j = choose|j: int| 0 <= j < w && #[trigger] host_at(head, j);
        lemma_first_host(head, j);
    } else {
        assert(first_host_at(head, w));
    }
}

/// Some lines, each with a carriage return and a line feed behind it.
pub open spec fn ended_lines(list: Seq<Seq<char>>) -> Seq<char>
    decreases list.len(),
{
    if list.len() == 0 {
        Seq::empty()
    } else {
        list[0] + seq!['\r', '\n'] + ended_lines(list.skip(1))
    }
}

/// A line of a header: it is not empty and holds no line end.
pub open spec fn is_header_line(line: Seq<char>) -> bool {
    &&& line.len() > 0
    &&& !line.contains('\r')
    &&& !line.contains('\n')
}

proof fn lemma_blank_behind(line: Seq<char>, body: Seq<char>)
    requires
        is_header_line(line),
    ensures
        before(line + seq!['\r', '\n'] + (seq!['\r', '\n'] + body), blank_line()) == line,
{
    let s = line + seq!['\r', '\n'] + (seq!['\r', '\n'] + body);
    let n = line.len() as int;
    let pat = blank_line();
    assert forall|k: int| 0 <= k < pat.len() implies s[n + k] == #[trigger] pat[k] by {}
    assert(found_at(s, pat, n));
    assert forall|j: int| 0 <= j < n implies !#[trigger] found_at(s, pat, j) by {
        if found_at(s, pat, j) {
            assert(s[j + 0] == pat[0]);
            assert(line.contains(line[j]));
        }
    }
    lemma_find_is(s, pat, n);
    assert(s.take(n) =~= line);
}

proof fn lemma_blank_beyond(line: Seq<char>, rest: Seq<char>)
    requires
        is_header_line(line),
        rest.len() > 0,
        rest[0] != '\r',
        occurs(rest, blank_line()),
    ensures
        occurs(line + seq!['\r', '\n'] + rest, blank_line()),
        before(line + seq!['\r', '\n'] + rest, blank_line()) == line + seq!['\r', '\n'] + before(
            rest,
            blank_line(),
        ),
{
    let s = line + seq!['\r', '\n'] + rest;
    let n = line.len() as int + 2;
    let pat = blank_line();
    lemma_find_some(rest, pat);
    let i = find(rest, pat)->0;
    assert forall|k: int| 0 <= k < pat.len() implies s[n + i + k] == #[trigger] pat[k] by {
        assert(rest[i + k] == pat[k]);
    }
    assert(found_at(s, pat, n + i));
    assert forall|j: int| 0 <= j < n + i implies !#[trigger] found_at(s, pat, j) by {
        if found_at(s, pat, j) {
            if j < n - 2 {
                assert(s[j + 0] == pat[0]);
                assert(line.contains(line[j]));
            } else if j == n - 2 {
                assert(s[j + 2] == pat[2]);
                assert(s[n] == rest[0]);
            } else if j == n - 1 {
                assert(s[j + 0] == pat[0]);
            } else {
                assert(!found_at(rest, pat, j - n));
                assert forall|k: int| 0 <= k < pat.len() implies rest[j - n + k]
                    == #[trigger] pat[k] by {
                    assert(s[j + k] == pat[k]);
                }
            }
        }
    }
    lemma_find_is(s, pat, n + i);
    assert(s.take(n + i) =~= line + seq!['\r', '\n'] + rest.take(i));
}

proof fn lemma_lines_before_blank(list: Seq<Seq<char>>, body: Seq<char>)
    requires
        list.len() > 0,
        forall|i: int| 0 <= i < list.len() ==> is_header_line(#[trigger] list[i]),
    ensures
        occurs(ended_lines(list) + (seq!['\r', '\n'] + body), blank_line()),
        lines(before(ended_lines(list) + (seq!['\r', '\n'] + body), blank_line())) == list,
    decreases list.len(),
{
    let tail = seq!['\r', '\n'] + body;
    let line = list[0];
    let more = list.skip(1);
    let text = ended_lines(list) + tail;
    assert(is_header_line(line));
    if list.len() == 1 {
        assert(more =~= Seq::empty());
        assert(ended_lines(more) =~= Seq::empty());
        assert(text =~= line + seq!['\r', '\n'] + tail);
        lemma_blank_behind(line, body);
        let n = line.len() as int;
        let pat = blank_line();
        assert forall|k: int| 0 <= k < pat.len() implies text[n + k] == #[trigger] pat[k] by {}
        assert(found_at(text, pat, n));
        law_lines(line, body);
        assert(list =~= seq![line]);
    } else {
        assert forall|i: int| 0 <= i < more.len() implies is_header_line(#[trigger] more[i]) by {
            assert(more[i] == list[i + 1]);
        }
        lemma_lines_before_blank(more, body);
        let rest = ended_lines(more) + tail;
        assert(is_header_line(more[0]));
        assert(rest[0] == more[0][0]);
        assert(more[0].contains(more[0][0]));
        assert(text =~= line + seq!['\r', '\n'] + rest);
        lemma_blank_beyond(line, rest);
        law_lines(line, before(rest, blank_line()));
        assert(list =~= seq![line] + more);
    }
}

/// A request that was written is read as it was written: the words of its first line, and the
/// fields of the lines that follow, up to the empty line. What stands in the body makes no
/// difference.
pub proof fn law_request_reads_back(
    method: Seq<char>,
    path: Seq<char>,
    version: Seq<char>,
    list: Seq<Seq<char>>,
    body: Seq<char>,
)
    requires
        method.len() > 0 && path.len() > 0 && version.len() > 0,
        forall|i: int| 0 <= i < method.len() ==> !is_space(#[trigger] method[i]),
        forall|i: int| 0 <= i < path.len() ==> !is_space(#[trigger] path[i]),
        forall|i: int| 0 <= i < version.len() ==> !is_space(#[trigger] version[i]),
        forall|i: int| 0 <= i < list.len() ==> is_header_line(#[trigger] list[i]),
    ensures
        ({
            let first = method + seq![' '] + path + seq![' '] + version;
            let text = first + seq!['\r', '\n'] + ended_lines(list) + (seq!['\r', '\n'] + body);
            let req = request_in(text);
            &&& req.method == method
            &&& req.path == path
            &&& req.version == version
            &&& req.headers == fields(list)
            &&& field_lines(text) == list
        }),
{
    let first = method + seq![' '] + path + seq![' '] + version;
    let tail = seq!['\r', '\n'] + body;
    let text = first + seq!['\r', '\n'] + ended_lines(list) + tail;
    assert forall|i: int| 0 <= i < first.len() implies first[i] != '\r' && first[i] != '\n' by {
        if i < method.len() {
            assert(!is_space(method[i]));
        } else if i == method.len() {
        } else if i < method.len() + 1 + path.len() {
            assert(!is_space(path[i - method.len() - 1]));
        } else if i == method.len() + 1 + path.len() {
        } else {
            assert(!is_space(version[i - method.len() - path.len() - 2]));
        }
    }
    assert(is_header_line(first));
    let all = seq![first] + list;
    assert forall|i: int| 0 <= i < all.len() implies is_header_line(#[trigger] all[i]) by {
        if i > 0 {
            assert(all[i] == list[i - 1]);
        }
    }
    lemma_lines_before_blank(all, body);
    assert(all.skip(1) =~= list);
    assert(ended_lines(all) == first + seq!['\r', '\n'] + ended_lines(list));
    assert(rest_of(all) =~= list);
    law_lines(first, ended_lines(list) + tail);
    assert(text =~= first + seq!['\r', '\n'] + (ended_lines(list) + tail));
    assert(lines(text)[0] == first);
    let start = method + seq![' '] + path;
    law_words(method, ' ', path);
    law_words(path, ' ', path);
    law_words(start, ' ', version);
    law_words(version, ' ', path);
    assert(words(first) =~= seq![method, path, version]);
}

/// A line with a colon is a field: its name stands before the first colon and its value behind it,
/// without the white space around them. It counts over a line before it with the same name. A line
/// without a colon is none.
pub proof fn law_fields(list: Seq<Seq<char>>, name: Seq<char>, value: Seq<char>)
    requires
        !name.contains(':'),
    ensures
        fields(list.push(name + seq![':'] + value)) == fields(list).insert(trim(name), trim(value)),
        fields(list.push(name)) == fields(list),
        fields(Seq::empty()) == Map::<Seq<char>, Seq<char>>::empty(),
{
    let line = name + seq![':'] + value;
    let n = name.len() as int;
    assert forall|i: int| 0 <= i < n implies name[i] != ':' by {
        assert(name.contains(name[i]));
    }
    assert forall|i: int| 0 <= i < n implies !Stop::At(':').hit(#[trigger] line[i]) by {
        assert(line[i] == name[i]);
    }
    assert(line[n] == ':');
    lemma_run_is(line, Stop::At(':'), n);
    lemma_run_is(name, Stop::At(':'), n);
    assert(line.take(n) =~= name);
    assert(line.skip(n + 1) =~= value);
    assert(list.push(line).drop_last() =~= list);
    assert(list.push(name).drop_last() =~= list);
}

/// The body length that a request announces is the one that it writes in its last field
/// `Content-Length`; a request whose fields hold none, or no number there, announces none.
pub proof fn law_announced_length(req: RequestView, list: Seq<Seq<char>>, n: usize)
    requires
        req.headers == fields(list.push("Content-Length: "@ + decimal(n as nat))),
    ensures
        announced_length(req) == n,
        forall|other: RequestView|
            !other.headers.contains_key("Content-Length"@) ==> #[trigger] announced_length(other)
                == 0,
        forall|other: RequestView|
            other.headers.contains_key("Content-Length"@) ==> #[trigger] announced_length(other)
                == (match size_in(other.headers["Content-Length"@]) {
                Some(size) => size,
                None => 0usize,
            }),
{
    reveal_strlit("Content-Length: ");
    reveal_strlit("Content-Length");
    let name = "Content-Length"@;
    let text = decimal(n as nat);
    let value = seq![' '] + text;
    assert("Content-Length: "@ + text =~= name + seq![':'] + value);
    law_fields(list, name, value);
    law_decimal(n as nat);
    law_decimal_reads_back(n);
    let none = Seq::<char>::empty();
    assert(!is_space(text[0]));
    assert(!is_space(text[text.len() - 1]));
    law_trim(seq![' '], text, none);
    assert(seq![' '] + text + none =~= value);
    law_trim(none, name, none);
    assert(none + name + none =~= name);
}

/// A request says that its body comes in chunks by the last coding of a field Transfer-Encoding,
/// whatever the case of their letters and whatever other fields it has, and by nothing else.
pub proof fn law_chunks_are_announced_by_a_field(
    text: Seq<char>,
    name: Seq<char>,
    codings: Seq<char>,
    last: Seq<char>,
    i: int,
)
    requires
        0 <= i < field_lines(text).len(),
        !name.contains(':'),
        !last.contains(','),
        field_lines(text)[i] == name + seq![':'] + last || field_lines(text)[i] == name + seq![':']
            + (codings + seq![','] + last),
    ensures
        ({
            let says_so = ascii_lower(trim(name)) == "transfer-encoding"@ && ascii_lower(trim(last))
                == "chunked"@;
            &&& is_chunked_line(field_lines(text)[i]) <==> says_so
            &&& says_so ==> announces_chunks(text)
            &&& !says_so && (forall|j: int|
                0 <= j < field_lines(text).len() && j != i ==> !is_chunked_line(
                    #[trigger] field_lines(text)[j],
                )) ==> !announces_chunks(text)
        }),
        forall|line: Seq<char>| !line.contains(':') ==> !#[trigger] is_chunked_line(line),
{
    let list = field_lines(text);
    let line = list[i];
    let n = name.len() as int;
    assert forall|k: int| 0 <= k < n implies !Stop::At(':').hit(#[trigger] line[k]) by {
        assert(line[k] == name[k]);
        assert(name.contains(name[k]));
    }
    assert(line[n] == ':');
    lemma_run_is(line, Stop::At(':'), n);
    assert(line.take(n) =~= name);
    law_split(last, ',', last);
    law_split(codings, ',', last);
    let value = line.skip(n + 1);
    if line == name + seq![':'] + last {
        assert(value =~= last);
    } else {
        assert(value =~= codings + seq![','] + last);
    }
    assert(split_on(value, ',').last() == last);
    assert forall|other: Seq<char>| !other.contains(':') implies !#[trigger] is_chunked_line(
        other,
    ) by {
        lemma_run(other, Stop::At(':'));
        let k = run(other, Stop::At(':'));
        if k < other.len() {
            assert(other.contains(other[k]));
        }
    }
}

/// The header of a buffer is what stands up to its first empty line, with that, and the body all
/// that follows.
pub proof fn law_header_and_body(head: Seq<u8>, body: Seq<u8>)
    requires
        head.len() >= 4,
        head.subrange(head.len() - 4, head.len() as int) == seq![13u8, 10, 13, 10],
        forall|j: int|
            0 <= j < head.len() - 4 ==> #[trigger] head.subrange(j, j + 4) != seq![
                13u8,
                10,
                13,
                10,
            ],
    ensures
        body_start(head + body) == Some(head.len() as int),
        head_of(head + body) == head,
        body_of(head + body) == body,
{
    let s = head + body;
    let pat = blank_bytes();
    let n = head.len() - 4;
    assert(s.subrange(n, n + 4) =~= head.subrange(n, n + 4));
    law_find(s, pat, n);
    let i = find(s, pat)->0;
    if i < n {
        assert(s.subrange(i, i + 4) =~= head.subrange(i, i + 4));
    }
    assert(s.take(n + 4) =~= head);
    assert(s.skip(n + 4) =~= body);
}

/// A buffer without an empty line is all header.
pub proof fn law_header_alone(buffer: Seq<u8>)
    requires
        forall|j: int|
            0 <= j && j + 4 <= buffer.len() ==> #[trigger] buffer.subrange(j, j + 4) != seq![
                13u8,
                10,
                13,
                10,
            ],
    ensures
        body_start(buffer) is None,
        head_of(buffer) == buffer,
        body_of(buffer) == Seq::<u8>::empty(),
{
    law_find_none(buffer, blank_bytes());
}

/// No line of `head` that begins before `end` gives the host.
pub open spec fn no_host_before(head: Seq<u8>, end: int) -> bool {
    forall|p: int|
        0 <= p < end && p + 6 <= head.len() && (p == 0 || head[p - 1] == 10) ==> lower_bytes(
            #[trigger] head.subrange(p, p + 6),
        ) != seq![104u8, 111, 115, 116, 58, 32]
}

proof fn lemma_host_at(head: Seq<u8>, p: int)
    ensures
        host_at(head, p) <==> 0 <= p && p + 6 <= head.len() && (p == 0 || head[p - 1] == 10)
            && lower_bytes(head.subrange(p, p + 6)) == seq![104u8, 111, 115, 116, 58, 32],
{
    let low = lower_bytes(head);
    let name = host_name();
    assert(name =~= seq![104u8, 111, 115, 116, 58, 32]);
    if host_at(head, p) {
        let part = lower_bytes(head.subrange(p, p + 6));
        assert forall|k: int| 0 <= k < 6 implies part[k] == name[k] by {
            assert(low[p + k] == name[k]);
        }
        assert(part =~= name);
    }
    if 0 <= p && p + 6 <= head.len() && lower_bytes(head.subrange(p, p + 6)) == name {
        let part = lower_bytes(head.subrange(p, p + 6));
        assert forall|k: int| 0 <= k < name.len() implies low[p + k] == #[trigger] name[k] by {
            assert(part[k] == name[k]);
        }
    }
}

/// The first line that gives the host, its name in any case, is replaced by one that names the
/// upstream host, up to its line end; all before and behind it stays byte for byte.
pub proof fn law_host_line_is_replaced(
    front: Seq<u8>,
    name: Seq<u8>,
    value: Seq<u8>,
    end: Seq<u8>,
    back: Seq<u8>,
    host: Seq<char>,
)
    requires
        front.len() == 0 || front.last() == 10,
        name.len() == 6,
        lower_bytes(name) == seq![104u8, 111, 115, 116, 58, 32],
        !value.contains(10u8),
        value.len() > 0 ==> value.last() != 13,
        end == seq![13u8, 10] || end == seq![10u8],
        no_host_before(front + name + value + end + back, front.len() as int),
    ensures
        with_host(front + name + value + end + back, host) == front + encode_utf8("Host: "@ + host)
            + end + back,
{
    let head = front + name + value + end + back;
    let p = front.len() as int;
    let q = p + 6 + value.len();
    assert(head.subrange(p, p + 6) =~= name);
    lemma_host_at(head, p);
    assert forall|j: int| 0 <= j < p implies !#[trigger] host_at(head, j) by {
        lemma_host_at(head, j);
    }
    assert(first_host_at(head, p));
    let c = choose|c: int| first_host_at(head, c);
    if c < p {
        assert(!host_at(head, c));
    }
    if p < c {
        assert(!host_at(head, p));
    }
    let feed = q + end.len() - 1;
    assert(head[feed] == 10) by {
        assert(head[feed] == end[end.len() - 1]);
    }
    let tail = head.skip(p);
    let pat = seq![10u8];
    let e = feed - p;
    assert(found_at(tail, pat, e));
    assert forall|j: int| 0 <= j < e implies !#[trigger] found_at(tail, pat, j) by {
        if found_at(tail, pat, j) {
            assert(tail[j + 0] == pat[0]);
            assert(head[p + j] == 10);
            if j < 6 {
                assert(head[p + j] == name[j]);
                assert(lower_bytes(name)[j] == lower_byte(name[j]));
            } else if j < 6 + value.len() {
                assert(head[p + j] == value[j - 6]);
                assert(value.contains(value[j - 6]));
            } else {
                assert(head[p + j] == end[j - 6 - value.len()]);
            }
        }
    }
    lemma_find_is(tail, pat, e);
    if end.len() == 2 {
        assert(head[p + e - 1] == end[0]);
    } else {
        if value.len() > 0 {
            assert(head[p + e - 1] == value.last());
        } else {
            assert(head[p + e - 1] == name[5]);
            assert(lower_bytes(name)[5] == lower_byte(name[5]));
        }
    }
    assert(line_end(head, p) == q);
    assert(head.take(p) =~= front);
    assert(head.skip(q) =~= end + back);
    assert(front + host_line(host) + (end + back) =~= front + host_line(host) + end + back);
}

/// Header bytes without a line that gives the host stay as they are.
pub proof fn law_no_host_line(head: Seq<u8>, host: Seq<char>)
    requires
        no_host_before(head, head.len() as int),
    ensures
        with_host(head, host) == head,
{
    assert forall|p: int| !first_host_at(head, p) by {
        lemma_host_at(head, p);
    }
}

/// The responses that the gateway writes itself are made of their lines, an empty line and the
/// body: the status comes first, and the length is that of the body in bytes.
pub proof fn law_responses_are_framed(
    kind: Seq<char>,
    status: Seq<char>,
    id: Seq<char>,
    millis: nat,
    body: Seq<char>,
)
    ensures
        ({
            let size = "Content-Length: "@ + decimal(encode_utf8(body).len());
            let first = "HTTP/1.1 "@ + status;
            let tail = seq!['\r', '\n'] + body;
            &&& typed_response(kind, body) == ended_lines(
                seq!["HTTP/1.1 200 OK"@, "Content-Type: "@ + kind, size],
            ) + tail
            &&& bare_response(status, body) == ended_lines(seq![first, size]) + tail
            &&& traced_response(status, body, id, millis) == ended_lines(
                seq![
                    first,
                    "X-Request-ID: "@ + id,
                    "X-Response-Time: "@ + decimal(millis) + "ms"@,
                    size,
                ],
            ) + tail
        }),
{
    reveal_strlit("HTTP/1.1 200 OK\r\nContent-Type: ");
    reveal_strlit("HTTP/1.1 200 OK");
    reveal_strlit("Content-Type: ");
    reveal_strlit("\r\nContent-Length: ");
    reveal_strlit("Content-Length: ");
    reveal_strlit("\r\n\r\n");
    reveal_strlit("HTTP/1.1 ");
    reveal_strlit("\r\nX-Request-ID: ");
    reveal_strlit("X-Request-ID: ");
    reveal_strlit("\r\nX-Response-Time: ");
    reveal_strlit("X-Response-Time: ");
    reveal_strlit("ms\r\nContent-Length: ");
    reveal_strlit("ms");
    let end = seq!['\r', '\n'];
    let size = "Content-Length: "@ + decimal(encode_utf8(body).len());
    let first = "HTTP/1.1 "@ + status;
    let tail = end + body;
    assert("HTTP/1.1 200 OK\r\nContent-Type: "@ =~= "HTTP/1.1 200 OK"@ + end + "Content-Type: "@);
    assert("\r\nContent-Length: "@ =~= end + "Content-Length: "@);
    assert("\r\n\r\n"@ =~= end + end);
    assert("\r\nX-Request-ID: "@ =~= end + "X-Request-ID: "@);
    assert("\r\nX-Response-Time: "@ =~= end + "X-Response-Time: "@);
    assert("ms\r\nContent-Length: "@ =~= "ms"@ + end + "Content-Length: "@);
    lemma_three_lines("HTTP/1.1 200 OK"@, "Content-Type: "@ + kind, size);
    assert(typed_response(kind, body) =~= "HTTP/1.1 200 OK"@ + end + ("Content-Type: "@ + kind)
        + end + size + end + tail);
    lemma_two_lines(first, size);
    assert(bare_response(status, body) =~= first + end + size + end + tail);
    let line = "X-Request-ID: "@ + id;
    let time = "X-Response-Time: "@ + decimal(millis) + "ms"@;
    let list = seq![first, line, time, size];
    lemma_three_lines(line, time, size);
    assert(list.skip(1) =~= seq![line, time, size]);
    assert(ended_lines(list) =~= first + end + (line + end + time + end + size + end));
    assert(traced_response(status, body, id, millis) =~= first + end + (line + end + time + end
        + size + end) + tail);
}

proof fn lemma_two_lines(a: Seq<char>, b: Seq<char>)
    ensures
        ended_lines(seq![a, b]) == a + seq!['\r', '\n'] + b + seq!['\r', '\n'],
{
    let end = seq!['\r', '\n'];
    let list = seq![a, b];
    assert(list.skip(1) =~= seq![b]);
    assert(seq![b].skip(1) =~= Seq::empty());
    assert(ended_lines(Seq::empty()) =~= Seq::empty());
    assert(ended_lines(seq![b]) =~= b + end);
    assert(ended_lines(list) =~= a + end + (b + end));
}

proof fn lemma_three_lines(a: Seq<char>, b: Seq<char>, c: Seq<char>)
    ensures
        ended_lines(seq![a, b, c]) == a + seq!['\r', '\n'] + b + seq!['\r', '\n'] + c + seq![
            '\r',
            '\n',
        ],
{
    let end = seq!['\r', '\n'];
    let list = seq![a, b, c];
    assert(list.skip(1) =~= seq![b, c]);
    lemma_two_lines(b, c);
    assert(ended_lines(list) =~= a + end + (b + end + c + end));
}

/// Only the header of a buffered request is readdressed, and a request whose header has not ended
/// goes as it is.
pub proof fn law_header_is_readdressed(head: Seq<u8>, body: Seq<u8>, host: Seq<char>)
    requires
        body_start(head) is None || body_start(head) == Some(head.len() as int),
    ensures
        body_start(head) is Some ==> upstream_head(head + body, host) == with_host(head, host),
        body_start(head) is None ==> upstream_head(head, host) == head,
{
    if body_start(head) is Some {
        lemma_body_start_stays(head, body);
        assert((head + body).take(head.len() as int) =~= head);
    }
}

} // verus!
