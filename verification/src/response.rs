//! What the gateway reads in an upstream response: how it is framed, and the usage it reports.
use vstd::prelude::*;
use vstd::utf8::{decode_utf8, valid_utf8};

use crate::chunks::{chunk_framed, dechunk, dechunked, joined, law_chunks_are_put_together};
use crate::encoding::{decode_text, lossy, lowercase, to_lower};
use crate::gzip::{gunzip, gunzipped};
use crate::http::{body_bytes, body_of, body_start, head_of, lemma_body_start_stays, word_at};
use crate::json::{json_in, parse_json, Json, JsonView, NumberOf};
use crate::number::{
    decimal, digit, law_decimal, law_decimal_reads_back, parse_size, size_in,
};
use crate::text::{
    begins, chars_begin, chars_of, has_text, is_space, law_begins, law_lines, law_occurs,
    law_split, law_trim, law_words, lemma_run, lemma_run_is, lines, lines_of, occurs, run, run_end,
    same_chars, slice_of, split_chars, split_on, string_of, trim, trim_chars, views, words,
    words_of, Stop,
};
use crate::usage::TokenUsage;

verus! {

/// A response whose header text, in lower case, is given comes in chunks.
pub open spec fn is_chunked(lower: Seq<char>) -> bool {
    occurs(lower, "transfer-encoding: chunked"@)
}

/// Tells whether a response whose header text, in lower case, is given comes in chunks.
pub fn lower_is_chunked(lower: &str) -> (r: bool)
    ensures
        r == is_chunked(lower@),
{
    has_text(lower, "transfer-encoding: chunked")
}

/// The number behind the first colon of a line, up to a second one, if there is one.
pub open spec fn line_size(line: Seq<char>) -> Option<usize> {
    let parts = split_on(line, ':');
    if parts.len() > 1 {
        size_in(trim(parts[1]))
    } else {
        None
    }
}

/// The body length that some lines announce, given the same lines in lower case: the number in
/// the first line that begins with `content-length`.
pub open spec fn lines_length(list: Seq<Seq<char>>, lower: Seq<Seq<char>>) -> Option<usize>
    decreases list.len(),
{
    if list.len() == 0 {
        None
    } else if begins(lower[0], "content-length"@) {
        line_size(list[0])
    } else {
        lines_length(list.skip(1), lower.skip(1))
    }
}

/// One of some lines, in lower case, says that the body is compressed.
pub open spec fn says_gzip(lower: Seq<Seq<char>>) -> bool {
    exists|i: int|
        0 <= i < lower.len() && begins(#[trigger] lower[i], "content-encoding: gzip"@)
}

/// Some lines in lower case.
pub open spec fn lowered_lines(list: Seq<Seq<char>>) -> Seq<Seq<char>> {
    Seq::new(list.len(), |i: int| lowercase(list[i]))
}

/// How a response is framed.
#[derive(Clone, Copy)]
pub struct Framing {
    pub chunked: bool,
    pub length: Option<usize>,
    pub gzip: bool,
    /// The status says that no body follows.
    pub bodyless: bool,
}

/// A status that is followed by no body: an interim one, 204 or 304.
pub open spec fn is_bodyless(status: Seq<char>) -> bool {
    ||| status == "204"@
    ||| status == "304"@
    ||| status.len() == 3 && status[0] == '1'
}

/// The status in the first line of a response.
pub open spec fn status_of(text: Seq<char>) -> Seq<char> {
    word_at(words(word_at(lines(text), 0)), 1)
}

fn status_is_bodyless(list: &Vec<Vec<char>>) -> (r: bool)
    ensures
        r == is_bodyless(word_at(words(word_at(views(list@), 0)), 1)),
{
    let none: Vec<char> = Vec::new();
    assert(none@ =~= Seq::empty());
    let first = if list.len() > 0 {
        &list[0]
    } else {
        &none
    };
    let parts = words_of(first);
    assert(views(parts@).len() == parts@.len());
    let status = if parts.len() > 1 {
        &parts[1]
    } else {
        &none
    };
    same_chars(status, &chars_of("204")) || same_chars(status, &chars_of("304")) || (status.len()
        == 3 && status[0] == '1')
}

/// How a response is framed whose header text is given.
pub open spec fn framing_of(text: Seq<char>) -> Framing {
    Framing {
        chunked: is_chunked(lowercase(text)),
        length: lines_length(lines(text), lowered_lines(lines(text))),
        gzip: says_gzip(lowered_lines(lines(text))),
        bodyless: is_bodyless(status_of(text)),
    }
}

/// How a response is framed of which the header is there.
pub open spec fn response_framing(response: Seq<u8>) -> Framing {
    framing_of(lossy(head_of(response)))
}

fn size_of_line(line: &Vec<char>) -> (r: Option<usize>)
    ensures
        r == line_size(line@),
{
    let parts = split_chars(line, ':');
    assert(views(parts@).len() == parts@.len());
    if parts.len() > 1 {
        let value = string_of(&trim_chars(&parts[1]));
        parse_size(value.as_str())
    } else {
        None
    }
}

/// The body length that some lines announce, given the same lines in lower case.
pub fn length_in_lines(list: &Vec<Vec<char>>, lower: &Vec<Vec<char>>) -> (r: Option<
    usize,
>)
    requires
        list@.len() == lower@.len(),
    ensures
        r == lines_length(views(list@), views(lower@)),
{
    let name = chars_of("content-length");
    let n: usize = list.len();
    let ghost a = views(list@);
    let ghost b = views(lower@);
    assert(a.skip(0) =~= a);
    assert(b.skip(0) =~= b);
    for i in 0..n
        invariant
            n == list@.len(),
            n == lower@.len(),
            a == views(list@),
            b == views(lower@),
            name@ == "content-length"@,
            lines_length(a.skip(i as int), b.skip(i as int)) == lines_length(a, b),
    {
        assert(a.skip(i as int)[0] == list@[i as int]@);
        assert(b.skip(i as int)[0] == lower@[i as int]@);
        assert(a.skip(i as int).skip(1) =~= a.skip(i + 1));
        assert(b.skip(i as int).skip(1) =~= b.skip(i + 1));
        if chars_begin(&lower[i], &name) {
            return size_of_line(&list[i]);
        }
    }
    None
}

/// Tells whether one of some lines, in lower case, says that the body is compressed.
pub fn gzip_in_lines(lower: &Vec<Vec<char>>) -> (r: bool)
    ensures
        r == says_gzip(views(lower@)),
{
    let name = chars_of("content-encoding: gzip");
    let n: usize = lower.len();
    for i in 0..n
        invariant
            n == lower@.len(),
            name@ == "content-encoding: gzip"@,
            forall|k: int|
                0 <= k < i ==> !begins(#[trigger] views(lower@)[k], "content-encoding: gzip"@),
    {
        assert(views(lower@)[i as int] == lower@[i as int]@);
        if chars_begin(&lower[i], &name) {
            return true;
        }
    }
    false
}

/// Reads how a response is framed from its header text.
pub fn read_framing(text: &str) -> (r: Framing)
    ensures
        r == framing_of(text@),
{
    let list = lines_of(&chars_of(text));
    let mut lower: Vec<Vec<char>> = Vec::new();
    let n: usize = list.len();
    for i in 0..n
        invariant
            n == list@.len(),
            lower@.len() == i,
            forall|k: int| 0 <= k < i ==> (#[trigger] lower@[k])@ == lowercase(list@[k]@),
    {
        let line = to_lower(string_of(&list[i]).as_str());
        lower.push(chars_of(line.as_str()));
    }
    assert(views(lower@) =~= lowered_lines(lines(text@)));
    let chunked = lower_is_chunked(to_lower(text).as_str());
    Framing {
        chunked,
        length: length_in_lines(&list, &lower),
        gzip: gzip_in_lines(&lower),
        bodyless: status_is_bodyless(&list),
    }
}

/// The last place of `c` in `s`; -1 where it has none.
pub open spec fn last_of(s: Seq<char>, c: char) -> int
    decreases s.len(),
{
    if s.len() == 0 {
        -1
    } else if s.last() == c {
        s.len() - 1
    } else {
        last_of(s.drop_last(), c)
    }
}

/// The trimmed text from the first opening brace to the last closing one, if that stands behind
/// it.
pub open spec fn braced(s: Seq<char>) -> Option<Seq<char>> {
    let first = run(s, Stop::At('{'));
    let last = last_of(s, '}');
    if first < s.len() && first <= last {
        Some(trim(s.subrange(first, last + 1)))
    } else {
        None
    }
}

fn last_index(s: &[char], c: char) -> (r: Option<usize>)
    ensures
        match r {
            Some(i) => last_of(s@, c) == i && i < s@.len(),
            None => last_of(s@, c) == -1,
        },
{
    let mut end: usize = s.len();
    assert(s@.take(end as int) =~= s@);
    while end > 0
        invariant
            end <= s@.len(),
            last_of(s@.take(end as int), c) == last_of(s@, c),
        decreases end,
    {
        let ghost t = s@.take(end as int);
        assert(t.last() == s@[end - 1]);
        assert(t.drop_last() =~= s@.take(end - 1));
        if s[end - 1] == c {
            return Some(end - 1);
        }
        end -= 1;
    }
    None
}

/// The trimmed text from the first opening brace to the last closing one.
pub fn extract_json(s: &str) -> (r: Option<String>)
    ensures
        r is Some <==> braced(s@) is Some,
        r is Some ==> Some(r->0@) == braced(s@),
{
    let chars = chars_of(s);
    assert(chars@.skip(0) =~= chars@);
    let first: usize = run_end(&chars, 0, Stop::At('{'));
    if first == chars.len() {
        return None;
    }
    match last_index(&chars, '}') {
        Some(last) => if first <= last {
            let part = slice_of(&chars, first, last + 1);
            Some(string_of(&trim_chars(&part)))
        } else {
            None
        },
        None => None,
    }
}

/// What a response says of the model that answered and of the tokens used, `T` being the type
/// of a text.
pub struct ReportOf<T> {
    pub model: Option<T>,
    pub tokens: TokenUsage,
}

/// What a response says of the model that answered and of the tokens used.
pub type Report = ReportOf<String>;

/// What a [`Report`] holds.
pub type ReportView = ReportOf<Seq<char>>;

impl View for ReportOf<String> {
    type V = ReportOf<Seq<char>>;

    open spec fn view(&self) -> ReportOf<Seq<char>> {
        ReportOf { model: crate::stats::text_in(self.model), tokens: self.tokens }
    }
}

/// No tokens.
pub open spec fn no_tokens() -> TokenUsage {
    TokenUsage { prompt_tokens: 0, completion_tokens: 0, total_tokens: 0 }
}

/// The report of a response that says nothing.
pub open spec fn silent() -> ReportView {
    ReportOf { model: None, tokens: no_tokens() }
}

/// The tokens that a document reports as used.
pub open spec fn tokens_in(json: JsonView) -> TokenUsage {
    match json.member("usage"@) {
        Some(usage) => TokenUsage {
            prompt_tokens: usage.count_at("prompt_tokens"@),
            completion_tokens: usage.count_at("completion_tokens"@),
            total_tokens: usage.count_at("total_tokens"@),
        },
        None => no_tokens(),
    }
}

/// What a document reports.
pub open spec fn document_report(json: JsonView) -> ReportView {
    ReportOf { model: json.text_at("model"@), tokens: tokens_in(json) }
}

/// What a body text reports: nothing where it holds no document.
pub open spec fn text_report(text: Seq<char>) -> ReportView {
    match braced(text) {
        Some(part) => match json_in(part) {
            Ok(json) => document_report(json),
            Err(_) => silent(),
        },
        None => silent(),
    }
}

/// The data of a body as it was framed: put together from its chunks, where it comes in chunks.
pub open spec fn unframed(body: Seq<u8>, chunked: bool) -> Seq<u8> {
    if chunked {
        dechunked(body)
    } else {
        body
    }
}

/// The bytes of a body before it was compressed; none where it is compressed and not intact.
pub open spec fn unpacked(data: Seq<u8>, gzip: bool) -> Seq<u8> {
    if gzip {
        match gunzipped(data) {
            Some(b) => b,
            None => Seq::empty(),
        }
    } else {
        data
    }
}

/// The bytes of a body before it was compressed and then cut into chunks.
pub open spec fn plain_body(body: Seq<u8>, framing: Framing) -> Seq<u8> {
    unpacked(unframed(body, framing.chunked), framing.gzip)
}

/// What a body reports.
pub open spec fn body_report(plain: Seq<u8>) -> ReportView {
    if valid_utf8(plain) {
        text_report(decode_utf8(plain))
    } else {
        silent()
    }
}

/// What a response reports that is framed as given.
pub open spec fn response_report(response: Seq<u8>, framing: Framing) -> ReportView {
    body_report(plain_body(body_of(response), framing))
}

fn silent_report() -> (r: Report)
    ensures
        r@ == silent(),
{
    ReportOf {
        model: None,
        tokens: TokenUsage { prompt_tokens: 0, completion_tokens: 0, total_tokens: 0 },
    }
}

/// Reads what a document reports.
pub fn report_in(json: &Json) -> (r: Report)
    ensures
        r@ == document_report(json@),
{
    let model = match json.get_text("model") {
        Some(s) => Some(s.clone()),
        None => None,
    };
    let tokens = match json.get("usage") {
        Some(usage) => TokenUsage {
            prompt_tokens: usage.get_count("prompt_tokens"),
            completion_tokens: usage.get_count("completion_tokens"),
            total_tokens: usage.get_count("total_tokens"),
        },
        None => TokenUsage { prompt_tokens: 0, completion_tokens: 0, total_tokens: 0 },
    };
    ReportOf { model, tokens }
}

/// Reads what a body text reports.
pub fn report_of_text(text: &str) -> (r: Report)
    ensures
        r@ == text_report(text@),
{
    match extract_json(text) {
        Some(part) => match parse_json(part.as_str()) {
            Ok(json) => report_in(&json),
            Err(_) => silent_report(),
        },
        None => silent_report(),
    }
}

/// Reads what a body reports.
pub fn report_of_body(plain: &[u8]) -> (r: Report)
    ensures
        r@ == body_report(plain@),
{
    match decode_text(plain) {
        Some(text) => report_of_text(text.as_str()),
        None => silent_report(),
    }
}

/// Reads what the data of a body reports, compressed or not.
pub fn report_of_data(data: &[u8], gzip: bool) -> (r: Report)
    ensures
        r@ == body_report(unpacked(data@, gzip)),
{
    if gzip {
        match gunzip(data) {
            Some(plain) => report_of_body(&plain),
            None => {
                let none: Vec<u8> = Vec::new();
                report_of_body(&none)
            },
        }
    } else {
        report_of_body(data)
    }
}

/// Reads what a response reports that is framed as given.
pub fn read_report(response: &[u8], framing: Framing) -> (r: Report)
    ensures
        r@ == response_report(response@, framing),
{
    let body = body_bytes(response);
    if framing.chunked {
        report_of_data(&dechunk(&body), framing.gzip)
    } else {
        report_of_data(&body, framing.gzip)
    }
}

/// A response that comes in chunks, however its body is cut, reports what the response with the
/// same body in one piece reports.
pub proof fn law_chunks_make_no_difference(
    head: Seq<u8>,
    pieces: Seq<Seq<u8>>,
    length: Option<usize>,
    gzip: bool,
)
    requires
        body_start(head) == Some(head.len() as int),
        forall|i: int| 0 <= i < pieces.len() ==> (#[trigger] pieces[i]).len() > 0,
    ensures
        response_report(
            head + chunk_framed(pieces),
            Framing { chunked: true, length: None, gzip, bodyless: false },
        ) == response_report(
            head + joined(pieces),
            Framing { chunked: false, length, gzip, bodyless: false },
        ),
{
    law_chunks_are_put_together(pieces);
    lemma_body_start_stays(head, chunk_framed(pieces));
    lemma_body_start_stays(head, joined(pieces));
    assert(body_of(head) =~= Seq::empty());
    assert(body_of(head + chunk_framed(pieces)) =~= chunk_framed(pieces));
    assert(body_of(head + joined(pieces)) =~= joined(pieces));
}

/// The length of a response is the number behind the colon of the first line that begins with its
/// name; a line that does not is passed over.
pub proof fn law_length_is_read(
    line: Seq<char>,
    lower: Seq<char>,
    list: Seq<Seq<char>>,
    lowered: Seq<Seq<char>>,
)
    ensures
        lines_length(seq![line] + list, seq![lower] + lowered) == (if begins(
            lower,
            "content-length"@,
        ) {
            line_size(line)
        } else {
            lines_length(list, lowered)
        }),
        lines_length(Seq::empty(), lowered) is None,
{
    assert((seq![line] + list).skip(1) =~= list);
    assert((seq![lower] + lowered).skip(1) =~= lowered);
}

/// The number of a line stands behind its first colon, with or without white space around it, up
/// to a second colon.
pub proof fn law_number_behind_the_colon(
    name: Seq<char>,
    front: Seq<char>,
    n: usize,
    back: Seq<char>,
    rest: Seq<char>,
)
    requires
        !name.contains(':'),
        forall|i: int| 0 <= i < front.len() ==> is_space(#[trigger] front[i]),
        forall|i: int| 0 <= i < back.len() ==> is_space(#[trigger] back[i]),
    ensures
        line_size(name + seq![':'] + (front + decimal(n as nat) + back)) == Some(n),
        line_size(name + seq![':'] + (front + decimal(n as nat) + back) + seq![':'] + rest) == Some(
            n,
        ),
        line_size(name) is None,
{
    let text = decimal(n as nat);
    let value = front + text + back;
    law_decimal(n as nat);
    law_decimal_reads_back(n);
    assert(!is_space(text[0]));
    assert(!is_space(text[text.len() - 1]));
    law_trim(front, text, back);
    assert(!value.contains(':')) by {
        assert forall|i: int| 0 <= i < value.len() implies value[i] != ':' by {
            if i < front.len() {
                assert(is_space(front[i]));
            } else if i < front.len() + text.len() {
                assert('0' <= text[i - front.len()] <= '9');
            } else {
                assert(is_space(back[i - front.len() - text.len()]));
            }
        }
    }
    law_split(name, ':', value);
    law_split(value, ':', value);
    let line = name + seq![':'] + value;
    assert(split_on(line, ':') =~= seq![name, value]);
    law_split(line, ':', rest);
    assert(split_on(line + seq![':'] + rest, ':')[1] == value);
}

/// A response is compressed if one of its lines says so at its beginning, and comes in chunks if
/// its header says so anywhere.
pub proof fn law_codings(
    a: Seq<Seq<char>>,
    b: Seq<Seq<char>>,
    line: Seq<char>,
    front: Seq<char>,
    back: Seq<char>,
)
    ensures
        says_gzip(a + b) <==> says_gzip(a) || says_gzip(b),
        says_gzip(seq![line]) <==> begins(line, "content-encoding: gzip"@),
        says_gzip(seq!["content-encoding: gzip"@ + back]),
        is_chunked(front + "transfer-encoding: chunked"@ + back),
        is_chunked(line) <==> exists|i: int|
            {
                &&& 0 <= i
                &&& i + "transfer-encoding: chunked"@.len() <= line.len()
                &&& #[trigger] line.subrange(i, i + "transfer-encoding: chunked"@.len())
                    == "transfer-encoding: chunked"@
            },
{
    let all = a + b;
    if says_gzip(a) {
        let i = choose|i: int|
            0 <= i < a.len() && begins(#[trigger] a[i], "content-encoding: gzip"@);
        assert(all[i] == a[i]);
    }
    if says_gzip(b) {
        let i = choose|i: int|
            0 <= i < b.len() && begins(#[trigger] b[i], "content-encoding: gzip"@);
        assert(all[a.len() + i] == b[i]);
    }
    if says_gzip(all) {
        let i = choose|i: int|
            0 <= i < all.len() && begins(#[trigger] all[i], "content-encoding: gzip"@);
        if i < a.len() {
            assert(all[i] == a[i]);
        } else {
            assert(all[i] == b[i - a.len()]);
        }
    }
    assert(seq![line][0] == line);
    let one = "content-encoding: gzip"@ + back;
    assert(seq![one][0] == one);
    law_begins(one, "content-encoding: gzip"@, back);
    law_occurs(line, "transfer-encoding: chunked"@, front, back);
}

/// The status of a response is the second word of its first line.
pub proof fn law_status(version: Seq<char>, status: Seq<char>, reason: Seq<char>, rest: Seq<char>)
    requires
        version.len() > 0 && status.len() > 0,
        forall|i: int| 0 <= i < version.len() ==> !is_space(#[trigger] version[i]),
        forall|i: int| 0 <= i < status.len() ==> !is_space(#[trigger] status[i]),
        !reason.contains('\n'),
    ensures
        status_of(
            version + seq![' '] + status + seq![' '] + reason + seq!['\r', '\n'] + rest,
        ) == status,
{
    let start = version + seq![' '] + status;
    let line = start + seq![' '] + reason;
    assert(!line.contains('\n')) by {
        assert forall|i: int| 0 <= i < line.len() implies line[i] != '\n' by {
            if i < version.len() {
                assert(!is_space(version[i]));
            } else if i == version.len() {
            } else if i < start.len() {
                assert(!is_space(status[i - version.len() - 1]));
            } else if i > start.len() {
                assert(reason.contains(reason[i - start.len() - 1]));
            }
        }
    }
    law_lines(line, rest);
    law_words(version, ' ', status);
    law_words(status, ' ', status);
    law_words(start, ' ', reason);
    assert(words(line)[0] == version);
    assert(words(line)[1] == status);
}

/// No body follows an interim status, 204 and 304; one may follow any other.
pub proof fn law_statuses_without_a_body(n: nat)
    requires
        100 <= n < 1000,
    ensures
        is_bodyless(decimal(n)) <==> 100 <= n < 200 || n == 204 || n == 304,
{
    reveal_strlit("204");
    reveal_strlit("304");
    reveal_with_fuel(decimal, 4);
    let d = decimal(n);
    let h = n / 100;
    assert(decimal(n / 10 / 10) =~= seq![digit((n / 10 / 10) as int)]);
    assert(d =~= seq![
        digit((n / 10 / 10) as int),
        digit(((n / 10) % 10) as int),
        digit((n % 10) as int),
    ]);
    assert("204"@ =~= seq!['2', '0', '4']);
    assert("304"@ =~= seq!['3', '0', '4']);
    if n == 204 {
        assert(d =~= "204"@);
    }
    if n == 304 {
        assert(d =~= "304"@);
    }
    if d == "204"@ {
        assert(d[0] == '2' && d[1] == '0' && d[2] == '4');
    }
    if d == "304"@ {
        assert(d[0] == '3' && d[1] == '0' && d[2] == '4');
    }
}

/// The document in a text reaches from its first opening brace to its last closing one.
pub proof fn law_document_in_a_text(front: Seq<char>, inner: Seq<char>, back: Seq<char>)
    requires
        !front.contains('{'),
        !back.contains('}'),
    ensures
        braced(front + seq!['{'] + inner + seq!['}'] + back) == Some(
            seq!['{'] + inner + seq!['}'],
        ),
        braced(front) is None,
        braced(back) is None,
{
    let s = front + seq!['{'] + inner + seq!['}'] + back;
    let n = front.len() as int;
    assert forall|i: int| 0 <= i < n implies !Stop::At('{').hit(#[trigger] s[i]) by {
        assert(front.contains(front[i]));
        assert(s[i] == front[i]);
    }
    assert(s[n] == '{');
    lemma_run_is(s, Stop::At('{'), n);
    let m = n + 1 + inner.len();
    assert(s[m] == '}');
    assert forall|i: int| m < i < s.len() implies s[i] != '}' by {
        assert(s[i] == back[i - m - 1]);
        assert(back.contains(back[i - m - 1]));
    }
    lemma_last_of(s, '}', m);
    let doc = seq!['{'] + inner + seq!['}'];
    assert(s.subrange(n, m + 1) =~= doc);
    let none = Seq::<char>::empty();
    law_trim(none, doc, none);
    assert(none + doc + none =~= doc);
    lemma_run(front, Stop::At('{'));
    let k = run(front, Stop::At('{'));
    if k < front.len() {
        assert(front.contains(front[k]));
    }
    lemma_last_of_none(back, '}');
    lemma_run(back, Stop::At('{'));
}

proof fn lemma_last_of(s: Seq<char>, c: char, m: int)
    requires
        0 <= m < s.len(),
        s[m] == c,
        forall|i: int| m < i < s.len() ==> #[trigger] s[i] != c,
    ensures
        last_of(s, c) == m,
    decreases s.len(),
{
    if m < s.len() - 1 {
        assert(s[s.len() - 1] != c);
        let t = s.drop_last();
        assert forall|i: int| m < i < t.len() implies #[trigger] t[i] != c by {
            assert(s[i] == t[i]);
        }
        lemma_last_of(t, c, m);
    }
}

proof fn lemma_last_of_none(s: Seq<char>, c: char)
    requires
        !s.contains(c),
    ensures
        last_of(s, c) == -1,
    decreases s.len(),
{
    if s.len() > 0 {
        let t = s.drop_last();
        assert(s.contains(s[s.len() - 1]));
        assert(!t.contains(c)) by {
            assert forall|i: int| 0 <= i < t.len() implies t[i] != c by {
                assert(s.contains(s[i]));
            }
        }
        lemma_last_of_none(t, c);
    }
}

/// What a member of a document counts; zero where it is no count.
pub open spec fn count_in(member: Option<JsonView>) -> u64 {
    match member {
        Some(JsonView::Number(NumberOf { unsigned: Some(n), .. })) => n,
        _ => 0,
    }
}

/// The report of a response is read from the document in its body, as the body was before it was
/// compressed: the model that it names, and the counts of tokens in its member `usage`. What
/// stands around the document makes no difference.
pub proof fn law_report_is_read_from_the_document(
    head: Seq<u8>,
    body: Seq<u8>,
    plain: Seq<u8>,
    framing: Framing,
    front: Seq<char>,
    inner: Seq<char>,
    back: Seq<char>,
    json: JsonView,
)
    requires
        body_start(head) == Some(head.len() as int),
        !framing.chunked,
        framing.gzip ==> gunzipped(body) == Some(plain),
        !framing.gzip ==> plain == body,
        valid_utf8(plain),
        !front.contains('{'),
        !back.contains('}'),
        decode_utf8(plain) == front + seq!['{'] + inner + seq!['}'] + back,
        json_in(seq!['{'] + inner + seq!['}']) == Ok::<JsonView, Seq<char>>(json),
    ensures
        ({
            let report = response_report(head + body, framing);
            &&& report.model == (match json.member("model"@) {
                Some(JsonView::Text(t)) => Some(t),
                _ => None,
            })
            &&& match json.member("usage"@) {
                Some(usage) => {
                    &&& report.tokens.prompt_tokens == count_in(usage.member("prompt_tokens"@))
                    &&& report.tokens.completion_tokens == count_in(
                        usage.member("completion_tokens"@),
                    )
                    &&& report.tokens.total_tokens == count_in(usage.member("total_tokens"@))
                },
                None => {
                    &&& report.tokens.prompt_tokens == 0
                    &&& report.tokens.completion_tokens == 0
                    &&& report.tokens.total_tokens == 0
                },
            }
        }),
{
    lemma_body_start_stays(head, body);
    assert(body_of(head) =~= Seq::empty());
    assert(body_of(head + body) =~= body);
    law_document_in_a_text(front, inner, back);
}

/// A body that is no text, or whose text holds no document, reports nothing.
pub proof fn law_silent_bodies(plain: Seq<u8>)
    requires
        !valid_utf8(plain) || !decode_utf8(plain).contains('{') || !decode_utf8(plain).contains(
            '}',
        ),
    ensures
        body_report(plain).model is None,
        body_report(plain).tokens == (TokenUsage {
            prompt_tokens: 0,
            completion_tokens: 0,
            total_tokens: 0,
        }),
{
    let text = decode_utf8(plain);
    if !text.contains('{') {
        law_document_in_a_text(text, text, Seq::empty());
    }
    if !text.contains('}') {
        law_document_in_a_text(Seq::empty(), text, text);
    }
}

/// A compressed body that is not intact reports nothing.
pub proof fn law_broken_compression_is_silent(head: Seq<u8>, body: Seq<u8>, framing: Framing)
    requires
        body_start(head) == Some(head.len() as int),
        framing.gzip,
        !framing.chunked,
        gunzipped(body) is None,
    ensures
        response_report(head + body, framing).model is None,
        response_report(head + body, framing).tokens == (TokenUsage {
            prompt_tokens: 0,
            completion_tokens: 0,
            total_tokens: 0,
        }),
{
    lemma_body_start_stays(head, body);
    assert(body_of(head) =~= Seq::empty());
    assert(body_of(head + body) =~= body);
    let none = Seq::<u8>::empty();
    assert(valid_utf8(none) ==> decode_utf8(none) =~= Seq::empty());
    law_silent_bodies(none);
}

/// How a response is framed follows from its header, line by line, and not from its body.
pub proof fn law_framing_is_in_the_header(head: Seq<u8>, body: Seq<u8>)
    requires
        body_start(head) == Some(head.len() as int),
    ensures
        ({
            let framing = response_framing(head + body);
            let text = lossy(head);
            let low = lines(text).map_values(|line: Seq<char>| lowercase(line));
            &&& framing.chunked == is_chunked(lowercase(text))
            &&& framing.length == lines_length(lines(text), low)
            &&& framing.gzip == says_gzip(low)
            &&& framing.bodyless == is_bodyless(status_of(text))
        }),
{
    lemma_body_start_stays(head, body);
    assert(head.take(head.len() as int) =~= head);
    let text = lossy(head);
    assert(lowered_lines(lines(text)) =~= lines(text).map_values(
        |line: Seq<char>| lowercase(line),
    ));
}

} // verus!
