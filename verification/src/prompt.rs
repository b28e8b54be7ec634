//! The model and the prompt of a chat request, and the key under which its response is cached.
use vstd::prelude::*;
use vstd::utf8::{decode_utf8, encode_utf8, valid_utf8};

use crate::bytes::copy_range;
use crate::digest::{hex_of, lower_hex, sha256, sha256_of};
use crate::encoding::{
    ascii_lower, ascii_lower_char, decode_text, is_plain, lowercase, to_lower,
};
use crate::http::{body_start, find_body, lemma_body_start_stays};
use crate::json::{json_in, parse_json, Json, JsonView};
use crate::text::{
    chars_of, has_text, is_space, law_occurs, law_trim, lemma_trim_surrounded, occurs, remove_char,
    string_of, trim, trim_chars, without,
};

verus! {

/// The model name of a request that names none.
pub open spec fn unknown() -> Seq<char> {
    "unknown"@
}

/// A request goes to the chat completion endpoint.
pub open spec fn is_chat(path: Seq<char>) -> bool {
    occurs(path, "/chat/completions"@)
}

/// Tells whether a request goes to the chat completion endpoint.
pub fn path_is_chat(path: &str) -> (r: bool)
    ensures
        r == is_chat(path@),
{
    has_text(path, "/chat/completions")
}

/// A text, `unknown` where there is none.
pub open spec fn or_unknown(s: Option<Seq<char>>) -> Seq<char> {
    match s {
        Some(t) => t,
        None => unknown(),
    }
}

/// The model that a request body names.
pub open spec fn body_model(body: Seq<u8>) -> Seq<char> {
    if valid_utf8(body) {
        match json_in(decode_utf8(body)) {
            Ok(v) => or_unknown(v.text_at("model"@)),
            Err(_) => unknown(),
        }
    } else {
        unknown()
    }
}

/// The model that the body of a buffered request names.
pub open spec fn buffer_model(buffer: Seq<u8>) -> Seq<char> {
    match body_start(buffer) {
        Some(n) => body_model(buffer.skip(n)),
        None => unknown(),
    }
}

/// The model that a JSON document names.
pub fn model_in(json: &Json) -> (r: String)
    ensures
        r@ == or_unknown(json@.text_at("model"@)),
{
    match json.get_text("model") {
        Some(s) => s.clone(),
        None => String::from_str("unknown"),
    }
}

/// The model that a request body names: `unknown` where the body is not a JSON object in UTF-8
/// whose member `model` is a string.
pub fn model_of_body(body: &[u8]) -> (r: String)
    ensures
        r@ == body_model(body@),
{
    match decode_text(body) {
        Some(text) => match parse_json(text.as_str()) {
            Ok(json) => model_in(&json),
            Err(_) => String::from_str("unknown"),
        },
        None => String::from_str("unknown"),
    }
}

/// The model that the body of a buffered request names.
pub fn extract_model_from_body(buffer: &[u8]) -> (r: String)
    ensures
        r@ == buffer_model(buffer@),
{
    match find_body(buffer) {
        Some(n) => {
            let body = copy_range(buffer, n, buffer.len());
            assert(body@ =~= buffer@.skip(n as int));
            model_of_body(&body)
        },
        None => String::from_str("unknown"),
    }
}

/// A text in lower case, trimmed, and then without full stops and commas.
pub open spec fn normalized(s: Seq<char>) -> Seq<char> {
    without(without(trim(lowercase(s)), '.'), ',')
}

/// What [`normalized`] gives of a text of ASCII characters and white space.
pub open spec fn ascii_normalized(s: Seq<char>) -> Seq<char> {
    without(without(trim(ascii_lower(s)), '.'), ',')
}

/// Brings a prompt into the form under which it is cached.
pub fn normalize_text(input: &str) -> (r: String)
    ensures
        r@ == normalized(input@),
        is_plain(input@) ==> r@ == ascii_normalized(input@),
{
    let lower = to_lower(input);
    string_of(&normalize_lower(lower.as_str()))
}

/// Trims a text that is in lower case and takes its full stops and commas out.
pub fn normalize_lower(lower: &str) -> (r: Vec<char>)
    ensures
        r@ == without(without(trim(lower@), '.'), ','),
{
    let trimmed = trim_chars(&chars_of(lower));
    remove_char(&remove_char(&trimmed, '.'), ',')
}

/// The contents of some messages, each with a space behind it. A message without a text as its
/// content adds nothing.
pub open spec fn contents(messages: Seq<JsonView>) -> Seq<char>
    decreases messages.len(),
{
    if messages.len() == 0 {
        Seq::empty()
    } else {
        let earlier = contents(messages.drop_last());
        match messages.last().text_at("content"@) {
            Some(s) => (earlier + s).push(' '),
            None => earlier,
        }
    }
}

/// The prompt that a request holds, before it is normalized: the contents of its messages, or
/// its single message, or nothing.
pub open spec fn raw_prompt(json: JsonView) -> Option<Seq<char>> {
    match json.member("messages"@) {
        Some(JsonView::Array(messages)) => Some(contents(messages)),
        _ => json.text_at("message"@),
    }
}

/// The normalized prompt of a request body: empty where the body is not JSON or holds none.
pub open spec fn prompt_of(body: Seq<char>) -> Seq<char> {
    match json_in(body) {
        Ok(json) => match raw_prompt(json) {
            Some(s) => normalized(s),
            None => Seq::empty(),
        },
        Err(_) => Seq::empty(),
    }
}

/// The prompt that a request holds, before it is normalized.
pub fn prompt_in(json: &Json) -> (r: Option<String>)
    ensures
        r is Some <==> raw_prompt(json@) is Some,
        r is Some ==> Some(r->0@) == raw_prompt(json@),
{
    match json.get("messages") {
        Some(Json::Array(messages)) => {
            let ghost all = Json::Array(*messages)@->Array_0;
            let mut combined = String::new();
            let n: usize = messages.len();
            for i in 0..n
                invariant
                    n == messages@.len(),
                    all == Json::Array(*messages)@->Array_0,
                    combined@ == contents(all.take(i as int)),
            {
                let ghost seen = all.take(i + 1);
                assert(seen.drop_last() =~= all.take(i as int));
                assert(seen.last() == messages@[i as int]@);
                match messages[i].get_text("content") {
                    Some(s) => {
                        combined.append(s.as_str());
                        combined.push(' ');
                    },
                    None => {},
                }
            }
            assert(all.take(n as int) =~= all);
            Some(combined)
        },
        _ => match json.get_text("message") {
            Some(s) => Some(s.clone()),
            None => None,
        },
    }
}

/// The normalized prompt of a request body.
pub fn extract_and_normalize_prompt(body: &str) -> (r: String)
    ensures
        r@ == prompt_of(body@),
{
    match parse_json(body) {
        Ok(json) => match prompt_in(&json) {
            Some(s) => normalize_text(s.as_str()),
            None => String::new(),
        },
        Err(_) => String::new(),
    }
}

/// What is hashed into a cache key.
pub open spec fn cache_input(model: Seq<char>, prompt: Seq<char>) -> Seq<char> {
    model + ":"@ + prompt
}

/// The key under which the response to a prompt is cached.
pub open spec fn cache_key(model: Seq<char>, prompt: Seq<char>) -> Seq<char> {
    lower_hex(sha256(encode_utf8(cache_input(model, prompt))))
}

/// The key under which the response to a prompt is cached.
pub fn generate_cache_key(model: &str, body: &str) -> (r: String)
    ensures
        r@ == cache_key(model@, body@),
        r@.len() == 64,
{
    let mut input = String::from_str(model);
    input.append(":");
    input.append(body);
    hex_of(&sha256_of(input.as_str().as_bytes()))
}

/// What is left of a text without a character is another character of the text.
proof fn lemma_without(s: Seq<char>, c: char, i: int)
    requires
        0 <= i < without(s, c).len(),
    ensures
        without(s, c)[i] != c,
        s.contains(without(s, c)[i]),
    decreases s.len(),
{
    let t = s.drop_last();
    if i < without(t, c).len() {
        lemma_without(t, c, i);
        let k = choose|k: int| 0 <= k < t.len() && t[k] == without(t, c)[i];
        assert(s[k] == without(s, c)[i]);
    } else {
        assert(s[s.len() - 1] == without(s, c)[i]);
    }
}

/// A normalized prompt holds no full stop and no comma.
pub proof fn law_normalized_has_no_stops(s: Seq<char>, i: int)
    requires
        0 <= i < normalized(s).len(),
    ensures
        normalized(s)[i] != '.',
        normalized(s)[i] != ',',
{
    let undotted = without(trim(lowercase(s)), '.');
    lemma_without(undotted, ',', i);
    let k = choose|k: int| 0 <= k < undotted.len() && undotted[k] == normalized(s)[i];
    lemma_without(trim(lowercase(s)), '.', k);
}

/// Prompts of ASCII characters and white space that differ only in the case of their letters have
/// the same normal form.
pub proof fn law_letter_case_is_ignored(a: Seq<char>, b: Seq<char>)
    requires
        is_plain(a),
        a.len() == b.len(),
        forall|i: int|
            0 <= i < a.len() ==> ascii_lower_char(#[trigger] a[i]) == ascii_lower_char(b[i]),
    ensures
        is_plain(b),
        ascii_normalized(a) == ascii_normalized(b),
{
    assert forall|i: int| 0 <= i < b.len() implies (#[trigger] b[i] <= '\u{7f}' || is_space(
        b[i],
    )) by {
        assert(a[i] <= '\u{7f}' || is_space(a[i]));
        assert(ascii_lower_char(a[i]) == ascii_lower_char(b[i]));
    }
    assert(ascii_lower(a) =~= ascii_lower(b));
}

/// White space around a prompt of ASCII characters and white space makes no difference to its
/// normal form, whatever white space it is.
pub proof fn law_surrounding_space_is_ignored(front: Seq<char>, s: Seq<char>, back: Seq<char>)
    requires
        is_plain(s),
        forall|i: int| 0 <= i < front.len() ==> is_space(#[trigger] front[i]),
        forall|i: int| 0 <= i < back.len() ==> is_space(#[trigger] back[i]),
    ensures
        is_plain(front + s + back),
        ascii_normalized(front + s + back) == ascii_normalized(s),
{
    let all = front + s + back;
    assert forall|i: int| 0 <= i < all.len() implies (#[trigger] all[i] <= '\u{7f}' || is_space(
        all[i],
    )) by {
        if i < front.len() {
            assert(is_space(front[i]));
        } else if i < front.len() + s.len() {
            assert(s[i - front.len()] <= '\u{7f}' || is_space(s[i - front.len()]));
        } else {
            assert(is_space(back[i - front.len() - s.len()]));
        }
    }
    let a = ascii_lower(front);
    let b = ascii_lower(s);
    let c = ascii_lower(back);
    assert(ascii_lower(front + s + back) =~= a + b + c);
    assert forall|i: int| 0 <= i < a.len() implies is_space(#[trigger] a[i]) by {
        assert(is_space(front[i]));
    }
    assert forall|i: int| 0 <= i < c.len() implies is_space(#[trigger] c[i]) by {
        assert(is_space(back[i]));
    }
    lemma_trim_surrounded(a, b, c);
}

proof fn lemma_without_both(s: Seq<char>)
    ensures
        without(without(s, '.'), ',') == s.filter(|c: char| c != '.' && c != ','),
    decreases s.len(),
{
    reveal(Seq::filter);
    if s.len() > 0 {
        let t = s.drop_last();
        lemma_without_both(t);
        if s.last() != '.' {
            assert(without(t, '.').push(s.last()).drop_last() =~= without(t, '.'));
        }
    }
}

/// The lower case of a prompt, between the white space at its ends, is its normal form, with the
/// full stops and the commas left out and every other character kept.
pub proof fn law_normal_form(s: Seq<char>, front: Seq<char>, core: Seq<char>, back: Seq<char>)
    requires
        lowercase(s) == front + core + back,
        forall|i: int| 0 <= i < front.len() ==> is_space(#[trigger] front[i]),
        forall|i: int| 0 <= i < back.len() ==> is_space(#[trigger] back[i]),
        core.len() > 0 ==> !is_space(core[0]) && !is_space(core[core.len() - 1]),
    ensures
        normalized(s) == core.filter(|c: char| c != '.' && c != ','),
{
    law_trim(front, core, back);
    lemma_without_both(core);
}

/// A prompt of ASCII characters and white space, between the white space at its ends, is its own
/// normal form, with letters in lower case, the full stops and the commas left out and every other
/// character kept.
pub proof fn law_plain_normal_form(front: Seq<char>, core: Seq<char>, back: Seq<char>)
    requires
        forall|i: int| 0 <= i < front.len() ==> is_space(#[trigger] front[i]),
        forall|i: int| 0 <= i < back.len() ==> is_space(#[trigger] back[i]),
        core.len() > 0 ==> !is_space(core[0]) && !is_space(core[core.len() - 1]),
    ensures
        ascii_normalized(front + core + back) == core.map_values(
            |c: char|
                if 'A' <= c <= 'Z' {
                    (c as int + 32) as char
                } else {
                    c
                },
        ).filter(|c: char| c != '.' && c != ','),
{
    let a = ascii_lower(front);
    let b = ascii_lower(core);
    let c = ascii_lower(back);
    assert(ascii_lower(front + core + back) =~= a + b + c);
    assert forall|i: int| 0 <= i < a.len() implies is_space(#[trigger] a[i]) by {
        assert(is_space(front[i]));
    }
    assert forall|i: int| 0 <= i < c.len() implies is_space(#[trigger] c[i]) by {
        assert(is_space(back[i]));
    }
    law_trim(a, b, c);
    lemma_without_both(b);
    assert(b =~= core.map_values(
        |c: char|
            if 'A' <= c <= 'Z' {
                (c as int + 32) as char
            } else {
                c
            },
    ));
}

proof fn lemma_all_kept(s: Seq<char>)
    requires
        forall|i: int| 0 <= i < s.len() ==> #[trigger] s[i] != '.' && s[i] != ',',
    ensures
        s.filter(|c: char| c != '.' && c != ',') == s,
    decreases s.len(),
{
    reveal(Seq::filter);
    if s.len() > 0 {
        let t = s.drop_last();
        assert forall|i: int| 0 <= i < t.len() implies #[trigger] t[i] != '.' && t[i] != ',' by {
            assert(s[i] == t[i]);
        }
        lemma_all_kept(t);
        assert(s[s.len() - 1] != '.');
        assert(t.push(s.last()) =~= s);
    }
}

/// A prompt of ASCII characters and white space that has no upper-case letter, no full stop, no
/// comma and no white space at either end is its own normal form. So two such prompts that differ
/// have different normal forms, and different texts are hashed into their cache keys.
pub proof fn law_normal_prompts_are_kept_apart(model: Seq<char>, a: Seq<char>, b: Seq<char>)
    requires
        forall|i: int|
            0 <= i < a.len() ==> !('A' <= #[trigger] a[i] <= 'Z') && a[i] != '.' && a[i] != ',',
        forall|i: int|
            0 <= i < b.len() ==> !('A' <= #[trigger] b[i] <= 'Z') && b[i] != '.' && b[i] != ',',
        a.len() > 0 ==> !is_space(a[0]) && !is_space(a[a.len() - 1]),
        b.len() > 0 ==> !is_space(b[0]) && !is_space(b[b.len() - 1]),
        a != b,
    ensures
        ascii_normalized(a) == a,
        ascii_normalized(b) == b,
        cache_key(model, a) == lower_hex(sha256(encode_utf8(model + ":"@ + a))),
        cache_key(model, b) == lower_hex(sha256(encode_utf8(model + ":"@ + b))),
        model + ":"@ + a != model + ":"@ + b,
{
    lemma_own_form(a);
    lemma_own_form(b);
    let n = (model + ":"@).len() as int;
    assert((model + ":"@ + a).skip(n) =~= a);
    assert((model + ":"@ + b).skip(n) =~= b);
}

proof fn lemma_own_form(s: Seq<char>)
    requires
        forall|i: int|
            0 <= i < s.len() ==> !('A' <= #[trigger] s[i] <= 'Z') && s[i] != '.' && s[i] != ',',
        s.len() > 0 ==> !is_space(s[0]) && !is_space(s[s.len() - 1]),
    ensures
        ascii_normalized(s) == s,
{
    let none = Seq::<char>::empty();
    law_plain_normal_form(none, s, none);
    assert(none + s + none =~= s);
    let low = s.map_values(
        |c: char|
            if 'A' <= c <= 'Z' {
                (c as int + 32) as char
            } else {
                c
            },
    );
    assert(low =~= s);
    lemma_all_kept(s);
}

/// A request goes to the chat completion endpoint if and only if its path holds the name of that
/// endpoint, wherever.
pub proof fn law_chat_paths(front: Seq<char>, back: Seq<char>, path: Seq<char>)
    ensures
        is_chat(front + "/chat/completions"@ + back),
        is_chat(path) <==> exists|i: int|
            {
                &&& 0 <= i
                &&& i + "/chat/completions"@.len() <= path.len()
                &&& #[trigger] path.subrange(i, i + "/chat/completions"@.len())
                    == "/chat/completions"@
            },
{
    law_occurs(path, "/chat/completions"@, front, back);
}

/// The prompt of a list of messages is the prompts of its parts, one behind the other. A message
/// whose content is a text adds that text and a space; any other adds nothing.
pub proof fn law_contents(a: Seq<JsonView>, b: Seq<JsonView>, message: JsonView)
    ensures
        contents(a + b) == contents(a) + contents(b),
        contents(seq![message]) == (match message.member("content"@) {
            Some(JsonView::Text(t)) => t + seq![' '],
            _ => Seq::empty(),
        }),
        contents(Seq::empty()) == Seq::<char>::empty(),
    decreases b.len(),
{
    assert(seq![message].drop_last() =~= Seq::empty());
    assert(contents(Seq::empty()) =~= Seq::empty());
    if let Some(JsonView::Text(t)) = message.member("content"@) {
        assert((Seq::<char>::empty() + t).push(' ') =~= t + seq![' ']);
    }
    if b.len() == 0 {
        assert(a + b =~= a);
        assert(contents(a) + contents(b) =~= contents(a));
    } else {
        law_contents(a, b.drop_last(), message);
        assert((a + b).drop_last() =~= a + b.drop_last());
        if let Some(t) = b.last().text_at("content"@) {
            let earlier = contents(b.drop_last());
            assert((contents(a) + earlier + t).push(' ') =~= contents(a) + (earlier + t).push(' '));
        }
    }
}

/// The prompt of a request body is the normal form of its messages, or of its single message where
/// it has no list of messages; a body that is not JSON, or has neither, has an empty prompt.
pub proof fn law_prompt_of_body(body: Seq<char>)
    ensures
        match json_in(body) {
            Ok(json) => match json.member("messages"@) {
                Some(JsonView::Array(messages)) => prompt_of(body) == normalized(
                    contents(messages),
                ),
                _ => match json.member("message"@) {
                    Some(JsonView::Text(t)) => prompt_of(body) == normalized(t),
                    _ => prompt_of(body) == Seq::<char>::empty(),
                },
            },
            Err(_) => prompt_of(body) == Seq::<char>::empty(),
        },
{
}

/// The model of a request body is the text of its member `model`; a body that is not a JSON
/// document in UTF-8, or has no such text, has the model `unknown`.
pub proof fn law_model_of_body(body: Seq<u8>)
    ensures
        valid_utf8(body) && json_in(decode_utf8(body)) is Ok ==> match json_in(
            decode_utf8(body),
        )->Ok_0.member("model"@) {
            Some(JsonView::Text(t)) => body_model(body) == t,
            _ => body_model(body) == "unknown"@,
        },
        !valid_utf8(body) || json_in(decode_utf8(body)) is Err ==> body_model(body) == "unknown"@,
{
}

/// The model of a buffered request is the one that the bytes behind its header name; a request
/// whose header has not ended has the model `unknown`.
pub proof fn law_model_of_buffer(head: Seq<u8>, body: Seq<u8>)
    requires
        body_start(head) is None || body_start(head) == Some(head.len() as int),
    ensures
        body_start(head) is None ==> buffer_model(head) == "unknown"@,
        body_start(head) is Some ==> buffer_model(head + body) == body_model(body),
{
    if body_start(head) is Some {
        lemma_body_start_stays(head, body);
        assert((head + body).skip(head.len() as int) =~= body);
    }
}

/// The text that is hashed into a cache key is the model, a colon and the prompt. So two prompts
/// that differ under one model, and two models without a colon that differ, have different texts
/// hashed.
pub proof fn law_cache_key_covers_model_and_prompt(
    model: Seq<char>,
    prompt: Seq<char>,
    other_model: Seq<char>,
    other: Seq<char>,
)
    ensures
        cache_key(model, prompt) == lower_hex(sha256(encode_utf8(model + seq![':'] + prompt))),
        prompt != other ==> model + seq![':'] + prompt != model + seq![':'] + other,
        !model.contains(':') && !other_model.contains(':') && model != other_model ==> model + seq![
            ':',
        ] + prompt != other_model + seq![':'] + other,
{
    reveal_strlit(":");
    assert(":"@ =~= seq![':']);
    let n = model.len() as int;
    let a = model + seq![':'] + prompt;
    let b = model + seq![':'] + other;
    assert(a.skip(n + 1) =~= prompt);
    assert(b.skip(n + 1) =~= other);
    let c = other_model + seq![':'] + other;
    let k = other_model.len() as int;
    if a == c && !model.contains(':') && !other_model.contains(':') {
        if n < k {
            assert(a[n] == ':');
            assert(c[n] == other_model[n]);
            assert(other_model.contains(other_model[n]));
        } else if k < n {
            assert(c[k] == ':');
            assert(a[k] == model[k]);
            assert(model.contains(model[k]));
        } else {
            assert(a.take(n) =~= model);
            assert(c.take(k) =~= other_model);
        }
    }
}

} // verus!
