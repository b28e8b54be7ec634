//! JSON values.
use vstd::prelude::*;

use crate::text::same_text;

verus! {

/// A JSON number: as it is written, and by the integers that it can be read as. A number with a
/// fraction or an exponent is neither. `T` is the type of a text.
pub struct NumberOf<T> {
    pub signed: Option<i64>,
    pub unsigned: Option<u64>,
    pub text: T,
}

/// A JSON number.
pub type JsonNumber = NumberOf<String>;

/// What a [`JsonNumber`] holds.
pub type NumberView = NumberOf<Seq<char>>;

impl View for NumberOf<String> {
    type V = NumberOf<Seq<char>>;

    open spec fn view(&self) -> NumberOf<Seq<char>> {
        NumberOf { signed: self.signed, unsigned: self.unsigned, text: self.text@ }
    }
}

/// A JSON value.
pub enum Json {
    Null,
    Bool(bool),
    Number(JsonNumber),
    Text(String),
    Array(Vec<Json>),
    Object(Vec<(String, Json)>),
}

/// What a JSON value holds.
pub enum JsonView {
    Null,
    Bool(bool),
    Number(NumberView),
    Text(Seq<char>),
    Array(Seq<JsonView>),
    Object(Seq<(Seq<char>, JsonView)>),
}

impl Json {
    /// What this value holds.
    pub open spec fn tree(self) -> JsonView
        decreases self,
    {
        match self {
            Json::Null => JsonView::Null,
            Json::Bool(b) => JsonView::Bool(b),
            Json::Number(n) => JsonView::Number(n@),
            Json::Text(s) => JsonView::Text(s@),
            Json::Array(v) => JsonView::Array(
                Seq::new(
                    v@.len(),
                    |i: int|
                        if 0 <= i < v@.len() {
                            v@[i].tree()
                        } else {
                            JsonView::Null
                        },
                ),
            ),
            Json::Object(v) => JsonView::Object(
                Seq::new(
                    v@.len(),
                    |i: int|
                        if 0 <= i < v@.len() {
                            (v@[i].0@, v@[i].1.tree())
                        } else {
                            (Seq::empty(), JsonView::Null)
                        },
                ),
            ),
        }
    }
}

impl View for Json {
    type V = JsonView;

    open spec fn view(&self) -> JsonView {
        self.tree()
    }
}

/// `serde_json::Value`, a parsed JSON document.
#[verifier::external_type_specification]
#[verifier::external_body]
pub struct ExValue(serde_json::Value);

/// What a parsed document holds: the values of its arrays, and the entries of its objects in
/// the order in which the object is walked, which its keys fix.
pub uninterp spec fn value_tree(value: serde_json::Value) -> JsonView;

/// What a JSON text says, or the message of the error that it holds.
pub uninterp spec fn json_in(text: Seq<char>) -> Result<JsonView, Seq<char>>;

/// One level of a parsed document.
enum Level {
    Null,
    Bool(bool),
    Number(JsonNumber),
    Text(String),
    Array(Vec<serde_json::Value>),
    Object(Vec<(String, serde_json::Value)>),
}

impl Level {
    /// What the document holds of which this is the top.
    spec fn tree(self) -> JsonView {
        match self {
            Level::Null => JsonView::Null,
            Level::Bool(b) => JsonView::Bool(b),
            Level::Number(n) => JsonView::Number(n@),
            Level::Text(s) => JsonView::Text(s@),
            Level::Array(v) => JsonView::Array(
                Seq::new(v@.len(), |i: int| value_tree(v@[i])),
            ),
            Level::Object(v) => JsonView::Object(
                Seq::new(v@.len(), |i: int| (v@[i].0@, value_tree(v@[i].1))),
            ),
        }
    }
}

/// `serde_json::from_str::<Value>` reads a JSON text. The value that it gives, and the text of
/// the error where there is one, depend on the text alone; which they are is only named.
#[verifier::external_body]
fn read_value(text: &str) -> (r: Result<serde_json::Value, String>)
    ensures
        r is Ok ==> json_in(text@) == Ok::<JsonView, Seq<char>>(value_tree(r->Ok_0)),
        r is Err ==> json_in(text@) == Err::<JsonView, Seq<char>>(r->Err_0@),
{
    serde_json::from_str::<serde_json::Value>(text).map_err(|e| e.to_string())
}

/// The variants of `serde_json::Value`, one level deep: a number by what `Number::as_i64`,
/// `Number::as_u64` and `Number::to_string` give of it, an object by its entries.
#[verifier::external_body]
fn open_value(value: serde_json::Value) -> (r: Level)
    ensures
        r.tree() == value_tree(value),
{
    match value {
        serde_json::Value::Null => Level::Null,
        serde_json::Value::Bool(b) => Level::Bool(b),
        serde_json::Value::Number(n) => Level::Number(
            NumberOf { signed: n.as_i64(), unsigned: n.as_u64(), text: n.to_string() },
        ),
        serde_json::Value::String(s) => Level::Text(s),
        serde_json::Value::Array(v) => Level::Array(v),
        serde_json::Value::Object(m) => Level::Object(m.into_iter().collect()),
    }
}

/// Copies a parsed document.
fn build(value: serde_json::Value) -> (r: Json)
    ensures
        r@ == value_tree(value),
    decreases value_tree(value),
{
    let ghost whole = value_tree(value);
    match open_value(value) {
        Level::Null => Json::Null,
        Level::Bool(b) => Json::Bool(b),
        Level::Number(n) => Json::Number(n),
        Level::Text(s) => Json::Text(s),
        Level::Array(list) => {
            let mut out: Vec<Json> = Vec::new();
            for item in it: list
                invariant
                    whole == value_tree(value),
                    whole == Level::Array(list).tree(),
                    it.seq() == list@,
                    out@.len() == it.index(),
                    forall|i: int|
                        0 <= i < out@.len() ==> (#[trigger] out@[i]).tree() == whole->Array_0[i],
            {
                let ghost n = out@.len() as int;
                assert(value_tree(item) == whole->Array_0[n]);
                assert(decreases_to!(whole => whole->Array_0));
                assert(decreases_to!(whole->Array_0 => whole->Array_0[n]));
                out.push(build(item));
            }
            let r = Json::Array(out);
            assert(r.tree()->Array_0 =~= whole->Array_0);
            r
        },
        Level::Object(list) => {
            let mut out: Vec<(String, Json)> = Vec::new();
            for item in it: list
                invariant
                    whole == value_tree(value),
                    whole == Level::Object(list).tree(),
                    it.seq() == list@,
                    out@.len() == it.index(),
                    forall|i: int|
                        0 <= i < out@.len() ==> ((#[trigger] out@[i]).0@, out@[i].1.tree())
                            == whole->Object_0[i],
            {
                let ghost n = out@.len() as int;
                let (key, member) = item;
                assert((key@, value_tree(member)) == whole->Object_0[n]);
                assert(decreases_to!(whole => whole->Object_0));
                assert(decreases_to!(whole->Object_0 => whole->Object_0[n]));
                assert(decreases_to!(whole->Object_0[n] => whole->Object_0[n].1));
                out.push((key, build(member)));
            }
            let r = Json::Object(out);
            assert(r.tree()->Object_0 =~= whole->Object_0);
            r
        },
    }
}

/// Reads a JSON text.
pub fn parse_json(text: &str) -> (r: Result<Json, String>)
    ensures
        r is Ok ==> json_in(text@) == Ok::<JsonView, Seq<char>>(r->Ok_0@),
        r is Err ==> json_in(text@) == Err::<JsonView, Seq<char>>(r->Err_0@),
{
    match read_value(text) {
        Ok(value) => Ok(build(value)),
        Err(e) => Err(e),
    }
}

/// The value of the first of some entries that has the given key.
pub open spec fn lookup(entries: Seq<(Seq<char>, JsonView)>, key: Seq<char>) -> Option<JsonView>
    decreases entries.len(),
{
    if entries.len() == 0 {
        None
    } else if entries[0].0 == key {
        Some(entries[0].1)
    } else {
        lookup(entries.skip(1), key)
    }
}

impl JsonView {
    /// The member of an object with the given key. A value of another kind has none.
    pub open spec fn member(self, key: Seq<char>) -> Option<JsonView> {
        match self {
            JsonView::Object(entries) => lookup(entries, key),
            _ => None,
        }
    }

    /// The text of a string.
    pub open spec fn text(self) -> Option<Seq<char>> {
        match self {
            JsonView::Text(s) => Some(s),
            _ => None,
        }
    }

    /// The text of the member with the given key, where that is a string.
    pub open spec fn text_at(self, key: Seq<char>) -> Option<Seq<char>> {
        match self.member(key) {
            Some(v) => v.text(),
            None => None,
        }
    }

    /// The value of an integer, where it fits in `i64`.
    pub open spec fn signed(self) -> Option<i64> {
        match self {
            JsonView::Number(n) => n.signed,
            _ => None,
        }
    }

    /// The value of an integer, where it fits in `u64`.
    pub open spec fn unsigned(self) -> Option<u64> {
        match self {
            JsonView::Number(n) => n.unsigned,
            _ => None,
        }
    }

    /// The integer that the member with the given key is, or zero.
    pub open spec fn signed_at(self, key: Seq<char>) -> i64 {
        match self.member(key) {
            Some(v) => match v.signed() {
                Some(n) => n,
                None => 0,
            },
            None => 0,
        }
    }

    /// The count that the member with the given key is, or zero.
    pub open spec fn count_at(self, key: Seq<char>) -> u64 {
        match self.member(key) {
            Some(v) => match v.unsigned() {
                Some(n) => n,
                None => 0,
            },
            None => 0,
        }
    }
}

/// A text, empty where there is none.
pub open spec fn or_empty(s: Option<Seq<char>>) -> Seq<char> {
    match s {
        Some(t) => t,
        None => Seq::empty(),
    }
}

impl Json {
    /// The member of an object with the given key.
    pub fn get(&self, key: &str) -> (r: Option<&Json>)
        ensures
            r is Some <==> self@.member(key@) is Some,
            r is Some ==> Some(r->0@) == self@.member(key@),
    {
        match self {
            Json::Object(entries) => {
                let ghost all = self@->Object_0;
                let n: usize = entries.len();
                let mut i: usize = 0;
                assert(all.skip(0) =~= all);
                while i < n
                    invariant
                        n == entries@.len(),
                        i <= n,
                        *self == Json::Object(*entries),
                        all == self@->Object_0,
                        lookup(all.skip(i as int), key@) == lookup(all, key@),
                    decreases n - i,
                {
                    let ghost rest = all.skip(i as int);
                    assert(rest[0] == all[i as int]);
                    assert(rest.skip(1) =~= all.skip(i + 1));
                    if same_text(entries[i].0.as_str(), key) {
                        return Some(&entries[i].1);
                    }
                    i += 1;
                }
                None
            },
            _ => None,
        }
    }

    /// The text of a string.
    pub fn as_text(&self) -> (r: Option<&String>)
        ensures
            r is Some <==> self@.text() is Some,
            r is Some ==> Some(r->0@) == self@.text(),
    {
        match self {
            Json::Text(s) => Some(s),
            _ => None,
        }
    }

    /// The text of the member with the given key.
    pub fn get_text(&self, key: &str) -> (r: Option<&String>)
        ensures
            r is Some <==> self@.text_at(key@) is Some,
            r is Some ==> Some(r->0@) == self@.text_at(key@),
    {
        match self.get(key) {
            Some(v) => v.as_text(),
            None => None,
        }
    }

    /// The text of the member with the given key, or an empty text.
    pub fn get_text_or_empty(&self, key: &str) -> (r: String)
        ensures
            r@ == or_empty(self@.text_at(key@)),
    {
        match self.get_text(key) {
            Some(s) => s.clone(),
            None => String::new(),
        }
    }

    /// The integer that the member with the given key is, or zero.
    pub fn get_signed(&self, key: &str) -> (r: i64)
        ensures
            r == self@.signed_at(key@),
    {
        match self.get(key) {
            Some(Json::Number(n)) => match n.signed {
                Some(v) => v,
                None => 0,
            },
            _ => 0,
        }
    }

    /// The count that the member with the given key is, or zero.
    pub fn get_count(&self, key: &str) -> (r: u64)
        ensures
            r == self@.count_at(key@),
    {
        match self.get(key) {
            Some(Json::Number(n)) => match n.unsigned {
                Some(v) => v,
                None => 0,
            },
            _ => 0,
        }
    }
}

/// The member of an object is the value of the first entry with its key, wherever that stands; a
/// value that is no object has no members.
pub proof fn law_member(
    a: Seq<(Seq<char>, JsonView)>,
    b: Seq<(Seq<char>, JsonView)>,
    key: Seq<char>,
    name: Seq<char>,
    value: JsonView,
)
    ensures
        JsonView::Object(a + b).member(key) == (match JsonView::Object(a).member(key) {
            Some(v) => Some(v),
            None => JsonView::Object(b).member(key),
        }),
        JsonView::Object(seq![(name, value)]).member(key) == (if name == key {
            Some(value)
        } else {
            None
        }),
        JsonView::Object(Seq::empty()).member(key) is None,
        !(value is Object) ==> value.member(key) is None,
    decreases a.len(),
{
    let one = seq![(name, value)];
    assert(one.skip(1) =~= Seq::empty());
    assert(lookup(Seq::empty(), key) is None);
    if a.len() == 0 {
        assert(a + b =~= b);
    } else {
        law_member(a.skip(1), b, key, name, value);
        assert((a + b).skip(1) =~= a.skip(1) + b);
    }
}

/// What is read of a member is what the member holds, and nothing or zero where it is of another
/// kind or missing.
pub proof fn law_members_are_read(json: JsonView, key: Seq<char>)
    ensures
        json.text_at(key) == (match json.member(key) {
            Some(JsonView::Text(t)) => Some(t),
            _ => None,
        }),
        json.signed_at(key) == (match json.member(key) {
            Some(JsonView::Number(NumberOf { signed: Some(n), .. })) => n,
            _ => 0i64,
        }),
        json.count_at(key) == (match json.member(key) {
            Some(JsonView::Number(NumberOf { unsigned: Some(n), .. })) => n,
            _ => 0u64,
        }),
{
}

} // verus!
