//! JSON documents.
use vstd::prelude::*;
use crate::error::{outcome, Error};
use crate::order::lookup;
use crate::text::same_text;

verus! {

/// A JSON value. The members of an object are in ascending order of their names.
#[derive(Debug)]
pub enum Json {
    Null,
    Bool(bool),
    /// A number, as far as it fits a signed or an unsigned integer of 64 bits.
    Number(Option<i64>, Option<u64>),
    Text(String),
    Array(Vec<Json>),
    Object(Vec<(String, Json)>),
}

#[verifier::ext_equal]
pub enum JsonView {
    Null,
    Bool(bool),
    Number(Option<i64>, Option<u64>),
    Text(Seq<char>),
    Array(Seq<JsonView>),
    Object(Seq<(Seq<char>, JsonView)>),
}

/// What a JSON value stands for.
pub open spec fn json_view(json: Json) -> JsonView
    decreases json,
{
    match json {
        Json::Null => JsonView::Null,
        Json::Bool(value) => JsonView::Bool(value),
        Json::Number(signed, unsigned) => JsonView::Number(signed, unsigned),
        Json::Text(text) => JsonView::Text(text@),
        Json::Array(items) => JsonView::Array(
            Seq::new(
                items@.len(),
                |i: int|
                    if 0 <= i < items@.len() {
                        json_view(items@[i])
                    } else {
                        JsonView::Null
                    },
            ),
        ),
        Json::Object(members) => JsonView::Object(
            Seq::new(
                members@.len(),
                |i: int|
                    if 0 <= i < members@.len() {
                        (members@[i].0@, json_view(members@[i].1))
                    } else {
                        (Seq::empty(), JsonView::Null)
                    },
            ),
        ),
    }
}

impl DeepView for Json {
    type V = JsonView;

    open spec fn deep_view(&self) -> JsonView {
        json_view(*self)
    }
}

/// The member of an object with a name.
pub open spec fn member(json: JsonView, name: Seq<char>) -> Option<JsonView> {
    match json {
        JsonView::Object(members) => lookup(members, name),
        _ => None,
    }
}

/// The text of a member, if it is there and a text.
pub open spec fn text_member(json: JsonView, name: Seq<char>) -> Option<Seq<char>> {
    match member(json, name) {
        Some(JsonView::Text(text)) => Some(text),
        _ => None,
    }
}

impl Json {
    pub fn get(&self, name: &str) -> (r: Option<&Json>)
        ensures
            r.deep_view() == member(self.deep_view(), name@),
    {
        match self {
            Json::Object(members) => {
                let ghost all = match self.deep_view() {
                    JsonView::Object(all) => all,
                    _ => Seq::empty(),
                };
                let mut index: usize = 0;
                assert(all.skip(0) =~= all);
                while index < members.len()
                    invariant
                        index <= members@.len(),
                        all.len() == members@.len(),
                        forall|i: int|
                            0 <= i < all.len() ==> #[trigger] all[i] == (
                                members@[i].0@,
                                json_view(members@[i].1),
                            ),
                        member(self.deep_view(), name@) == lookup(all.skip(index as int), name@),
                    decreases members@.len() - index,
                {
                    assert(all.skip(index as int)[0] == all[index as int]);
                    assert(all.skip(index as int).drop_first() =~= all.skip(index + 1));
                    if same_text(members[index].0.as_str(), name) {
                        return Some(&members[index].1);
                    }
                    index += 1;
                }
                None
            },
            _ => None,
        }
    }

    pub fn text(&self) -> (r: Option<&String>)
        ensures
            r.deep_view() == (match self.deep_view() {
                JsonView::Text(text) => Some(text),
                _ => None,
            }),
    {
        match self {
            Json::Text(text) => Some(text),
            _ => None,
        }
    }

    pub fn items(&self) -> (r: Option<&Vec<Json>>)
        ensures
            r.deep_view() == (match self.deep_view() {
                JsonView::Array(items) => Some(items),
                _ => None,
            }),
    {
        match self {
            Json::Array(items) => {
                assert(items.deep_view() =~= self.deep_view()->Array_0);
                Some(items)
            },
            _ => None,
        }
    }

    pub fn text_of(&self, name: &str) -> (r: Option<String>)
        ensures
            r.deep_view() == text_member(self.deep_view(), name@),
    {
        match self.get(name) {
            Some(value) => match value.text() {
                Some(text) => Some(text.clone()),
                None => None,
            },
            None => None,
        }
    }
}

/// What serde_json reads from a text, or its complaint.
pub uninterp spec fn json_value(text: Seq<char>) -> Result<JsonView, Seq<char>>;

/// A document as serde_json holds it.
#[verifier::external_type_specification]
#[verifier::external_body]
pub struct ExValue(serde_json::Value);

/// Converts a `serde_json::Value`, variant by variant.
#[verifier::external_body]
fn convert(value: serde_json::Value) -> Json {
    match value {
        serde_json::Value::Null => Json::Null,
        serde_json::Value::Bool(value) => Json::Bool(value),
        serde_json::Value::Number(number) => Json::Number(number.as_i64(), number.as_u64()),
        serde_json::Value::String(text) => Json::Text(text),
        serde_json::Value::Array(items) => Json::Array(items.into_iter().map(convert).collect()),
        serde_json::Value::Object(members) => Json::Object(
            members.into_iter().map(|(name, value)| (name, convert(value))).collect(),
        ),
    }
}

/// `serde_json::from_str` into a document; the complaint is the error's display text.
#[verifier::external_body]
fn read_value(text: &str) -> (r: Result<Json, String>)
    ensures
        match r {
            Ok(json) => json_value(text@) == Ok::<JsonView, Seq<char>>(json.deep_view()),
            Err(complaint) => json_value(text@) == Err::<JsonView, Seq<char>>(complaint@),
        },
{
    match serde_json::from_str::<serde_json::Value>(text) {
        Ok(value) => Ok(convert(value)),
        Err(error) => Err(error.to_string()),
    }
}

/// The document that a text holds.
pub fn parse_json(text: &str) -> (r: Result<Json, Error>)
    ensures
        outcome(r) == json_value(text@),
{
    match read_value(text) {
        Ok(json) => Ok(json),
        Err(message) => Err(Error { message }),
    }
}

/// A lower case hexadecimal digit.
pub open spec fn hex_char(n: int) -> char {
    if n < 10 {
        (48 + n) as u8 as char
    } else {
        (87 + n) as u8 as char
    }
}

/// A character within a JSON string.
pub open spec fn json_char(c: char) -> Seq<char> {
    if c == '"' || c == '\\' {
        seq!['\\', c]
    } else if c == '\u{8}' {
        seq!['\\', 'b']
    } else if c == '\t' {
        seq!['\\', 't']
    } else if c == '\n' {
        seq!['\\', 'n']
    } else if c == '\u{c}' {
        seq!['\\', 'f']
    } else if c == '\r' {
        seq!['\\', 'r']
    } else if (c as u32) < 32 {
        seq!['\\', 'u', '0', '0', hex_char(c as int / 16), hex_char(c as int % 16)]
    } else {
        seq![c]
    }
}

/// The inside of a JSON string.
pub open spec fn json_chars(text: Seq<char>) -> Seq<char>
    decreases text.len(),
{
    if text.len() == 0 {
        Seq::empty()
    } else {
        json_char(text[0]) + json_chars(text.drop_first())
    }
}

/// A text as a JSON string, quotes included.
pub open spec fn json_quoted(text: Seq<char>) -> Seq<char> {
    seq!['"'] + json_chars(text) + seq!['"']
}

/// `serde_json::to_string` of a string: between quotes, with quotes, backslashes and control
/// characters escaped.
#[verifier::external_body]
pub(crate) fn json_string(text: &str) -> (r: String)
    ensures
        r@ == json_quoted(text@),
{
    serde_json::to_string(text).unwrap()
}

proof fn lemma_json_char(c: char, d: char, u: Seq<char>, v: Seq<char>)
    requires
        json_char(c) + u == json_char(d) + v,
    ensures
        c == d,
        u == v,
{
    let x = json_char(c);
    let y = json_char(d);
    let s = x + u;
    let t = y + v;
    assert(s[0] == x[0] && t[0] == y[0]);
    if x.len() > 1 && y.len() > 1 {
        assert(s[1] == x[1] && t[1] == y[1]);
        if x.len() == 6 && y.len() == 6 {
            assert(s[4] == x[4] && t[4] == y[4]);
            assert(s[5] == x[5] && t[5] == y[5]);
        }
    }
    assert(c == d);
    assert(u =~= s.skip(x.len() as int));
    assert(v =~= t.skip(y.len() as int));
}

proof fn lemma_json_chars(a: Seq<char>, b: Seq<char>, u: Seq<char>, v: Seq<char>)
    requires
        json_chars(a) + seq!['"'] + u == json_chars(b) + seq!['"'] + v,
    ensures
        a == b,
        u == v,
    decreases a.len(),
{
    let s = json_chars(a) + seq!['"'] + u;
    let t = json_chars(b) + seq!['"'] + v;
    if a.len() == 0 {
        assert(s[0] == '"');
        if b.len() > 0 {
            assert(t[0] == json_char(b[0])[0]);
        }
        assert(a =~= b);
        assert(u =~= s.skip(1));
        assert(v =~= t.skip(1));
    } else if b.len() == 0 {
        assert(t[0] == '"');
        assert(s[0] == json_char(a[0])[0]);
    } else {
        let p = json_chars(a.drop_first()) + seq!['"'] + u;
        let q = json_chars(b.drop_first()) + seq!['"'] + v;
        assert(s =~= json_char(a[0]) + p);
        assert(t =~= json_char(b[0]) + q);
        lemma_json_char(a[0], b[0], p, q);
        lemma_json_chars(a.drop_first(), b.drop_first(), u, v);
        assert(a =~= seq![a[0]] + a.drop_first());
        assert(b =~= seq![b[0]] + b.drop_first());
    }
}

/// A JSON string says which text it stands for, and where it ends.
pub proof fn law_json_strings_are_unambiguous(
    a: Seq<char>,
    b: Seq<char>,
    u: Seq<char>,
    v: Seq<char>,
)
    requires
        json_quoted(a) + u == json_quoted(b) + v,
    ensures
        a == b,
        u == v,
{
    let s = json_quoted(a) + u;
    let t = json_quoted(b) + v;
    assert(s.skip(1) =~= json_chars(a) + seq!['"'] + u);
    assert(t.skip(1) =~= json_chars(b) + seq!['"'] + v);
    lemma_json_chars(a, b, u, v);
}

} // verus!
