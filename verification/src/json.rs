//! JSON documents as plain values, read and written by `serde_json`.
use vstd::prelude::*;

verus! {

/// `serde_json::Value`: a document as the reader returns it.
#[verifier::external_type_specification]
#[verifier::external_body]
pub struct ExValue(serde_json::Value);

/// `serde_json::Number`: a number of a document; kept for those that are
/// neither a `u64` nor an `i64`.
#[verifier::external_type_specification]
#[verifier::external_body]
pub struct ExNumber(serde_json::Number);

/// `serde_json::Error`: what the reader returns for a text that is no document.
#[verifier::external_type_specification]
#[verifier::external_body]
pub struct ExError(serde_json::Error);

/// The bits of a number as binary64, by `Number::as_f64`.
pub uninterp spec fn number_bits(number: serde_json::Number) -> u64;

/// Whether a number is held as binary64 and not as an integer, by
/// `Number::is_f64`.
pub uninterp spec fn is_binary64(number: serde_json::Number) -> bool;

/// `Number::as_f64` with its bits.
#[verifier::external_body]
fn bits_of(number: &serde_json::Number) -> (r: u64)
    ensures
        r == number_bits(*number),
{
    number.as_f64().unwrap_or_default().to_bits()
}

/// `Number::clone`: a copy that holds the same value in the same form.
#[verifier::external_body]
fn copy_number(number: &serde_json::Number) -> (r: serde_json::Number)
    ensures
        number_bits(r) == number_bits(*number),
        is_binary64(r) == is_binary64(*number),
{
    number.clone()
}

/// A number of a document that is held as binary64.
pub struct Real {
    number: serde_json::Number,
}

impl Real {
    #[verifier::type_invariant]
    closed spec fn is_real(&self) -> bool {
        is_binary64(self.number)
    }

    pub closed spec fn spec_bits(&self) -> u64 {
        number_bits(self.number)
    }

    /// The bits of the number.
    pub fn bits(&self) -> (r: u64)
        ensures
            r == self.spec_bits(),
    {
        bits_of(&self.number)
    }

    fn from_number(number: serde_json::Number) -> (r: Real)
        requires
            is_binary64(number),
        ensures
            r.spec_bits() == number_bits(number),
    {
        Real { number }
    }

    fn to_number(&self) -> (r: serde_json::Number)
        ensures
            number_bits(r) == self.spec_bits(),
            is_binary64(r),
    {
        proof {
            use_type_invariant(self);
        }
        copy_number(&self.number)
    }
}

/// A JSON document.
pub enum Json {
    Null,
    Bool(bool),
    /// An integer from 0 up.
    Unsigned(u64),
    /// An integer below 0.
    Negative(i64),
    /// Any other number.
    Float(Real),
    Text(String),
    Array(Vec<Json>),
    Object(Vec<(String, Json)>),
}

/// What a document says. A number that is no integer stands by the bits of its
/// binary64 value, an object by its members in the order in which they are held.
pub enum JsonView {
    Null,
    Bool(bool),
    Unsigned(u64),
    Negative(i64),
    Float(u64),
    Text(Seq<char>),
    Array(Seq<JsonView>),
    Object(Seq<(Seq<char>, JsonView)>),
}

/// What a document says.
pub open spec fn json_view(json: Json) -> JsonView
    decreases json,
{
    match json {
        Json::Null => JsonView::Null,
        Json::Bool(b) => JsonView::Bool(b),
        Json::Unsigned(n) => JsonView::Unsigned(n),
        Json::Negative(n) => JsonView::Negative(n),
        Json::Float(n) => JsonView::Float(n.spec_bits()),
        Json::Text(t) => JsonView::Text(t@),
        Json::Array(items) => JsonView::Array(
            Seq::new(
                items@.len(),
                |i: int|
                    if 0 <= i < items@.len() {
                        json_view(items@[i])
                    } else {
                        JsonView::Null
                    },
            ),
        ),
        Json::Object(members) => JsonView::Object(
            Seq::new(
                members@.len(),
                |i: int|
                    if 0 <= i < members@.len() {
                        (members@[i].0@, json_view(members@[i].1))
                    } else {
                        (Seq::empty(), JsonView::Null)
                    },
            ),
        ),
    }
}

impl View for Json {
    type V = JsonView;

    open spec fn view(&self) -> JsonView {
        json_view(*self)
    }
}

impl DeepView for Json {
    type V = JsonView;

    open spec fn deep_view(&self) -> JsonView {
        self@
    }
}

/// The view of an array is the array of the views.
pub broadcast proof fn array_view(items: Vec<Json>)
    ensures
        #[trigger] Json::Array(items)@ == JsonView::Array(items.deep_view()),
{
    assert(Json::Array(items)@->Array_0 =~= items.deep_view());
}

/// The view of an object lists the views of its members.
pub broadcast proof fn object_view(members: Vec<(String, Json)>)
    ensures
        #[trigger] Json::Object(members)@ == JsonView::Object(members.deep_view()),
{
    assert(Json::Object(members)@->Object_0 =~= members.deep_view());
}

/// What a `serde_json::Value` says.
pub uninterp spec fn value_content(value: serde_json::Value) -> JsonView;

/// The document that a text holds, as `serde_json::from_str` reads it: `None`
/// where the text is no document.
pub uninterp spec fn parsed_json(text: Seq<char>) -> Option<JsonView>;

/// The compact text of a document, as `Value::to_string` writes it.
pub uninterp spec fn rendered_json(content: JsonView) -> Seq<char>;

/// One level of a document.
pub enum Node {
    Null,
    Bool(bool),
    Unsigned(u64),
    Negative(i64),
    Float(serde_json::Number),
    Text(String),
    Array(Vec<serde_json::Value>),
    Object(Vec<(String, serde_json::Value)>),
}

pub open spec fn array_content(items: Seq<serde_json::Value>) -> Seq<JsonView> {
    items.map_values(|v: serde_json::Value| value_content(v))
}

pub open spec fn object_content(members: Seq<(String, serde_json::Value)>) -> Seq<
    (Seq<char>, JsonView),
> {
    members.map_values(|m: (String, serde_json::Value)| (m.0@, value_content(m.1)))
}

/// What a document of this top level says.
pub open spec fn node_content(node: Node) -> JsonView {
    match node {
        Node::Null => JsonView::Null,
        Node::Bool(b) => JsonView::Bool(b),
        Node::Unsigned(n) => JsonView::Unsigned(n),
        Node::Negative(n) => JsonView::Negative(n),
        Node::Float(n) => JsonView::Float(number_bits(n)),
        Node::Text(t) => JsonView::Text(t@),
        Node::Array(items) => JsonView::Array(array_content(items@)),
        Node::Object(members) => JsonView::Object(object_content(members@)),
    }
}

/// Keys in the order in which `serde_json::Map` keeps them, each once.
pub open spec fn keys_ascend(members: Seq<(Seq<char>, JsonView)>) -> bool {
    forall|i: int, j: int|
        0 <= i < j < members.len() ==> crate::order::text_order(
            (#[trigger] members[i]).0,
            (#[trigger] members[j]).0,
        ) < 0
}

/// `serde_json::from_str`: reads a text as a document.
#[verifier::external_body]
fn value_from_text(text: &str) -> (r: Result<serde_json::Value, serde_json::Error>)
    ensures
        match r {
            Ok(value) => parsed_json(text@) == Some(value_content(value)),
            Err(_) => parsed_json(text@) is None,
        },
{
    serde_json::from_str(text)
}

/// Opens the top level of a `serde_json::Value`: the variant, and in a number
/// whether `Number::as_u64` or `Number::as_i64` has it, so that what the second
/// alone has is below zero and what neither has is held as binary64. A map hands
/// out its members in ascending order of their keys.
#[verifier::external_body]
fn take_apart(value: serde_json::Value) -> (r: Node)
    ensures
        node_content(r) == value_content(value),
        r matches Node::Negative(n) ==> n < 0,
        r matches Node::Float(n) ==> is_binary64(n),
        r matches Node::Object(members) ==> keys_ascend(object_content(members@)),
{
    match value {
        serde_json::Value::Null => Node::Null,
        serde_json::Value::Bool(b) => Node::Bool(b),
        serde_json::Value::Number(n) => match (n.as_u64(), n.as_i64()) {
            (Some(u), _) => Node::Unsigned(u),
            (None, Some(i)) => Node::Negative(i),
            (None, None) => Node::Float(n),
        },
        serde_json::Value::String(s) => Node::Text(s),
        serde_json::Value::Array(items) => Node::Array(items),
        serde_json::Value::Object(members) => Node::Object(members.into_iter().collect()),
    }
}

/// Builds a `serde_json::Value` of a top level and the values below it. Keys
/// that ascend stay as they are in the map, and an integer below zero stays one.
#[verifier::external_body]
fn put_together(node: Node) -> (r: serde_json::Value)
    requires
        node matches Node::Negative(n) ==> n < 0,
        node matches Node::Float(n) ==> is_binary64(n),
        node matches Node::Object(members) ==> keys_ascend(object_content(members@)),
    ensures
        value_content(r) == node_content(node),
{
    match node {
        Node::Null => serde_json::Value::Null,
        Node::Bool(b) => serde_json::Value::Bool(b),
        Node::Unsigned(n) => serde_json::Value::from(n),
        Node::Negative(n) => serde_json::Value::from(n),
        Node::Float(n) => serde_json::Value::Number(n),
        Node::Text(s) => serde_json::Value::String(s),
        Node::Array(items) => serde_json::Value::Array(items),
        Node::Object(members) => serde_json::Value::Object(members.into_iter().collect()),
    }
}

/// `Value::to_string`: the compact text of a document.
#[verifier::external_body]
fn value_text(value: &serde_json::Value) -> (r: String)
    ensures
        r@ == rendered_json(value_content(*value)),
{
    value.to_string()
}

/// A document whose objects hold each key once, in ascending order, and whose
/// integers from 0 up are unsigned.
pub open spec fn canonical(v: JsonView) -> bool
    decreases v,
{
    match v {
        JsonView::Negative(n) => n < 0,
        JsonView::Array(items) => forall|i: int|
            0 <= i < items.len() ==> canonical(#[trigger] items[i]),
        JsonView::Object(members) => keys_ascend(members) && forall|i: int|
            0 <= i < members.len() ==> canonical((#[trigger] members[i]).1),
        _ => true,
    }
}

/// The document that a text holds: `None` where it holds none. `serde_json` hands out
/// none but canonical ones.
pub open spec fn document_in(text: Seq<char>) -> Option<JsonView> {
    match parsed_json(text) {
        Some(v) => if canonical(v) {
            Some(v)
        } else {
            None
        },
        None => None,
    }
}

fn json_from(document: serde_json::Value) -> (r: Json)
    ensures
        r@ == value_content(document),
        canonical(r@),
    decreases value_content(document),
{
    broadcast use {array_view, object_view};

    let ghost content = value_content(document);
    match take_apart(document) {
        Node::Null => Json::Null,
        Node::Bool(b) => Json::Bool(b),
        Node::Unsigned(n) => Json::Unsigned(n),
        Node::Negative(n) => Json::Negative(n),
        Node::Float(n) => Json::Float(Real::from_number(n)),
        Node::Text(t) => Json::Text(t),
        Node::Array(values) => {
            let ghost all = array_content(values@);
            let mut items: Vec<Json> = Vec::new();
            for value in it: values
                invariant
                    it.seq() == values@,
                    all == array_content(values@),
                    content == value_content(document),
                    content == JsonView::Array(all),
                    items.deep_view() == all.take(it.index() as int),
                    forall|i: int| 0 <= i < items@.len() ==> canonical(#[trigger] items@[i]@),
            {
                let ghost n = it.index() as int;
                assert(content->Array_0[n] == value_content(value));
                let ghost before = items.deep_view();
                items.push(json_from(value));
                assert(items.deep_view() =~= before.push(all[n]));
                assert(all.take(n + 1) =~= all.take(n).push(all[n]));
            }
            assert(items.deep_view() =~= all);
            assert forall|i: int| 0 <= i < all.len() implies canonical(#[trigger] all[i]) by {
                assert(canonical(items@[i]@));
                assert(items.deep_view()[i] == all[i]);
            }
            Json::Array(items)
        },
        Node::Object(values) => {
            let ghost all = object_content(values@);
            let mut members: Vec<(String, Json)> = Vec::new();
            for member in it: values
                invariant
                    it.seq() == values@,
                    all == object_content(values@),
                    content == value_content(document),
                    content == JsonView::Object(all),
                    members.deep_view() == all.take(it.index() as int),
                    forall|i: int| 0 <= i < members@.len() ==> canonical((#[trigger] members@[i]).1@),
            {
                let ghost n = it.index() as int;
                let ghost before = members.deep_view();
                assert(content->Object_0[n] == (member.0@, value_content(member.1)));
                assert(content->Object_0[n].1 == value_content(member.1));
                members.push((member.0, json_from(member.1)));
                assert(members.deep_view() =~= before.push(all[n]));
                assert(all.take(n + 1) =~= all.take(n).push(all[n]));
            }
            assert(members.deep_view() =~= all);
            assert forall|i: int| 0 <= i < all.len() implies canonical((#[trigger] all[i]).1) by {
                assert(canonical(members@[i].1@));
                assert(members.deep_view()[i] == all[i]);
            }
            Json::Object(members)
        },
    }
}

/// Reads a text as a document.
pub fn parse_json(text: &str) -> (r: Option<Json>)
    ensures
        r.deep_view() == document_in(text@),
        r matches Some(json) ==> canonical(json@),
{
    match value_from_text(text) {
        Ok(value) => Some(json_from(value)),
        Err(_) => None,
    }
}

impl Json {
    /// A copy of the document.
    pub fn copy(&self) -> (r: Json)
        ensures
            r@ == self@,
        decreases self@,
    {
        broadcast use {array_view, object_view};

        match self {
            Json::Null => Json::Null,
            Json::Bool(b) => Json::Bool(*b),
            Json::Unsigned(n) => Json::Unsigned(*n),
            Json::Negative(n) => Json::Negative(*n),
            Json::Float(n) => Json::Float(Real::from_number(n.to_number())),
            Json::Text(t) => Json::Text(t.clone()),
            Json::Array(items) => {
                let mut out: Vec<Json> = Vec::new();
                let mut i: usize = 0;
                while i < items.len()
                    invariant
                        self@ == JsonView::Array(items.deep_view()),
                        i <= items@.len(),
                        out@.len() == i,
                        forall|k: int| 0 <= k < i ==> (#[trigger] out@[k])@ == items@[k]@,
                    decreases items.len() - i,
                {
                    assert(self@->Array_0[i as int] == items@[i as int]@);
                    out.push(items[i].copy());
                    i = i + 1;
                }
                assert(out.deep_view() =~= items.deep_view());
                Json::Array(out)
            },
            Json::Object(members) => {
                let mut out: Vec<(String, Json)> = Vec::new();
                let mut i: usize = 0;
                while i < members.len()
                    invariant
                        self@ == JsonView::Object(members.deep_view()),
                        i <= members@.len(),
                        out@.len() == i,
                        forall|k: int|
                            0 <= k < i ==> (#[trigger] out@[k]).0@ == members@[k].0@ && out@[k].1@
                                == members@[k].1@,
                    decreases members.len() - i,
                {
                    assert(self@->Object_0[i as int].1 == members@[i as int].1@);
                    out.push((members[i].0.clone(), members[i].1.copy()));
                    i = i + 1;
                }
                assert(out.deep_view() =~= members.deep_view());
                Json::Object(out)
            },
        }
    }

    fn to_value(&self) -> (r: serde_json::Value)
        requires
            canonical(self@),
        ensures
            value_content(r) == self@,
        decreases self@,
    {
        broadcast use {array_view, object_view};

        match self {
            Json::Null => put_together(Node::Null),
            Json::Bool(b) => put_together(Node::Bool(*b)),
            Json::Unsigned(n) => put_together(Node::Unsigned(*n)),
            Json::Negative(n) => put_together(Node::Negative(*n)),
            Json::Float(n) => put_together(Node::Float(n.to_number())),
            Json::Text(t) => put_together(Node::Text(t.clone())),
            Json::Array(items) => {
                let mut out: Vec<serde_json::Value> = Vec::new();
                let mut i: usize = 0;
                while i < items.len()
                    invariant
                        self@ == JsonView::Array(items.deep_view()),
                        canonical(self@),
                        i <= items@.len(),
                        out@.len() == i,
                        forall|k: int| 0 <= k < i ==> value_content(#[trigger] out@[k]) == items@[k]@,
                    decreases items.len() - i,
                {
                    assert(canonical(self@->Array_0[i as int]));
                    out.push(items[i].to_value());
                    i = i + 1;
                }
                assert(array_content(out@) =~= items.deep_view());
                put_together(Node::Array(out))
            },
            Json::Object(members) => {
                let mut out: Vec<(String, serde_json::Value)> = Vec::new();
                let mut i: usize = 0;
                while i < members.len()
                    invariant
                        self@ == JsonView::Object(members.deep_view()),
                        canonical(self@),
                        i <= members@.len(),
                        out@.len() == i,
                        forall|k: int|
                            0 <= k < i ==> (#[trigger] out@[k]).0@ == members@[k].0@ && value_content(
                                out@[k].1,
                            ) == members@[k].1@,
                    decreases members.len() - i,
                {
                    assert(canonical(self@->Object_0[i as int].1));
                    out.push((members[i].0.clone(), members[i].1.to_value()));
                    i = i + 1;
                }
                assert(object_content(out@) =~= members.deep_view());
                put_together(Node::Object(out))
            },
        }
    }

    /// The compact text of the document.
    pub fn render(&self) -> (r: String)
        requires
            canonical(self@),
        ensures
            r@ == rendered_json(self@),
    {
        value_text(&self.to_value())
    }
}

} // verus!
