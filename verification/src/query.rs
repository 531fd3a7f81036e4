//! Looking into JSON documents and building them.
use vstd::prelude::*;
use crate::json::{array_view, canonical, keys_ascend, object_view, Json, JsonView};
use crate::order::{order_texts, text_order, text_order_laws};
use crate::text::same_text;

verus! {

/// The first member of that key.
pub open spec fn find_member(members: Seq<(Seq<char>, JsonView)>, key: Seq<char>) -> Option<JsonView>
    decreases members.len(),
{
    if members.len() == 0 {
        None
    } else if members[0].0 == key {
        Some(members[0].1)
    } else {
        find_member(members.skip(1), key)
    }
}

/// The member of that key in an object; nothing else has members.
pub open spec fn member(v: JsonView, key: Seq<char>) -> Option<JsonView> {
    match v {
        JsonView::Object(members) => find_member(members, key),
        _ => None,
    }
}

/// The member of that key, where there is a document at all.
pub open spec fn member_of(v: Option<JsonView>, key: Seq<char>) -> Option<JsonView> {
    match v {
        Some(v) => member(v, key),
        None => None,
    }
}

pub open spec fn as_text(v: JsonView) -> Option<Seq<char>> {
    match v {
        JsonView::Text(t) => Some(t),
        _ => None,
    }
}

pub open spec fn text_in(v: Option<JsonView>) -> Option<Seq<char>> {
    match v {
        Some(v) => as_text(v),
        None => None,
    }
}

/// The text under a key.
pub open spec fn member_text(v: JsonView, key: Seq<char>) -> Option<Seq<char>> {
    text_in(member(v, key))
}

pub open spec fn as_items(v: JsonView) -> Option<Seq<JsonView>> {
    match v {
        JsonView::Array(items) => Some(items),
        _ => None,
    }
}

pub open spec fn items_in(v: Option<JsonView>) -> Option<Seq<JsonView>> {
    match v {
        Some(v) => as_items(v),
        None => None,
    }
}

/// The integer that a number is, where an `i64` can hold it.
pub open spec fn as_integer(v: JsonView) -> Option<i64> {
    match v {
        JsonView::Unsigned(n) => if n <= i64::MAX {
            Some(n as i64)
        } else {
            None
        },
        JsonView::Negative(n) => Some(n),
        _ => None,
    }
}

pub open spec fn integer_in(v: Option<JsonView>) -> Option<i64> {
    match v {
        Some(v) => as_integer(v),
        None => None,
    }
}

pub open spec fn as_unsigned(v: JsonView) -> Option<u64> {
    match v {
        JsonView::Unsigned(n) => Some(n),
        _ => None,
    }
}

pub open spec fn as_flag(v: JsonView) -> Option<bool> {
    match v {
        JsonView::Bool(b) => Some(b),
        _ => None,
    }
}

/// The first of two that is there.
pub open spec fn or_else<T>(a: Option<T>, b: Option<T>) -> Option<T> {
    match a {
        Some(_) => a,
        None => b,
    }
}

/// What an option holds, or `other`.
pub open spec fn or_default<T>(a: Option<T>, other: T) -> T {
    match a {
        Some(x) => x,
        None => other,
    }
}

/// A part of a canonical document is canonical.
pub proof fn member_canonical(v: JsonView, key: Seq<char>)
    requires
        canonical(v),
    ensures
        member(v, key) matches Some(m) ==> canonical(m),
{
    if let JsonView::Object(members) = v {
        assert forall|i: int| 0 <= i < members.len() implies canonical((#[trigger] members[i]).1) by {}
        find_member_canonical(members, key);
    }
}

proof fn find_member_canonical(members: Seq<(Seq<char>, JsonView)>, key: Seq<char>)
    requires
        forall|i: int| 0 <= i < members.len() ==> canonical((#[trigger] members[i]).1),
    ensures
        find_member(members, key) matches Some(m) ==> canonical(m),
    decreases members.len(),
{
    if members.len() > 0 {
        assert(canonical(members[0].1));
        let rest = members.skip(1);
        assert forall|i: int| 0 <= i < rest.len() implies canonical((#[trigger] rest[i]).1) by {
            assert(rest[i] == members[i + 1]);
        }
        find_member_canonical(rest, key);
    }
}

proof fn find_member_decreases(members: Seq<(Seq<char>, JsonView)>, key: Seq<char>)
    ensures
        find_member(members, key) matches Some(m) ==> exists|i: int| 0 <= i < members.len() && (#[trigger] members[i]).1 == m,
    decreases members.len(),
{
    if members.len() > 0 {
        if members[0].0 == key {
            assert(members[0].1 == find_member(members, key)->0);
        } else {
            let rest = members.skip(1);
            find_member_decreases(rest, key);
            if let Some(m) = find_member(rest, key) {
                let i = choose|i: int| 0 <= i < rest.len() && (#[trigger] rest[i]).1 == m;
                assert(members[i + 1].1 == m);
            }
        }
    }
}

/// A member is smaller than the document that holds it.
pub proof fn member_decreases(v: JsonView, key: Seq<char>)
    ensures
        member(v, key) matches Some(m) ==> decreases_to!(v => m),
{
    if let JsonView::Object(members) = v {
        find_member_decreases(members, key);
        if let Some(m) = find_member(members, key) {
            let i = choose|i: int| 0 <= i < members.len() && (#[trigger] members[i]).1 == m;
            assert(decreases_to!(v => members));
            assert(decreases_to!(members => members[i]));
            assert(decreases_to!(members[i] => members[i].1));
        }
    }
}

impl Json {
    /// The member of that key in an object.
    pub fn get(&self, key: &str) -> (r: Option<&Json>)
        ensures
            r.deep_view() == member(self@, key@),
    {
        broadcast use object_view;

        match self {
            Json::Object(members) => {
                let ghost all = members.deep_view();
                let mut i: usize = 0;
                assert(all.skip(0) =~= all);
                while i < members.len()
                    invariant
                        i <= members@.len(),
                        all == members.deep_view(),
                        self@ == JsonView::Object(all),
                        find_member(all, key@) == find_member(all.skip(i as int), key@),
                    decreases members.len() - i,
                {
                    assert(all.skip(i as int)[0] == (members@[i as int].0@, members@[i as int].1@));
                    if same_text(members[i].0.as_str(), key) {
                        return Some(&members[i].1);
                    }
                    assert(all.skip(i as int).skip(1) =~= all.skip(i + 1));
                    i = i + 1;
                }
                None
            },
            _ => None,
        }
    }

    pub fn as_str(&self) -> (r: Option<&str>)
        ensures
            r.deep_view() == as_text(self@),
    {
        match self {
            Json::Text(t) => Some(t.as_str()),
            _ => None,
        }
    }

    /// The text under a key.
    pub fn get_str(&self, key: &str) -> (r: Option<&str>)
        ensures
            r.deep_view() == member_text(self@, key@),
    {
        match self.get(key) {
            Some(v) => v.as_str(),
            None => None,
        }
    }

    pub fn as_array(&self) -> (r: Option<&Vec<Json>>)
        ensures
            r.deep_view() == as_items(self@),
    {
        broadcast use array_view;

        match self {
            Json::Array(items) => Some(items),
            _ => None,
        }
    }

    pub fn as_i64(&self) -> (r: Option<i64>)
        ensures
            r == as_integer(self@),
    {
        match self {
            Json::Unsigned(n) => if *n <= 0x7fff_ffff_ffff_ffff {
                Some(*n as i64)
            } else {
                None
            },
            Json::Negative(n) => Some(*n),
            _ => None,
        }
    }

    pub fn as_u64(&self) -> (r: Option<u64>)
        ensures
            r == as_unsigned(self@),
    {
        match self {
            Json::Unsigned(n) => Some(*n),
            _ => None,
        }
    }

    pub fn as_bool(&self) -> (r: Option<bool>)
        ensures
            r == as_flag(self@),
    {
        match self {
            Json::Bool(b) => Some(*b),
            _ => None,
        }
    }

    pub fn is_null(&self) -> (r: bool)
        ensures
            r == (self@ is Null),
    {
        match self {
            Json::Null => true,
            _ => false,
        }
    }

    pub fn is_object(&self) -> (r: bool)
        ensures
            r == (self@ is Object),
    {
        match self {
            Json::Object(_) => true,
            _ => false,
        }
    }
}

/// A text as a document.
pub fn text_json(text: &str) -> (r: Json)
    ensures
        r@ == JsonView::Text(text@),
{
    Json::Text(text.to_owned())
}

/// A text or null.
pub open spec fn nullable_text(text: Option<Seq<char>>) -> JsonView {
    match text {
        Some(t) => JsonView::Text(t),
        None => JsonView::Null,
    }
}

pub fn nullable_text_json(text: &Option<String>) -> (r: Json)
    ensures
        r@ == nullable_text(text.deep_view()),
{
    match text {
        Some(t) => text_json(t.as_str()),
        None => Json::Null,
    }
}

/// An integer as a document.
pub open spec fn integer_view(n: int) -> JsonView {
    if n >= 0 {
        JsonView::Unsigned(n as u64)
    } else {
        JsonView::Negative(n as i64)
    }
}

pub fn integer_json(n: i64) -> (r: Json)
    ensures
        r@ == integer_view(n as int),
{
    if n >= 0 {
        Json::Unsigned(n as u64)
    } else {
        Json::Negative(n)
    }
}

pub open spec fn nullable_integer(n: Option<i64>) -> JsonView {
    match n {
        Some(n) => integer_view(n as int),
        None => JsonView::Null,
    }
}

pub fn nullable_integer_json(n: Option<i64>) -> (r: Json)
    ensures
        r@ == nullable_integer(n),
{
    match n {
        Some(n) => integer_json(n),
        None => Json::Null,
    }
}

/// Puts a member behind those of an object that is being built.
pub fn put(members: &mut Vec<(String, Json)>, key: &str, value: Json)
    ensures
        final(members).deep_view() == old(members).deep_view().push((key@, value@)),
{
    let ghost before = members.deep_view();
    members.push((key.to_owned(), value));
    assert(members.deep_view() =~= before.push((key@, value@)));
}

/// An object of these members.
pub fn object(members: Vec<(String, Json)>) -> (r: Json)
    ensures
        r@ == JsonView::Object(members.deep_view()),
{
    proof {
        object_view(members);
    }
    Json::Object(members)
}

/// The members with `key` set to `value`: in place where the key is there,
/// before the first greater key where it is not.
pub open spec fn with_member(
    members: Seq<(Seq<char>, JsonView)>,
    key: Seq<char>,
    value: JsonView,
) -> Seq<(Seq<char>, JsonView)>
    decreases members.len(),
{
    if members.len() == 0 {
        seq![(key, value)]
    } else if members[0].0 == key {
        seq![(key, value)] + members.skip(1)
    } else if text_order(key, members[0].0) < 0 {
        seq![(key, value)] + members
    } else {
        seq![members[0]] + with_member(members.skip(1), key, value)
    }
}

/// Setting a member makes it what is read under its key and changes no other.
pub proof fn with_member_reads_back(
    members: Seq<(Seq<char>, JsonView)>,
    key: Seq<char>,
    value: JsonView,
    other: Seq<char>,
)
    ensures
        find_member(with_member(members, key, value), key) == Some(value),
        other != key ==> find_member(with_member(members, key, value), other) == find_member(
            members,
            other,
        ),
    decreases members.len(),
{
    let r = with_member(members, key, value);
    if members.len() == 0 {
        assert(r.skip(1) =~= members);
    } else if members[0].0 == key {
        assert(r.skip(1) =~= members.skip(1));
    } else if text_order(key, members[0].0) < 0 {
        assert(r.skip(1) =~= members);
    } else {
        with_member_reads_back(members.skip(1), key, value, other);
        assert(r.skip(1) =~= with_member(members.skip(1), key, value));
    }
}

/// Members in order of their keys stay so when one is set, and canonical ones
/// stay canonical.
pub proof fn with_member_canonical(members: Seq<(Seq<char>, JsonView)>, key: Seq<char>, value: JsonView)
    requires
        canonical(JsonView::Object(members)),
        canonical(value),
    ensures
        canonical(JsonView::Object(with_member(members, key, value))),
        forall|i: int|
            0 <= i < with_member(members, key, value).len() ==> (#[trigger] with_member(members, key, value)[i]).0
                == key || exists|k: int|
                0 <= k < members.len() && (#[trigger] members[k]).0 == with_member(members, key, value)[i].0,
    decreases members.len(),
{
    text_order_laws();
    let order = |a: Seq<char>, b: Seq<char>| text_order(a, b);
    let r = with_member(members, key, value);
    assert forall|a: Seq<char>, b: Seq<char>, c: Seq<char>|
        #[trigger] text_order(a, b) < 0 && #[trigger] text_order(b, c) < 0 implies text_order(a, c) < 0 by {
        assert(order(a, b) <= 0 && order(b, c) <= 0);
        if order(a, c) == 0 {
            assert(order(b, c) == -order(c, b));
        }
    }
    if members.len() > 0 {
        let rest = members.skip(1);
        assert forall|k: int| 0 <= k < rest.len() implies #[trigger] rest[k] == members[k + 1] by {}
        assert(canonical(JsonView::Object(rest)));
        if members[0].0 == key {
            assert forall|i: int| 0 <= i < r.len() implies canonical((#[trigger] r[i]).1) && (r[i].0 == key || exists|k: int|
                0 <= k < members.len() && (#[trigger] members[k]).0 == r[i].0) by {
                if i > 0 {
                    assert(r[i] == members[i]);
                }
            }
            assert(keys_ascend(r)) by {
                assert forall|i: int, j: int| 0 <= i < j < r.len() implies text_order(
                    (#[trigger] r[i]).0,
                    (#[trigger] r[j]).0,
                ) < 0 by {
                    assert(r[i].0 == members[i].0 && r[j].0 == members[j].0);
                }
            }
        } else if text_order(key, members[0].0) < 0 {
            assert forall|i: int| 0 <= i < r.len() implies canonical((#[trigger] r[i]).1) && (r[i].0 == key || exists|k: int|
                0 <= k < members.len() && (#[trigger] members[k]).0 == r[i].0) by {
                if i > 0 {
                    assert(r[i] == members[i - 1]);
                }
            }
            assert(keys_ascend(r)) by {
                assert forall|i: int, j: int| 0 <= i < j < r.len() implies text_order(
                    (#[trigger] r[i]).0,
                    (#[trigger] r[j]).0,
                ) < 0 by {
                    assert(r[j] == members[j - 1]);
                    if i > 0 {
                        assert(r[i] == members[i - 1]);
                    } else if j > 1 {
                        assert(text_order(members[0].0, members[j - 1].0) < 0);
                    }
                }
            }
        } else {
            with_member_canonical(rest, key, value);
            let inner = with_member(rest, key, value);
            assert(order(key, members[0].0) == -order(members[0].0, key));
            assert(text_order(members[0].0, key) < 0);
            assert forall|i: int| 0 <= i < r.len() implies canonical((#[trigger] r[i]).1) && (r[i].0 == key || exists|k: int|
                0 <= k < members.len() && (#[trigger] members[k]).0 == r[i].0) by {
                if i > 0 {
                    assert(r[i] == inner[i - 1]);
                    if inner[i - 1].0 != key {
                        let k = choose|k: int| 0 <= k < rest.len() && (#[trigger] rest[k]).0 == inner[i - 1].0;
                        assert(members[k + 1].0 == r[i].0);
                    }
                } else {
                    assert(r[0] == members[0]);
                }
            }
            assert(keys_ascend(r)) by {
                assert forall|i: int, j: int| 0 <= i < j < r.len() implies text_order(
                    (#[trigger] r[i]).0,
                    (#[trigger] r[j]).0,
                ) < 0 by {
                    assert(r[j] == inner[j - 1]);
                    if i > 0 {
                        assert(r[i] == inner[i - 1]);
                    } else if inner[j - 1].0 != key {
                        let k = choose|k: int| 0 <= k < rest.len() && (#[trigger] rest[k]).0 == inner[j - 1].0;
                        assert(text_order(members[0].0, members[k + 1].0) < 0);
                    }
                }
            }
        }
    } else {
        assert(keys_ascend(r));
    }
}

/// Sets a member of an object.
pub fn assign(members: &mut Vec<(String, Json)>, key: &str, value: Json)
    ensures
        final(members).deep_view() == with_member(old(members).deep_view(), key@, value@),
{
    let ghost all = members.deep_view();
    let mut i: usize = 0;
    assert(all.skip(0) =~= all);
    assert(all.take(0) + with_member(all, key@, value@) =~= with_member(all, key@, value@));
    while i < members.len()
        invariant
            i <= members@.len(),
            all == members.deep_view(),
            all == old(members).deep_view(),
            with_member(all, key@, value@) == all.take(i as int) + with_member(
                all.skip(i as int),
                key@,
                value@,
            ),
        decreases members.len() - i,
    {
        let ghost rest = all.skip(i as int);
        assert(rest[0] == (members@[i as int].0@, members@[i as int].1@));
        if same_text(members[i].0.as_str(), key) {
            members.remove(i);
            members.insert(i, (key.to_owned(), value));
            assert(members.deep_view() =~= all.take(i as int) + (seq![(key@, value@)] + rest.skip(1)));
            return;
        }
        if order_texts(key, members[i].0.as_str()) < 0 {
            members.insert(i, (key.to_owned(), value));
            assert(members.deep_view() =~= all.take(i as int) + (seq![(key@, value@)] + rest));
            return;
        }
        proof {
            assert(rest.skip(1) =~= all.skip(i + 1));
            assert(all.take(i as int) + (seq![rest[0]] + with_member(rest.skip(1), key@, value@))
                =~= all.take(i + 1) + with_member(all.skip(i + 1), key@, value@));
        }
        i = i + 1;
    }
    proof {
        assert(all.skip(i as int) =~= Seq::<(Seq<char>, JsonView)>::empty());
        assert(all.take(i as int) =~= all);
    }
    members.push((key.to_owned(), value));
    assert(members.deep_view() =~= all + seq![(key@, value@)]);
}

/// The members without the first of that key.
pub open spec fn without_member(members: Seq<(Seq<char>, JsonView)>, key: Seq<char>) -> Seq<
    (Seq<char>, JsonView),
>
    decreases members.len(),
{
    if members.len() == 0 {
        members
    } else if members[0].0 == key {
        members.skip(1)
    } else {
        seq![members[0]] + without_member(members.skip(1), key)
    }
}

/// Removes a member of an object.
pub fn unset(members: &mut Vec<(String, Json)>, key: &str)
    ensures
        final(members).deep_view() == without_member(old(members).deep_view(), key@),
{
    let ghost all = members.deep_view();
    let mut i: usize = 0;
    assert(all.skip(0) =~= all);
    assert(all.take(0) + without_member(all, key@) =~= without_member(all, key@));
    while i < members.len()
        invariant
            i <= members@.len(),
            all == members.deep_view(),
            all == old(members).deep_view(),
            without_member(all, key@) == all.take(i as int) + without_member(all.skip(i as int), key@),
        decreases members.len() - i,
    {
        let ghost rest = all.skip(i as int);
        assert(rest[0] == (members@[i as int].0@, members@[i as int].1@));
        if same_text(members[i].0.as_str(), key) {
            members.remove(i);
            assert(members.deep_view() =~= all.take(i as int) + rest.skip(1));
            return;
        }
        proof {
            assert(rest.skip(1) =~= all.skip(i + 1));
            assert(all.take(i as int) + (seq![rest[0]] + without_member(rest.skip(1), key@)) =~= all.take(
                i + 1,
            ) + without_member(all.skip(i + 1), key@));
        }
        i = i + 1;
    }
    proof {
        assert(all.skip(i as int) =~= Seq::<(Seq<char>, JsonView)>::empty());
        assert(all.take(i as int) =~= all);
        assert(all.take(i as int) + without_member(all.skip(i as int), key@) =~= all);
    }
}

/// A document with a member set; what is no object stays as it is.
pub open spec fn with_field(v: JsonView, key: Seq<char>, value: JsonView) -> JsonView {
    match v {
        JsonView::Object(members) => JsonView::Object(with_member(members, key, value)),
        _ => v,
    }
}

pub fn set_field(v: Json, key: &str, value: Json) -> (r: Json)
    ensures
        r@ == with_field(v@, key@, value@),
{
    broadcast use object_view;

    match v {
        Json::Object(members) => {
            let mut all = members;
            assign(&mut all, key, value);
            Json::Object(all)
        },
        other => other,
    }
}

/// A copy of a text that is there.
pub fn owned(text: Option<&str>) -> (r: Option<String>)
    ensures
        r.deep_view() == text.deep_view(),
{
    match text {
        Some(t) => Some(t.to_owned()),
        None => None,
    }
}

/// A copy of a document that is there.
pub fn copied(v: Option<&Json>) -> (r: Option<Json>)
    ensures
        r.deep_view() == v.deep_view(),
{
    match v {
        Some(v) => Some(v.copy()),
        None => None,
    }
}

/// The first of two documents that is there.
pub fn either<'a>(a: Option<&'a Json>, b: Option<&'a Json>) -> (r: Option<&'a Json>)
    ensures
        r.deep_view() == or_else(a.deep_view(), b.deep_view()),
{
    match a {
        Some(_) => a,
        None => b,
    }
}

/// The member of a document that is there.
pub fn get_in<'a>(v: Option<&'a Json>, key: &str) -> (r: Option<&'a Json>)
    ensures
        r.deep_view() == member_of(v.deep_view(), key@),
{
    match v {
        Some(v) => v.get(key),
        None => None,
    }
}

/// The text of a document that is there.
pub fn str_in<'a>(v: Option<&'a Json>) -> (r: Option<&'a str>)
    ensures
        r.deep_view() == text_in(v.deep_view()),
{
    match v {
        Some(v) => v.as_str(),
        None => None,
    }
}

/// The integer of a document that is there.
pub fn i64_in(v: Option<&Json>) -> (r: Option<i64>)
    ensures
        r == integer_in(v.deep_view()),
{
    match v {
        Some(v) => v.as_i64(),
        None => None,
    }
}

/// A text, or another in its place.
pub fn str_or<'a>(text: Option<&'a str>, other: &'a str) -> (r: &'a str)
    ensures
        r@ == or_default(text.deep_view(), other@),
{
    match text {
        Some(t) => t,
        None => other,
    }
}

/// Whether a text is there and is that one.
pub fn is_text(text: Option<&str>, wanted: &str) -> (r: bool)
    ensures
        r == (text.deep_view() == Some(wanted@)),
{
    match text {
        Some(t) => same_text(t, wanted),
        None => false,
    }
}

/// Members with a text that is there.
pub open spec fn with_text(members: Seq<(Seq<char>, JsonView)>, key: Seq<char>, t: Option<Seq<char>>) -> Seq<
    (Seq<char>, JsonView),
> {
    match t {
        Some(t) => with_member(members, key, JsonView::Text(t)),
        None => members,
    }
}

pub fn assign_text(members: &mut Vec<(String, Json)>, key: &str, t: Option<&str>)
    ensures
        final(members).deep_view() == with_text(old(members).deep_view(), key@, t.deep_view()),
{
    if let Some(t) = t {
        assign(members, key, text_json(t));
    }
}

pub fn text_ref<'a>(t: &'a Option<String>) -> (r: Option<&'a str>)
    ensures
        r.deep_view() == t.deep_view(),
{
    match t {
        Some(t) => Some(t.as_str()),
        None => None,
    }
}

/// What is read under a key is the value of the first member of that key: none where no
/// member has the key, and none of what is no object.
pub proof fn member_is_the_first_of_its_key(v: JsonView, members: Seq<(Seq<char>, JsonView)>, key: Seq<char>, n: int)
    requires
        0 <= n <= members.len(),
        forall|i: int| 0 <= i < n ==> (#[trigger] members[i]).0 != key,
        n < members.len() ==> members[n].0 == key,
    ensures
        n < members.len() ==> member(JsonView::Object(members), key) == Some(members[n].1),
        n == members.len() ==> member(JsonView::Object(members), key) is None,
        !(v is Object) ==> member(v, key) is None,
    decreases members.len(),
{
    if n > 0 {
        let rest = members.skip(1);
        assert(members[0].0 != key);
        assert forall|i: int| 0 <= i < n - 1 implies (#[trigger] rest[i]).0 != key by {
            assert(members[i + 1].0 != key);
        }
        member_is_the_first_of_its_key(v, rest, key, n - 1);
    }
}

/// A text under a key is what that member says, and none where it is missing or no text.
pub proof fn member_text_is_the_text(v: JsonView, key: Seq<char>, t: Seq<char>)
    ensures
        member(v, key) == Some(JsonView::Text(t)) ==> member_text(v, key) == Some(t),
        member_text(v, key) is None <==> !(member(v, key) matches Some(JsonView::Text(_))),
{
}

/// Removing a member leaves the others as they were, and nothing under its key where no
/// key comes twice.
pub proof fn without_member_reads_back(members: Seq<(Seq<char>, JsonView)>, key: Seq<char>, other: Seq<char>)
    ensures
        other != key ==> find_member(without_member(members, key), other) == find_member(members, other),
        canonical(JsonView::Object(members)) ==> find_member(without_member(members, key), key) is None,
    decreases members.len(),
{
    if members.len() > 0 {
        let rest = members.skip(1);
        without_member_reads_back(rest, key, other);
        if members[0].0 == key {
            if canonical(JsonView::Object(members)) {
                crate::order::text_order_laws();
                let text = |a: Seq<char>, b: Seq<char>| crate::order::text_order(a, b);
                assert forall|i: int| 0 <= i < rest.len() implies (#[trigger] rest[i]).0 != key by {
                    assert(text(members[0].0, members[i + 1].0) < 0);
                    assert(text(key, key) == 0);
                }
                member_is_the_first_of_its_key(JsonView::Null, rest, key, rest.len() as int);
            }
        } else {
            let less = without_member(members, key);
            assert(less.skip(1) =~= without_member(rest, key));
            if canonical(JsonView::Object(members)) {
                assert(canonical(JsonView::Object(rest))) by {
                    assert forall|i: int, j: int| 0 <= i < j < rest.len() implies crate::order::text_order(
                        (#[trigger] rest[i]).0,
                        (#[trigger] rest[j]).0,
                    ) < 0 by {
                        assert(crate::order::text_order(members[i + 1].0, members[j + 1].0) < 0);
                    }
                    assert forall|i: int| 0 <= i < rest.len() implies canonical((#[trigger] rest[i]).1) by {
                        assert(canonical(members[i + 1].1));
                    }
                }
            }
        }
    }
}

/// A number that is an integer is read as that integer, and as none where it is too large.
pub proof fn integers_are_read(n: int)
    ensures
        0 <= n <= i64::MAX ==> as_integer(JsonView::Unsigned(n as u64)) == Some(n as i64),
        i64::MAX < n <= u64::MAX ==> as_integer(JsonView::Unsigned(n as u64)) is None,
        i64::MIN <= n < 0 ==> as_integer(JsonView::Negative(n as i64)) == Some(n as i64),
        i64::MIN <= n <= i64::MAX ==> as_integer(integer_view(n)) == Some(n as i64),
{
}

/// What is read of a document is read of one that is there, and nothing of one that is not.
pub proof fn missing_documents_hold_nothing(v: JsonView, key: Seq<char>, t: Seq<char>, items: Seq<JsonView>)
    ensures
        member_of(Some(v), key) == member(v, key),
        member_of(None, key) is None,
        text_in(Some(JsonView::Text(t))) == Some(t),
        text_in(None) is None,
        !(v is Text) ==> text_in(Some(v)) is None,
        items_in(Some(JsonView::Array(items))) == Some(items),
        items_in(None) is None,
        !(v is Array) ==> items_in(Some(v)) is None,
        integer_in(Some(v)) == as_integer(v),
        integer_in(None) is None,
{
}

/// Of two that may be missing the first that is there is taken, and what is missing gives way
/// to another.
pub proof fn first_of_two_is_taken<T>(a: T, b: Option<T>, c: T)
    ensures
        or_else(Some(a), b) == Some(a),
        or_else(None, b) == b,
        or_default(Some(a), c) == a,
        or_default(None, c) == c,
{
}

/// A text or an integer is written as it is, and as null where it is missing.
pub proof fn missing_values_are_null(t: Seq<char>, n: i64)
    ensures
        nullable_text(Some(t)) == JsonView::Text(t),
        nullable_text(None) == JsonView::Null,
        n >= 0 ==> nullable_integer(Some(n)) == JsonView::Unsigned(n as u64),
        n < 0 ==> nullable_integer(Some(n)) == JsonView::Negative(n),
        nullable_integer(None) == JsonView::Null,
{
}

/// A field of an object that is set reads back, and the others stay; what is no object has
/// none.
pub proof fn fields_read_back(v: JsonView, key: Seq<char>, value: JsonView, other: Seq<char>)
    ensures
        v is Object ==> member(with_field(v, key, value), key) == Some(value),
        v is Object && other != key ==> member(with_field(v, key, value), other) == member(v, other),
        !(v is Object) ==> with_field(v, key, value) == v,
        forall|members: Seq<(Seq<char>, JsonView)>, t: Seq<char>|
            #[trigger] with_text(members, key, Some(t)) == with_member(members, key, JsonView::Text(t)),
        forall|members: Seq<(Seq<char>, JsonView)>| #[trigger] with_text(members, key, None) == members,
{
    if let JsonView::Object(members) = v {
        with_member_reads_back(members, key, value, other);
    }
}

} // verus!
