//! Records that are stored as JSON: an object whose members are the fields, or a list of
//! the fields in their order.
//!
//! A field may go by several names, but is given once: a record that gives one twice is
//! none. What is no field of the record is passed over, whatever it holds. A field that
//! may be missing reads as `Some(None)` where it is missing or null, and as `None` where
//! what stands there is of another type.
use vstd::prelude::*;
use crate::json::{array_view, canonical, document_in, parse_json, Json, JsonView};
use crate::query::as_integer;
use crate::text::{blank, cat3, chars_of, is_blank, join, same_text, text_of, trim, trimmed};

verus! {

/// Whether a text is a document, as `serde_json` judges it without reading its values.
pub uninterp spec fn well_formed(text: Seq<char>) -> bool;

/// `serde_json::from_str` into `serde::de::IgnoredAny`: whether a text is a document. The
/// values in it are not read, so that a number may be of any size.
#[verifier::external_body]
fn is_document(text: &str) -> (r: bool)
    ensures
        r == well_formed(text@),
{
    serde_json::from_str::<serde::de::IgnoredAny>(text).is_ok()
}

/// Where in a document a place stands: how many brackets deep, and whether in a string
/// or behind a backslash there.
#[verifier::ext_equal]
pub struct Nesting {
    pub depth: int,
    pub quoted: bool,
    pub escaped: bool,
}

/// The place behind a character.
pub open spec fn nested(n: Nesting, c: char) -> Nesting {
    if n.quoted {
        if n.escaped {
            Nesting { escaped: false, ..n }
        } else if c == '\\' {
            Nesting { escaped: true, ..n }
        } else if c == '"' {
            Nesting { quoted: false, ..n }
        } else {
            n
        }
    } else if c == '"' {
        Nesting { quoted: true, ..n }
    } else if c == '{' || c == '[' {
        Nesting { depth: n.depth + 1, ..n }
    } else if c == '}' || c == ']' {
        Nesting { depth: n.depth - 1, ..n }
    } else {
        n
    }
}

/// The place behind a text.
pub open spec fn nesting(s: Seq<char>) -> Nesting
    decreases s.len(),
{
    if s.len() == 0 {
        Nesting { depth: 0, quoted: false, escaped: false }
    } else {
        nested(nesting(s.drop_last()), s.last())
    }
}

/// Whether a place is in no bracket and in no string.
pub open spec fn is_outside(n: Nesting) -> bool {
    n.depth == 0 && !n.quoted
}

/// The pieces of a text between the separators that stand in no bracket and in no
/// string.
pub open spec fn outer_pieces(s: Seq<char>, sep: char) -> Seq<Seq<char>>
    decreases s.len(),
{
    if s.len() == 0 {
        seq![s]
    } else {
        let front = outer_pieces(s.drop_last(), sep);
        if s.last() == sep && is_outside(nesting(s.drop_last())) {
            front.push(Seq::empty())
        } else {
            front.drop_last().push(front.last().push(s.last()))
        }
    }
}

/// The pieces of a text between the separators that stand in no bracket and in no
/// string.
pub fn split_outside(text: &str, sep: char) -> (r: Vec<String>)
    ensures
        r.deep_view() == outer_pieces(text@, sep),
        r@.len() > 0,
{
    let chars = chars_of(text);
    let ghost all = text@;
    let mut out: Vec<String> = Vec::new();
    let mut piece = String::new();
    let mut depth: i128 = 0;
    let mut quoted = false;
    let mut escaped = false;
    let mut i: usize = 0;
    assert(all.take(0) =~= Seq::empty());
    assert(out.deep_view().push(piece@) =~= outer_pieces(all.take(0), sep));
    while i < chars.len()
        invariant
            i <= chars@.len(),
            chars@ == all,
            -i <= depth <= i,
            nesting(all.take(i as int)) == (Nesting { depth: depth as int, quoted, escaped }),
            out.deep_view().push(piece@) == outer_pieces(all.take(i as int), sep),
        decreases chars.len() - i,
    {
        let c = chars[i];
        let ghost before = out.deep_view();
        let ghost held = piece@;
        assert(all.take(i + 1).drop_last() =~= all.take(i as int));
        assert(all.take(i + 1).last() == c);
        assert(before.push(held).last() == held);
        assert(before.push(held).drop_last() =~= before);
        if c == sep && depth == 0 && !quoted {
            out.push(piece);
            piece = String::new();
            assert(out.deep_view() =~= before.push(held));
            assert(piece@ =~= Seq::empty());
        } else {
            piece.push(c);
        }
        assert(out.deep_view().push(piece@) =~= outer_pieces(all.take(i + 1), sep));
        if quoted {
            if escaped {
                escaped = false;
            } else if c == '\\' {
                escaped = true;
            } else if c == '"' {
                quoted = false;
            }
        } else if c == '"' {
            quoted = true;
        } else if c == '{' || c == '[' {
            depth = depth + 1;
        } else if c == '}' || c == ']' {
            depth = depth - 1;
        }
        i = i + 1;
    }
    let ghost before = out.deep_view();
    let ghost held = piece@;
    assert(all.take(all.len() as int) =~= all);
    out.push(piece);
    assert(out.deep_view() =~= before.push(held));
    out
}

/// A record by the texts of its fields.
pub enum Record {
    /// Fields under their names, as they come.
    Named(Vec<(String, String)>),
    /// Fields in their order.
    Listed(Vec<String>),
}

pub enum RecordView {
    Named(Seq<(Seq<char>, Seq<char>)>),
    Listed(Seq<Seq<char>>),
}

impl DeepView for Record {
    type V = RecordView;

    open spec fn deep_view(&self) -> RecordView {
        match self {
            Record::Named(fields) => RecordView::Named(fields.deep_view()),
            Record::Listed(fields) => RecordView::Listed(fields.deep_view()),
        }
    }
}

/// The name and the text of a member: none where the name is no text.
pub open spec fn member_of_piece(piece: Seq<char>) -> Option<(Seq<char>, Seq<char>)> {
    let parts = outer_pieces(piece, ':');
    if parts.len() != 2 {
        None
    } else {
        match document_in(parts[0]) {
            Some(JsonView::Text(name)) => Some((name, parts[1])),
            _ => None,
        }
    }
}

/// The members that pieces hold: none where one of them is no member.
pub open spec fn members_of_pieces(pieces: Seq<Seq<char>>) -> Option<Seq<(Seq<char>, Seq<char>)>>
    decreases pieces.len(),
{
    if pieces.len() == 0 {
        Some(Seq::empty())
    } else {
        match (members_of_pieces(pieces.drop_last()), member_of_piece(pieces.last())) {
            (Some(front), Some(member)) => Some(front.push(member)),
            _ => None,
        }
    }
}

/// The pieces between the brackets of a text.
pub open spec fn pieces_within(s: Seq<char>) -> Seq<Seq<char>> {
    let inner = s.subrange(1, s.len() - 1);
    if blank(inner) {
        Seq::empty()
    } else {
        outer_pieces(inner, ',')
    }
}

/// The record that a document's text holds: none where it is neither an object nor a
/// list.
pub open spec fn record_of(text: Seq<char>) -> Option<RecordView> {
    let s = trim(text);
    if s.len() < 2 {
        None
    } else if s[0] == '{' {
        match members_of_pieces(pieces_within(s)) {
            Some(members) => Some(RecordView::Named(members)),
            None => None,
        }
    } else if s[0] == '[' {
        Some(RecordView::Listed(pieces_within(s)))
    } else {
        None
    }
}

/// The record that a text holds: none where the text is no document.
pub open spec fn record_in(text: Seq<char>) -> Option<RecordView> {
    if well_formed(text) {
        record_of(text)
    } else {
        None
    }
}

fn split_member(piece: &str) -> (r: Option<(String, String)>)
    ensures
        r.deep_view() == member_of_piece(piece@),
{
    let parts = split_outside(piece, ':');
    if parts.len() != 2 {
        return None;
    }
    assert(parts.deep_view()[0] == parts@[0]@);
    assert(parts.deep_view()[1] == parts@[1]@);
    match parse_json(parts[0].as_str()) {
        Some(Json::Text(name)) => Some((name, parts[1].clone())),
        _ => None,
    }
}

proof fn failed_members_stay(pieces: Seq<Seq<char>>, n: int)
    requires
        0 <= n <= pieces.len(),
        members_of_pieces(pieces.take(n)) is None,
    ensures
        members_of_pieces(pieces) is None,
    decreases pieces.len() - n,
{
    if n < pieces.len() {
        assert(pieces.take(n + 1).drop_last() =~= pieces.take(n));
        failed_members_stay(pieces, n + 1);
    } else {
        assert(pieces.take(n) =~= pieces);
    }
}

fn split_members(pieces: &Vec<String>) -> (r: Option<Vec<(String, String)>>)
    ensures
        r.deep_view() == members_of_pieces(pieces.deep_view()),
{
    let ghost all = pieces.deep_view();
    let mut out: Vec<(String, String)> = Vec::new();
    let mut i: usize = 0;
    assert(all.take(0) =~= Seq::empty());
    assert(out.deep_view() =~= Seq::empty());
    while i < pieces.len()
        invariant
            i <= pieces@.len(),
            all == pieces.deep_view(),
            members_of_pieces(all.take(i as int)) == Some(out.deep_view()),
        decreases pieces.len() - i,
    {
        let ghost before = out.deep_view();
        assert(all.take(i + 1).drop_last() =~= all.take(i as int));
        assert(all.take(i + 1).last() == pieces@[i as int]@);
        match split_member(pieces[i].as_str()) {
            Some(member) => {
                let ghost seen = member.deep_view();
                out.push(member);
                assert(out.deep_view() =~= before.push(seen));
            },
            None => {
                proof {
                    failed_members_stay(all, i + 1);
                }
                return None;
            },
        }
        i = i + 1;
    }
    assert(all.take(all.len() as int) =~= all);
    Some(out)
}

/// The record that a document's text holds.
pub fn read_document(text: &str) -> (r: Option<Record>)
    ensures
        r.deep_view() == record_of(text@),
{
    let s = trimmed(text);
    let chars = chars_of(s.as_str());
    let n = chars.len();
    if n < 2 {
        return None;
    }
    let named = chars[0] == '{';
    if !named && chars[0] != '[' {
        return None;
    }
    let inner = text_of(&chars, 1, n - 1);
    let pieces = if is_blank(inner.as_str()) {
        let none: Vec<String> = Vec::new();
        assert(none.deep_view() =~= Seq::empty());
        none
    } else {
        split_outside(inner.as_str(), ',')
    };
    if named {
        match split_members(&pieces) {
            Some(members) => Some(Record::Named(members)),
            None => None,
        }
    } else {
        Some(Record::Listed(pieces))
    }
}

/// The record that a text holds.
pub fn read_record(text: &str) -> (r: Option<Record>)
    ensures
        r.deep_view() == record_in(text@),
{
    if is_document(text) {
        read_document(text)
    } else {
        None
    }
}

/// Whether a record has no more than so many fields, where they are given in order.
pub open spec fn fits(r: RecordView, fields: int) -> bool {
    match r {
        RecordView::Named(_) => true,
        RecordView::Listed(all) => all.len() <= fields,
    }
}

/// The texts that are given under one of these names.
pub open spec fn given_under(members: Seq<(Seq<char>, Seq<char>)>, names: Seq<Seq<char>>) -> Seq<Seq<char>>
    decreases members.len(),
{
    if members.len() == 0 {
        Seq::empty()
    } else {
        let front = given_under(members.drop_last(), names);
        if names.contains(members.last().0) {
            front.push(members.last().1)
        } else {
            front
        }
    }
}

/// The text of a field that goes by these names and stands at that place: `Some(None)`
/// where it is not given, and `None` where it is given twice.
pub open spec fn field_text(r: RecordView, names: Seq<Seq<char>>, place: int) -> Option<Option<Seq<char>>> {
    match r {
        RecordView::Named(members) => {
            let given = given_under(members, names);
            if given.len() == 0 {
                Some(None)
            } else if given.len() == 1 {
                Some(Some(given[0]))
            } else {
                None
            }
        },
        RecordView::Listed(all) => if 0 <= place < all.len() {
            Some(Some(all[place]))
        } else {
            Some(None)
        },
    }
}

/// The value of a field, no deeper than it may stand in a record: none where its text is
/// no document.
pub open spec fn value_of_text(text: Seq<char>) -> Option<JsonView> {
    match document_in("["@ + text + "]"@) {
        Some(JsonView::Array(items)) => if items.len() == 1 {
            Some(items[0])
        } else {
            None
        },
        _ => None,
    }
}

/// The value of a field: `Some(None)` where it is not given, and `None` where it is
/// given twice or cannot be read.
pub open spec fn field_value(r: RecordView, names: Seq<Seq<char>>, place: int) -> Option<Option<JsonView>> {
    match field_text(r, names, place) {
        None => None,
        Some(None) => Some(None),
        Some(Some(text)) => match value_of_text(text) {
            Some(v) => Some(Some(v)),
            None => None,
        },
    }
}

pub open spec fn optional_text(v: Option<JsonView>) -> Option<Option<Seq<char>>> {
    match v {
        None => Some(None),
        Some(JsonView::Null) => Some(None),
        Some(JsonView::Text(t)) => Some(Some(t)),
        Some(_) => None,
    }
}

pub open spec fn optional_integer(v: Option<JsonView>) -> Option<Option<i64>> {
    match v {
        None => Some(None),
        Some(JsonView::Null) => Some(None),
        Some(v) => match as_integer(v) {
            Some(n) => Some(Some(n)),
            None => None,
        },
    }
}

/// A text in a field, if the record may do without it.
pub open spec fn text_in_field(r: RecordView, name: Seq<char>, place: int) -> Option<Option<Seq<char>>> {
    text_in_fields(r, seq![name], place)
}

/// A text in a field of several names, if the record may do without it.
pub open spec fn text_in_fields(r: RecordView, names: Seq<Seq<char>>, place: int) -> Option<Option<Seq<char>>> {
    match field_value(r, names, place) {
        Some(v) => optional_text(v),
        None => None,
    }
}

/// An integer in a field, if the record may do without it.
pub open spec fn integer_in_field(r: RecordView, names: Seq<Seq<char>>, place: int) -> Option<Option<i64>> {
    match field_value(r, names, place) {
        Some(v) => optional_integer(v),
        None => None,
    }
}

/// A text that a record must have.
pub open spec fn required_text(r: RecordView, name: Seq<char>, place: int) -> Option<Seq<char>> {
    match field_value(r, seq![name], place) {
        Some(Some(JsonView::Text(t))) => Some(t),
        _ => None,
    }
}

/// A record in a field, if the record around it may do without it.
pub open spec fn record_in_field(r: RecordView, name: Seq<char>, place: int) -> Option<Option<RecordView>> {
    match field_text(r, seq![name], place) {
        None => None,
        Some(None) => Some(None),
        Some(Some(text)) => if trim(text) == "null"@ {
            Some(None)
        } else {
            match record_in(text) {
                Some(inner) => Some(Some(inner)),
                None => None,
            }
        },
    }
}

fn is_among(name: &str, names: &Vec<&str>) -> (r: bool)
    ensures
        r == names.deep_view().contains(name@),
{
    let ghost all = names.deep_view();
    let mut i: usize = 0;
    while i < names.len()
        invariant
            i <= names@.len(),
            all == names.deep_view(),
            forall|k: int| 0 <= k < i ==> #[trigger] all[k] != name@,
        decreases names.len() - i,
    {
        assert(all[i as int] == names@[i as int]@);
        if same_text(names[i], name) {
            return true;
        }
        i = i + 1;
    }
    false
}

fn find_given(members: &Vec<(String, String)>, names: &Vec<&str>) -> (r: Vec<String>)
    ensures
        r.deep_view() == given_under(members.deep_view(), names.deep_view()),
{
    let ghost all = members.deep_view();
    let mut out: Vec<String> = Vec::new();
    let mut i: usize = 0;
    assert(all.take(0) =~= Seq::empty());
    assert(out.deep_view() =~= Seq::empty());
    while i < members.len()
        invariant
            i <= members@.len(),
            all == members.deep_view(),
            out.deep_view() == given_under(all.take(i as int), names.deep_view()),
        decreases members.len() - i,
    {
        let ghost before = out.deep_view();
        assert(all.take(i + 1).drop_last() =~= all.take(i as int));
        assert(all.take(i + 1).last() == members@[i as int].deep_view());
        if is_among(members[i].0.as_str(), names) {
            out.push(members[i].1.clone());
            assert(out.deep_view() =~= before.push(members@[i as int].1@));
        }
        i = i + 1;
    }
    assert(all.take(all.len() as int) =~= all);
    out
}

fn read_value(text: &str) -> (r: Option<Json>)
    ensures
        r.deep_view() == value_of_text(text@),
        r matches Some(v) ==> canonical(v@),
{
    broadcast use array_view;

    match parse_json(cat3("[", text, "]").as_str()) {
        Some(Json::Array(mut items)) => {
            let ghost whole = Json::Array(items)@;
            assert(whole == JsonView::Array(items.deep_view()));
            if items.len() == 1 {
                assert(whole->Array_0[0] == items@[0]@);
                assert(canonical(whole->Array_0[0]));
                items.pop()
            } else {
                None
            }
        },
        _ => None,
    }
}

impl Record {
    /// Whether the record has no more than so many fields, where they are given in order.
    pub fn fits(&self, fields: usize) -> (r: bool)
        ensures
            r == fits(self.deep_view(), fields as int),
    {
        match self {
            Record::Named(_) => true,
            Record::Listed(all) => all.len() <= fields,
        }
    }

    /// The text of a field.
    pub fn field_text(&self, names: &Vec<&str>, place: usize) -> (r: Option<Option<String>>)
        ensures
            r.deep_view() == field_text(self.deep_view(), names.deep_view(), place as int),
    {
        match self {
            Record::Named(members) => {
                let given = find_given(members, names);
                if given.len() == 0 {
                    Some(None)
                } else if given.len() == 1 {
                    assert(given.deep_view()[0] == given@[0]@);
                    Some(Some(given[0].clone()))
                } else {
                    None
                }
            },
            Record::Listed(all) => if place < all.len() {
                assert(all.deep_view()[place as int] == all@[place as int]@);
                Some(Some(all[place].clone()))
            } else {
                Some(None)
            },
        }
    }

    /// The value of a field.
    pub fn field_value(&self, names: &Vec<&str>, place: usize) -> (r: Option<Option<Json>>)
        ensures
            r.deep_view() == field_value(self.deep_view(), names.deep_view(), place as int),
            r matches Some(Some(v)) ==> canonical(v@),
    {
        match self.field_text(names, place) {
            None => None,
            Some(None) => Some(None),
            Some(Some(text)) => match read_value(text.as_str()) {
                Some(v) => Some(Some(v)),
                None => None,
            },
        }
    }

    /// A text in a field, if the record may do without it.
    pub fn text_field(&self, name: &str, place: usize) -> (r: Option<Option<String>>)
        ensures
            r.deep_view() == text_in_field(self.deep_view(), name@, place as int),
    {
        let names = vec![name];
        assert(names.deep_view() =~= seq![name@]);
        self.text_field_of(&names, place)
    }

    /// A text in a field of several names, if the record may do without it.
    pub fn text_field_of(&self, names: &Vec<&str>, place: usize) -> (r: Option<Option<String>>)
        ensures
            r.deep_view() == text_in_fields(self.deep_view(), names.deep_view(), place as int),
    {
        match self.field_value(names, place) {
            None => None,
            Some(None) => Some(None),
            Some(Some(Json::Null)) => Some(None),
            Some(Some(Json::Text(t))) => Some(Some(t)),
            Some(Some(_)) => None,
        }
    }

    /// An integer in a field, if the record may do without it.
    pub fn integer_field(&self, names: &Vec<&str>, place: usize) -> (r: Option<Option<i64>>)
        ensures
            r == integer_in_field(self.deep_view(), names.deep_view(), place as int),
    {
        match self.field_value(names, place) {
            None => None,
            Some(None) => Some(None),
            Some(Some(Json::Null)) => Some(None),
            Some(Some(v)) => match v.as_i64() {
                Some(n) => Some(Some(n)),
                None => None,
            },
        }
    }

    /// A text that the record must have.
    pub fn required_text(&self, name: &str, place: usize) -> (r: Option<String>)
        ensures
            r.deep_view() == required_text(self.deep_view(), name@, place as int),
    {
        let names = vec![name];
        assert(names.deep_view() =~= seq![name@]);
        match self.field_value(&names, place) {
            Some(Some(Json::Text(t))) => Some(t),
            _ => None,
        }
    }

    /// A record in a field, if the record around it may do without it.
    pub fn record_field(&self, name: &str, place: usize) -> (r: Option<Option<Record>>)
        ensures
            r.deep_view() == record_in_field(self.deep_view(), name@, place as int),
    {
        let names = vec![name];
        assert(names.deep_view() =~= seq![name@]);
        match self.field_text(&names, place) {
            None => None,
            Some(None) => Some(None),
            Some(Some(text)) => if same_text(trimmed(text.as_str()).as_str(), "null") {
                Some(None)
            } else {
                match read_record(text.as_str()) {
                    Some(inner) => Some(Some(inner)),
                    None => None,
                }
            },
        }
    }
}

/// A record that gives a field twice, under whichever of its names, has no such field.
pub proof fn repeated_fields_are_none(
    members: Seq<(Seq<char>, Seq<char>)>,
    names: Seq<Seq<char>>,
    place: int,
    i: int,
    j: int,
)
    requires
        0 <= i < j < members.len(),
        names.contains(members[i].0),
        names.contains(members[j].0),
    ensures
        field_text(RecordView::Named(members), names, place) is None,
        field_value(RecordView::Named(members), names, place) is None,
{
    given_are_counted(members, names, i, j);
}

proof fn given_are_counted(members: Seq<(Seq<char>, Seq<char>)>, names: Seq<Seq<char>>, i: int, j: int)
    requires
        0 <= i < members.len(),
        0 <= j < members.len(),
        names.contains(members[i].0),
        names.contains(members[j].0),
    ensures
        given_under(members, names).len() >= if i == j {
            1int
        } else {
            2int
        },
    decreases members.len(),
{
    let front = members.drop_last();
    let n = front.len();
    if i < n && j < n {
        given_are_counted(front, names, i, j);
    } else if i < n {
        given_are_counted(front, names, i, i);
    } else if j < n {
        given_are_counted(front, names, j, j);
    }
}

/// What is no field is passed over: a member of another name changes no field.
pub proof fn other_members_are_passed_over(
    members: Seq<(Seq<char>, Seq<char>)>,
    i: int,
    other: (Seq<char>, Seq<char>),
    names: Seq<Seq<char>>,
    place: int,
)
    requires
        0 <= i <= members.len(),
        !names.contains(other.0),
    ensures
        field_text(RecordView::Named(members.insert(i, other)), names, place) == field_text(
            RecordView::Named(members),
            names,
            place,
        ),
{
    given_with_other(members, i, other, names);
}

proof fn given_with_other(
    members: Seq<(Seq<char>, Seq<char>)>,
    i: int,
    other: (Seq<char>, Seq<char>),
    names: Seq<Seq<char>>,
)
    requires
        0 <= i <= members.len(),
        !names.contains(other.0),
    ensures
        given_under(members.insert(i, other), names) == given_under(members, names),
    decreases members.len(),
{
    let more = members.insert(i, other);
    if i == members.len() {
        assert(more.drop_last() =~= members);
        assert(more.last() == other);
    } else {
        let front = members.drop_last();
        given_with_other(front, i, other, names);
        assert(more.drop_last() =~= front.insert(i, other));
        assert(more.last() == members.last());
    }
}

/// A field is read where it is given once: under its name, whatever else is given under
/// other names, or at its place in a list. Where it is not given, nothing is read.
pub proof fn fields_are_read_by_name_or_place(
    before: Seq<(Seq<char>, Seq<char>)>,
    behind: Seq<(Seq<char>, Seq<char>)>,
    name: Seq<char>,
    text: Seq<char>,
    items: Seq<Seq<char>>,
    place: int,
)
    requires
        forall|i: int| 0 <= i < before.len() ==> (#[trigger] before[i]).0 != name,
        forall|i: int| 0 <= i < behind.len() ==> (#[trigger] behind[i]).0 != name,
    ensures
        field_text(RecordView::Named(before.push((name, text)) + behind), seq![name], place) == Some(Some(text)),
        field_text(RecordView::Named(before + behind), seq![name], place) == Some(None::<Seq<char>>),
        0 <= place < items.len() ==> field_text(RecordView::Listed(items), seq![name], place) == Some(
            Some(items[place]),
        ),
        place >= items.len() ==> field_text(RecordView::Listed(items), seq![name], place) == Some(None::<Seq<char>>),
{
    let names = seq![name];
    let one = before.push((name, text));
    assert(one.drop_last() =~= before);
    assert(names[0] == name);
    assert(names.contains(name));
    given_under_others(before, name);
    assert(given_under(one, names) =~= seq![text]);
    given_under_skips(one, behind, name);
    given_under_skips(before, behind, name);
}

proof fn given_under_others(before: Seq<(Seq<char>, Seq<char>)>, name: Seq<char>)
    requires
        forall|i: int| 0 <= i < before.len() ==> (#[trigger] before[i]).0 != name,
    ensures
        given_under(before, seq![name]) =~= Seq::empty(),
    decreases before.len(),
{
    if before.len() > 0 {
        let front = before.drop_last();
        assert forall|i: int| 0 <= i < front.len() implies (#[trigger] front[i]).0 != name by {
            assert(before[i].0 != name);
        }
        given_under_others(front, name);
        assert(before[before.len() - 1].0 != name);
    }
}

proof fn given_under_skips(
    before: Seq<(Seq<char>, Seq<char>)>,
    behind: Seq<(Seq<char>, Seq<char>)>,
    name: Seq<char>,
)
    requires
        forall|i: int| 0 <= i < behind.len() ==> (#[trigger] behind[i]).0 != name,
    ensures
        given_under(before + behind, seq![name]) == given_under(before, seq![name]),
    decreases behind.len(),
{
    let all = before + behind;
    if behind.len() == 0 {
        assert(all =~= before);
    } else {
        let front = behind.drop_last();
        assert(all.drop_last() =~= before + front);
        assert forall|i: int| 0 <= i < front.len() implies (#[trigger] front[i]).0 != name by {
            assert(behind[i].0 != name);
        }
        given_under_skips(before, front, name);
        assert(behind[behind.len() - 1].0 != name);
    }
}

/// A field that may be missing is read as its text or its integer, as missing where it is
/// null, and fails where it is of another type.
pub proof fn optional_fields_are_read(t: Seq<char>, n: u64)
    ensures
        optional_text(None) == Some(None::<Seq<char>>),
        optional_text(Some(JsonView::Null)) == Some(None::<Seq<char>>),
        optional_text(Some(JsonView::Text(t))) == Some(Some(t)),
        optional_text(Some(JsonView::Unsigned(n))) is None,
        optional_integer(None) == Some(None::<i64>),
        optional_integer(Some(JsonView::Null)) == Some(None::<i64>),
        n <= i64::MAX ==> optional_integer(Some(JsonView::Unsigned(n))) == Some(Some(n as i64)),
        optional_integer(Some(JsonView::Text(t))) is None,
{
}

proof fn pieces_are_there(s: Seq<char>, sep: char)
    ensures
        outer_pieces(s, sep).len() > 0,
    decreases s.len(),
{
    if s.len() > 0 {
        pieces_are_there(s.drop_last(), sep);
    }
}

/// The pieces of a text make it up again, with the separator between them: nothing of it is
/// lost.
pub proof fn pieces_make_up_the_text(s: Seq<char>, sep: char)
    ensures
        join(outer_pieces(s, sep), seq![sep]) == s,
    decreases s.len(),
{
    if s.len() == 0 {
        assert(outer_pieces(s, sep) =~= seq![s]);
    } else {
        let front = outer_pieces(s.drop_last(), sep);
        pieces_are_there(s.drop_last(), sep);
        pieces_make_up_the_text(s.drop_last(), sep);
        if s.last() == sep && is_outside(nesting(s.drop_last())) {
            crate::text::join_in_two_steps(front, seq![Seq::<char>::empty()], seq![sep]);
            assert(front + seq![Seq::<char>::empty()] =~= front.push(Seq::empty()));
            assert(s.drop_last() + seq![sep] + Seq::<char>::empty() =~= s);
        } else {
            let head = front.drop_last();
            let more = front.last().push(s.last());
            if head.len() > 0 {
                crate::text::join_in_two_steps(head, seq![more], seq![sep]);
                crate::text::join_in_two_steps(head, seq![front.last()], seq![sep]);
                assert(head + seq![front.last()] =~= front);
                assert(head + seq![more] =~= head.push(more));
                assert(join(head, seq![sep]) + seq![sep] + more =~= (join(head, seq![sep]) + seq![sep] + front.last()).push(
                    s.last(),
                ));
                assert(s.drop_last().push(s.last()) =~= s);
            } else {
                assert(front =~= seq![front.last()]);
                assert(head.push(more) =~= seq![more]);
                assert(s.drop_last().push(s.last()) =~= s);
            }
        }
    }
}

/// A separator that stands in no bracket and in no string ends a piece, and no other does:
/// what stands in a string or in brackets stays whole.
pub proof fn only_outer_separators_end_a_piece(s: Seq<char>, c: char, sep: char)
    ensures
        ({
            let before = outer_pieces(s, sep);
            let after = outer_pieces(s.push(c), sep);
            let n = nesting(s);
            &&& c == sep && n.depth == 0 && !n.quoted ==> after == before.push(Seq::empty())
            &&& c != sep || n.depth != 0 || n.quoted ==> after.len() == before.len() && after.drop_last()
                == before.drop_last() && after.last() == before.last().push(c)
        }),
        outer_pieces(Seq::empty(), sep) == seq![Seq::<char>::empty()],
{
    pieces_are_there(s, sep);
    assert(s.push(c).drop_last() =~= s);
    let before = outer_pieces(s, sep);
    let more = before.last().push(c);
    assert(before.drop_last().push(more).drop_last() =~= before.drop_last());
    assert(outer_pieces(Seq::empty(), sep) =~= seq![Seq::<char>::empty()]);
}

/// A quote that is not escaped begins or ends a string, brackets outside strings begin and
/// end a level, and nothing else changes the place.
pub proof fn quotes_and_brackets_nest(s: Seq<char>, c: char)
    ensures
        ({
            let n = nesting(s);
            let after = nesting(s.push(c));
            &&& !n.quoted && c == '"' ==> after.quoted && after.depth == n.depth
            &&& n.quoted && !n.escaped && c == '"' ==> !after.quoted && after.depth == n.depth
            &&& n.quoted && n.escaped ==> after.quoted && !after.escaped && after.depth == n.depth
            &&& n.quoted && !n.escaped && c == '\\' ==> after.quoted && after.escaped
            &&& !n.quoted && (c == '{' || c == '[') ==> after.depth == n.depth + 1 && !after.quoted
            &&& !n.quoted && (c == '}' || c == ']') ==> after.depth == n.depth - 1 && !after.quoted
            &&& n.quoted ==> after.depth == n.depth
            &&& !n.quoted && c != '"' && c != '{' && c != '[' && c != '}' && c != ']' ==> after == n
        }),
        nesting(Seq::empty()).depth == 0,
        !nesting(Seq::empty()).quoted,
{
    assert(s.push(c).drop_last() =~= s);
}

} // verus!
