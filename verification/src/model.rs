//! Messages and conversations, whatever agent they come from.
use vstd::prelude::*;
use crate::json::{Json, JsonView};
use crate::lines::{first_line, lines, lines_of};
use crate::path::SourcePath;
use crate::query::{member_text, or_default};
use crate::stamp::{bounds_enclose, earlier, earlier_of, earliest, later, later_of, latest};
use crate::text::{blank, cat, head, is_white, join, join_in_two_steps, join_texts, push_text, same_text, take_chars};

verus! {

/// A tool that a message calls.
pub struct Invocation {
    pub kind: String,
    pub name: String,
    pub raw_name: Option<String>,
    pub call_id: Option<String>,
    pub arguments: Option<Json>,
}

#[verifier::ext_equal]
pub struct InvocationView {
    pub kind: Seq<char>,
    pub name: Seq<char>,
    pub raw_name: Option<Seq<char>>,
    pub call_id: Option<Seq<char>>,
    pub arguments: Option<JsonView>,
}

impl DeepView for Invocation {
    type V = InvocationView;

    open spec fn deep_view(&self) -> InvocationView {
        InvocationView {
            kind: self.kind@,
            name: self.name@,
            raw_name: self.raw_name.deep_view(),
            call_id: self.call_id.deep_view(),
            arguments: self.arguments.deep_view(),
        }
    }
}

/// A message of a conversation.
pub struct Message {
    /// The place in the conversation.
    pub idx: i64,
    pub role: String,
    pub author: Option<String>,
    /// Milliseconds since the epoch.
    pub created_at: Option<i64>,
    pub content: String,
    /// What else the source says of the message.
    pub extra: Json,
    pub invocations: Vec<Invocation>,
}

#[verifier::ext_equal]
pub struct MessageView {
    pub idx: i64,
    pub role: Seq<char>,
    pub author: Option<Seq<char>>,
    pub created_at: Option<i64>,
    pub content: Seq<char>,
    pub extra: JsonView,
    pub invocations: Seq<InvocationView>,
}

impl DeepView for Message {
    type V = MessageView;

    open spec fn deep_view(&self) -> MessageView {
        MessageView {
            idx: self.idx,
            role: self.role@,
            author: self.author.deep_view(),
            created_at: self.created_at,
            content: self.content@,
            extra: self.extra@,
            invocations: self.invocations.deep_view(),
        }
    }
}

/// A conversation with an agent.
pub struct Conversation {
    pub agent_slug: String,
    pub external_id: Option<String>,
    pub title: Option<String>,
    pub workspace: Option<String>,
    pub source_path: SourcePath,
    pub started_at: Option<i64>,
    pub ended_at: Option<i64>,
    pub metadata: Json,
    pub messages: Vec<Message>,
}

#[verifier::ext_equal]
pub struct ConversationView {
    pub agent_slug: Seq<char>,
    pub external_id: Option<Seq<char>>,
    pub title: Option<Seq<char>>,
    pub workspace: Option<Seq<char>>,
    pub source_path: Seq<Seq<char>>,
    pub started_at: Option<i64>,
    pub ended_at: Option<i64>,
    pub metadata: JsonView,
    pub messages: Seq<MessageView>,
}

impl DeepView for Conversation {
    type V = ConversationView;

    open spec fn deep_view(&self) -> ConversationView {
        ConversationView {
            agent_slug: self.agent_slug@,
            external_id: self.external_id.deep_view(),
            title: self.title.deep_view(),
            workspace: self.workspace.deep_view(),
            source_path: self.source_path.deep_view(),
            started_at: self.started_at,
            ended_at: self.ended_at,
            metadata: self.metadata@,
            messages: self.messages.deep_view(),
        }
    }
}

/// A message with a role, a time, a content and what the source says, and
/// nothing else. Its place is not known yet.
pub open spec fn simple_message(
    role: Seq<char>,
    created_at: Option<i64>,
    content: Seq<char>,
    extra: JsonView,
) -> MessageView {
    MessageView { idx: 0, role, author: None, created_at, content, extra, invocations: Seq::empty() }
}

pub fn make_message(role: &str, created_at: Option<i64>, content: String, extra: Json) -> (r: Message)
    ensures
        r.deep_view() == simple_message(role@, created_at, content@, extra@),
{
    let invocations: Vec<Invocation> = Vec::new();
    assert(invocations.deep_view() =~= Seq::empty());
    Message { idx: 0, role: role.to_owned(), author: None, created_at, content, extra, invocations }
}

/// A place as the number that a message carries.
pub open spec fn place(i: int) -> i64 {
    if i <= i64::MAX {
        i as i64
    } else {
        i64::MAX
    }
}

pub fn place_of(i: usize) -> (r: i64)
    ensures
        r == place(i as int),
{
    if i as u64 <= 0x7fff_ffff_ffff_ffff {
        i as i64
    } else {
        0x7fff_ffff_ffff_ffff
    }
}

/// The message at that place.
pub open spec fn at_place(m: MessageView, i: int) -> MessageView {
    MessageView { idx: place(i), ..m }
}

/// The messages, each with its place.
pub open spec fn numbered(messages: Seq<MessageView>) -> Seq<MessageView> {
    messages.map(|i: int, m: MessageView| at_place(m, i))
}

/// Whether each message carries its place.
pub open spec fn is_numbered(messages: Seq<MessageView>) -> bool {
    forall|i: int| 0 <= i < messages.len() ==> (#[trigger] messages[i]).idx == place(i)
}

/// Numbering gives each message its place and changes nothing else.
pub proof fn numbering(messages: Seq<MessageView>)
    ensures
        is_numbered(numbered(messages)),
        numbered(numbered(messages)) == numbered(messages),
        numbered(messages).len() == messages.len(),
        forall|i: int|
            0 <= i < messages.len() ==> #[trigger] numbered(messages)[i] == at_place(messages[i], i),
{
    assert(numbered(numbered(messages)) =~= numbered(messages));
}

/// Gives each message its place.
pub fn reindex_messages(messages: &mut Vec<Message>)
    ensures
        final(messages).deep_view() == numbered(old(messages).deep_view()),
{
    let ghost all = messages.deep_view();
    let mut i: usize = 0;
    while i < messages.len()
        invariant
            i <= messages@.len(),
            messages@.len() == all.len(),
            all == old(messages).deep_view(),
            forall|k: int| 0 <= k < i ==> (#[trigger] messages@[k]).deep_view() == at_place(all[k], k),
            forall|k: int| i <= k < all.len() ==> (#[trigger] messages@[k]).deep_view() == all[k],
        decreases messages.len() - i,
    {
        let ghost before = messages@;
        let n = place_of(i);
        let m = &mut messages[i];
        m.idx = n;
        assert(messages@[i as int].deep_view() == at_place(before[i as int].deep_view(), i as int));
        i = i + 1;
    }
    assert(messages.deep_view() =~= numbered(all));
}

/// The first message of a role.
pub open spec fn first_of_role(messages: Seq<MessageView>, role: Seq<char>) -> Option<MessageView>
    decreases messages.len(),
{
    if messages.len() == 0 {
        None
    } else if messages[0].role == role {
        Some(messages[0])
    } else {
        first_of_role(messages.skip(1), role)
    }
}

pub fn find_role<'a>(messages: &'a Vec<Message>, role: &str) -> (r: Option<&'a Message>)
    ensures
        r.deep_view() == first_of_role(messages.deep_view(), role@),
{
    let ghost all = messages.deep_view();
    let mut i: usize = 0;
    assert(all.skip(0) =~= all);
    while i < messages.len()
        invariant
            i <= messages@.len(),
            all == messages.deep_view(),
            first_of_role(all, role@) == first_of_role(all.skip(i as int), role@),
        decreases messages.len() - i,
    {
        assert(all.skip(i as int)[0] == messages@[i as int].deep_view());
        if same_text(messages[i].role.as_str(), role) {
            return Some(&messages[i]);
        }
        assert(all.skip(i as int).skip(1) =~= all.skip(i + 1));
        i = i + 1;
    }
    None
}

/// At most so many characters of the first line, or of the whole where there is no
/// line.
pub open spec fn caption(content: Seq<char>, most: int) -> Seq<char> {
    head(or_default(first_line(content), content), most)
}

pub fn caption_of(content: &str, most: usize) -> (r: String)
    ensures
        r@ == caption(content@, most as int),
{
    let all = lines_of(content);
    if all.len() == 0 {
        take_chars(content, most)
    } else {
        assert(all.deep_view()[0] == all@[0]@);
        take_chars(all[0].as_str(), most)
    }
}

/// The caption of what the user said first.
pub open spec fn user_caption(messages: Seq<MessageView>, most: int) -> Option<Seq<char>> {
    match first_of_role(messages, "user"@) {
        Some(m) => Some(caption(m.content, most)),
        None => None,
    }
}

pub fn user_caption_of(messages: &Vec<Message>, most: usize) -> (r: Option<String>)
    ensures
        r.deep_view() == user_caption(messages.deep_view(), most as int),
{
    match find_role(messages, "user") {
        Some(m) => Some(caption_of(m.content.as_str(), most)),
        None => None,
    }
}

/// A caption is a beginning of the content, of at most so many characters and of
/// one line.
pub proof fn caption_is_short(content: Seq<char>, most: int)
    requires
        0 <= most,
    ensures
        caption(content, most).len() <= most,
        caption(content, most).len() <= content.len(),
        caption(content, most) == content.take(caption(content, most).len() as int),
        !caption(content, most).contains('\n'),
{
    crate::lines::first_line_is_beginning(content);
    let line = or_default(first_line(content), content);
    let short = head(line, most);
    assert(short =~= content.take(short.len() as int));
    assert(!line.contains('\n'));
    if short.contains('\n') {
        let k = choose|k: int| 0 <= k < short.len() && short[k] == '\n';
        assert(line[k] == '\n');
    }
}

/// The instants of messages.
pub open spec fn instants(messages: Seq<MessageView>) -> Seq<Option<i64>> {
    messages.map_values(|m: MessageView| m.created_at)
}

/// Widens a span of time so that it holds another instant.
pub fn update_time_bounds(started_at: &mut Option<i64>, ended_at: &mut Option<i64>, ts: Option<i64>)
    ensures
        *final(started_at) == earlier(*old(started_at), ts),
        *final(ended_at) == later(*old(ended_at), ts),
{
    *started_at = earlier_of(*started_at, ts);
    *ended_at = later_of(*ended_at, ts);
}

/// The text of an item: itself, or what it holds as `text`.
pub open spec fn item_text(v: JsonView) -> Option<Seq<char>> {
    match v {
        JsonView::Text(t) => Some(t),
        _ => crate::query::member_text(v, "text"@),
    }
}

/// The texts of the items that have one.
pub open spec fn item_texts(items: Seq<JsonView>) -> Seq<Seq<char>>
    decreases items.len(),
{
    if items.len() == 0 {
        Seq::empty()
    } else {
        let front = item_texts(items.drop_last());
        match item_text(items.last()) {
            Some(t) => front.push(t),
            None => front,
        }
    }
}

/// The text of a content: a text, or a list of items, line by line.
pub open spec fn flat_text(v: JsonView) -> Seq<char> {
    match v {
        JsonView::Text(t) => t,
        JsonView::Array(items) => join(item_texts(items), "\n"@),
        _ => Seq::empty(),
    }
}

pub open spec fn flat_text_in(v: Option<JsonView>) -> Seq<char> {
    match v {
        Some(v) => flat_text(v),
        None => Seq::empty(),
    }
}

/// The text of a content.
pub fn flatten_content(v: &Json) -> (r: String)
    ensures
        r@ == flat_text(v@),
{
    broadcast use crate::json::array_view;

    match v {
        Json::Text(t) => t.clone(),
        Json::Array(items) => {
            let ghost all = items.deep_view();
            let mut parts: Vec<String> = Vec::new();
            let mut i: usize = 0;
            assert(all.take(0) =~= Seq::empty());
            assert(parts.deep_view() =~= item_texts(all.take(0)));
            while i < items.len()
                invariant
                    i <= items@.len(),
                    all == items.deep_view(),
                    parts.deep_view() == item_texts(all.take(i as int)),
                decreases items.len() - i,
            {
                let item = &items[i];
                let ghost before = parts.deep_view();
                assert(all.take(i + 1).drop_last() =~= all.take(i as int));
                assert(all.take(i + 1).last() == item@);
                let text = match item {
                    Json::Text(t) => Some(t.as_str()),
                    _ => item.get_str("text"),
                };
                if let Some(t) = text {
                    parts.push(t.to_owned());
                    assert(parts.deep_view() =~= before.push(t@));
                }
                i = i + 1;
            }
            assert(all.take(all.len() as int) =~= all);
            join_texts(&parts, "\n")
        },
        _ => {
            let none = String::new();
            assert(none@ =~= Seq::empty());
            none
        },
    }
}

pub fn flatten_in(v: Option<&Json>) -> (r: String)
    ensures
        r@ == flat_text_in(v.deep_view()),
{
    match v {
        Some(v) => flatten_content(v),
        None => {
            let none = String::new();
            assert(none@ =~= Seq::empty());
            none
        },
    }
}

impl Message {
    pub fn copy(&self) -> (r: Message)
        ensures
            r.deep_view() == self.deep_view(),
    {
        let mut invocations: Vec<Invocation> = Vec::new();
        let mut i: usize = 0;
        assert(invocations.deep_view() =~= self.invocations.deep_view().take(0));
        while i < self.invocations.len()
            invariant
                i <= self.invocations@.len(),
                invocations.deep_view() == self.invocations.deep_view().take(i as int),
            decreases self.invocations.len() - i,
        {
            let ghost before = invocations.deep_view();
            let copy = self.invocations[i].copy();
            invocations.push(copy);
            assert(invocations.deep_view() =~= before.push(self.invocations@[i as int].deep_view()));
            assert(invocations.deep_view() =~= self.invocations.deep_view().take(i + 1));
            i = i + 1;
        }
        assert(invocations.deep_view() =~= self.invocations.deep_view());
        Message {
            idx: self.idx,
            role: self.role.clone(),
            author: self.author.clone(),
            created_at: self.created_at,
            content: self.content.clone(),
            extra: self.extra.copy(),
            invocations,
        }
    }
}

impl Invocation {
    pub fn copy(&self) -> (r: Invocation)
        ensures
            r.deep_view() == self.deep_view(),
    {
        Invocation {
            kind: self.kind.clone(),
            name: self.name.clone(),
            raw_name: self.raw_name.clone(),
            call_id: self.call_id.clone(),
            arguments: match &self.arguments {
                Some(v) => Some(v.copy()),
                None => None,
            },
        }
    }
}

/// How a call of a tool reads.
pub open spec fn tool_label(name: Seq<char>, about: Seq<char>) -> Seq<char> {
    if about.len() == 0 {
        "[Tool: "@ + name + "]"@
    } else {
        "[Tool: "@ + name + " - "@ + about + "]"@
    }
}

pub fn tool_label_of(name: &str, about: &str) -> (r: String)
    ensures
        r@ == tool_label(name@, about@),
{
    let mut out = cat("[Tool: ", name);
    if !about.is_empty() {
        push_text(&mut out, " - ");
        push_text(&mut out, about);
    }
    push_text(&mut out, "]");
    out
}

/// A label of a tool is never blank.
pub proof fn tool_label_is_not_blank(name: Seq<char>, about: Seq<char>)
    ensures
        !blank(tool_label(name, about)),
{
    reveal_strlit("[Tool: ");
    assert(tool_label(name, about)[0] == '[');
    assert(!is_white('['));
}

/// The earliest instant of messages.
pub fn first_instant(messages: &Vec<Message>) -> (r: Option<i64>)
    ensures
        r == earliest(instants(messages.deep_view())),
{
    let ghost all = instants(messages.deep_view());
    let mut found: Option<i64> = None;
    let mut i: usize = 0;
    assert(all.take(0) =~= Seq::empty());
    while i < messages.len()
        invariant
            i <= messages@.len(),
            all == instants(messages.deep_view()),
            found == earliest(all.take(i as int)),
        decreases messages.len() - i,
    {
        assert(all.take(i + 1).drop_last() =~= all.take(i as int));
        assert(all.take(i + 1).last() == messages@[i as int].created_at);
        found = earlier_of(found, messages[i].created_at);
        i = i + 1;
    }
    assert(all.take(all.len() as int) =~= all);
    found
}

/// The latest instant of messages.
pub fn last_instant(messages: &Vec<Message>) -> (r: Option<i64>)
    ensures
        r == latest(instants(messages.deep_view())),
{
    let ghost all = instants(messages.deep_view());
    let mut found: Option<i64> = None;
    let mut i: usize = 0;
    assert(all.take(0) =~= Seq::empty());
    while i < messages.len()
        invariant
            i <= messages@.len(),
            all == instants(messages.deep_view()),
            found == latest(all.take(i as int)),
        decreases messages.len() - i,
    {
        assert(all.take(i + 1).drop_last() =~= all.take(i as int));
        assert(all.take(i + 1).last() == messages@[i as int].created_at);
        found = later_of(found, messages[i].created_at);
        i = i + 1;
    }
    assert(all.take(all.len() as int) =~= all);
    found
}

/// The last message that makes the call of that name.
pub open spec fn last_call(messages: Seq<MessageView>, id: Seq<char>) -> Option<int>
    decreases messages.len(),
{
    if messages.len() == 0 {
        None
    } else if makes_call(messages.last(), id) {
        Some(messages.len() - 1)
    } else {
        last_call(messages.drop_last(), id)
    }
}

/// Whether a message makes the call of that name.
pub open spec fn makes_call(m: MessageView, id: Seq<char>) -> bool {
    m.invocations.len() > 0 && m.invocations[0].call_id == Some(id)
}

pub proof fn last_call_bounds(messages: Seq<MessageView>, id: Seq<char>)
    ensures
        last_call(messages, id) matches Some(i) ==> 0 <= i < messages.len() && makes_call(messages[i], id)
            && forall|k: int| i < k < messages.len() ==> !makes_call(#[trigger] messages[k], id),
        last_call(messages, id) is None ==> forall|k: int|
            0 <= k < messages.len() ==> !makes_call(#[trigger] messages[k], id),
    decreases messages.len(),
{
    if messages.len() > 0 {
        last_call_bounds(messages.drop_last(), id);
        assert forall|k: int| 0 <= k < messages.len() - 1 implies messages.drop_last()[k] == #[trigger] messages[k] by {}
    }
}

/// The last message that makes the call of that name.
pub fn find_last_call(messages: &Vec<Message>, id: &str) -> (r: Option<usize>)
    ensures
        match r {
            Some(i) => last_call(messages.deep_view(), id@) == Some(i as int) && i < messages@.len(),
            None => last_call(messages.deep_view(), id@) is None,
        },
{
    let ghost all = messages.deep_view();
    let mut n = messages.len();
    assert(all.take(n as int) =~= all);
    while n > 0
        invariant
            n <= messages@.len(),
            all == messages.deep_view(),
            last_call(all, id@) == last_call(all.take(n as int), id@),
        decreases n,
    {
        let m = &messages[n - 1];
        assert(all.take(n as int).last() == m.deep_view());
        assert(all.take(n as int).drop_last() =~= all.take(n - 1));
        assert(m.invocations@.len() > 0 ==> m.deep_view().invocations[0] == m.invocations@[0].deep_view());
        let here = if m.invocations.len() > 0 {
            match &m.invocations[0].call_id {
                Some(own) => same_text(own.as_str(), id),
                None => false,
            }
        } else {
            false
        };
        if here {
            return Some(n - 1);
        }
        n = n - 1;
    }
    None
}

/// Numbering sets the place of each message and nothing else.
pub proof fn numbered_messages_keep_all_else(messages: Seq<MessageView>, i: int)
    requires
        0 <= i < messages.len(),
        i <= i64::MAX,
    ensures
        numbered(messages).len() == messages.len(),
        numbered(messages)[i] == (MessageView { idx: i as i64, ..messages[i] }),
{
}

/// The first message of a role has that role, and none before it has; there is one
/// wherever some message has the role.
pub proof fn first_of_role_is_first(messages: Seq<MessageView>, role: Seq<char>, n: int)
    requires
        0 <= n <= messages.len(),
        forall|i: int| 0 <= i < n ==> (#[trigger] messages[i]).role != role,
        n < messages.len() ==> messages[n].role == role,
    ensures
        n < messages.len() ==> first_of_role(messages, role) == Some(messages[n]),
        n == messages.len() ==> first_of_role(messages, role) is None,
    decreases n,
{
    if n > 0 {
        let rest = messages.skip(1);
        assert(messages[0].role != role);
        assert forall|i: int| 0 <= i < n - 1 implies (#[trigger] rest[i]).role != role by {
            assert(messages[i + 1].role != role);
        }
        first_of_role_is_first(rest, role, n - 1);
    }
}

/// A caption is the first line, whole where it is short enough and cut where it is not:
/// what follows a line break has no part in it.
pub proof fn caption_is_the_first_line(a: Seq<char>, b: Seq<char>, most: int)
    requires
        0 <= most,
        a.len() > 0,
        forall|i: int| 0 <= i < a.len() ==> a[i] != '\n',
    ensures
        a.len() <= most ==> caption(a, most) == a,
        a.len() > most ==> caption(a, most) == a.take(most),
        a.last() != '\r' ==> caption(a.push('\n') + b, most) == caption(a, most),
        caption(a.push('\r').push('\n') + b, most) == caption(a, most),
{
    crate::lines::lines_end_at_line_feeds(a, b);
}

/// The caption of a user is that of the first message of theirs, whatever others said
/// before; where they said nothing there is none.
pub proof fn user_caption_is_of_their_first_message(messages: Seq<MessageView>, most: int, n: int)
    requires
        0 <= n <= messages.len(),
        forall|i: int| 0 <= i < n ==> (#[trigger] messages[i]).role != "user"@,
        n < messages.len() ==> messages[n].role == "user"@,
    ensures
        n < messages.len() ==> user_caption(messages, most) == Some(caption(messages[n].content, most)),
        n == messages.len() ==> user_caption(messages, most) is None,
{
    first_of_role_is_first(messages, "user"@, n);
}

proof fn item_texts_in_two_steps(a: Seq<JsonView>, b: Seq<JsonView>)
    ensures
        item_texts(a + b) == item_texts(a) + item_texts(b),
    decreases b.len(),
{
    let all = a + b;
    if b.len() == 0 {
        assert(all =~= a);
        assert(item_texts(a) + item_texts(b) =~= item_texts(a));
    } else {
        assert(all.drop_last() =~= a + b.drop_last());
        item_texts_in_two_steps(a, b.drop_last());
        assert(item_texts(all) =~= item_texts(a) + item_texts(b));
    }
}

/// A content that is a text says that text, one of a single item what the item says,
/// whether it is a text or holds one as `text`; what is neither says nothing.
pub proof fn contents_say_their_texts(t: Seq<char>, v: JsonView)
    ensures
        flat_text(JsonView::Text(t)) == t,
        flat_text(JsonView::Array(seq![JsonView::Text(t)])) == t,
        member_text(v, "text"@) == Some(t) ==> flat_text(JsonView::Array(seq![v])) == t,
        member_text(v, "text"@) is None && !(v is Text) ==> flat_text(JsonView::Array(seq![v])).len() == 0,
        !(v is Text) && !(v is Array) ==> flat_text(v).len() == 0,
        flat_text_in(Some(v)) == flat_text(v),
        flat_text_in(None).len() == 0,
{
    let one = seq![JsonView::Text(t)];
    assert(item_texts(one.drop_last()) =~= Seq::empty());
    assert(item_texts(one) =~= seq![t]);
    let other = seq![v];
    assert(item_texts(other.drop_last()) =~= Seq::empty());
    if let Some(u) = member_text(v, "text"@) {
        assert(item_texts(other) =~= seq![u]);
    }
}

/// A list says what its items say, in their order and line by line: two lists one behind
/// the other say what the first says and what the second says, a line break between them
/// where both hold a text.
pub proof fn lists_say_their_items_in_order(a: Seq<JsonView>, b: Seq<JsonView>)
    ensures
        (exists|i: int| 0 <= i < a.len() && item_text(#[trigger] a[i]) is Some) && (exists|i: int|
            0 <= i < b.len() && item_text(#[trigger] b[i]) is Some) ==> flat_text(JsonView::Array(a + b))
            == flat_text(JsonView::Array(a)) + "\n"@ + flat_text(JsonView::Array(b)),
        (forall|i: int| 0 <= i < a.len() ==> item_text(#[trigger] a[i]) is None) ==> flat_text(JsonView::Array(a + b))
            == flat_text(JsonView::Array(b)),
        (forall|i: int| 0 <= i < b.len() ==> item_text(#[trigger] b[i]) is None) ==> flat_text(JsonView::Array(a + b))
            == flat_text(JsonView::Array(a)),
{
    item_texts_in_two_steps(a, b);
    item_texts_are_there(a);
    item_texts_are_there(b);
    if item_texts(a).len() > 0 && item_texts(b).len() > 0 {
        join_in_two_steps(item_texts(a), item_texts(b), "\n"@);
    }
    if item_texts(a).len() == 0 {
        assert(item_texts(a) + item_texts(b) =~= item_texts(b));
    }
    if item_texts(b).len() == 0 {
        assert(item_texts(a) + item_texts(b) =~= item_texts(a));
    }
}

proof fn item_texts_are_there(items: Seq<JsonView>)
    ensures
        item_texts(items).len() > 0 <==> exists|i: int| 0 <= i < items.len() && item_text(#[trigger] items[i]) is Some,
    decreases items.len(),
{
    if items.len() > 0 {
        let front = items.drop_last();
        item_texts_are_there(front);
        assert(items[items.len() - 1] == items.last());
        if item_texts(front).len() > 0 {
            let i = choose|i: int| 0 <= i < front.len() && item_text(#[trigger] front[i]) is Some;
            assert(item_text(items[i]) is Some);
        }
        if item_text(items.last()) is None && exists|i: int|
            0 <= i < items.len() && item_text(#[trigger] items[i]) is Some {
            let i = choose|i: int| 0 <= i < items.len() && item_text(#[trigger] items[i]) is Some;
            assert(item_text(front[i]) is Some);
        }
    }
}

/// A call of a tool reads as the name of the tool, and as what it is about where that
/// is said.
pub proof fn tool_labels_name_the_tool(name: Seq<char>, about: Seq<char>)
    ensures
        tool_label(name, Seq::empty()) == "[Tool: "@ + name + "]"@,
        about.len() > 0 ==> tool_label(name, about) == "[Tool: "@ + name + " - "@ + about + "]"@,
{
}

/// The call of a name is found at the last message whose first call has that name.
pub proof fn calls_are_found_by_name(messages: Seq<MessageView>, id: Seq<char>, i: int)
    requires
        0 <= i < messages.len(),
        messages[i].invocations.len() > 0,
        messages[i].invocations[0].call_id == Some(id),
        forall|k: int|
            i < k < messages.len() ==> (#[trigger] messages[k]).invocations.len() == 0
                || messages[k].invocations[0].call_id != Some(id),
    ensures
        last_call(messages, id) == Some(i),
{
    last_call_bounds(messages, id);
    assert(makes_call(messages[i], id));
    if let Some(k) = last_call(messages, id) {
        if k < i {
            assert(!makes_call(messages[i], id));
        } else if k > i {
            assert(makes_call(messages[k], id));
        }
    }
}

/// The first and the last instant of messages are those of some of them, no message is
/// before the first or after the last, and there are both wherever a message has a time.
pub proof fn instants_of_messages_are_bounded(messages: Seq<MessageView>)
    ensures
        forall|i: int|
            0 <= i < messages.len() && (#[trigger] messages[i]).created_at is Some ==> {
                &&& earliest(instants(messages)) is Some && earliest(instants(messages))->0 <= messages[i].created_at->0
                &&& latest(instants(messages)) is Some && messages[i].created_at->0 <= latest(instants(messages))->0
            },
        earliest(instants(messages)) is Some ==> exists|i: int|
            0 <= i < messages.len() && (#[trigger] messages[i]).created_at == earliest(instants(messages)),
        latest(instants(messages)) is Some ==> exists|i: int|
            0 <= i < messages.len() && (#[trigger] messages[i]).created_at == latest(instants(messages)),
{
    let s = instants(messages);
    bounds_enclose(s);
    assert forall|i: int| 0 <= i < messages.len() && (#[trigger] messages[i]).created_at is Some implies {
        &&& earliest(s) is Some && earliest(s)->0 <= messages[i].created_at->0
        &&& latest(s) is Some && messages[i].created_at->0 <= latest(s)->0
    } by {
        assert(s[i] == messages[i].created_at);
    }
    if earliest(s) is Some {
        let i = choose|i: int| 0 <= i < s.len() && s[i] == earliest(s);
        assert(messages[i].created_at == earliest(s));
    }
    if latest(s) is Some {
        let i = choose|i: int| 0 <= i < s.len() && s[i] == latest(s);
        assert(messages[i].created_at == latest(s));
    }
}

/// Whether an instant is the first that any of these messages has: none where none has
/// one.
pub open spec fn is_first_instant(t: Option<i64>, messages: Seq<MessageView>) -> bool {
    &&& forall|i: int|
        0 <= i < messages.len() && (#[trigger] messages[i]).created_at is Some ==> t is Some && t->0
            <= messages[i].created_at->0
    &&& t is Some ==> exists|i: int| 0 <= i < messages.len() && (#[trigger] messages[i]).created_at == t
}

/// Whether an instant is the last that any of these messages has: none where none has
/// one.
pub open spec fn is_last_instant(t: Option<i64>, messages: Seq<MessageView>) -> bool {
    &&& forall|i: int|
        0 <= i < messages.len() && (#[trigger] messages[i]).created_at is Some ==> t is Some && messages[i].created_at->0
            <= t->0
    &&& t is Some ==> exists|i: int| 0 <= i < messages.len() && (#[trigger] messages[i]).created_at == t
}

} // verus!
