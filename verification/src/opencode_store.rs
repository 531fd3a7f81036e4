//! Sessions of OpenCode, in its database and in the files that were before it.
use vstd::prelude::*;
use crate::binary64::{cast_integer, cast_to_integer};
use crate::bytes::{percent_encoded, url_encode};
use crate::canon::{
    canonical_conversation, canonical_message, canonical_messages, canonical_pending, comes_before,
    nullables_are_canonical, ordered_canonical, pending_grows, rising_members_are_canonical,
};
use crate::files::{keep_extension, only_extension, path_exists, text_at, walked_files, EntryView, FileTable};
use crate::json::{canonical, Json, JsonView};
use crate::lines::headline;
use crate::model::{
    first_instant, instants, instants_of_messages_are_bounded, is_first_instant, is_last_instant, is_numbered,
    last_instant, Conversation, ConversationView, Invocation, Message, MessageView,
};
use crate::opencode_parts::{
    assemble_content_from_parts, assembled, part_from, part_in, sort_parts_for_message, sorted_parts, PartInfo,
    PartView,
};
use crate::order::every_place_is_taken;
use crate::path::{below, SourcePath};
use crate::pending::{
    order_messages, ordered_messages, ordered_messages_are_an_arrangement, ordered_messages_are_given,
    own_titles_are_kept, place_or_last, session_title, title_of, PendingMessage, PendingView,
};
use crate::query::{
    member, member_is_the_first_of_its_key, nullable_text, nullable_text_json, object, or_default, or_else, put,
    text_json,
};
use crate::records::{
    fits, integer_in_field, read_record, record_in, record_in_field, required_text, text_in_field, Record,
    RecordView,
};
use crate::scan::ReadError;
use crate::stamp::{
    earliest, latest, plausible_millis, plausible_millis_of, stored_millis, stored_text_millis,
    stored_text_millis_of, SqlValue, SqlView,
};
use crate::text::{blank, is_blank, same_text};

verus! {

pub fn normalize_opencode_timestamp(ts: Option<i64>) -> (r: Option<i64>)
    ensures
        r == stored_millis(ts),
{
    match ts {
        Some(n) => Some(plausible_millis_of(n)),
        None => None,
    }
}

/// The instant that a column of the database denotes.
pub open spec fn column_millis(v: SqlView) -> Option<i64> {
    match v {
        SqlView::Integer(n) => Some(plausible_millis(n)),
        SqlView::Float(bits) => Some(plausible_millis(cast_integer(bits))),
        SqlView::Text(t) => stored_text_millis(t),
        SqlView::Null => None,
        SqlView::Blob => None,
    }
}

/// The instant that a column of the database denotes.
pub fn normalize_sqlite_ts_value(v: &SqlValue) -> (r: Option<i64>)
    ensures
        r == column_millis(v.deep_view()),
{
    match v {
        SqlValue::Integer(n) => Some(plausible_millis_of(*n)),
        SqlValue::Float(bits) => Some(plausible_millis_of(cast_to_integer(*bits))),
        SqlValue::Text(t) => stored_text_millis_of(t.as_str()),
        SqlValue::Null => None,
        SqlValue::Blob => None,
    }
}

/// What a record says of a message.
pub struct MessageData {
    pub role: Option<String>,
    pub created: Option<i64>,
    pub model_id: Option<String>,
}

#[verifier::ext_equal]
pub struct DataView {
    pub role: Option<Seq<char>>,
    pub created: Option<i64>,
    pub model_id: Option<Seq<char>>,
}

impl DeepView for MessageData {
    type V = DataView;

    open spec fn deep_view(&self) -> DataView {
        DataView { role: self.role.deep_view(), created: self.created, model_id: self.model_id.deep_view() }
    }
}

/// Two instants under `time`, if the record may do without them.
pub open spec fn times_in_field(r: RecordView, place: int, first: Seq<char>, second: Seq<char>) -> Option<
    (Option<i64>, Option<i64>),
> {
    match record_in_field(r, "time"@, place) {
        None => None,
        Some(None) => Some((None, None)),
        Some(Some(time)) => if !fits(time, 2) {
            None
        } else {
            match (integer_in_field(time, seq![first], 0), integer_in_field(time, seq![second], 1)) {
                (Some(a), Some(b)) => Some((a, b)),
                _ => None,
            }
        },
    }
}

fn times_field(record: &Record, place: usize, first: &str, second: &str) -> (r: Option<(Option<i64>, Option<i64>)>)
    ensures
        r == times_in_field(record.deep_view(), place as int, first@, second@),
{
    match record.record_field("time", place) {
        None => None,
        Some(None) => Some((None, None)),
        Some(Some(time)) => {
            let one = vec![first];
            let two = vec![second];
            assert(one.deep_view() =~= seq![first@]);
            assert(two.deep_view() =~= seq![second@]);
            if !time.fits(2) {
                return None;
            }
            match (time.integer_field(&one, 0), time.integer_field(&two, 1)) {
                (Some(a), Some(b)) => Some((a, b)),
                _ => None,
            }
        },
    }
}

/// What the fields from `first` on say of a message: nothing where one is of another
/// type or is given twice.
pub open spec fn data_at(r: RecordView, first: int) -> Option<DataView> {
    match (
        text_in_field(r, "role"@, first),
        times_in_field(r, first + 1, "created"@, "completed"@),
        text_in_field(r, "modelID"@, first + 2),
    ) {
        (Some(role), Some(times), Some(model_id)) => Some(DataView { role, created: times.0, model_id }),
        _ => None,
    }
}

/// What a record says of a message.
pub open spec fn data_in(r: RecordView) -> Option<DataView> {
    if fits(r, 3) {
        data_at(r, 0)
    } else {
        None
    }
}

fn read_data(record: &Record, first: usize) -> (r: Option<MessageData>)
    requires
        first <= 1,
    ensures
        r.deep_view() == data_at(record.deep_view(), first as int),
{
    let role = match record.text_field("role", first) {
        Some(role) => role,
        None => return None,
    };
    let created = match times_field(record, first + 1, "created", "completed") {
        Some(times) => times.0,
        None => return None,
    };
    match record.text_field("modelID", first + 2) {
        Some(model_id) => Some(MessageData { role, created, model_id }),
        None => None,
    }
}

/// What a record says of a message.
pub fn data_from(record: &Record) -> (r: Option<MessageData>)
    ensures
        r.deep_view() == data_in(record.deep_view()),
{
    if record.fits(3) {
        read_data(record, 0)
    } else {
        None
    }
}

/// A message of a record, with its content.
pub open spec fn stored_message(
    data: DataView,
    created_at: Option<i64>,
    content: Seq<char>,
    message_id: Seq<char>,
    session_id: Option<Seq<char>>,
) -> MessageView {
    let role = or_default(data.role, "assistant"@);
    MessageView {
        idx: 0,
        role,
        author: if role == "assistant"@ {
            data.model_id
        } else {
            Some("user"@)
        },
        created_at,
        content,
        extra: JsonView::Object(
            seq![("message_id"@, JsonView::Text(message_id)), ("session_id"@, nullable_text(session_id))],
        ),
        invocations: Seq::empty(),
    }
}

/// A message of a record, with its content.
pub fn make_stored(
    data: MessageData,
    created_at: Option<i64>,
    content: String,
    message_id: &str,
    session_id: &Option<String>,
) -> (r: Message)
    ensures
        r.deep_view() == stored_message(
            data.deep_view(),
            created_at,
            content@,
            message_id@,
            session_id.deep_view(),
        ),
{
    let role = match data.role {
        Some(role) => role,
        None => "assistant".to_owned(),
    };
    let author = if same_text(role.as_str(), "assistant") {
        data.model_id
    } else {
        Some("user".to_owned())
    };
    let mut members: Vec<(String, Json)> = Vec::new();
    put(&mut members, "message_id", text_json(message_id));
    put(&mut members, "session_id", nullable_text_json(session_id));
    assert(members.deep_view() =~= seq![
        ("message_id"@, JsonView::Text(message_id@)),
        ("session_id"@, nullable_text(session_id.deep_view())),
    ]);
    let invocations: Vec<Invocation> = Vec::new();
    assert(invocations.deep_view() =~= Seq::empty());
    Message { idx: 0, role, author, created_at, content, extra: object(members), invocations }
}

/// A row of the table of parts.
pub struct PartRow {
    pub message_id: String,
    pub data: String,
}

/// A row of the table of messages.
pub struct MessageRow {
    pub id: String,
    pub data: String,
    pub time_created: SqlValue,
}

#[verifier::ext_equal]
pub struct PartRowView {
    pub message_id: Seq<char>,
    pub data: Seq<char>,
}

#[verifier::ext_equal]
pub struct MessageRowView {
    pub id: Seq<char>,
    pub data: Seq<char>,
    pub time_created: SqlView,
}

impl DeepView for PartRow {
    type V = PartRowView;

    open spec fn deep_view(&self) -> PartRowView {
        PartRowView { message_id: self.message_id@, data: self.data@ }
    }
}

impl DeepView for MessageRow {
    type V = MessageRowView;

    open spec fn deep_view(&self) -> MessageRowView {
        MessageRowView { id: self.id@, data: self.data@, time_created: self.time_created.deep_view() }
    }
}

/// The part that a text holds.
pub open spec fn part_in_text(text: Seq<char>, named: bool) -> Option<PartView> {
    match record_in(text) {
        Some(r) => part_in(r, named),
        None => None,
    }
}

pub fn part_from_text(text: &str, named: bool) -> (r: Option<PartInfo>)
    ensures
        r.deep_view() == part_in_text(text@, named),
{
    match read_record(text) {
        Some(record) => part_from(&record, named),
        None => None,
    }
}

/// The parts that rows hold, each with the message it belongs to.
pub open spec fn row_parts(rows: Seq<PartRowView>) -> Seq<(Seq<char>, PartView)>
    decreases rows.len(),
{
    if rows.len() == 0 {
        Seq::empty()
    } else {
        match part_in_text(rows.last().data, false) {
            Some(part) => row_parts(rows.drop_last()).push((rows.last().message_id, part)),
            None => row_parts(rows.drop_last()),
        }
    }
}

/// The parts that rows hold, each with the message it belongs to.
pub fn load_session_parts(rows: &Vec<PartRow>) -> (r: Vec<(String, PartInfo)>)
    ensures
        r.deep_view() == row_parts(rows.deep_view()),
{
    let ghost all = rows.deep_view();
    let mut out: Vec<(String, PartInfo)> = Vec::new();
    let mut i: usize = 0;
    assert(all.take(0) =~= Seq::empty());
    assert(out.deep_view() =~= Seq::empty());
    while i < rows.len()
        invariant
            i <= rows@.len(),
            all == rows.deep_view(),
            out.deep_view() == row_parts(all.take(i as int)),
        decreases rows.len() - i,
    {
        let row = &rows[i];
        let ghost before = out.deep_view();
        assert(all.take(i + 1).drop_last() =~= all.take(i as int));
        assert(all.take(i + 1).last() == row.deep_view());
        if let Some(part) = part_from_text(row.data.as_str(), false) {
            let ghost p = part.deep_view();
            out.push((row.message_id.clone(), part));
            assert(out.deep_view() =~= before.push((row.message_id@, p)));
        }
        i = i + 1;
    }
    assert(all.take(all.len() as int) =~= all);
    out
}

/// The parts of a message.
pub open spec fn own_parts(parts: Seq<(Seq<char>, PartView)>, id: Seq<char>) -> Seq<PartView>
    decreases parts.len(),
{
    if parts.len() == 0 {
        Seq::empty()
    } else if parts.last().0 == id {
        own_parts(parts.drop_last(), id).push(parts.last().1)
    } else {
        own_parts(parts.drop_last(), id)
    }
}

/// The parts of all other messages.
pub open spec fn other_parts(parts: Seq<(Seq<char>, PartView)>, id: Seq<char>) -> Seq<(Seq<char>, PartView)>
    decreases parts.len(),
{
    if parts.len() == 0 {
        Seq::empty()
    } else if parts.last().0 == id {
        other_parts(parts.drop_last(), id)
    } else {
        other_parts(parts.drop_last(), id).push(parts.last())
    }
}

fn take_parts(parts: Vec<(String, PartInfo)>, id: &str) -> (r: (Vec<PartInfo>, Vec<(String, PartInfo)>))
    ensures
        r.0.deep_view() == own_parts(parts.deep_view(), id@),
        r.1.deep_view() == other_parts(parts.deep_view(), id@),
{
    let ghost all = parts.deep_view();
    let mut own: Vec<PartInfo> = Vec::new();
    let mut other: Vec<(String, PartInfo)> = Vec::new();
    assert(all.take(0) =~= Seq::empty());
    assert(own.deep_view() =~= Seq::empty());
    assert(other.deep_view() =~= Seq::empty());
    for p in it: parts
        invariant
            it.seq() == parts@,
            all == parts.deep_view(),
            own.deep_view() == own_parts(all.take(it.index() as int), id@),
            other.deep_view() == other_parts(all.take(it.index() as int), id@),
    {
        let ghost n = it.index() as int;
        let ghost (x, y) = (own.deep_view(), other.deep_view());
        let ghost (key, part) = (p.0@, p.1.deep_view());
        assert(all.take(n + 1).drop_last() =~= all.take(n));
        assert(all.take(n + 1).last() == (key, part));
        if same_text(p.0.as_str(), id) {
            own.push(p.1);
            assert(own.deep_view() =~= x.push(part));
        } else {
            other.push(p);
            assert(other.deep_view() =~= y.push((key, part)));
        }
    }
    assert(all.take(all.len() as int) =~= all);
    (own, other)
}

/// What was read of the messages of a session so far, and the parts that no
/// message has taken.
#[verifier::ext_equal]
pub struct LoadView {
    pub rest: Seq<(Seq<char>, PartView)>,
    pub pending: Seq<PendingView>,
}

/// A message takes its parts. One whose record cannot be read takes none, and one
/// without content is left out.
pub open spec fn after_row(load: LoadView, row: MessageRowView, session_id: Seq<char>) -> LoadView {
    let data = match record_in(row.data) {
        Some(r) => data_in(r),
        None => None,
    };
    match data {
        None => load,
        Some(data) => {
            let content = assembled(sorted_parts(own_parts(load.rest, row.id)));
            let rest = other_parts(load.rest, row.id);
            if blank(content) {
                LoadView { rest, ..load }
            } else {
                let created = or_else(stored_millis(data.created), column_millis(row.time_created));
                LoadView {
                    rest,
                    pending: load.pending.push(
                        PendingView {
                            message_id: row.id,
                            message: stored_message(data, created, content, row.id, Some(session_id)),
                        },
                    ),
                }
            }
        },
    }
}

pub open spec fn load_of(
    rows: Seq<MessageRowView>,
    parts: Seq<(Seq<char>, PartView)>,
    session_id: Seq<char>,
) -> LoadView
    decreases rows.len(),
{
    if rows.len() == 0 {
        LoadView { rest: parts, pending: Seq::empty() }
    } else {
        after_row(load_of(rows.drop_last(), parts, session_id), rows.last(), session_id)
    }
}

/// The messages of a session, in order.
pub open spec fn session_messages(
    rows: Seq<MessageRowView>,
    parts: Seq<PartRowView>,
    session_id: Seq<char>,
) -> Seq<MessageView> {
    ordered_messages(load_of(rows, row_parts(parts), session_id).pending)
}

/// The messages of a session, in order.
pub fn load_session_messages(rows: &Vec<MessageRow>, session_id: &str, parts: Vec<(String, PartInfo)>) -> (r: Vec<
    Message,
>)
    ensures
        r.deep_view() == ordered_messages(load_of(rows.deep_view(), parts.deep_view(), session_id@).pending),
{
    let ghost all = rows.deep_view();
    let ghost given = parts.deep_view();
    let session = Some(session_id.to_owned());
    let mut rest = parts;
    let mut pending: Vec<PendingMessage> = Vec::new();
    let mut i: usize = 0;
    assert(all.take(0) =~= Seq::empty());
    assert(pending.deep_view() =~= Seq::empty());
    while i < rows.len()
        invariant
            i <= rows@.len(),
            all == rows.deep_view(),
            session.deep_view() == Some(session_id@),
            load_of(all.take(i as int), given, session_id@) == (LoadView {
                rest: rest.deep_view(),
                pending: pending.deep_view(),
            }),
        decreases rows.len() - i,
    {
        let row = &rows[i];
        let ghost before = pending.deep_view();
        assert(all.take(i + 1).drop_last() =~= all.take(i as int));
        assert(all.take(i + 1).last() == row.deep_view());
        let data = match read_record(row.data.as_str()) {
            Some(record) => data_from(&record),
            None => None,
        };
        if let Some(data) = data {
            let (own, other) = take_parts(rest, row.id.as_str());
            rest = other;
            let content = assemble_content_from_parts(&sort_parts_for_message(own));
            if !is_blank(content.as_str()) {
                let created = match normalize_opencode_timestamp(data.created) {
                    Some(t) => Some(t),
                    None => normalize_sqlite_ts_value(&row.time_created),
                };
                let message = make_stored(data, created, content, row.id.as_str(), &session);
                let p = PendingMessage { message_id: row.id.clone(), message };
                let ghost seen = p.deep_view();
                pending.push(p);
                assert(pending.deep_view() =~= before.push(seen));
            }
        }
        i = i + 1;
    }
    assert(all.take(all.len() as int) =~= all);
    order_messages(pending)
}

/// A row of the table of sessions.
pub struct SqliteSession {
    pub id: String,
    pub title: Option<String>,
    pub directory: Option<String>,
    pub project_id: Option<String>,
    pub time_created: SqlValue,
    pub time_updated: SqlValue,
}

#[verifier::ext_equal]
pub struct SessionView {
    pub id: Seq<char>,
    pub title: Option<Seq<char>>,
    pub directory: Option<Seq<char>>,
    pub project_id: Option<Seq<char>>,
    pub time_created: SqlView,
    pub time_updated: SqlView,
}

impl DeepView for SqliteSession {
    type V = SessionView;

    open spec fn deep_view(&self) -> SessionView {
        SessionView {
            id: self.id@,
            title: self.title.deep_view(),
            directory: self.directory.deep_view(),
            project_id: self.project_id.deep_view(),
            time_created: self.time_created.deep_view(),
            time_updated: self.time_updated.deep_view(),
        }
    }
}

/// When a session started.
pub open spec fn session_start(created: Option<i64>, messages: Seq<MessageView>) -> Option<i64> {
    or_else(created, earliest(instants(messages)))
}

/// When a session ended.
pub open spec fn session_end(created: Option<i64>, updated: Option<i64>, messages: Seq<MessageView>) -> Option<i64> {
    or_else(updated, or_else(latest(instants(messages)), session_start(created, messages)))
}

/// The conversation of a session in the database: none where it has no message, or
/// ended before `since`.
pub open spec fn database_conversation(
    db: Seq<Seq<char>>,
    session: SessionView,
    messages: Seq<MessageView>,
    since: Option<i64>,
) -> Option<ConversationView> {
    let created = column_millis(session.time_created);
    let updated = column_millis(session.time_updated);
    let started_at = session_start(created, messages);
    let ended_at = session_end(created, updated, messages);
    if messages.len() == 0 {
        None
    } else if since matches Some(since) && or_default(or_else(ended_at, started_at), 0) < since {
        None
    } else {
        Some(
            ConversationView {
                agent_slug: "opencode"@,
                external_id: Some(session.id),
                title: session_title(session.title, messages),
                workspace: session.directory,
                source_path: below(db, percent_encoded(vstd::utf8::encode_utf8(session.id))),
                started_at,
                ended_at,
                metadata: JsonView::Object(
                    seq![
                        ("project_id"@, nullable_text(session.project_id)),
                        ("session_id"@, JsonView::Text(session.id)),
                        ("source"@, JsonView::Text("sqlite"@)),
                    ],
                ),
                messages,
            },
        )
    }
}

/// Whether a session was last updated before `since`.
pub open spec fn is_stale(session: SessionView, since: Option<i64>) -> bool {
    match (since, column_millis(session.time_updated)) {
        (Some(since), Some(updated)) => updated < since,
        _ => false,
    }
}

/// A session that was last updated before `since` need not be read: whatever its
/// messages are, it has no conversation.
pub proof fn stale_sessions_have_no_conversation(
    db: Seq<Seq<char>>,
    session: SessionView,
    messages: Seq<MessageView>,
    since: Option<i64>,
)
    requires
        is_stale(session, since),
    ensures
        database_conversation(db, session, messages, since) is None,
{
}

/// Makes the conversation of a session in the database.
pub fn conversation_from_database(
    db: &SourcePath,
    session: &SqliteSession,
    messages: Vec<Message>,
    since: Option<i64>,
) -> (r: Option<Conversation>)
    ensures
        r.deep_view() == database_conversation(
            db.deep_view(),
            session.deep_view(),
            messages.deep_view(),
            since,
        ),
{
    if messages.len() == 0 {
        return None;
    }
    let created = normalize_sqlite_ts_value(&session.time_created);
    let updated = normalize_sqlite_ts_value(&session.time_updated);
    let started_at = match created {
        Some(t) => Some(t),
        None => first_instant(&messages),
    };
    let ended_at = match updated {
        Some(t) => Some(t),
        None => match last_instant(&messages) {
            Some(t) => Some(t),
            None => started_at,
        },
    };
    if let Some(since) = since {
        let last = match ended_at {
            Some(t) => t,
            None => match started_at {
                Some(t) => t,
                None => 0,
            },
        };
        if last < since {
            return None;
        }
    }
    let mut metadata: Vec<(String, Json)> = Vec::new();
    put(&mut metadata, "project_id", nullable_text_json(&session.project_id));
    put(&mut metadata, "session_id", text_json(session.id.as_str()));
    put(&mut metadata, "source", text_json("sqlite"));
    assert(metadata.deep_view() =~= seq![
        ("project_id"@, nullable_text(session.project_id.deep_view())),
        ("session_id"@, JsonView::Text(session.id@)),
        ("source"@, JsonView::Text("sqlite"@)),
    ]);
    let source_path = db.join(url_encode(session.id.as_str()).as_str());
    let title = title_of(session.title.clone(), &messages);
    Some(
        Conversation {
            agent_slug: "opencode".to_owned(),
            external_id: Some(session.id.clone()),
            title,
            workspace: session.directory.clone(),
            source_path,
            started_at,
            ended_at,
            metadata: object(metadata),
            messages,
        },
    )
}

/// A session of the older files.
pub struct SessionInfo {
    pub id: String,
    pub title: Option<String>,
    pub directory: Option<String>,
    pub project_id: Option<String>,
    pub created: Option<i64>,
    pub updated: Option<i64>,
}

#[verifier::ext_equal]
pub struct InfoView {
    pub id: Seq<char>,
    pub title: Option<Seq<char>>,
    pub directory: Option<Seq<char>>,
    pub project_id: Option<Seq<char>>,
    pub created: Option<i64>,
    pub updated: Option<i64>,
}

impl DeepView for SessionInfo {
    type V = InfoView;

    open spec fn deep_view(&self) -> InfoView {
        InfoView {
            id: self.id@,
            title: self.title.deep_view(),
            directory: self.directory.deep_view(),
            project_id: self.project_id.deep_view(),
            created: self.created,
            updated: self.updated,
        }
    }
}

/// The session that a record holds: none where it has no name, or a field is of another
/// type, is given twice or is one too many.
pub open spec fn session_in(r: RecordView) -> Option<InfoView> {
    if !fits(r, 5) {
        None
    } else {
        match (
            required_text(r, "id"@, 0),
            text_in_field(r, "title"@, 1),
            text_in_field(r, "directory"@, 2),
            text_in_field(r, "projectID"@, 3),
            times_in_field(r, 4, "created"@, "updated"@),
        ) {
            (Some(id), Some(title), Some(directory), Some(project_id), Some(times)) => Some(
                InfoView { id, title, directory, project_id, created: times.0, updated: times.1 },
            ),
            _ => None,
        }
    }
}

/// What a file of a session reads as.
pub open spec fn session_file(t: Seq<EntryView>, path: Seq<Seq<char>>) -> Result<InfoView, ReadError> {
    match text_at(t, path) {
        None => Err(ReadError::Unreadable),
        Some(text) => match record_in(text) {
            None => Err(ReadError::Malformed),
            Some(r) => match session_in(r) {
                None => Err(ReadError::Malformed),
                Some(info) => Ok(info),
            },
        },
    }
}

/// The session that a record holds.
pub fn session_from(record: &Record) -> (r: Option<SessionInfo>)
    ensures
        r.deep_view() == session_in(record.deep_view()),
{
    if !record.fits(5) {
        return None;
    }
    let id = match record.required_text("id", 0) {
        Some(id) => id,
        None => return None,
    };
    let title = match record.text_field("title", 1) {
        Some(t) => t,
        None => return None,
    };
    let directory = match record.text_field("directory", 2) {
        Some(t) => t,
        None => return None,
    };
    let project_id = match record.text_field("projectID", 3) {
        Some(t) => t,
        None => return None,
    };
    match times_field(record, 4, "created", "updated") {
        Some(times) => Some(SessionInfo { id, title, directory, project_id, created: times.0, updated: times.1 }),
        None => None,
    }
}

/// Reads the file of a session. It fails as unreadable where there is no text, and
/// as malformed where that holds no session.
pub fn parse_session_file(files: &FileTable, path: &SourcePath) -> (r: Result<SessionInfo, ReadError>)
    ensures
        match r {
            Ok(info) => session_file(files.deep_view(), path.deep_view()) == Ok::<InfoView, ReadError>(
                info.deep_view(),
            ),
            Err(e) => session_file(files.deep_view(), path.deep_view()) == Err::<InfoView, ReadError>(e),
        },
{
    let text = match files.read_text(path) {
        Some(text) => text,
        None => return Err(ReadError::Unreadable),
    };
    let record = match read_record(text.as_str()) {
        Some(record) => record,
        None => return Err(ReadError::Malformed),
    };
    match session_from(&record) {
        Some(info) => Ok(info),
        None => Err(ReadError::Malformed),
    }
}

/// The parts that these files hold.
pub open spec fn file_parts(t: Seq<EntryView>, paths: Seq<Seq<Seq<char>>>) -> Seq<PartView>
    decreases paths.len(),
{
    if paths.len() == 0 {
        Seq::empty()
    } else {
        let front = file_parts(t, paths.drop_last());
        match text_at(t, paths.last()) {
            None => front,
            Some(text) => match part_in_text(text, true) {
                Some(part) => front.push(part),
                None => front,
            },
        }
    }
}

/// The files of documents that stand right in a directory.
pub open spec fn documents_in(t: Seq<EntryView>, directory: Seq<Seq<char>>) -> Seq<Seq<Seq<char>>> {
    only_extension(walked_files(t, directory, 0, Some(1)), "json"@)
}

/// The parts of a message that stand in a directory.
pub open spec fn parts_in(t: Seq<EntryView>, directory: Seq<Seq<char>>) -> Seq<PartView> {
    if path_exists(t, directory) {
        file_parts(t, documents_in(t, directory))
    } else {
        Seq::empty()
    }
}

fn read_parts(files: &FileTable, directory: &SourcePath) -> (r: Vec<PartInfo>)
    ensures
        r.deep_view() == parts_in(files.deep_view(), directory.deep_view()),
{
    let ghost t = files.deep_view();
    let mut out: Vec<PartInfo> = Vec::new();
    assert(out.deep_view() =~= Seq::empty());
    if !files.has(directory) {
        return out;
    }
    let paths = keep_extension(files.walk(directory, 0, Some(1)), "json");
    let ghost all = paths.deep_view();
    let mut i: usize = 0;
    assert(all.take(0) =~= Seq::empty());
    while i < paths.len()
        invariant
            i <= paths@.len(),
            t == files.deep_view(),
            all == paths.deep_view(),
            out.deep_view() == file_parts(t, all.take(i as int)),
        decreases paths.len() - i,
    {
        let ghost before = out.deep_view();
        assert(all.take(i + 1).drop_last() =~= all.take(i as int));
        assert(all.take(i + 1).last() == paths@[i as int].deep_view());
        if let Some(text) = files.read_text(&paths[i]) {
            if let Some(part) = part_from_text(text.as_str(), true) {
                let ghost p = part.deep_view();
                out.push(part);
                assert(out.deep_view() =~= before.push(p));
            }
        }
        i = i + 1;
    }
    assert(all.take(all.len() as int) =~= all);
    out
}

/// A message of the older files: what it says, its name and that of its session.
#[verifier::ext_equal]
pub struct NamedData {
    pub id: Seq<char>,
    pub data: DataView,
    pub session_id: Option<Seq<char>>,
}

/// The message that a record holds, by its name and that of its session.
pub open spec fn named_data_in(r: RecordView) -> Option<NamedData> {
    if !fits(r, 5) {
        None
    } else {
        match (required_text(r, "id"@, 0), data_at(r, 1), text_in_field(r, "sessionID"@, 4)) {
            (Some(id), Some(data), Some(session_id)) => Some(NamedData { id, data, session_id }),
            _ => None,
        }
    }
}

/// The message that a record holds, by its name and that of its session.
pub fn named_data_from(record: &Record) -> (r: Option<(String, MessageData, Option<String>)>)
    ensures
        match r {
            Some((id, data, session_id)) => named_data_in(record.deep_view()) == Some(
                NamedData { id: id@, data: data.deep_view(), session_id: session_id.deep_view() },
            ),
            None => named_data_in(record.deep_view()) is None,
        },
{
    if !record.fits(5) {
        return None;
    }
    let id = match record.required_text("id", 0) {
        Some(id) => id,
        None => return None,
    };
    let data = match read_data(record, 1) {
        Some(data) => data,
        None => return None,
    };
    match record.text_field("sessionID", 4) {
        Some(session_id) => Some((id, data, session_id)),
        None => None,
    }
}

/// A message of a file, with the parts beside it. One that cannot be read, or
/// without content, is left out.
pub open spec fn after_file(
    t: Seq<EntryView>,
    pending: Seq<PendingView>,
    path: Seq<Seq<char>>,
    part_dir: Seq<Seq<char>>,
) -> Seq<PendingView> {
    let named = match text_at(t, path) {
        None => None,
        Some(text) => match record_in(text) {
            None => None,
            Some(r) => named_data_in(r),
        },
    };
    match named {
        None => pending,
        Some(named) => {
            let content = assembled(sorted_parts(parts_in(t, below(part_dir, named.id))));
            if blank(content) {
                pending
            } else {
                pending.push(
                    PendingView {
                        message_id: named.id,
                        message: stored_message(
                            named.data,
                            stored_millis(named.data.created),
                            content,
                            named.id,
                            named.session_id,
                        ),
                    },
                )
            }
        },
    }
}

pub open spec fn file_messages(t: Seq<EntryView>, paths: Seq<Seq<Seq<char>>>, part_dir: Seq<Seq<char>>) -> Seq<
    PendingView,
>
    decreases paths.len(),
{
    if paths.len() == 0 {
        Seq::empty()
    } else {
        after_file(t, file_messages(t, paths.drop_last(), part_dir), paths.last(), part_dir)
    }
}

/// The messages that stand in a directory, in order.
pub open spec fn messages_in(t: Seq<EntryView>, directory: Seq<Seq<char>>, part_dir: Seq<Seq<char>>) -> Seq<
    MessageView,
> {
    ordered_messages(file_messages(t, documents_in(t, directory), part_dir))
}

/// The messages that stand in a directory, in order.
pub fn load_messages(files: &FileTable, session_msg_dir: &SourcePath, part_dir: &SourcePath) -> (r: Vec<Message>)
    ensures
        r.deep_view() == messages_in(files.deep_view(), session_msg_dir.deep_view(), part_dir.deep_view()),
{
    let ghost t = files.deep_view();
    let ghost parts = part_dir.deep_view();
    let paths = keep_extension(files.walk(session_msg_dir, 0, Some(1)), "json");
    let ghost all = paths.deep_view();
    let mut pending: Vec<PendingMessage> = Vec::new();
    let mut i: usize = 0;
    assert(all.take(0) =~= Seq::empty());
    assert(pending.deep_view() =~= Seq::empty());
    while i < paths.len()
        invariant
            i <= paths@.len(),
            t == files.deep_view(),
            parts == part_dir.deep_view(),
            all == paths.deep_view(),
            pending.deep_view() == file_messages(t, all.take(i as int), parts),
        decreases paths.len() - i,
    {
        let ghost before = pending.deep_view();
        assert(all.take(i + 1).drop_last() =~= all.take(i as int));
        assert(all.take(i + 1).last() == paths@[i as int].deep_view());
        let named = match files.read_text(&paths[i]) {
            Some(text) => match read_record(text.as_str()) {
                Some(record) => named_data_from(&record),
                None => None,
            },
            None => None,
        };
        if let Some((id, data, session_id)) = named {
            let own = read_parts(files, &part_dir.join(id.as_str()));
            let content = assemble_content_from_parts(&sort_parts_for_message(own));
            if !is_blank(content.as_str()) {
                let created = normalize_opencode_timestamp(data.created);
                let message = make_stored(data, created, content, id.as_str(), &session_id);
                let p = PendingMessage { message_id: id, message };
                let ghost seen = p.deep_view();
                pending.push(p);
                assert(pending.deep_view() =~= before.push(seen));
            }
        }
        i = i + 1;
    }
    assert(all.take(all.len() as int) =~= all);
    order_messages(pending)
}

/// The conversation of a session of the older files: none where it has no message.
pub open spec fn files_conversation(
    path: Seq<Seq<char>>,
    info: InfoView,
    messages: Seq<MessageView>,
) -> Option<ConversationView> {
    let created = stored_millis(info.created);
    let updated = stored_millis(info.updated);
    if messages.len() == 0 {
        None
    } else {
        Some(
            ConversationView {
                agent_slug: "opencode"@,
                external_id: Some(info.id),
                title: session_title(info.title, messages),
                workspace: info.directory,
                source_path: path,
                started_at: session_start(created, messages),
                ended_at: session_end(created, updated, messages),
                metadata: JsonView::Object(
                    seq![
                        ("project_id"@, nullable_text(info.project_id)),
                        ("session_id"@, JsonView::Text(info.id)),
                    ],
                ),
                messages,
            },
        )
    }
}

/// Makes the conversation of a session of the older files.
pub fn conversation_from_files(path: &SourcePath, info: SessionInfo, messages: Vec<Message>) -> (r: Option<
    Conversation,
>)
    ensures
        r.deep_view() == files_conversation(path.deep_view(), info.deep_view(), messages.deep_view()),
{
    if messages.len() == 0 {
        return None;
    }
    let started_at = match normalize_opencode_timestamp(info.created) {
        Some(t) => Some(t),
        None => first_instant(&messages),
    };
    let ended_at = match normalize_opencode_timestamp(info.updated) {
        Some(t) => Some(t),
        None => match last_instant(&messages) {
            Some(t) => Some(t),
            None => started_at,
        },
    };
    let mut metadata: Vec<(String, Json)> = Vec::new();
    put(&mut metadata, "project_id", nullable_text_json(&info.project_id));
    put(&mut metadata, "session_id", text_json(info.id.as_str()));
    assert(metadata.deep_view() =~= seq![
        ("project_id"@, nullable_text(info.project_id.deep_view())),
        ("session_id"@, JsonView::Text(info.id@)),
    ]);
    let title = title_of(info.title, &messages);
    Some(
        Conversation {
            agent_slug: "opencode".to_owned(),
            external_id: Some(info.id),
            title,
            workspace: info.directory,
            source_path: path.copy(),
            started_at,
            ended_at,
            metadata: object(metadata),
            messages,
        },
    )
}

proof fn load_is_not_blank(rows: Seq<MessageRowView>, parts: Seq<(Seq<char>, PartView)>, session_id: Seq<char>)
    ensures
        forall|i: int|
            0 <= i < load_of(rows, parts, session_id).pending.len() ==> !blank(
                (#[trigger] load_of(rows, parts, session_id).pending[i]).message.content,
            ),
    decreases rows.len(),
{
    if rows.len() > 0 {
        load_is_not_blank(rows.drop_last(), parts, session_id);
    }
}

proof fn file_messages_are_not_blank(t: Seq<EntryView>, paths: Seq<Seq<Seq<char>>>, part_dir: Seq<Seq<char>>)
    ensures
        forall|i: int|
            0 <= i < file_messages(t, paths, part_dir).len() ==> !blank(
                (#[trigger] file_messages(t, paths, part_dir)[i]).message.content,
            ),
    decreases paths.len(),
{
    if paths.len() > 0 {
        file_messages_are_not_blank(t, paths.drop_last(), part_dir);
    }
}

/// What holds of the messages of a session: each carries its place, none is blank,
/// and none comes before an earlier one, those without a time being last.
pub open spec fn are_in_time(messages: Seq<MessageView>) -> bool {
    &&& is_numbered(messages)
    &&& forall|i: int| 0 <= i < messages.len() ==> !blank((#[trigger] messages[i]).content)
    &&& forall|i: int, j: int|
        0 <= i < j < messages.len() ==> place_or_last((#[trigger] messages[i]).created_at) <= place_or_last(
            (#[trigger] messages[j]).created_at,
        )
}

/// The messages of a session in the database are in time.
pub proof fn session_messages_are_in_time(
    rows: Seq<MessageRowView>,
    parts: Seq<PartRowView>,
    session_id: Seq<char>,
)
    ensures
        are_in_time(session_messages(rows, parts, session_id)),
{
    let pending = load_of(rows, row_parts(parts), session_id).pending;
    load_is_not_blank(rows, row_parts(parts), session_id);
    ordered_messages_are_given(pending);
}

/// The messages of a session of the older files are in time.
pub proof fn file_messages_are_in_time(t: Seq<EntryView>, directory: Seq<Seq<char>>, part_dir: Seq<Seq<char>>)
    ensures
        are_in_time(messages_in(t, directory, part_dir)),
{
    let pending = file_messages(t, documents_in(t, directory), part_dir);
    file_messages_are_not_blank(t, documents_in(t, directory), part_dir);
    ordered_messages_are_given(pending);
}

proof fn stored_message_is_canonical(
    data: DataView,
    created_at: Option<i64>,
    content: Seq<char>,
    message_id: Seq<char>,
    session_id: Option<Seq<char>>,
)
    ensures
        canonical_message(stored_message(data, created_at, content, message_id, session_id)),
{
    nullables_are_canonical(session_id, None);
    reveal_strlit("message_id");
    reveal_strlit("session_id");
    comes_before("message_id"@, "session_id"@, 0);
    rising_members_are_canonical(
        seq![("message_id"@, JsonView::Text(message_id)), ("session_id"@, nullable_text(session_id))],
    );
}

proof fn load_is_canonical(rows: Seq<MessageRowView>, parts: Seq<(Seq<char>, PartView)>, session_id: Seq<char>)
    ensures
        canonical_pending(load_of(rows, parts, session_id).pending),
    decreases rows.len(),
{
    if rows.len() > 0 {
        let row = rows.last();
        let before = load_of(rows.drop_last(), parts, session_id);
        let after = load_of(rows, parts, session_id);
        load_is_canonical(rows.drop_last(), parts, session_id);
        if after.pending != before.pending {
            let m = after.pending.last().message;
            let data = data_in(record_in(row.data)->0)->0;
            stored_message_is_canonical(data, m.created_at, m.content, row.id, Some(session_id));
            pending_grows(before.pending, after.pending.last());
        }
    }
}

/// The documents of the conversation of a session of a database are canonical.
pub proof fn database_conversation_is_canonical(
    db: Seq<Seq<char>>,
    session: SessionView,
    rows: Seq<MessageRowView>,
    parts: Seq<PartRowView>,
    since: Option<i64>,
)
    ensures
        database_conversation(db, session, session_messages(rows, parts, session.id), since) matches Some(c)
            ==> canonical_conversation(c),
{
    load_is_canonical(rows, row_parts(parts), session.id);
    ordered_canonical(load_of(rows, row_parts(parts), session.id).pending);
    nullables_are_canonical(session.project_id, None);
    reveal_strlit("project_id");
    reveal_strlit("session_id");
    reveal_strlit("source");
    comes_before("project_id"@, "session_id"@, 0);
    comes_before("session_id"@, "source"@, 1);
    rising_members_are_canonical(
        seq![
            ("project_id"@, nullable_text(session.project_id)),
            ("session_id"@, JsonView::Text(session.id)),
            ("source"@, JsonView::Text("sqlite"@)),
        ],
    );
}

proof fn file_messages_are_canonical(t: Seq<EntryView>, paths: Seq<Seq<Seq<char>>>, part_dir: Seq<Seq<char>>)
    ensures
        canonical_pending(file_messages(t, paths, part_dir)),
    decreases paths.len(),
{
    if paths.len() > 0 {
        let before = file_messages(t, paths.drop_last(), part_dir);
        let after = file_messages(t, paths, part_dir);
        file_messages_are_canonical(t, paths.drop_last(), part_dir);
        if after != before {
            let m = after.last().message;
            let named = named_data_in(record_in(text_at(t, paths.last())->0)->0)->0;
            stored_message_is_canonical(named.data, m.created_at, m.content, named.id, named.session_id);
            pending_grows(before, after.last());
        }
    }
}

/// What the messages of a directory hold is canonical.
pub proof fn messages_in_are_canonical(t: Seq<EntryView>, directory: Seq<Seq<char>>, part_dir: Seq<Seq<char>>)
    ensures
        canonical_messages(messages_in(t, directory, part_dir)),
{
    file_messages_are_canonical(t, documents_in(t, directory), part_dir);
    ordered_canonical(file_messages(t, documents_in(t, directory), part_dir));
}

/// The documents of the conversation of a session in files are canonical.
pub proof fn files_conversation_is_canonical(path: Seq<Seq<char>>, info: InfoView, messages: Seq<MessageView>)
    requires
        canonical_messages(messages),
    ensures
        files_conversation(path, info, messages) matches Some(c) ==> canonical_conversation(c),
{
    nullables_are_canonical(info.project_id, None);
    reveal_strlit("project_id");
    reveal_strlit("session_id");
    comes_before("project_id"@, "session_id"@, 0);
    rising_members_are_canonical(
        seq![("project_id"@, nullable_text(info.project_id)), ("session_id"@, JsonView::Text(info.id))],
    );
}

/// A column that holds an integer counts milliseconds, or seconds where that is plausible;
/// one that holds nothing that is a time denotes none.
pub proof fn columns_denote_instants(n: i64)
    ensures
        1_000_000_000 <= n < 10_000_000_000 ==> column_millis(SqlView::Integer(n)) == Some((n * 1000) as i64),
        n < 1_000_000_000 || n >= 10_000_000_000 ==> column_millis(SqlView::Integer(n)) == Some(n),
        column_millis(SqlView::Null) is None,
        column_millis(SqlView::Blob) is None,
        forall|t: Seq<char>| column_millis(SqlView::Text(t)) == stored_text_millis(t),
        forall|bits: u64|
            column_millis(SqlView::Float(bits)) == column_millis(SqlView::Integer(cast_integer(bits))),
{
}

/// A message says who spoke, when and what: the assistant where no role is given, whose
/// author is the model, while everyone else is the user. It names itself and its session.
pub proof fn stored_messages_say_who_spoke(
    data: DataView,
    created_at: Option<i64>,
    content: Seq<char>,
    message_id: Seq<char>,
    session_id: Option<Seq<char>>,
)
    ensures
        ({
            let m = stored_message(data, created_at, content, message_id, session_id);
            &&& data.role matches Some(role) ==> m.role == role
            &&& data.role is None ==> m.role == "assistant"@
            &&& m.role == "assistant"@ ==> m.author == data.model_id
            &&& m.role != "assistant"@ ==> m.author == Some("user"@)
            &&& m.created_at == created_at
            &&& m.content == content
            &&& m.invocations.len() == 0
            &&& member(m.extra, "message_id"@) == Some(JsonView::Text(message_id))
            &&& session_id matches Some(id) ==> member(m.extra, "session_id"@) == Some(JsonView::Text(id))
            &&& session_id is None ==> member(m.extra, "session_id"@) == Some(JsonView::Null)
        }),
{
    let members = seq![("message_id"@, JsonView::Text(message_id)), ("session_id"@, nullable_text(session_id))];
    reveal_strlit("message_id");
    reveal_strlit("session_id");
    assert("message_id"@[0] != "session_id"@[0]);
    member_is_the_first_of_its_key(JsonView::Null, members, "message_id"@, 0);
    member_is_the_first_of_its_key(JsonView::Null, members, "session_id"@, 1);
}

/// The parts of a message are those of the rows that name it, in the order of the rows:
/// a row of another message, or one that holds no part, adds none.
pub proof fn parts_belong_to_their_message(rows: Seq<PartRowView>, row: PartRowView, id: Seq<char>)
    ensures
        own_parts(row_parts(Seq::empty()), id).len() == 0,
        row.message_id != id || part_in_text(row.data, false) is None ==> own_parts(row_parts(rows.push(row)), id)
            == own_parts(row_parts(rows), id),
        row.message_id == id ==> (part_in_text(row.data, false) matches Some(part) ==> own_parts(
            row_parts(rows.push(row)),
            id,
        ) == own_parts(row_parts(rows), id).push(part)),
{
    let more = rows.push(row);
    assert(more.drop_last() =~= rows);
    assert(more.last() == row);
    if let Some(part) = part_in_text(row.data, false) {
        let pairs = row_parts(rows).push((row.message_id, part));
        assert(pairs.drop_last() =~= row_parts(rows));
        assert(pairs.last() == (row.message_id, part));
    }
}

proof fn other_parts_keep_own(parts: Seq<(Seq<char>, PartView)>, taken: Seq<char>, id: Seq<char>)
    requires
        taken != id,
    ensures
        own_parts(other_parts(parts, taken), id) == own_parts(parts, id),
    decreases parts.len(),
{
    if parts.len() > 0 {
        let front = parts.drop_last();
        other_parts_keep_own(front, taken, id);
        if parts.last().0 != taken {
            let kept = other_parts(front, taken).push(parts.last());
            assert(kept.drop_last() =~= other_parts(front, taken));
            assert(kept.last() == parts.last());
        }
    }
}

proof fn rest_keeps_own(
    rows: Seq<MessageRowView>,
    parts: Seq<(Seq<char>, PartView)>,
    session_id: Seq<char>,
    id: Seq<char>,
)
    requires
        forall|i: int| 0 <= i < rows.len() ==> (#[trigger] rows[i]).id != id,
    ensures
        own_parts(load_of(rows, parts, session_id).rest, id) == own_parts(parts, id),
    decreases rows.len(),
{
    if rows.len() > 0 {
        let front = rows.drop_last();
        assert forall|i: int| 0 <= i < front.len() implies (#[trigger] front[i]).id != id by {
            assert(rows[i].id != id);
        }
        rest_keeps_own(front, parts, session_id, id);
        assert(rows[rows.len() - 1].id != id);
        other_parts_keep_own(load_of(front, parts, session_id).rest, rows.last().id, id);
    }
}

proof fn pending_stays(
    rows: Seq<MessageRowView>,
    parts: Seq<(Seq<char>, PartView)>,
    session_id: Seq<char>,
    k: int,
    at: int,
)
    requires
        0 <= k <= rows.len(),
        0 <= at < load_of(rows.take(k), parts, session_id).pending.len(),
    ensures
        at < load_of(rows, parts, session_id).pending.len(),
        load_of(rows, parts, session_id).pending[at] == load_of(rows.take(k), parts, session_id).pending[at],
    decreases rows.len(),
{
    if k == rows.len() {
        assert(rows.take(k) =~= rows);
    } else {
        let front = rows.drop_last();
        assert(front.take(k) =~= rows.take(k));
        pending_stays(front, parts, session_id, k, at);
    }
}

/// A row that no other shares its name with makes a message of the session: said by
/// whom its record tells, at the time that the record gives or else the row, with the
/// content of the parts of that name put together in their order.
pub proof fn rows_make_messages(
    rows: Seq<MessageRowView>,
    parts: Seq<PartRowView>,
    session_id: Seq<char>,
    k: int,
    r: RecordView,
    role: Option<Seq<char>>,
    times: (Option<i64>, Option<i64>),
    model: Option<Seq<char>>,
) -> (at: int)
    requires
        0 <= k < rows.len() <= i64::MAX,
        forall|i: int| 0 <= i < rows.len() && i != k ==> (#[trigger] rows[i]).id != rows[k].id,
        record_in(rows[k].data) == Some(r),
        fits(r, 3),
        text_in_field(r, "role"@, 0) == Some(role),
        times_in_field(r, 1, "created"@, "completed"@) == Some(times),
        text_in_field(r, "modelID"@, 2) == Some(model),
        !blank(assembled(sorted_parts(own_parts(row_parts(parts), rows[k].id)))),
    ensures
        0 <= at < session_messages(rows, parts, session_id).len(),
        ({
            let m = session_messages(rows, parts, session_id)[at];
            &&& m.content == assembled(sorted_parts(own_parts(row_parts(parts), rows[k].id)))
            &&& role matches Some(role) ==> m.role == role
            &&& role is None ==> m.role == "assistant"@
            &&& m.role == "assistant"@ ==> m.author == model
            &&& m.role != "assistant"@ ==> m.author == Some("user"@)
            &&& times.0 matches Some(n) ==> m.created_at == Some(plausible_millis(n))
            &&& times.0 is None ==> m.created_at == column_millis(rows[k].time_created)
            &&& member(m.extra, "message_id"@) == Some(JsonView::Text(rows[k].id))
            &&& member(m.extra, "session_id"@) == Some(JsonView::Text(session_id))
        }),
{
    let pairs = row_parts(parts);
    let row = rows[k];
    let front = rows.take(k);
    let before = load_of(front, pairs, session_id);
    assert forall|i: int| 0 <= i < front.len() implies (#[trigger] front[i]).id != row.id by {
        assert(rows[i].id != row.id);
    }
    rest_keeps_own(front, pairs, session_id, row.id);
    assert(rows.take(k + 1).drop_last() =~= front);
    assert(rows.take(k + 1).last() == row);
    let n = before.pending.len() as int;
    let after = load_of(rows.take(k + 1), pairs, session_id);
    assert(after == after_row(before, row, session_id));
    assert(after.pending.len() == n + 1);
    pending_stays(rows, pairs, session_id, k + 1, n);
    let pending = load_of(rows, pairs, session_id).pending;
    load_is_bounded(rows, pairs, session_id);
    let places = ordered_messages_are_an_arrangement(pending);
    let at = every_place_is_taken(places, n);
    let data = data_in(r)->0;
    stored_messages_say_who_spoke(
        data,
        or_else(stored_millis(data.created), column_millis(row.time_created)),
        assembled(sorted_parts(own_parts(pairs, row.id))),
        row.id,
        Some(session_id),
    );
    at
}

proof fn load_is_bounded(rows: Seq<MessageRowView>, parts: Seq<(Seq<char>, PartView)>, session_id: Seq<char>)
    ensures
        load_of(rows, parts, session_id).pending.len() <= rows.len(),
    decreases rows.len(),
{
    if rows.len() > 0 {
        load_is_bounded(rows.drop_last(), parts, session_id);
    }
}

/// What a session of the database is told of in its conversation: its name, its own title
/// or else the first line of its first message, the directory it ran in, its own times or
/// else those of its messages, and where it is stored.
pub proof fn sessions_are_told_of(
    db: Seq<Seq<char>>,
    session: SessionView,
    messages: Seq<MessageView>,
    since: Option<i64>,
)
    ensures
        messages.len() == 0 ==> database_conversation(db, session, messages, since) is None,
        messages.len() > 0 && since is None ==> database_conversation(db, session, messages, since) is Some,
        database_conversation(db, session, messages, since) matches Some(c) ==> {
            &&& c.agent_slug == "opencode"@
            &&& c.external_id == Some(session.id)
            &&& c.messages == messages
            &&& session.title is Some ==> c.title == session.title
            &&& session.title is None ==> c.title == headline(messages[0].content, 100)
            &&& c.workspace == session.directory
            &&& c.source_path == below(db, percent_encoded(vstd::utf8::encode_utf8(session.id)))
            &&& column_millis(session.time_created) matches Some(n) ==> c.started_at == Some(n)
            &&& column_millis(session.time_created) is None ==> is_first_instant(c.started_at, messages)
            &&& column_millis(session.time_updated) matches Some(n) ==> c.ended_at == Some(n)
            &&& column_millis(session.time_updated) is None && c.ended_at != c.started_at ==> is_last_instant(
                c.ended_at,
                messages,
            )
            &&& column_millis(session.time_updated) is None ==> forall|i: int|
                0 <= i < messages.len() && (#[trigger] messages[i]).created_at is Some ==> is_last_instant(
                    c.ended_at,
                    messages,
                )
            &&& member(c.metadata, "session_id"@) == Some(JsonView::Text(session.id))
            &&& member(c.metadata, "project_id"@) == Some(nullable_text(session.project_id))
            &&& member(c.metadata, "source"@) == Some(JsonView::Text("sqlite"@))
        },
{
    instants_of_messages_are_bounded(messages);
    own_titles_are_kept(session.title, messages);
    let members = seq![
        ("project_id"@, nullable_text(session.project_id)),
        ("session_id"@, JsonView::Text(session.id)),
        ("source"@, JsonView::Text("sqlite"@)),
    ];
    reveal_strlit("project_id");
    reveal_strlit("session_id");
    reveal_strlit("source");
    assert("project_id"@[0] != "session_id"@[0]);
    assert("source"@.len() == 6 && "session_id"@.len() == 10 && "project_id"@.len() == 10);
    member_is_the_first_of_its_key(JsonView::Null, members, "project_id"@, 0);
    member_is_the_first_of_its_key(JsonView::Null, members, "session_id"@, 1);
    member_is_the_first_of_its_key(JsonView::Null, members, "source"@, 2);
}

/// A session that ended, or else started, at a time is told of exactly where that time is
/// not before the one since which sessions are wanted.
pub proof fn sessions_are_told_of_since(
    db: Seq<Seq<char>>,
    session: SessionView,
    messages: Seq<MessageView>,
    since: i64,
    updated: i64,
)
    requires
        messages.len() > 0,
        column_millis(session.time_updated) == Some(updated),
    ensures
        database_conversation(db, session, messages, Some(since)) is Some <==> updated >= since,
{
}

/// What a session of the older files is told of in its conversation.
pub proof fn session_files_are_told_of(path: Seq<Seq<char>>, info: InfoView, messages: Seq<MessageView>)
    ensures
        messages.len() == 0 <==> files_conversation(path, info, messages) is None,
        files_conversation(path, info, messages) matches Some(c) ==> {
            &&& c.agent_slug == "opencode"@
            &&& c.external_id == Some(info.id)
            &&& c.messages == messages
            &&& info.title is Some ==> c.title == info.title
            &&& info.title is None ==> c.title == headline(messages[0].content, 100)
            &&& c.workspace == info.directory
            &&& c.source_path == path
            &&& info.created matches Some(n) ==> c.started_at == Some(plausible_millis(n))
            &&& info.created is None ==> is_first_instant(c.started_at, messages)
            &&& info.updated matches Some(n) ==> c.ended_at == Some(plausible_millis(n))
            &&& info.updated is None ==> forall|i: int|
                0 <= i < messages.len() && (#[trigger] messages[i]).created_at is Some ==> is_last_instant(
                    c.ended_at,
                    messages,
                )
            &&& info.updated is None && (forall|i: int|
                0 <= i < messages.len() ==> (#[trigger] messages[i]).created_at is None) ==> c.ended_at == c.started_at
            &&& member(c.metadata, "session_id"@) == Some(JsonView::Text(info.id))
            &&& member(c.metadata, "project_id"@) == Some(nullable_text(info.project_id))
        },
{
    instants_of_messages_are_bounded(messages);
    own_titles_are_kept(info.title, messages);
    let members = seq![("project_id"@, nullable_text(info.project_id)), ("session_id"@, JsonView::Text(info.id))];
    reveal_strlit("project_id");
    reveal_strlit("session_id");
    assert("project_id"@[0] != "session_id"@[0]);
    member_is_the_first_of_its_key(JsonView::Null, members, "project_id"@, 0);
    member_is_the_first_of_its_key(JsonView::Null, members, "session_id"@, 1);
}

/// A record of a session gives its name, title, directory, project and times under those
/// names, or in that order.
pub proof fn session_records_are_read(r: RecordView, info: InfoView)
    requires
        session_in(r) == Some(info),
    ensures
        required_text(r, "id"@, 0) == Some(info.id),
        text_in_field(r, "title"@, 1) == Some(info.title),
        text_in_field(r, "directory"@, 2) == Some(info.directory),
        text_in_field(r, "projectID"@, 3) == Some(info.project_id),
        record_in_field(r, "time"@, 4) matches Some(Some(time)) ==> integer_in_field(time, seq!["created"@], 0) == Some(
            info.created,
        ) && integer_in_field(time, seq!["updated"@], 1) == Some(info.updated),
        record_in_field(r, "time"@, 4) matches Some(None) ==> info.created is None && info.updated is None,
{
}

/// A file that holds a message makes one where the parts in the directory of its name say
/// something, behind those of the files before it: said by whom its record tells, at the
/// time that it gives, with the content of those parts put together in their order.
pub proof fn message_files_make_messages(
    t: Seq<EntryView>,
    paths: Seq<Seq<Seq<char>>>,
    path: Seq<Seq<char>>,
    part_dir: Seq<Seq<char>>,
    text: Seq<char>,
    r: RecordView,
    id: Seq<char>,
    role: Option<Seq<char>>,
    times: (Option<i64>, Option<i64>),
    model: Option<Seq<char>>,
    session_id: Option<Seq<char>>,
)
    requires
        text_at(t, path) == Some(text),
        record_in(text) == Some(r),
        fits(r, 5),
        required_text(r, "id"@, 0) == Some(id),
        text_in_field(r, "role"@, 1) == Some(role),
        times_in_field(r, 2, "created"@, "completed"@) == Some(times),
        text_in_field(r, "modelID"@, 3) == Some(model),
        text_in_field(r, "sessionID"@, 4) == Some(session_id),
    ensures
        ({
            let before = file_messages(t, paths, part_dir);
            let after = file_messages(t, paths.push(path), part_dir);
            let content = assembled(sorted_parts(parts_in(t, below(part_dir, id))));
            &&& blank(content) ==> after == before
            &&& !blank(content) ==> {
                let p = after.last();
                let m = p.message;
                &&& after == before.push(p)
                &&& p.message_id == id
                &&& m.content == content
                &&& role matches Some(role) ==> m.role == role
                &&& role is None ==> m.role == "assistant"@
                &&& m.role == "assistant"@ ==> m.author == model
                &&& m.role != "assistant"@ ==> m.author == Some("user"@)
                &&& times.0 matches Some(n) ==> m.created_at == Some(plausible_millis(n))
                &&& times.0 is None ==> m.created_at is None
                &&& member(m.extra, "message_id"@) == Some(JsonView::Text(id))
                &&& member(m.extra, "session_id"@) == Some(nullable_text(session_id))
            }
        }),
{
    let more = paths.push(path);
    assert(more.drop_last() =~= paths);
    assert(more.last() == path);
    let content = assembled(sorted_parts(parts_in(t, below(part_dir, id))));
    let data = data_at(r, 1)->0;
    stored_messages_say_who_spoke(data, stored_millis(data.created), content, id, session_id);
    if !blank(content) {
        let before = file_messages(t, paths, part_dir);
        let after = file_messages(t, more, part_dir);
        assert(after =~= before.push(after.last()));
    }
}

/// The parts of a directory are those that its files hold, in the order of the files; a
/// file that cannot be read or holds no part adds none.
pub proof fn part_files_are_read(t: Seq<EntryView>, paths: Seq<Seq<Seq<char>>>, path: Seq<Seq<char>>)
    ensures
        file_parts(t, Seq::empty()).len() == 0,
        text_at(t, path) is None ==> file_parts(t, paths.push(path)) == file_parts(t, paths),
        text_at(t, path) matches Some(text) ==> (part_in_text(text, true) matches Some(part) ==> file_parts(
            t,
            paths.push(path),
        ) == file_parts(t, paths).push(part)),
        text_at(t, path) matches Some(text) ==> (part_in_text(text, true) is None ==> file_parts(t, paths.push(path))
            == file_parts(t, paths)),
{
    let more = paths.push(path);
    assert(more.drop_last() =~= paths);
    assert(more.last() == path);
}

/// A session is stale where it was last updated before the given time, and never where it
/// does not say when, or no time is given.
pub proof fn sessions_are_stale_before_their_time(session: SessionView, since: i64, updated: i64)
    ensures
        column_millis(session.time_updated) == Some(updated) ==> (is_stale(session, Some(since)) <==> updated < since),
        column_millis(session.time_updated) is None ==> !is_stale(session, Some(since)),
        !is_stale(session, None),
{
}

} // verus!
