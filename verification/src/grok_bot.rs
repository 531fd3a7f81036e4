//! Replicas of the transcripts of Grok Bot: each belongs to an account and an
//! agent, and holds a window of the chat that rolls on.
use vstd::prelude::*;
use crate::base32::{decode_filename, decoded_name};
use crate::boundaries::{
    after, came_of, completing_follows_emitting, emitting_follows_reading, is_run, sources_are_counted, Event,
    SourceRules, Step,
};
use crate::canon::{
    canonical_conversation, canonical_conversations, canonical_messages, comes_before, conversations_grow,
    messages_grow, nullables_are_canonical, rising_members_are_canonical, with_text_canonical,
};
use crate::files::{
    canonical_path, children, path_exists, path_is_dir, path_is_file, path_is_fresh, text_at, EntryView, FileTable,
};
use crate::json::{canonical, document_in, parse_json, Json, JsonView};
use crate::model::{
    at_place, first_instant, instants, is_first_instant, is_last_instant, is_numbered, last_instant, make_message,
    place_of, simple_message, Conversation, ConversationView, Message, MessageView,
};
use crate::order::{in_order, sort, sorted_is_ordered_permutation, Ranked};
use crate::path::{below, file_name, SourcePath};
use crate::query::{
    assign_text, get_in, i64_in, integer_in, is_text, items_in, member, member_is_the_first_of_its_key, member_of,
    member_text, nullable_text, nullable_text_json, object, owned, put, str_in, text_in, text_json,
    with_member_reads_back, with_text,
};
use crate::scan::{
    copy_roots, default_detection, detected_or_nothing, detection_or_nothing, expand_leading_tilde, expanded_path,
    local_root, note_path, push_conversation, push_path, push_root, push_source, seen_with, set_variable,
    sorted_sources, source, source_order_laws, was_seen, CompletionView, ContextView, DetectionResult,
    DiscoveredSource, RootView, ScanContext, ScanRoot, SourceCompletion, SourceRole, SourceView, Surroundings,
    SurroundingsView,
};
use crate::stamp::{earliest, latest, spans};
use crate::text::{
    before_suffix, behind_prefix, blank, chars_of, has_text, is_blank, occurs_at, parted, same_text, split_once,
    starts, strip_prefix, strip_suffix,
};

verus! {

pub struct GrokBotConnector;

impl Default for GrokBotConnector {
    fn default() -> (r: GrokBotConnector)
        ensures
            r == GrokBotConnector,
    {
        GrokBotConnector::new()
    }
}

/// Whether a character may stand in the number of an account: a digit, or a capital
/// but for those that look like digits, and `U`.
pub open spec fn is_account_char(c: char) -> bool {
    ||| '0' <= c <= '9'
    ||| 'A' <= c <= 'Z' && c != 'I' && c != 'L' && c != 'O' && c != 'U'
}

/// Whether a text is the number of an account.
pub open spec fn is_account(s: Seq<char>) -> bool {
    &&& s.len() == 26
    &&& '0' <= s[0] <= '7'
    &&& forall|i: int| 0 <= i < s.len() ==> is_account_char(#[trigger] s[i])
}

/// Whether a character stands where it may in the number of an agent.
pub open spec fn is_agent_char(c: char, i: int) -> bool {
    if i == 8 || i == 13 || i == 18 || i == 23 {
        c == '-'
    } else {
        '0' <= c <= '9' || 'a' <= c <= 'f'
    }
}

/// Whether a text is the number of an agent.
pub open spec fn is_agent(s: Seq<char>) -> bool {
    &&& s.len() == 36
    &&& forall|i: int| 0 <= i < s.len() ==> is_agent_char(#[trigger] s[i], i)
}

/// Whether a key is one of a replica.
pub open spec fn is_replica(key: Seq<char>) -> bool {
    match behind_prefix(key, "sand.client.slice.account."@) {
        Some(rest) => match parted(rest, ".transcript.replicas."@) {
            Some(p) => match behind_prefix(p.0, "auth0%7Cuser_"@) {
                Some(subject) => is_account(subject) && is_agent(p.1),
                None => false,
            },
            None => false,
        },
        None => false,
    }
}

/// The key that the name of a file writes, where that is one of a replica.
pub open spec fn key_of(path: Seq<Seq<char>>) -> Option<Seq<char>> {
    match file_name(path) {
        Some(name) => match before_suffix(name, ".blob"@) {
            Some(encoded) => match decoded_name(encoded) {
                Some(key) => if is_replica(key) {
                    Some(key)
                } else {
                    None
                },
                None => None,
            },
            None => None,
        },
        None => None,
    }
}

fn account_ok(text: &str) -> (r: bool)
    ensures
        r == is_account(text@),
{
    let s = chars_of(text);
    if s.len() != 26 || s[0] < '0' || s[0] > '7' {
        return false;
    }
    let mut i: usize = 0;
    while i < s.len()
        invariant
            i <= s@.len(),
            s@ == text@,
            forall|k: int| 0 <= k < i ==> is_account_char(#[trigger] s@[k]),
        decreases s.len() - i,
    {
        let c = s[i];
        if !('0' <= c && c <= '9' || 'A' <= c && c <= 'Z' && c != 'I' && c != 'L' && c != 'O' && c != 'U') {
            assert(!is_account_char(s@[i as int]));
            return false;
        }
        i = i + 1;
    }
    true
}

fn agent_ok(text: &str) -> (r: bool)
    ensures
        r == is_agent(text@),
{
    let s = chars_of(text);
    if s.len() != 36 {
        return false;
    }
    let mut i: usize = 0;
    while i < s.len()
        invariant
            i <= s@.len(),
            s@ == text@,
            forall|k: int| 0 <= k < i ==> is_agent_char(#[trigger] s@[k], k),
        decreases s.len() - i,
    {
        let c = s[i];
        let ok = if i == 8 || i == 13 || i == 18 || i == 23 {
            c == '-'
        } else {
            '0' <= c && c <= '9' || 'a' <= c && c <= 'f'
        };
        if !ok {
            assert(!is_agent_char(s@[i as int], i as int));
            return false;
        }
        i = i + 1;
    }
    true
}

fn replica_ok(key: &str) -> (r: bool)
    ensures
        r == is_replica(key@),
{
    let rest = match strip_prefix(key, "sand.client.slice.account.") {
        Some(rest) => rest,
        None => return false,
    };
    match split_once(rest.as_str(), ".transcript.replicas.") {
        Some((account, agent)) => match strip_prefix(account.as_str(), "auth0%7Cuser_") {
            Some(subject) => account_ok(subject.as_str()) && agent_ok(agent.as_str()),
            None => false,
        },
        None => false,
    }
}

/// The key of a replica, by the name of its file.
pub fn replica_key(path: &SourcePath) -> (r: Option<String>)
    ensures
        r.deep_view() == key_of(path.deep_view()),
{
    let name = match path.file_name() {
        Some(name) => name,
        None => return None,
    };
    let encoded = match strip_suffix(name, ".blob") {
        Some(encoded) => encoded,
        None => return None,
    };
    match decode_filename(encoded.as_str()) {
        Some(key) => if replica_ok(key.as_str()) {
            Some(key)
        } else {
            None
        },
        None => None,
    }
}

/// Why a replica could not be read.
#[derive(Clone, Copy, Debug, PartialEq, Eq, Structural)]
pub enum ReplicaError {
    /// The name is not that of a replica.
    NotAReplica,
    /// There is no text under the path.
    Unreadable,
    /// The text is no document.
    InvalidJson,
    /// The document is of another version.
    UnsupportedVersion,
    /// The document has no list of entries.
    NoEntries,
    /// There is chat, but none of it is named.
    NoNames,
}

/// Who says what in an entry of chat.
pub open spec fn chat_of(entry: JsonView) -> Option<(Seq<char>, Seq<char>)> {
    let kind = member_text(entry, "kind"@);
    let message = member(entry, "message"@);
    let said = if kind == Some("message"@) {
        match (member_text(entry, "role"@), member_text(entry, "content"@)) {
            (Some(role), Some(content)) => if role == "user"@ || role == "assistant"@ {
                Some((role, content))
            } else {
                None
            },
            _ => None,
        }
    } else if kind == Some("send-message"@) && text_in(member_of(message, "type"@)) == Some("text"@) {
        match text_in(member_of(message, "content"@)) {
            Some(content) => Some(("assistant"@, content)),
            None => None,
        }
    } else {
        None
    };
    match said {
        Some(s) => if blank(s.1) {
            None
        } else {
            said
        },
        None => None,
    }
}

/// The name of an entry.
pub open spec fn entry_id(entry: JsonView) -> Option<Seq<char>> {
    match member_text(entry, "id"@) {
        Some(id) => if blank(id) {
            None
        } else {
            Some(id)
        },
        None => None,
    }
}

/// What is kept of an entry beside its content.
pub open spec fn entry_extra(entry: JsonView, id: Seq<char>) -> JsonView {
    JsonView::Object(
        with_text(
            seq![
                ("grok_bot_entry_id"@, JsonView::Text(id)),
                ("grok_bot_entry_kind"@, nullable_text(member_text(entry, "kind"@))),
            ],
            "request_id"@,
            member_text(entry, "requestId"@),
        ),
    )
}

/// The messages read so far, and how much chat had no name.
#[verifier::ext_equal]
pub struct EntriesView {
    pub messages: Seq<MessageView>,
    pub unnamed: int,
}

/// Chat with a name is a message; chat without one is counted; the rest is skipped.
pub open spec fn after_entry(e: EntriesView, entry: JsonView) -> EntriesView {
    match chat_of(entry) {
        None => e,
        Some(said) => match entry_id(entry) {
            None => EntriesView { unnamed: e.unnamed + 1, ..e },
            Some(id) => EntriesView {
                messages: e.messages.push(
                    at_place(
                        simple_message(
                            said.0,
                            integer_in(member(entry, "timestampMs"@)),
                            said.1,
                            entry_extra(entry, id),
                        ),
                        e.messages.len() as int,
                    ),
                ),
                ..e
            },
        },
    }
}

pub open spec fn entries_of(entries: Seq<JsonView>) -> EntriesView
    decreases entries.len(),
{
    if entries.len() == 0 {
        EntriesView { messages: Seq::empty(), unnamed: 0 }
    } else {
        after_entry(entries_of(entries.drop_last()), entries.last())
    }
}

/// What is known of a replica.
pub open spec fn replica_metadata(entries: int, unnamed: int, source_id: Seq<char>) -> JsonView {
    JsonView::Object(
        seq![
            ("chat_only"@, JsonView::Bool(true)),
            ("history_complete"@, JsonView::Bool(false)),
            ("history_kind"@, JsonView::Text("rolling_agent_transcript"@)),
            ("missing_entry_id_count"@, JsonView::Unsigned(unnamed as u64)),
            ("observed_entry_cap"@, JsonView::Unsigned(200)),
            ("schema_version"@, JsonView::Unsigned(1)),
            ("source_entry_count"@, JsonView::Unsigned(entries as u64)),
            ("source_id"@, JsonView::Text(source_id)),
        ],
    )
}

/// What the entries of a replica read as: none where there is no chat.
pub open spec fn conversation_of(
    key: Seq<char>,
    path: Seq<Seq<char>>,
    source_id: Seq<char>,
    entries: Seq<JsonView>,
) -> Result<Option<ConversationView>, ReplicaError> {
    let read = entries_of(entries);
    if read.messages.len() == 0 {
        if read.unnamed > 0 {
            Err(ReplicaError::NoNames)
        } else {
            Ok(None)
        }
    } else {
        Ok(
            Some(
                ConversationView {
                    agent_slug: "grok_bot"@,
                    external_id: Some(key),
                    title: Some("Grok Bot rolling transcript"@),
                    workspace: None,
                    source_path: path,
                    started_at: earliest(instants(read.messages)),
                    ended_at: latest(instants(read.messages)),
                    metadata: replica_metadata(entries.len() as int, read.unnamed, source_id),
                    messages: read.messages,
                },
            ),
        )
    }
}

/// What the document of a replica reads as.
pub open spec fn replica_of(envelope: JsonView, key: Seq<char>, path: Seq<Seq<char>>, source_id: Seq<char>) -> Result<
    Option<ConversationView>,
    ReplicaError,
> {
    if member(envelope, "schemaVersion"@) != Some(JsonView::Unsigned(1)) {
        Err(ReplicaError::UnsupportedVersion)
    } else {
        match items_in(member_of(member(envelope, "value"@), "entries"@)) {
            None => Err(ReplicaError::NoEntries),
            Some(entries) => conversation_of(key, path, source_id, entries),
        }
    }
}

/// What a replica reads as.
pub open spec fn replica(t: Seq<EntryView>, path: Seq<Seq<char>>, source_id: Seq<char>) -> Result<
    Option<ConversationView>,
    ReplicaError,
> {
    match key_of(path) {
        None => Err(ReplicaError::NotAReplica),
        Some(key) => match text_at(t, path) {
            None => Err(ReplicaError::Unreadable),
            Some(text) => match document_in(text) {
                None => Err(ReplicaError::InvalidJson),
                Some(envelope) => replica_of(envelope, key, path, source_id),
            },
        },
    }
}

fn read_chat(entry: &Json) -> (r: Option<(String, String)>)
    ensures
        match r {
            Some(s) => chat_of(entry@) == Some((s.0@, s.1@)),
            None => chat_of(entry@) is None,
        },
{
    let kind = entry.get_str("kind");
    let message = entry.get("message");
    let role: &str;
    let content: &str;
    if is_text(kind, "message") {
        role = match entry.get_str("role") {
            Some(role) => role,
            None => return None,
        };
        if !same_text(role, "user") && !same_text(role, "assistant") {
            return None;
        }
        content = match entry.get_str("content") {
            Some(content) => content,
            None => return None,
        };
    } else if is_text(kind, "send-message") && is_text(str_in(get_in(message, "type")), "text") {
        role = "assistant";
        content = match str_in(get_in(message, "content")) {
            Some(content) => content,
            None => return None,
        };
    } else {
        return None;
    }
    if is_blank(content) {
        None
    } else {
        Some((role.to_owned(), content.to_owned()))
    }
}

fn make_extra(entry: &Json, id: &str) -> (r: Json)
    ensures
        r@ == entry_extra(entry@, id@),
{
    let kind = nullable_text_json(&owned(entry.get_str("kind")));
    let mut members: Vec<(String, Json)> = Vec::new();
    put(&mut members, "grok_bot_entry_id", text_json(id));
    put(&mut members, "grok_bot_entry_kind", kind);
    assert(members.deep_view() =~= seq![
        ("grok_bot_entry_id"@, JsonView::Text(id@)),
        ("grok_bot_entry_kind"@, nullable_text(member_text(entry@, "kind"@))),
    ]);
    assign_text(&mut members, "request_id", entry.get_str("requestId"));
    object(members)
}

/// Reads the entries of a replica: the messages, and how much chat had no name.
pub fn read_entries(entries: &Vec<Json>) -> (r: (Vec<Message>, usize))
    ensures
        r.0.deep_view() == entries_of(entries.deep_view()).messages,
        r.1 == entries_of(entries.deep_view()).unnamed,
        r.1 <= entries@.len(),
{
    let ghost all = entries.deep_view();
    let mut messages: Vec<Message> = Vec::new();
    let mut unnamed: usize = 0;
    let mut i: usize = 0;
    assert(all.take(0) =~= Seq::empty());
    assert(messages.deep_view() =~= Seq::empty());
    while i < entries.len()
        invariant
            i <= entries@.len(),
            unnamed <= i,
            all == entries.deep_view(),
            messages.deep_view() == entries_of(all.take(i as int)).messages,
            unnamed == entries_of(all.take(i as int)).unnamed,
        decreases entries.len() - i,
    {
        let entry = &entries[i];
        let ghost before = messages.deep_view();
        assert(all.take(i + 1).drop_last() =~= all.take(i as int));
        assert(all.take(i + 1).last() == entry@);
        if let Some((role, content)) = read_chat(entry) {
            let id = match entry.get_str("id") {
                Some(id) => if is_blank(id) {
                    None
                } else {
                    Some(id)
                },
                None => None,
            };
            match id {
                None => {
                    unnamed = unnamed + 1;
                },
                Some(id) => {
                    let mut m = make_message(
                        role.as_str(),
                        i64_in(entry.get("timestampMs")),
                        content,
                        make_extra(entry, id),
                    );
                    m.idx = place_of(messages.len());
                    let ghost said = m.deep_view();
                    messages.push(m);
                    assert(messages.deep_view() =~= before.push(said));
                },
            }
        }
        i = i + 1;
    }
    assert(all.take(all.len() as int) =~= all);
    (messages, unnamed)
}

fn make_metadata(entries: usize, unnamed: usize, source_id: &str) -> (r: Json)
    ensures
        r@ == replica_metadata(entries as int, unnamed as int, source_id@),
{
    let mut members: Vec<(String, Json)> = Vec::new();
    put(&mut members, "chat_only", Json::Bool(true));
    put(&mut members, "history_complete", Json::Bool(false));
    put(&mut members, "history_kind", text_json("rolling_agent_transcript"));
    put(&mut members, "missing_entry_id_count", Json::Unsigned(unnamed as u64));
    put(&mut members, "observed_entry_cap", Json::Unsigned(200));
    put(&mut members, "schema_version", Json::Unsigned(1));
    put(&mut members, "source_entry_count", Json::Unsigned(entries as u64));
    put(&mut members, "source_id", text_json(source_id));
    assert(members.deep_view() =~= replica_metadata(
        entries as int,
        unnamed as int,
        source_id@,
    )->Object_0);
    object(members)
}

/// Reads the document of a replica.
pub fn replica_from(envelope: &Json, key: String, found: &DiscoveredSource) -> (r: Result<
    Option<Conversation>,
    ReplicaError,
>)
    ensures
        match r {
            Ok(c) => replica_of(
                envelope@,
                key@,
                found.source_path.deep_view(),
                found.origin.source_id@,
            ) == Ok::<Option<ConversationView>, ReplicaError>(c.deep_view()),
            Err(e) => replica_of(
                envelope@,
                key@,
                found.source_path.deep_view(),
                found.origin.source_id@,
            ) == Err::<Option<ConversationView>, ReplicaError>(e),
        },
{
    let supported = match envelope.get("schemaVersion") {
        Some(Json::Unsigned(n)) => *n == 1,
        _ => false,
    };
    if !supported {
        return Err(ReplicaError::UnsupportedVersion);
    }
    let list = match get_in(envelope.get("value"), "entries") {
        Some(list) => list.as_array(),
        None => None,
    };
    let entries = match list {
        Some(entries) => entries,
        None => return Err(ReplicaError::NoEntries),
    };
    let (messages, unnamed) = read_entries(entries);
    if messages.len() == 0 {
        if unnamed > 0 {
            return Err(ReplicaError::NoNames);
        }
        return Ok(None);
    }
    let started_at = first_instant(&messages);
    let ended_at = last_instant(&messages);
    Ok(
        Some(
            Conversation {
                agent_slug: "grok_bot".to_owned(),
                external_id: Some(key),
                title: Some("Grok Bot rolling transcript".to_owned()),
                workspace: None,
                source_path: found.source_path.copy(),
                started_at,
                ended_at,
                metadata: make_metadata(entries.len(), unnamed, found.origin.source_id.as_str()),
                messages,
            },
        ),
    )
}

/// Reads a replica.
pub fn parse_replica(files: &FileTable, found: &DiscoveredSource) -> (r: Result<Option<Conversation>, ReplicaError>)
    ensures
        match r {
            Ok(c) => replica(files.deep_view(), found.source_path.deep_view(), found.origin.source_id@) == Ok::<
                Option<ConversationView>,
                ReplicaError,
            >(c.deep_view()),
            Err(e) => replica(files.deep_view(), found.source_path.deep_view(), found.origin.source_id@) == Err::<
                Option<ConversationView>,
                ReplicaError,
            >(e),
        },
{
    let key = match replica_key(&found.source_path) {
        Some(key) => key,
        None => return Err(ReplicaError::NotAReplica),
    };
    let text = match files.read_text(&found.source_path) {
        Some(text) => text,
        None => return Err(ReplicaError::Unreadable),
    };
    match parse_json(text.as_str()) {
        Some(envelope) => replica_from(&envelope, key, found),
        None => Err(ReplicaError::InvalidJson),
    }
}

/// The roots to scan.
pub open spec fn grok_bot_roots(ctx: ContextView, s: SurroundingsView) -> Seq<RootView> {
    if !default_detection(ctx) {
        ctx.scan_roots
    } else {
        match set_variable(s, "CASS_GROK_BOT_DATA_ROOT"@) {
            Some(text) => seq![local_root(expanded_path(text, s.home))],
            None => match s.home {
                Some(home) => seq![
                    local_root(below(home, "Library/Application Support/Grok Bot/sand-client-persistence"@)),
                ],
                None => Seq::empty(),
            },
        }
    }
}

/// The paths near a root that may be replicas: the root itself, or what its
/// directory lists. Nothing deeper is looked at.
pub open spec fn candidates(t: Seq<EntryView>, root: Seq<Seq<char>>) -> Seq<Seq<Seq<char>>> {
    let persistence = below(root, "sand-client-persistence"@);
    if path_is_file(t, root) {
        seq![root]
    } else if path_is_dir(t, persistence) {
        children(t, persistence)
    } else if path_exists(t, root) {
        children(t, root)
    } else {
        Seq::empty()
    }
}

/// The files seen so far, and the replicas among them.
#[verifier::ext_equal]
pub struct FoundView {
    pub seen: Seq<Seq<Seq<char>>>,
    pub found: Seq<SourceView>,
}

/// A file that changed, is named like a replica and was not seen before is a source.
pub open spec fn found_one(t: Seq<EntryView>, f: FoundView, root: RootView, path: Seq<Seq<char>>) -> FoundView {
    let key = canonical_path(t, path);
    if path_is_file(t, path) && key_of(path) is Some && path_is_fresh(t, path) && !was_seen(f.seen, key) {
        FoundView {
            seen: seen_with(f.seen, key),
            found: f.found.push(source("grok_bot"@, root, path, SourceRole::PrimarySessionLog, true)),
        }
    } else {
        f
    }
}

pub open spec fn found_all(
    t: Seq<EntryView>,
    f: FoundView,
    root: RootView,
    paths: Seq<Seq<Seq<char>>>,
) -> FoundView
    decreases paths.len(),
{
    if paths.len() == 0 {
        f
    } else {
        found_one(t, found_all(t, f, root, paths.drop_last()), root, paths.last())
    }
}

pub open spec fn found_under(t: Seq<EntryView>, roots: Seq<RootView>) -> FoundView
    decreases roots.len(),
{
    if roots.len() == 0 {
        FoundView { seen: Seq::empty(), found: Seq::empty() }
    } else {
        found_all(t, found_under(t, roots.drop_last()), roots.last(), candidates(t, roots.last().path))
    }
}

/// The replicas, in the order of their paths.
pub open spec fn discovered(t: Seq<EntryView>, ctx: ContextView, s: SurroundingsView) -> Seq<SourceView> {
    sorted_sources(found_under(t, grok_bot_roots(ctx, s)).found)
}

/// The conversations of replicas; those that cannot be read are skipped.
pub open spec fn conversations_of(t: Seq<EntryView>, sources: Seq<SourceView>) -> Seq<ConversationView>
    decreases sources.len(),
{
    if sources.len() == 0 {
        Seq::empty()
    } else {
        let front = conversations_of(t, sources.drop_last());
        match replica(t, sources.last().source_path, sources.last().origin.source_id) {
            Ok(Some(c)) => front.push(c),
            _ => front,
        }
    }
}

/// The notice that a replica was read: with or without a conversation, but not where
/// it could not be read or changed meanwhile.
pub open spec fn completion_of(
    found: SourceView,
    outcome: Result<bool, ReplicaError>,
    changed: bool,
) -> Option<CompletionView> {
    match outcome {
        Ok(emitted) => if changed {
            None
        } else {
            Some(
                CompletionView {
                    source: found,
                    required_sidecars: Seq::empty(),
                    conversations_emitted: if emitted {
                        1
                    } else {
                        0
                    },
                },
            )
        },
        Err(_) => None,
    }
}

/// The notice that a replica was read.
pub fn completion(found: DiscoveredSource, outcome: Result<bool, ReplicaError>, changed: bool) -> (r: Option<
    SourceCompletion,
>)
    ensures
        r.deep_view() == completion_of(found.deep_view(), outcome, changed),
{
    match outcome {
        Ok(emitted) => if changed {
            None
        } else {
            let required_sidecars: Vec<DiscoveredSource> = Vec::new();
            assert(required_sidecars.deep_view() =~= Seq::empty());
            Some(
                SourceCompletion {
                    source: found,
                    required_sidecars,
                    conversations_emitted: if emitted {
                        1
                    } else {
                        0
                    },
                },
            )
        },
        Err(_) => None,
    }
}

impl GrokBotConnector {
    pub fn new() -> (r: GrokBotConnector)
        ensures
            r == GrokBotConnector,
    {
        GrokBotConnector
    }

    /// What the registry of agents found, or that nothing was found.
    pub fn detect(&self, found: Option<DetectionResult>) -> (r: DetectionResult)
        ensures
            r.deep_view() == detected_or_nothing(found.deep_view()),
    {
        detection_or_nothing(found)
    }

    /// Replicas can be handed on one by one.
    pub fn supports_streaming_scan(&self) -> (r: bool)
        ensures
            r,
    {
        true
    }

    /// It can be told when a replica was read.
    pub fn supports_source_boundaries(&self) -> (r: bool)
        ensures
            r,
    {
        true
    }

    /// The roots to scan.
    pub fn source_roots(ctx: &ScanContext, surroundings: &Surroundings) -> (r: Vec<ScanRoot>)
        ensures
            r.deep_view() == grok_bot_roots(ctx.deep_view(), surroundings.deep_view()),
    {
        if !ctx.use_default_detection() {
            return copy_roots(&ctx.scan_roots);
        }
        let mut roots: Vec<ScanRoot> = Vec::new();
        assert(roots.deep_view() =~= Seq::empty());
        match surroundings.set_variable("CASS_GROK_BOT_DATA_ROOT") {
            Some(text) => {
                let path = expand_leading_tilde(text.as_str(), surroundings.home.as_ref());
                push_root(&mut roots, ScanRoot::local(path));
            },
            None => match &surroundings.home {
                Some(home) => {
                    let path = home.join("Library/Application Support/Grok Bot/sand-client-persistence");
                    push_root(&mut roots, ScanRoot::local(path));
                },
                None => {},
            },
        }
        assert(roots.deep_view() =~= grok_bot_roots(ctx.deep_view(), surroundings.deep_view()));
        roots
    }

    fn list_candidates(files: &FileTable, root: &SourcePath) -> (r: Vec<SourcePath>)
        ensures
            r.deep_view() == candidates(files.deep_view(), root.deep_view()),
    {
        let mut out: Vec<SourcePath> = Vec::new();
        assert(out.deep_view() =~= Seq::empty());
        if files.is_file(root) {
            push_path(&mut out, root.copy());
            assert(out.deep_view() =~= seq![root.deep_view()]);
            return out;
        }
        let persistence = root.join("sand-client-persistence");
        if files.is_dir(&persistence) {
            files.list(&persistence)
        } else if files.has(root) {
            files.list(root)
        } else {
            out
        }
    }

    /// The replicas that a scan would read, in the order of their paths.
    pub fn discover(ctx: &ScanContext, surroundings: &Surroundings, files: &FileTable) -> (r: Vec<DiscoveredSource>)
        ensures
            r.deep_view() == discovered(files.deep_view(), ctx.deep_view(), surroundings.deep_view()),
    {
        let ghost t = files.deep_view();
        let roots = GrokBotConnector::source_roots(ctx, surroundings);
        let ghost all = roots.deep_view();
        let mut seen: Vec<SourcePath> = Vec::new();
        let mut found: Vec<DiscoveredSource> = Vec::new();
        let mut i: usize = 0;
        assert(all.take(0) =~= Seq::empty());
        assert(seen.deep_view() =~= Seq::empty());
        assert(found.deep_view() =~= Seq::empty());
        while i < roots.len()
            invariant
                i <= roots@.len(),
                t == files.deep_view(),
                all == roots.deep_view(),
                found_under(t, all.take(i as int)) == (FoundView { seen: seen.deep_view(), found: found.deep_view() }),
            decreases roots.len() - i,
        {
            let root = &roots[i];
            let ghost before = found_under(t, all.take(i as int));
            assert(all.take(i + 1).drop_last() =~= all.take(i as int));
            assert(all.take(i + 1).last() == root.deep_view());
            let list = GrokBotConnector::list_candidates(files, &root.path);
            let ghost fs = list.deep_view();
            let mut k: usize = 0;
            assert(fs.take(0) =~= Seq::empty());
            while k < list.len()
                invariant
                    k <= list@.len(),
                    t == files.deep_view(),
                    fs == list.deep_view(),
                    found_all(t, before, root.deep_view(), fs.take(k as int)) == (FoundView {
                        seen: seen.deep_view(),
                        found: found.deep_view(),
                    }),
                decreases list.len() - k,
            {
                let path = &list[k];
                assert(fs.take(k + 1).drop_last() =~= fs.take(k as int));
                assert(fs.take(k + 1).last() == path.deep_view());
                if files.is_file(path) && replica_key(path).is_some() && files.is_fresh(path) {
                    if note_path(&mut seen, files.canonical(path)) {
                        push_source(
                            &mut found,
                            DiscoveredSource::new(
                                "grok_bot",
                                root,
                                path.copy(),
                                SourceRole::PrimarySessionLog,
                                true,
                            ),
                        );
                    }
                }
                k = k + 1;
            }
            assert(fs.take(fs.len() as int) =~= fs);
            i = i + 1;
        }
        assert(all.take(all.len() as int) =~= all);
        sort(found)
    }

    /// The replicas that a scan would read, in the order of their paths.
    pub fn discover_source_files(&self, ctx: &ScanContext, surroundings: &Surroundings, files: &FileTable) -> (r: Vec<
        DiscoveredSource,
    >)
        ensures
            r.deep_view() == discovered(files.deep_view(), ctx.deep_view(), surroundings.deep_view()),
    {
        GrokBotConnector::discover(ctx, surroundings, files)
    }

    /// Reads the replicas that changed.
    pub fn scan(&self, ctx: &ScanContext, surroundings: &Surroundings, files: &FileTable) -> (r: Vec<Conversation>)
        ensures
            r.deep_view() == conversations_of(
                files.deep_view(),
                discovered(files.deep_view(), ctx.deep_view(), surroundings.deep_view()),
            ),
    {
        let ghost t = files.deep_view();
        let sources = GrokBotConnector::discover(ctx, surroundings, files);
        let ghost all = sources.deep_view();
        let mut found: Vec<Conversation> = Vec::new();
        let mut i: usize = 0;
        assert(all.take(0) =~= Seq::empty());
        assert(found.deep_view() =~= Seq::empty());
        while i < sources.len()
            invariant
                i <= sources@.len(),
                t == files.deep_view(),
                all == sources.deep_view(),
                found.deep_view() == conversations_of(t, all.take(i as int)),
            decreases sources.len() - i,
        {
            assert(all.take(i + 1).drop_last() =~= all.take(i as int));
            assert(all.take(i + 1).last() == sources@[i as int].deep_view());
            if let Ok(Some(c)) = parse_replica(files, &sources[i]) {
                push_conversation(&mut found, c);
            }
            i = i + 1;
        }
        assert(all.take(all.len() as int) =~= all);
        found
    }
}

/// What holds of the messages of a replica at any time.
pub open spec fn entries_are_sound(e: EntriesView) -> bool {
    &&& is_numbered(e.messages)
    &&& e.unnamed >= 0
    &&& forall|i: int|
        0 <= i < e.messages.len() ==> {
            let m = #[trigger] e.messages[i];
            !blank(m.content) && (m.role == "user"@ || m.role == "assistant"@) && m.invocations.len() == 0
        }
}

proof fn entries_stay_sound(entries: Seq<JsonView>)
    ensures
        entries_are_sound(entries_of(entries)),
    decreases entries.len(),
{
    if entries.len() > 0 {
        entries_stay_sound(entries.drop_last());
    }
}

/// A replica that was read has messages of users and assistants alone, each at its
/// place and none blank, and ended where it started or later.
pub proof fn replica_is_sound(key: Seq<char>, path: Seq<Seq<char>>, source_id: Seq<char>, entries: Seq<JsonView>)
    ensures
        conversation_of(key, path, source_id, entries) matches Ok(Some(c)) ==> {
            &&& c.messages.len() > 0
            &&& is_numbered(c.messages)
            &&& spans(c.started_at, c.ended_at)
            &&& forall|i: int|
                0 <= i < c.messages.len() ==> !blank((#[trigger] c.messages[i]).content) && (c.messages[i].role
                    == "user"@ || c.messages[i].role == "assistant"@)
        },
{
    entries_stay_sound(entries);
    crate::stamp::bounds_enclose(instants(entries_of(entries).messages));
}

/// Nothing but the chat of an entry is read: entries that agree on it read as the
/// same, whatever else they carry.
pub proof fn only_chat_is_read(e: EntriesView, a: JsonView, b: JsonView)
    requires
        member_text(a, "kind"@) == member_text(b, "kind"@),
        member_text(a, "role"@) == member_text(b, "role"@),
        member_text(a, "content"@) == member_text(b, "content"@),
        member_text(a, "id"@) == member_text(b, "id"@),
        member_text(a, "requestId"@) == member_text(b, "requestId"@),
        integer_in(member(a, "timestampMs"@)) == integer_in(member(b, "timestampMs"@)),
        text_in(member_of(member(a, "message"@), "type"@)) == text_in(member_of(member(b, "message"@), "type"@)),
        text_in(member_of(member(a, "message"@), "content"@)) == text_in(
            member_of(member(b, "message"@), "content"@),
        ),
    ensures
        after_entry(e, a) == after_entry(e, b),
{
}

/// Two files of one directory that are named like replicas of the same key are the
/// same file.
pub proof fn replicas_are_told_apart(a: Seq<Seq<char>>, b: Seq<Seq<char>>)
    requires
        key_of(a) is Some,
        key_of(a) == key_of(b),
    ensures
        file_name(a) == file_name(b),
{
    let x = file_name(a)->0;
    let y = file_name(b)->0;
    let n = ".blob"@.len() as int;
    crate::base32::names_are_canonical(before_suffix(x, ".blob"@)->0, before_suffix(y, ".blob"@)->0);
    assert(x =~= x.take(x.len() - n) + ".blob"@);
    assert(y =~= y.take(y.len() - n) + ".blob"@);
}

/// A replica that could not be read is never told to be read.
pub proof fn completion_needs_a_reading(found: SourceView, outcome: Result<bool, ReplicaError>, changed: bool)
    ensures
        outcome is Err || changed ==> completion_of(found, outcome, changed) is None,
        outcome is Ok && !changed ==> completion_of(found, outcome, changed) is Some,
{
}

/// The replicas are in the order of their paths.
pub proof fn discovered_in_order(t: Seq<EntryView>, ctx: ContextView, s: SurroundingsView)
    ensures
        in_order(discovered(t, ctx, s), |a: SourceView, b: SourceView| DiscoveredSource::rank(a, b)),
        discovered(t, ctx, s).to_multiset() == found_under(t, grok_bot_roots(ctx, s)).found.to_multiset(),
{
    source_order_laws();
    sorted_is_ordered_permutation(
        found_under(t, grok_bot_roots(ctx, s)).found,
        |a: SourceView, b: SourceView| DiscoveredSource::rank(a, b),
    );
}

/// What holds of replicas before they are read: each can be refused and completed, also
/// where it makes no conversation.
pub open spec fn replica_rules(replicas: nat) -> Seq<SourceRules> {
    Seq::new(replicas, |i: int| SourceRules { bounded: true, empty_completes: true })
}

/// What holds of so many replicas before they are read.
pub fn rules_for(replicas: usize) -> (r: Vec<SourceRules>)
    ensures
        r@ == replica_rules(replicas as nat),
{
    let mut out: Vec<SourceRules> = Vec::new();
    while out.len() < replicas
        invariant
            out@.len() <= replicas,
            forall|i: int|
                0 <= i < out@.len() ==> #[trigger] out@[i] == (SourceRules { bounded: true, empty_completes: true }),
        decreases replicas - out.len(),
    {
        out.push(SourceRules { bounded: true, empty_completes: true });
    }
    assert(out@ =~= replica_rules(replicas as nat));
    out
}

/// What came of reading a replica.
pub open spec fn reading_event(outcome: Result<Option<ConversationView>, ReplicaError>) -> Event {
    match outcome {
        Ok(Some(_)) => Event::Found,
        Ok(None) => Event::Empty,
        Err(_) => Event::Unreadable,
    }
}

/// What came of reading a replica.
pub fn event_of(outcome: &Result<Option<Conversation>, ReplicaError>) -> (r: Event)
    ensures
        r == reading_event(
            match *outcome {
                Ok(c) => Ok(c.deep_view()),
                Err(e) => Err(e),
            },
        ),
{
    match outcome {
        Ok(Some(_)) => Event::Found,
        Ok(None) => Event::Empty,
        Err(_) => Event::Unreadable,
    }
}

/// A replica is completed only after it was accepted and read and its file was found
/// unchanged: with one conversation after that was handed on, or with none where there
/// is none. A replica that cannot be read, is refused, or whose conversation is not
/// taken over is never completed.
pub proof fn replicas_complete_after_handing_on(replicas: nat, events: Seq<Event>)
    requires
        replicas <= usize::MAX,
        is_run(replica_rules(replicas), events),
    ensures
        ({
            let rules = replica_rules(replicas);
            let at = after(rules, events);
            &&& at.step matches Step::Complete(n) ==> {
                &&& came_of(rules, events, 0, at.source, Step::Check(n), Event::Unchanged)
                &&& n == 0 || n == 1
                &&& n == 1 ==> {
                    &&& came_of(rules, events, 1, at.source, Step::Emit, Event::Emitted)
                    &&& came_of(rules, events, 2, at.source, Step::Read, Event::Found)
                    &&& came_of(rules, events, 3, at.source, Step::Ask, Event::Accepted)
                }
                &&& n == 0 ==> {
                    &&& came_of(rules, events, 1, at.source, Step::Read, Event::Empty)
                    &&& came_of(rules, events, 2, at.source, Step::Ask, Event::Accepted)
                }
            }
            &&& at.step is Emit ==> {
                &&& came_of(rules, events, 0, at.source, Step::Read, Event::Found)
                &&& came_of(rules, events, 1, at.source, Step::Ask, Event::Accepted)
            }
        }),
{
    let rules = replica_rules(replicas);
    if after(rules, events).step is Complete {
        completing_follows_emitting(rules, events);
    }
    if after(rules, events).step is Emit {
        emitting_follows_reading(rules, events);
        sources_are_counted(rules, events);
    }
}

proof fn entry_extra_is_canonical(entry: JsonView, id: Seq<char>)
    ensures
        canonical(entry_extra(entry, id)),
{
    let first = seq![
        ("grok_bot_entry_id"@, JsonView::Text(id)),
        ("grok_bot_entry_kind"@, nullable_text(member_text(entry, "kind"@))),
    ];
    nullables_are_canonical(member_text(entry, "kind"@), None);
    reveal_strlit("grok_bot_entry_id");
    reveal_strlit("grok_bot_entry_kind");
    comes_before("grok_bot_entry_id"@, "grok_bot_entry_kind"@, 15);
    rising_members_are_canonical(first);
    with_text_canonical(first, "request_id"@, member_text(entry, "requestId"@));
}

proof fn entries_are_canonical(entries: Seq<JsonView>)
    ensures
        canonical_messages(entries_of(entries).messages),
    decreases entries.len(),
{
    if entries.len() > 0 {
        let before = entries_of(entries.drop_last());
        let after = entries_of(entries);
        entries_are_canonical(entries.drop_last());
        if let Some(id) = entry_id(entries.last()) {
            entry_extra_is_canonical(entries.last(), id);
        }
        if after.messages != before.messages {
            messages_grow(before.messages, after.messages.last());
        }
    }
}

proof fn replica_metadata_is_canonical(entries: int, unnamed: int, source_id: Seq<char>)
    ensures
        canonical(replica_metadata(entries, unnamed, source_id)),
{
    if let JsonView::Object(members) = replica_metadata(entries, unnamed, source_id) {
        reveal_strlit("chat_only");
        reveal_strlit("history_complete");
        reveal_strlit("history_kind");
        reveal_strlit("missing_entry_id_count");
        reveal_strlit("observed_entry_cap");
        reveal_strlit("schema_version");
        reveal_strlit("source_entry_count");
        reveal_strlit("source_id");
        comes_before("chat_only"@, "history_complete"@, 0);
        comes_before("history_complete"@, "history_kind"@, 8);
        comes_before("history_kind"@, "missing_entry_id_count"@, 0);
        comes_before("missing_entry_id_count"@, "observed_entry_cap"@, 0);
        comes_before("observed_entry_cap"@, "schema_version"@, 0);
        comes_before("schema_version"@, "source_entry_count"@, 1);
        comes_before("source_entry_count"@, "source_id"@, 7);
        rising_members_are_canonical(members);
    }
}

/// The documents of the conversation of a replica are canonical.
pub proof fn conversation_is_canonical(
    key: Seq<char>,
    path: Seq<Seq<char>>,
    source_id: Seq<char>,
    entries: Seq<JsonView>,
)
    ensures
        conversation_of(key, path, source_id, entries) matches Ok(Some(c)) ==> canonical_conversation(c),
{
    entries_are_canonical(entries);
    replica_metadata_is_canonical(entries.len() as int, entries_of(entries).unnamed, source_id);
}

/// The documents of all conversations that a scan hands out are canonical, so that
/// each can be rendered.
pub proof fn scanned_documents_are_canonical(t: Seq<EntryView>, sources: Seq<SourceView>)
    ensures
        canonical_conversations(conversations_of(t, sources)),
    decreases sources.len(),
{
    if sources.len() > 0 {
        let path = sources.last().source_path;
        let source_id = sources.last().origin.source_id;
        scanned_documents_are_canonical(t, sources.drop_last());
        if let (Some(key), Some(text)) = (key_of(path), text_at(t, path)) {
            if let Some(envelope) = document_in(text) {
                if let Some(entries) = items_in(member_of(member(envelope, "value"@), "entries"@)) {
                    conversation_is_canonical(key, path, source_id, entries);
                }
            }
        }
        if let Ok(Some(c)) = replica(t, path, source_id) {
            conversations_grow(conversations_of(t, sources.drop_last()), c);
        }
    }
}

proof fn entry_kinds_differ()
    ensures
        "message"@ != "send-message"@,
{
    reveal_strlit("message");
    reveal_strlit("send-message");
    assert("message"@.len() == 7 && "send-message"@.len() == 12);
}

/// A message of the user or the assistant that is not blank and has a name is said next: by
/// its role, with its own content and at its own time, and named by its entry and request.
/// So is a text that is sent, by the assistant. What was said before stays.
pub proof fn entries_are_said_at_their_own_time(
    e: EntriesView,
    entry: JsonView,
    id: Seq<char>,
    role: Seq<char>,
    content: Seq<char>,
)
    requires
        member_text(entry, "id"@) == Some(id),
        !blank(id),
        !blank(content),
        ({
            ||| member_text(entry, "kind"@) == Some("message"@) && member_text(entry, "role"@) == Some(role)
                && member_text(entry, "content"@) == Some(content) && (role == "user"@ || role == "assistant"@)
            ||| member_text(entry, "kind"@) == Some("send-message"@) && role == "assistant"@ && text_in(
                member_of(member(entry, "message"@), "type"@),
            ) == Some("text"@) && text_in(member_of(member(entry, "message"@), "content"@)) == Some(content)
        }),
        e.messages.len() <= i64::MAX,
    ensures
        ({
            let after = after_entry(e, entry);
            let m = after.messages.last();
            &&& after.messages == e.messages.push(m)
            &&& after.unnamed == e.unnamed
            &&& m.idx == e.messages.len()
            &&& m.role == role
            &&& m.content == content
            &&& m.created_at == integer_in(member(entry, "timestampMs"@))
            &&& m.author is None
            &&& m.invocations.len() == 0
            &&& member(m.extra, "grok_bot_entry_id"@) == Some(JsonView::Text(id))
            &&& member(m.extra, "grok_bot_entry_kind"@) == Some(nullable_text(member_text(entry, "kind"@)))
            &&& member_text(entry, "requestId"@) matches Some(request) ==> member(m.extra, "request_id"@) == Some(
                JsonView::Text(request),
            )
        }),
{
    entry_kinds_differ();
    let first = seq![
        ("grok_bot_entry_id"@, JsonView::Text(id)),
        ("grok_bot_entry_kind"@, nullable_text(member_text(entry, "kind"@))),
    ];
    reveal_strlit("grok_bot_entry_id");
    reveal_strlit("grok_bot_entry_kind");
    reveal_strlit("request_id");
    assert("grok_bot_entry_id"@.len() == 17 && "grok_bot_entry_kind"@.len() == 19 && "request_id"@.len() == 10);
    member_is_the_first_of_its_key(JsonView::Null, first, "grok_bot_entry_id"@, 0);
    member_is_the_first_of_its_key(JsonView::Null, first, "grok_bot_entry_kind"@, 1);
    if let Some(request) = member_text(entry, "requestId"@) {
        with_member_reads_back(first, "request_id"@, JsonView::Text(request), "grok_bot_entry_id"@);
        with_member_reads_back(first, "request_id"@, JsonView::Text(request), "grok_bot_entry_kind"@);
    }
}

/// An entry that is no chat, of another role, or blank, adds nothing; a chat without a name
/// is counted and not said.
pub proof fn other_entries_are_not_said(e: EntriesView, entry: JsonView)
    ensures
        member_text(entry, "kind"@) is None ==> after_entry(e, entry) == e,
        member_text(entry, "kind"@) == Some("message"@) ==> (member_text(entry, "role"@) matches Some(role) ==> (role
            != "user"@ && role != "assistant"@ ==> after_entry(e, entry) == e)),
        member_text(entry, "kind"@) == Some("message"@) ==> (member_text(entry, "content"@) matches Some(content) ==> (blank(
            content,
        ) ==> after_entry(e, entry) == e)),
        chat_of(entry) is Some && (member_text(entry, "id"@) is None || blank(member_text(entry, "id"@)->0)) ==> after_entry(
            e,
            entry,
        ).messages == e.messages && after_entry(e, entry).unnamed == e.unnamed + 1,
{
    entry_kinds_differ();
}

/// Entries are read in their order.
pub proof fn entries_are_read_in_order(entries: Seq<JsonView>, entry: JsonView)
    ensures
        entries_of(entries.push(entry)) == after_entry(entries_of(entries), entry),
        entries_of(Seq::empty()).messages.len() == 0,
        entries_of(Seq::empty()).unnamed == 0,
{
    assert(entries.push(entry).drop_last() =~= entries);
}

/// A replica is told of by its key, holds what its entries say and spans it; what is known
/// of it counts its entries and those without a name. It fails where all that is said is
/// without a name.
pub proof fn replicas_are_told_of(key: Seq<char>, path: Seq<Seq<char>>, source_id: Seq<char>, entries: Seq<JsonView>)
    ensures
        ({
            let read = entries_of(entries);
            let r = conversation_of(key, path, source_id, entries);
            &&& read.messages.len() == 0 && read.unnamed > 0 ==> r == Err::<Option<ConversationView>, ReplicaError>(
                ReplicaError::NoNames,
            )
            &&& read.messages.len() == 0 && read.unnamed <= 0 ==> r == Ok::<Option<ConversationView>, ReplicaError>(None)
            &&& read.messages.len() > 0 ==> {
                let c = r->Ok_0->0;
                &&& r is Ok && r->Ok_0 is Some
                &&& c.agent_slug == "grok_bot"@
                &&& c.external_id == Some(key)
                &&& c.title == Some("Grok Bot rolling transcript"@)
                &&& c.workspace is None
                &&& c.source_path == path
                &&& c.messages == read.messages
                &&& is_first_instant(c.started_at, c.messages)
                &&& is_last_instant(c.ended_at, c.messages)
                &&& member(c.metadata, "source_entry_count"@) == Some(JsonView::Unsigned(entries.len() as u64))
                &&& member(c.metadata, "missing_entry_id_count"@) == Some(JsonView::Unsigned(read.unnamed as u64))
                &&& member(c.metadata, "source_id"@) == Some(JsonView::Text(source_id))
                &&& member(c.metadata, "history_complete"@) == Some(JsonView::Bool(false))
                &&& member(c.metadata, "chat_only"@) == Some(JsonView::Bool(true))
                &&& member(c.metadata, "history_kind"@) == Some(JsonView::Text("rolling_agent_transcript"@))
                &&& member(c.metadata, "observed_entry_cap"@) == Some(JsonView::Unsigned(200))
                &&& member(c.metadata, "schema_version"@) == Some(JsonView::Unsigned(1))
            }
        }),
{
    let read = entries_of(entries);
    crate::model::instants_of_messages_are_bounded(read.messages);
    if let JsonView::Object(members) = replica_metadata(entries.len() as int, read.unnamed, source_id) {
        reveal_strlit("chat_only");
        reveal_strlit("history_complete");
        reveal_strlit("history_kind");
        reveal_strlit("missing_entry_id_count");
        reveal_strlit("observed_entry_cap");
        reveal_strlit("schema_version");
        reveal_strlit("source_entry_count");
        reveal_strlit("source_id");
        assert("chat_only"@.len() == 9 && "history_complete"@.len() == 16 && "history_kind"@.len() == 12);
        assert("missing_entry_id_count"@.len() == 22 && "observed_entry_cap"@.len() == 18);
        assert("schema_version"@.len() == 14 && "source_entry_count"@.len() == 18 && "source_id"@.len() == 9);
        assert("observed_entry_cap"@[0] != "source_entry_count"@[0]);
        assert("chat_only"@[0] != "source_id"@[0]);
        member_is_the_first_of_its_key(JsonView::Null, members, "chat_only"@, 0);
        member_is_the_first_of_its_key(JsonView::Null, members, "history_complete"@, 1);
        member_is_the_first_of_its_key(JsonView::Null, members, "history_kind"@, 2);
        member_is_the_first_of_its_key(JsonView::Null, members, "missing_entry_id_count"@, 3);
        member_is_the_first_of_its_key(JsonView::Null, members, "observed_entry_cap"@, 4);
        member_is_the_first_of_its_key(JsonView::Null, members, "schema_version"@, 5);
        member_is_the_first_of_its_key(JsonView::Null, members, "source_entry_count"@, 6);
        member_is_the_first_of_its_key(JsonView::Null, members, "source_id"@, 7);
    }
}

/// A replica is read where its file is named by a key, holds a document of the version that
/// is known, and that holds entries; and it fails for what is missing first.
pub proof fn replicas_are_read(t: Seq<EntryView>, path: Seq<Seq<char>>, source_id: Seq<char>)
    ensures
        ({
            let r = replica(t, path, source_id);
            let text = text_at(t, path);
            &&& key_of(path) is None ==> r == Err::<Option<ConversationView>, ReplicaError>(ReplicaError::NotAReplica)
            &&& key_of(path) is Some && text is None ==> r == Err::<Option<ConversationView>, ReplicaError>(
                ReplicaError::Unreadable,
            )
            &&& key_of(path) is Some && text is Some && document_in(text->0) is None ==> r == Err::<
                Option<ConversationView>,
                ReplicaError,
            >(ReplicaError::InvalidJson)
            &&& key_of(path) is Some && text is Some ==> (document_in(text->0) matches Some(v) ==> {
                let entries = items_in(member_of(member(v, "value"@), "entries"@));
                let known = member(v, "schemaVersion"@) == Some(JsonView::Unsigned(1));
                &&& !known ==> r == Err::<Option<ConversationView>, ReplicaError>(ReplicaError::UnsupportedVersion)
                &&& known && entries is None ==> r == Err::<Option<ConversationView>, ReplicaError>(ReplicaError::NoEntries)
                &&& known ==> (entries matches Some(entries) ==> r == conversation_of(
                    key_of(path)->0,
                    path,
                    source_id,
                    entries,
                ))
            })
        }),
{
}

/// The replicas of the sources are read in their order, and one that cannot be read or says
/// nothing leaves the others as they are.
pub proof fn replicas_are_read_in_order(t: Seq<EntryView>, sources: Seq<SourceView>, next: SourceView)
    ensures
        ({
            let front = conversations_of(t, sources);
            let all = conversations_of(t, sources.push(next));
            match replica(t, next.source_path, next.origin.source_id) {
                Ok(Some(c)) => all == front.push(c),
                _ => all == front,
            }
        }),
        conversations_of(t, Seq::empty()).len() == 0,
{
    assert(sources.push(next).drop_last() =~= sources);
}

/// A file that is named by the key of a replica, changed and was not met is a source that the
/// scan needs; nothing else is.
pub proof fn replicas_that_changed_are_sources(t: Seq<EntryView>, f: FoundView, root: RootView, path: Seq<Seq<char>>)
    ensures
        ({
            let after = found_one(t, f, root, path);
            let wanted = path_is_file(t, path) && key_of(path) is Some && path_is_fresh(t, path) && !was_seen(
                f.seen,
                canonical_path(t, path),
            );
            &&& !wanted ==> after == f
            &&& wanted ==> {
                let s = after.found.last();
                &&& after.found == f.found.push(s)
                &&& s.source_path == path
                &&& s.role is PrimarySessionLog
                &&& s.required_for_reconstruction
                &&& s.provider_slug == "grok_bot"@
                &&& s.scan_root == root.path
                &&& s.origin == root.origin
                &&& was_seen(after.seen, canonical_path(t, path))
            }
        }),
{
    crate::scan::seen_grows(f.seen, canonical_path(t, path), path);
}

/// A replica is looked for at the root where that is a file, or else right in its directory
/// of persistence, or else right in the root.
pub proof fn replicas_are_looked_for(t: Seq<EntryView>, root: Seq<Seq<char>>)
    ensures
        ({
            let inner = below(root, "sand-client-persistence"@);
            &&& path_is_file(t, root) ==> candidates(t, root) == seq![root]
            &&& !path_is_file(t, root) && path_is_dir(t, inner) ==> candidates(t, root) == children(t, inner)
            &&& !path_is_file(t, root) && !path_is_dir(t, inner) && path_exists(t, root) ==> candidates(t, root)
                == children(t, root)
            &&& !path_exists(t, root) && !path_is_dir(t, inner) ==> candidates(t, root).len() == 0
        }),
{
}

/// Without given places a scan reads where the environment says, or else the usual place of
/// the user; with given places it reads those.
pub proof fn scans_read_their_roots(ctx: ContextView, s: SurroundingsView, text: Seq<char>, home: Seq<Seq<char>>)
    ensures
        ctx.scan_roots.len() > 0 ==> grok_bot_roots(ctx, s) == ctx.scan_roots,
        ctx.scan_roots.len() == 0 && set_variable(s, "CASS_GROK_BOT_DATA_ROOT"@) == Some(text) ==> grok_bot_roots(ctx, s)
            == seq![local_root(expanded_path(text, s.home))],
        ctx.scan_roots.len() == 0 && set_variable(s, "CASS_GROK_BOT_DATA_ROOT"@) is None && s.home == Some(home)
            ==> grok_bot_roots(ctx, s) == seq![
            local_root(below(home, "Library/Application Support/Grok Bot/sand-client-persistence"@)),
        ],
{
}

/// The key of a replica names an account and an agent: an account by a number of twenty-six
/// capital letters and digits, and an agent by one of thirty-six small ones in five groups.
/// A key of that form is one of a replica.
pub proof fn keys_name_an_account_and_an_agent(account: Seq<char>, agent: Seq<char>)
    requires
        account.len() == 26,
        '0' <= account[0] <= '7',
        forall|i: int|
            0 <= i < account.len() ==> '0' <= (#[trigger] account[i]) <= '9' || ('A' <= account[i] <= 'Z' && account[i] != 'I'
                && account[i] != 'L' && account[i] != 'O' && account[i] != 'U'),
        agent.len() == 36,
        forall|i: int|
            0 <= i < agent.len() ==> if i == 8 || i == 13 || i == 18 || i == 23 {
                (#[trigger] agent[i]) == '-'
            } else {
                '0' <= agent[i] <= '9' || 'a' <= agent[i] <= 'f'
            },
    ensures
        is_replica("sand.client.slice.account.auth0%7Cuser_"@ + account + ".transcript.replicas."@ + agent),
{
    let first = "sand.client.slice.account."@;
    let user = "auth0%7Cuser_"@;
    let middle = ".transcript.replicas."@;
    let rest = user + account + middle + agent;
    key_literals();
    assert("sand.client.slice.account.auth0%7Cuser_"@ + account + middle + agent =~= first + rest);
    crate::text::beginnings_and_ends_are_taken_off(first, rest);
    crate::text::beginnings_and_ends_are_taken_off(user, account);
    assert forall|i: int| 0 <= i < account.len() implies account[i] != '.' && is_account_char(#[trigger] account[i]) by {}
    replicas_are_parted(account, agent);
    assert forall|i: int| 0 <= i < agent.len() implies is_agent_char(#[trigger] agent[i], i) by {}
    assert(is_agent(agent));
    assert(is_account(account));
}

proof fn key_literals()
    ensures
        "sand.client.slice.account.auth0%7Cuser_"@ == "sand.client.slice.account."@ + "auth0%7Cuser_"@,
        "auth0%7Cuser_"@.len() == 13,
        ".transcript.replicas."@.len() == 21,
        ".transcript.replicas."@[0] == '.',
        forall|i: int| 0 <= i < 13 ==> "auth0%7Cuser_"@[i] != '.',
{
    reveal_strlit("sand.client.slice.account.");
    reveal_strlit("auth0%7Cuser_");
    reveal_strlit(".transcript.replicas.");
    reveal_strlit("sand.client.slice.account.auth0%7Cuser_");
    assert("sand.client.slice.account.auth0%7Cuser_"@ =~= "sand.client.slice.account."@ + "auth0%7Cuser_"@);
}

proof fn replicas_are_parted(account: Seq<char>, agent: Seq<char>)
    requires
        forall|i: int| 0 <= i < account.len() ==> account[i] != '.',
    ensures
        parted("auth0%7Cuser_"@ + account + ".transcript.replicas."@ + agent, ".transcript.replicas."@) == Some(
            ("auth0%7Cuser_"@ + account, agent),
        ),
{
    let user = "auth0%7Cuser_"@;
    let middle = ".transcript.replicas."@;
    let front = user + account;
    let rest = front + middle + agent;
    key_literals();
    let at = front.len() as int;
    assert(rest.subrange(at, at + middle.len()) =~= middle);
    assert forall|i: int| 0 <= i < at implies !occurs_at(rest, middle, i) by {
        if occurs_at(rest, middle, i) {
            assert(rest.subrange(i, i + middle.len())[0] == rest[i]);
            assert(rest[i] == front[i]);
            if i < 13 {
                assert(front[i] == user[i]);
            } else {
                assert(front[i] == account[i - 13]);
            }
        }
    }
    crate::text::first_occurrences_are_found(rest, middle, 0, at);
    assert(rest.take(at) =~= front);
    assert(rest.skip(at + middle.len()) =~= agent);
}

/// No other key is one of a replica: each begins with the name of an account, and what
/// follows the mark of replicas is the number of an agent.
pub proof fn other_keys_are_no_replicas(key: Seq<char>)
    requires
        is_replica(key),
    ensures
        starts(key, "sand.client.slice.account.auth0%7Cuser_"@),
        has_text(key, ".transcript.replicas."@),
        key.len() == 39 + 26 + 21 + 36,
        key[key.len() - 13] == '-',
{
    let first = "sand.client.slice.account."@;
    let user = "auth0%7Cuser_"@;
    let middle = ".transcript.replicas."@;
    reveal_strlit("sand.client.slice.account.");
    reveal_strlit("auth0%7Cuser_");
    reveal_strlit(".transcript.replicas.");
    reveal_strlit("sand.client.slice.account.auth0%7Cuser_");
    let both = "sand.client.slice.account.auth0%7Cuser_"@;
    assert(both =~= first + user);
    let rest = key.skip(first.len() as int);
    let p = parted(rest, middle)->0;
    crate::text::parting_is_at_the_first_separator(rest, middle);
    assert(rest == p.0 + middle + p.1);
    let subject = p.0.skip(user.len() as int);
    assert(p.0.take(user.len() as int) == user);
    assert(key =~= first + rest);
    assert(key.take(both.len() as int) =~= both) by {
        assert forall|i: int| 0 <= i < both.len() implies key[i] == both[i] by {
            if i < first.len() {
                assert(key.take(first.len() as int)[i] == first[i]);
            } else {
                assert(key[i] == rest[i - first.len()]);
                assert(rest[i - first.len()] == p.0[i - first.len()]);
                assert(p.0.take(user.len() as int)[i - first.len()] == p.0[i - first.len()]);
            }
        }
    }
    let at = (first.len() + p.0.len()) as int;
    assert(key.subrange(at, at + middle.len()) =~= middle);
    assert(occurs_at(key, middle, at));
    assert(is_agent_char(p.1[23], 23));
    assert(key[key.len() - 13] == p.1[23]);
}

} // verus!
