//! How a scan of OpenCode goes through the databases and their sessions one by one,
//! and when it falls back to the older files.
use vstd::prelude::*;
use crate::opencode::{after_session, is_wanted, rows_conversation, RowsView, StreamView};

verus! {

/// What to do next.
#[derive(Clone, Copy, PartialEq, Eq, Structural)]
pub enum StreamStep {
    /// Open the database and list its sessions.
    Open,
    /// Take the session if it is wanted.
    Claim,
    /// Load the rows of the session.
    Load,
    /// Hand the conversation of the session on.
    Emit,
    /// List the conversations of the older files.
    Files,
    /// Hand a conversation of the older files on.
    EmitOld,
    /// Nothing: all was gone through.
    Done,
    /// Nothing: who was handed a conversation failed.
    Failed,
}

/// What came of a step.
#[derive(Clone, Copy, PartialEq, Eq, Structural)]
pub enum StreamEvent {
    /// So many were listed.
    Listed(usize),
    /// It cannot be read.
    Unreadable,
    Claimed,
    PassedOver,
    /// The session makes a conversation.
    Found,
    /// The session makes none.
    Nothing,
    Emitted,
    EmitFailed,
}

/// Where a scan stands.
#[derive(Clone, Copy, PartialEq, Eq, Structural)]
pub struct StreamPlace {
    pub step: StreamStep,
    /// The place of the database among all.
    pub database: usize,
    /// The place of the session in the database, or of the conversation among those of
    /// the older files.
    pub session: usize,
    /// How many of them there are.
    pub sessions: usize,
    /// Whether any session was taken.
    pub taken: bool,
}

/// Where a database begins. Behind the last one the older files follow, unless a session
/// was taken.
pub open spec fn at_database(databases: usize, database: int, taken: bool) -> StreamPlace {
    StreamPlace {
        step: if database < databases {
            StreamStep::Open
        } else if taken {
            StreamStep::Done
        } else {
            StreamStep::Files
        },
        database: database as usize,
        session: 0,
        sessions: 0,
        taken,
    }
}

/// The session behind one.
pub open spec fn at_next_session(databases: usize, at: StreamPlace) -> StreamPlace {
    if at.session + 1 < at.sessions {
        StreamPlace { step: StreamStep::Claim, session: (at.session + 1) as usize, ..at }
    } else {
        at_database(databases, at.database + 1, at.taken)
    }
}

/// Where a scan stands after an event. What is no answer to the step changes nothing.
pub open spec fn streamed(databases: usize, at: StreamPlace, event: StreamEvent) -> StreamPlace {
    match (at.step, event) {
        (StreamStep::Open, StreamEvent::Listed(n)) => if at.database >= databases {
            at
        } else if n > 0 {
            StreamPlace { step: StreamStep::Claim, session: 0, sessions: n, ..at }
        } else {
            at_database(databases, at.database + 1, at.taken)
        },
        (StreamStep::Open, StreamEvent::Unreadable) => if at.database >= databases {
            at
        } else {
            at_database(databases, at.database + 1, at.taken)
        },
        (StreamStep::Claim, StreamEvent::Claimed) => StreamPlace { step: StreamStep::Load, taken: true, ..at },
        (StreamStep::Claim, StreamEvent::PassedOver) => if at.database >= databases {
            at
        } else {
            at_next_session(databases, at)
        },
        (StreamStep::Load, StreamEvent::Found) => StreamPlace { step: StreamStep::Emit, ..at },
        (StreamStep::Load, StreamEvent::Nothing) => if at.database >= databases {
            at
        } else {
            at_next_session(databases, at)
        },
        (StreamStep::Load, StreamEvent::Unreadable) => if at.database >= databases {
            at
        } else {
            at_database(databases, at.database + 1, at.taken)
        },
        (StreamStep::Emit, StreamEvent::Emitted) => if at.database >= databases {
            at
        } else {
            at_next_session(databases, at)
        },
        (StreamStep::Emit, StreamEvent::EmitFailed) => StreamPlace { step: StreamStep::Failed, ..at },
        (StreamStep::Files, StreamEvent::Listed(n)) => if n > 0 {
            StreamPlace { step: StreamStep::EmitOld, session: 0, sessions: n, ..at }
        } else {
            StreamPlace { step: StreamStep::Done, ..at }
        },
        (StreamStep::EmitOld, StreamEvent::Emitted) => if at.session + 1 < at.sessions {
            StreamPlace { session: (at.session + 1) as usize, ..at }
        } else {
            StreamPlace { step: StreamStep::Done, ..at }
        },
        (StreamStep::EmitOld, StreamEvent::EmitFailed) => StreamPlace { step: StreamStep::Failed, ..at },
        _ => at,
    }
}

fn enter_database(databases: usize, database: usize, taken: bool) -> (r: StreamPlace)
    ensures
        r == at_database(databases, database as int, taken),
{
    let step = if database < databases {
        StreamStep::Open
    } else if taken {
        StreamStep::Done
    } else {
        StreamStep::Files
    };
    StreamPlace { step, database, session: 0, sessions: 0, taken }
}

fn enter_next_session(databases: usize, at: StreamPlace) -> (r: StreamPlace)
    requires
        at.database < databases,
    ensures
        r == at_next_session(databases, at),
{
    if at.session < at.sessions && at.session + 1 < at.sessions {
        StreamPlace { step: StreamStep::Claim, session: at.session + 1, ..at }
    } else {
        enter_database(databases, at.database + 1, at.taken)
    }
}

/// Where a scan of so many databases begins.
pub fn begin_stream(databases: usize) -> (r: StreamPlace)
    ensures
        r == at_database(databases, 0, false),
{
    enter_database(databases, 0, false)
}

/// Where a scan stands after an event.
pub fn stream_on(databases: usize, at: StreamPlace, event: StreamEvent) -> (r: StreamPlace)
    ensures
        r == streamed(databases, at, event),
{
    let within = at.database < databases;
    match (at.step, event) {
        (StreamStep::Open, StreamEvent::Listed(n)) => if !within {
            at
        } else if n > 0 {
            StreamPlace { step: StreamStep::Claim, session: 0, sessions: n, ..at }
        } else {
            enter_database(databases, at.database + 1, at.taken)
        },
        (StreamStep::Open, StreamEvent::Unreadable) => if !within {
            at
        } else {
            enter_database(databases, at.database + 1, at.taken)
        },
        (StreamStep::Claim, StreamEvent::Claimed) => StreamPlace { step: StreamStep::Load, taken: true, ..at },
        (StreamStep::Claim, StreamEvent::PassedOver) => if !within {
            at
        } else {
            enter_next_session(databases, at)
        },
        (StreamStep::Load, StreamEvent::Found) => StreamPlace { step: StreamStep::Emit, ..at },
        (StreamStep::Load, StreamEvent::Nothing) => if !within {
            at
        } else {
            enter_next_session(databases, at)
        },
        (StreamStep::Load, StreamEvent::Unreadable) => if !within {
            at
        } else {
            enter_database(databases, at.database + 1, at.taken)
        },
        (StreamStep::Emit, StreamEvent::Emitted) => if !within {
            at
        } else {
            enter_next_session(databases, at)
        },
        (StreamStep::Emit, StreamEvent::EmitFailed) => StreamPlace { step: StreamStep::Failed, ..at },
        (StreamStep::Files, StreamEvent::Listed(n)) => if n > 0 {
            StreamPlace { step: StreamStep::EmitOld, session: 0, sessions: n, ..at }
        } else {
            StreamPlace { step: StreamStep::Done, ..at }
        },
        (StreamStep::EmitOld, StreamEvent::Emitted) => if at.session < at.sessions && at.session + 1 < at.sessions {
            StreamPlace { session: at.session + 1, ..at }
        } else {
            StreamPlace { step: StreamStep::Done, ..at }
        },
        (StreamStep::EmitOld, StreamEvent::EmitFailed) => StreamPlace { step: StreamStep::Failed, ..at },
        _ => at,
    }
}

/// Where a scan stands after these events.
pub open spec fn stream_after(databases: usize, start: StreamPlace, events: Seq<StreamEvent>) -> StreamPlace
    decreases events.len(),
{
    if events.len() == 0 {
        start
    } else {
        streamed(databases, stream_after(databases, start, events.drop_last()), events.last())
    }
}

/// Whether an event answers a step.
pub open spec fn answers_stream(step: StreamStep, event: StreamEvent) -> bool {
    match step {
        StreamStep::Open => event is Listed || event is Unreadable,
        StreamStep::Claim => event is Claimed || event is PassedOver,
        StreamStep::Load => event is Found || event is Nothing || event is Unreadable,
        StreamStep::Emit => event is Emitted || event is EmitFailed,
        StreamStep::Files => event is Listed,
        StreamStep::EmitOld => event is Emitted || event is EmitFailed,
        StreamStep::Done => false,
        StreamStep::Failed => false,
    }
}

/// Where a scan of so many databases stands after these events.
pub open spec fn place_after(databases: usize, events: Seq<StreamEvent>) -> StreamPlace {
    stream_after(databases, at_database(databases, 0, false), events)
}

/// Whether each event answers the step at which it came.
pub open spec fn is_stream(databases: usize, events: Seq<StreamEvent>) -> bool {
    forall|i: int|
        0 <= i < events.len() ==> answers_stream(place_after(databases, events.take(i)).step, #[trigger] events[i])
}

/// What holds of a place that a scan comes to.
spec fn is_place(databases: usize, at: StreamPlace) -> bool {
    &&& at.database <= databases
    &&& (at.step is Open || at.step is Claim || at.step is Load || at.step is Emit) ==> at.database < databases
    &&& (at.step is Files || at.step is EmitOld) ==> at.database == databases && !at.taken
    &&& (at.step is Claim || at.step is Load || at.step is Emit || at.step is EmitOld) ==> at.session < at.sessions
    &&& (at.step is Load || at.step is Emit) ==> at.taken
    &&& (at.step is Open || at.step is Files) ==> at.session == 0
}

proof fn places_are_sound(databases: usize, events: Seq<StreamEvent>)
    ensures
        is_place(databases, place_after(databases, events)),
    decreases events.len(),
{
    if events.len() > 0 {
        places_are_sound(databases, events.drop_last());
    }
}

proof fn stream_takes(databases: usize, at: StreamPlace, event: StreamEvent)
    requires
        answers_stream(at.step, event),
    ensures
        streamed(databases, at, event).taken <==> at.taken || event is Claimed,
{
}

proof fn stream_goes_back(databases: usize, events: Seq<StreamEvent>)
    requires
        is_stream(databases, events),
        events.len() > 0,
    ensures
        is_stream(databases, events.drop_last()),
        answers_stream(place_after(databases, events.drop_last()).step, events.last()),
{
    let front = events.drop_last();
    assert(events.take(events.len() - 1) =~= front);
    assert(answers_stream(place_after(databases, events.take(events.len() - 1)).step, events[events.len() - 1]));
    assert forall|i: int| 0 <= i < front.len() implies answers_stream(
        place_after(databases, front.take(i)).step,
        #[trigger] front[i],
    ) by {
        assert(front.take(i) =~= events.take(i));
        assert(answers_stream(place_after(databases, events.take(i)).step, events[i]));
    }
}

proof fn contains_with_last(events: Seq<StreamEvent>)
    requires
        events.len() > 0,
    ensures
        events.contains(StreamEvent::Claimed) <==> events.drop_last().contains(StreamEvent::Claimed)
            || events.last() is Claimed,
{
    let front = events.drop_last();
    if front.contains(StreamEvent::Claimed) {
        let k = choose|k: int| 0 <= k < front.len() && front[k] == StreamEvent::Claimed;
        assert(events[k] == StreamEvent::Claimed);
    }
    if events.last() is Claimed {
        assert(events[events.len() - 1] == StreamEvent::Claimed);
    }
    if events.contains(StreamEvent::Claimed) && !(events.last() is Claimed) {
        let k = choose|k: int| 0 <= k < events.len() && events[k] == StreamEvent::Claimed;
        assert(front[k] == StreamEvent::Claimed);
    }
}

/// The older files are gone through only where no session of any database was taken.
pub proof fn files_follow_untaken_databases(databases: usize, events: Seq<StreamEvent>)
    requires
        is_stream(databases, events),
    ensures
        place_after(databases, events).taken <==> events.contains(StreamEvent::Claimed),
        (place_after(databases, events).step is Files || place_after(databases, events).step is EmitOld)
            ==> !events.contains(StreamEvent::Claimed),
    decreases events.len(),
{
    places_are_sound(databases, events);
    if events.len() > 0 {
        let front = events.drop_last();
        stream_goes_back(databases, events);
        files_follow_untaken_databases(databases, front);
        stream_takes(databases, place_after(databases, front), events.last());
        contains_with_last(events);
    }
}

/// Who fails on a conversation ends the scan: no database is opened, no session taken
/// and no conversation handed on any more.
pub proof fn failing_ends_the_stream(databases: usize, events: Seq<StreamEvent>, more: Seq<StreamEvent>)
    requires
        events.len() > 0,
        events.last() is EmitFailed,
        ({
            let before = place_after(databases, events.drop_last()).step;
            before is Emit || before is EmitOld
        }),
    ensures
        place_after(databases, events).step is Failed,
        place_after(databases, events + more) == place_after(databases, events),
    decreases more.len(),
{
    if more.len() > 0 {
        failing_ends_the_stream(databases, events, more.drop_last());
        assert((events + more).drop_last() =~= events + more.drop_last());
    } else {
        assert(events + more =~= events);
    }
}

/// How far a scan is with a session.
pub open spec fn stream_rank(step: StreamStep) -> int {
    match step {
        StreamStep::Open => 0,
        StreamStep::Claim => 1,
        StreamStep::Load => 2,
        StreamStep::Emit => 3,
        StreamStep::Files => 0,
        StreamStep::EmitOld => 1,
        StreamStep::Done => 4,
        StreamStep::Failed => 4,
    }
}

/// Whether a place comes before another: in an earlier database, at an earlier session,
/// or at an earlier step of it.
pub open spec fn comes_before(a: StreamPlace, b: StreamPlace) -> bool {
    ||| a.database < b.database
    ||| a.database == b.database && a.session < b.session
    ||| a.database == b.database && a.session == b.session && stream_rank(a.step) < stream_rank(b.step)
}

proof fn stream_goes_on(databases: usize, at: StreamPlace, event: StreamEvent)
    requires
        is_place(databases, at),
        answers_stream(at.step, event),
    ensures
        comes_before(at, streamed(databases, at, event)),
{
}

proof fn stream_event_goes_on(databases: usize, events: Seq<StreamEvent>, j: int)
    requires
        is_stream(databases, events),
        0 < j <= events.len(),
    ensures
        comes_before(place_after(databases, events.take(j - 1)), place_after(databases, events.take(j))),
{
    let last = events.take(j);
    let front = events.take(j - 1);
    assert(last.drop_last() =~= front);
    assert(last.last() == events[j - 1]);
    assert(answers_stream(place_after(databases, events.take(j - 1)).step, events[j - 1]));
    places_are_sound(databases, front);
    stream_goes_on(databases, place_after(databases, front), last.last());
}

proof fn before_chains(trace: Seq<StreamPlace>, i: int, j: int)
    requires
        0 <= i < j < trace.len(),
        forall|k: int| 0 < k < trace.len() ==> comes_before(trace[k - 1], #[trigger] trace[k]),
    ensures
        comes_before(trace[i], trace[j]),
    decreases j,
{
    assert(comes_before(trace[j - 1], trace[j]));
    if i < j - 1 {
        before_chains(trace, i, j - 1);
    }
}

/// Nothing is done twice: each database is opened, each session taken, loaded and handed
/// on at most once, and in that order.
pub proof fn stream_steps_come_once(databases: usize, events: Seq<StreamEvent>, i: int, j: int)
    requires
        is_stream(databases, events),
        0 <= i < j <= events.len(),
    ensures
        comes_before(place_after(databases, events.take(i)), place_after(databases, events.take(j))),
{
    let trace = Seq::new((events.len() + 1) as nat, |k: int| place_after(databases, events.take(k)));
    assert forall|k: int| 0 < k < trace.len() implies comes_before(trace[k - 1], #[trigger] trace[k]) by {
        stream_event_goes_on(databases, events, k);
    }
    before_chains(trace, i, j);
}

/// What comes of going through a session where every conversation is taken over.
pub open spec fn session_events(
    stream: StreamView,
    db: Seq<Seq<char>>,
    rows: RowsView,
    since: Option<i64>,
) -> Seq<StreamEvent> {
    if !is_wanted(stream.taken, rows.session, since) {
        seq![StreamEvent::PassedOver]
    } else {
        match rows.tables {
            None => seq![StreamEvent::Claimed, StreamEvent::Unreadable],
            Some(tables) => match rows_conversation(db, rows.session, tables, since) {
                None => seq![StreamEvent::Claimed, StreamEvent::Nothing],
                Some(_) => seq![StreamEvent::Claimed, StreamEvent::Found, StreamEvent::Emitted],
            },
        }
    }
}

/// Going through a session step by step does what reading it at once does: the scan
/// goes on with the next session, or with the next database where the rows cannot be
/// read; a session counts as taken where its name is; and a conversation is handed on
/// exactly where one is found.
pub proof fn steps_read_the_session(
    databases: usize,
    at: StreamPlace,
    stream: StreamView,
    db: Seq<Seq<char>>,
    rows: RowsView,
    since: Option<i64>,
)
    requires
        at.step is Claim,
        at.database < databases,
        !stream.stopped,
    ensures
        ({
            let events = session_events(stream, db, rows, since);
            let read = after_session(stream, db, rows, since);
            let taken = at.taken || read.taken != stream.taken;
            &&& stream_after(databases, at, events) == if read.stopped {
                at_database(databases, at.database + 1, taken)
            } else {
                at_next_session(databases, (StreamPlace { taken, ..at }))
            }
            &&& events.contains(StreamEvent::Emitted) <==> read.found.len() > stream.found.len()
        }),
{
    reveal_with_fuel(stream_after, 4);
    let events = session_events(stream, db, rows, since);
    let read = after_session(stream, db, rows, since);
    if is_wanted(stream.taken, rows.session, since) {
        assert(read.taken.len() == stream.taken.len() + 1);
        if events.len() == 3 {
            assert(events.drop_last() =~= seq![StreamEvent::Claimed, StreamEvent::Found]);
            assert(events.drop_last().drop_last() =~= seq![StreamEvent::Claimed]);
            assert(events.drop_last().drop_last().drop_last() =~= Seq::empty());
            assert(events[2] == StreamEvent::Emitted);
        } else {
            assert(events.drop_last() =~= seq![StreamEvent::Claimed]);
            assert(events.drop_last().drop_last() =~= Seq::empty());
        }
    } else {
        assert(events.drop_last() =~= Seq::empty());
    }
}

/// A scan begins with the first database and goes through the databases and their sessions
/// one by one: the sessions that are listed are claimed in turn, one that is claimed is
/// loaded, and what it makes is handed on. A database that cannot be read, or whose sessions
/// are gone through, is followed by the next.
pub proof fn databases_are_gone_through(databases: usize, at: StreamPlace, n: usize)
    requires
        at.database < databases,
    ensures
        ({
            let next = streamed(databases, (StreamPlace { step: StreamStep::Open, ..at }), StreamEvent::Unreadable);
            let on = streamed(databases, (StreamPlace { step: StreamStep::Load, ..at }), StreamEvent::Nothing);
            &&& at.step is Open && n > 0 ==> streamed(databases, at, StreamEvent::Listed(n)) == (StreamPlace {
                step: StreamStep::Claim,
                session: 0,
                sessions: n,
                ..at
            })
            &&& at.step is Open ==> streamed(databases, at, StreamEvent::Listed(0)) == next
            &&& at.step is Claim ==> streamed(databases, at, StreamEvent::Claimed) == (StreamPlace {
                step: StreamStep::Load,
                taken: true,
                ..at
            })
            &&& at.step is Claim ==> streamed(databases, at, StreamEvent::PassedOver) == on
            &&& at.step is Load ==> streamed(databases, at, StreamEvent::Found) == (StreamPlace {
                step: StreamStep::Emit,
                ..at
            })
            &&& at.step is Load ==> streamed(databases, at, StreamEvent::Unreadable) == next
            &&& at.step is Emit ==> streamed(databases, at, StreamEvent::Emitted) == on
            &&& at.session + 1 < at.sessions ==> on == (StreamPlace {
                step: StreamStep::Claim,
                session: (at.session + 1) as usize,
                ..at
            })
            &&& at.session + 1 >= at.sessions ==> on == next
            &&& next.database == at.database + 1
            &&& next.taken == at.taken
            &&& at.database + 1 < databases ==> next.step is Open
            &&& at.database + 1 == databases && at.taken ==> next.step is Done
            &&& at.database + 1 == databases && !at.taken ==> next.step is Files
        }),
        place_after(databases, Seq::empty()).step is Open,
        place_after(databases, Seq::empty()).database == 0,
        !place_after(databases, Seq::empty()).taken,
{
}

/// What the older files make is handed on one by one, and nothing follows it.
pub proof fn older_files_are_gone_through(databases: usize, at: StreamPlace, n: usize)
    ensures
        at.step is Files && n > 0 ==> streamed(databases, at, StreamEvent::Listed(n)) == (StreamPlace {
            step: StreamStep::EmitOld,
            session: 0,
            sessions: n,
            ..at
        }),
        at.step is Files ==> streamed(databases, at, StreamEvent::Listed(0)).step is Done,
        at.step is EmitOld && at.session + 1 < at.sessions ==> streamed(databases, at, StreamEvent::Emitted) == (StreamPlace {
            session: (at.session + 1) as usize,
            ..at
        }),
        at.step is EmitOld && at.session + 1 >= at.sessions ==> streamed(databases, at, StreamEvent::Emitted).step is Done,
{
}

} // verus!
