//! How a scan goes through its sources one by one: when it asks for one, reads it,
//! hands a conversation on, and tells that all of the source was read.
use vstd::prelude::*;

verus! {

/// What holds of a source before it is read.
#[derive(Clone, Copy, PartialEq, Eq, Structural)]
pub struct SourceRules {
    /// Whether there is a file by which the source can be refused and completed.
    pub bounded: bool,
    /// Whether a source that makes no conversation is complete all the same.
    pub empty_completes: bool,
}

/// What to do next.
#[derive(Clone, Copy, PartialEq, Eq, Structural)]
pub enum Step {
    /// Ask whether the source is wanted.
    Ask,
    /// Read the source.
    Read,
    /// Hand its conversation on.
    Emit,
    /// Look whether its files stayed as they were, so many conversations having been
    /// handed on.
    Check(usize),
    /// Tell that all of it was read, with so many conversations.
    Complete(usize),
    /// Nothing: all sources were gone through.
    Done,
    /// Nothing: who was handed something on failed.
    Failed,
}

/// What came of a step.
#[derive(Clone, Copy, PartialEq, Eq, Structural)]
pub enum Event {
    Accepted,
    Refused,
    /// The source cannot be read.
    Unreadable,
    /// The source makes no conversation.
    Empty,
    /// The source makes a conversation.
    Found,
    Emitted,
    EmitFailed,
    Unchanged,
    Changed,
    Completed,
    CompleteFailed,
}

/// Where a scan stands.
#[derive(Clone, Copy, PartialEq, Eq, Structural)]
pub struct Progress {
    /// The place of the source among all.
    pub source: usize,
    pub step: Step,
}

/// How a source begins, or that there is none.
pub open spec fn entered(rules: Seq<SourceRules>, source: int) -> Progress {
    Progress {
        source: source as usize,
        step: if source >= rules.len() {
            Step::Done
        } else if rules[source].bounded {
            Step::Ask
        } else {
            Step::Read
        },
    }
}

/// Where a scan stands after an event. What is no answer to the step changes nothing.
pub open spec fn advanced(rules: Seq<SourceRules>, at: Progress, event: Event) -> Progress {
    if at.source >= rules.len() {
        at
    } else {
        let rule = rules[at.source as int];
        let next = entered(rules, at.source + 1);
        match (at.step, event) {
            (Step::Ask, Event::Accepted) => Progress { step: Step::Read, ..at },
            (Step::Ask, Event::Refused) => next,
            (Step::Read, Event::Unreadable) => next,
            (Step::Read, Event::Empty) => if rule.bounded && rule.empty_completes {
                Progress { step: Step::Check(0), ..at }
            } else {
                next
            },
            (Step::Read, Event::Found) => Progress { step: Step::Emit, ..at },
            (Step::Emit, Event::Emitted) => if rule.bounded {
                Progress { step: Step::Check(1), ..at }
            } else {
                next
            },
            (Step::Emit, Event::EmitFailed) => Progress { step: Step::Failed, ..at },
            (Step::Check(n), Event::Unchanged) => Progress { step: Step::Complete(n), ..at },
            (Step::Check(_), Event::Changed) => next,
            (Step::Complete(_), Event::Completed) => next,
            (Step::Complete(_), Event::CompleteFailed) => Progress { step: Step::Failed, ..at },
            _ => at,
        }
    }
}

fn enter(rules: &Vec<SourceRules>, source: usize) -> (r: Progress)
    ensures
        r == entered(rules@, source as int),
{
    let step = if source >= rules.len() {
        Step::Done
    } else if rules[source].bounded {
        Step::Ask
    } else {
        Step::Read
    };
    Progress { source, step }
}

/// Where a scan begins.
pub fn begin(rules: &Vec<SourceRules>) -> (r: Progress)
    ensures
        r == entered(rules@, 0),
{
    enter(rules, 0)
}

/// Where a scan stands after an event.
pub fn advance(rules: &Vec<SourceRules>, at: Progress, event: Event) -> (r: Progress)
    ensures
        r == advanced(rules@, at, event),
{
    if at.source >= rules.len() {
        return at;
    }
    let bounded = rules[at.source].bounded;
    let empty_completes = rules[at.source].empty_completes;
    match (at.step, event) {
        (Step::Ask, Event::Accepted) => Progress { source: at.source, step: Step::Read },
        (Step::Ask, Event::Refused) => enter(rules, at.source + 1),
        (Step::Read, Event::Unreadable) => enter(rules, at.source + 1),
        (Step::Read, Event::Empty) => if bounded && empty_completes {
            Progress { source: at.source, step: Step::Check(0) }
        } else {
            enter(rules, at.source + 1)
        },
        (Step::Read, Event::Found) => Progress { source: at.source, step: Step::Emit },
        (Step::Emit, Event::Emitted) => if bounded {
            Progress { source: at.source, step: Step::Check(1) }
        } else {
            enter(rules, at.source + 1)
        },
        (Step::Emit, Event::EmitFailed) => Progress { source: at.source, step: Step::Failed },
        (Step::Check(n), Event::Unchanged) => Progress { source: at.source, step: Step::Complete(n) },
        (Step::Check(_), Event::Changed) => enter(rules, at.source + 1),
        (Step::Complete(_), Event::Completed) => enter(rules, at.source + 1),
        (Step::Complete(_), Event::CompleteFailed) => Progress { source: at.source, step: Step::Failed },
        _ => at,
    }
}

/// Where a scan stands after these events.
pub open spec fn after(rules: Seq<SourceRules>, events: Seq<Event>) -> Progress
    decreases events.len(),
{
    if events.len() == 0 {
        entered(rules, 0)
    } else {
        advanced(rules, after(rules, events.drop_last()), events.last())
    }
}

/// Whether an event answers a step.
pub open spec fn answers(step: Step, event: Event) -> bool {
    match step {
        Step::Ask => event is Accepted || event is Refused,
        Step::Read => event is Unreadable || event is Empty || event is Found,
        Step::Emit => event is Emitted || event is EmitFailed,
        Step::Check(_) => event is Unchanged || event is Changed,
        Step::Complete(_) => event is Completed || event is CompleteFailed,
        Step::Done => false,
        Step::Failed => false,
    }
}

/// Whether each event answers the step at which it came.
pub open spec fn is_run(rules: Seq<SourceRules>, events: Seq<Event>) -> bool {
    forall|i: int| 0 <= i < events.len() ==> answers(after(rules, events.take(i)).step, #[trigger] events[i])
}

/// Whether a scan stood at a step of a source, and that event came of it, so many
/// events before the last.
pub open spec fn came_of(
    rules: Seq<SourceRules>,
    events: Seq<Event>,
    back: int,
    source: usize,
    step: Step,
    event: Event,
) -> bool {
    let i = events.len() - 1 - back;
    &&& 0 <= i
    &&& events[i] == event
    &&& after(rules, events.take(i)) == (Progress { source, step })
}

/// A scan stands at one of its sources until it is done.
pub proof fn sources_are_counted(rules: Seq<SourceRules>, events: Seq<Event>)
    requires
        rules.len() <= usize::MAX,
    ensures
        ({
            let at = after(rules, events);
            &&& at.source <= rules.len()
            &&& at.source == rules.len() <==> at.step is Done
        }),
    decreases events.len(),
{
    if events.len() > 0 {
        sources_are_counted(rules, events.drop_last());
    }
}

proof fn run_goes_back(rules: Seq<SourceRules>, events: Seq<Event>)
    requires
        is_run(rules, events),
        events.len() > 0,
    ensures
        is_run(rules, events.drop_last()),
        answers(after(rules, events.drop_last()).step, events.last()),
        after(rules, events) == advanced(rules, after(rules, events.drop_last()), events.last()),
        events.take(events.len() - 1) == events.drop_last(),
{
    let front = events.drop_last();
    assert(events.take(events.len() - 1) =~= front);
    assert(answers(after(rules, events.take(events.len() - 1)).step, events[events.len() - 1]));
    assert forall|i: int| 0 <= i < front.len() implies answers(
        after(rules, front.take(i)).step,
        #[trigger] front[i],
    ) by {
        assert(front.take(i) =~= events.take(i));
        assert(answers(after(rules, events.take(i)).step, events[i]));
    }
}

proof fn step_before_reading(rules: Seq<SourceRules>, at: Progress, event: Event)
    requires
        at.source < rules.len() <= usize::MAX,
        answers(at.step, event),
        advanced(rules, at, event).step is Read,
        rules[advanced(rules, at, event).source as int].bounded,
    ensures
        at == (Progress { source: advanced(rules, at, event).source, step: Step::Ask }),
        event is Accepted,
{
}

proof fn step_before_emitting(rules: Seq<SourceRules>, at: Progress, event: Event)
    requires
        at.source < rules.len() <= usize::MAX,
        answers(at.step, event),
        advanced(rules, at, event).step is Emit,
    ensures
        at == (Progress { source: advanced(rules, at, event).source, step: Step::Read }),
        event is Found,
{
}

proof fn step_before_checking(rules: Seq<SourceRules>, at: Progress, event: Event)
    requires
        at.source < rules.len() <= usize::MAX,
        answers(at.step, event),
        advanced(rules, at, event).step is Check,
    ensures
        advanced(rules, at, event).source == at.source,
        rules[at.source as int].bounded,
        ({
            let n = advanced(rules, at, event).step->Check_0;
            ||| n == 1 && at.step is Emit && event is Emitted
            ||| n == 0 && at.step is Read && event is Empty && rules[at.source as int].empty_completes
        }),
{
}

proof fn step_before_completing(rules: Seq<SourceRules>, at: Progress, event: Event)
    requires
        at.source < rules.len() <= usize::MAX,
        answers(at.step, event),
        advanced(rules, at, event).step is Complete,
    ensures
        ({
            let next = advanced(rules, at, event);
            at == (Progress { source: next.source, step: Step::Check(next.step->Complete_0) })
        }),
        event is Unchanged,
{
}

proof fn came_earlier(
    rules: Seq<SourceRules>,
    events: Seq<Event>,
    back: int,
    source: usize,
    step: Step,
    event: Event,
)
    requires
        events.len() > 0,
        0 <= back,
        came_of(rules, events.drop_last(), back, source, step, event),
    ensures
        came_of(rules, events, back + 1, source, step, event),
{
    let front = events.drop_last();
    let i = front.len() - 1 - back;
    assert(front.take(i) =~= events.take(i));
}

/// A step that only comes of an event is not the first.
proof fn came_of_something(rules: Seq<SourceRules>, events: Seq<Event>)
    requires
        rules.len() <= usize::MAX,
        is_run(rules, events),
        ({
            let at = after(rules, events);
            ||| at.step is Emit
            ||| at.step is Check
            ||| at.step is Complete
            ||| at.step is Read && rules[at.source as int].bounded
        }),
    ensures
        events.len() > 0,
        is_run(rules, events.drop_last()),
        answers(after(rules, events.drop_last()).step, events.last()),
        after(rules, events.drop_last()).source < rules.len(),
        after(rules, events) == advanced(rules, after(rules, events.drop_last()), events.last()),
        came_of(
            rules,
            events,
            0,
            after(rules, events.drop_last()).source,
            after(rules, events.drop_last()).step,
            events.last(),
        ),
{
    run_goes_back(rules, events);
    sources_are_counted(rules, events.drop_last());
}

proof fn reading_follows_asking(rules: Seq<SourceRules>, events: Seq<Event>)
    requires
        rules.len() <= usize::MAX,
        is_run(rules, events),
        after(rules, events).step is Read,
        rules[after(rules, events).source as int].bounded,
    ensures
        came_of(rules, events, 0, after(rules, events).source, Step::Ask, Event::Accepted),
{
    came_of_something(rules, events);
    step_before_reading(rules, after(rules, events.drop_last()), events.last());
}

/// A conversation is handed on only of a source that was read just before, and that
/// was accepted before that where it can be refused.
pub proof fn emitting_follows_reading(rules: Seq<SourceRules>, events: Seq<Event>)
    requires
        rules.len() <= usize::MAX,
        is_run(rules, events),
        after(rules, events).step is Emit,
    ensures
        ({
            let source = after(rules, events).source;
            &&& came_of(rules, events, 0, source, Step::Read, Event::Found)
            &&& rules[source as int].bounded ==> came_of(rules, events, 1, source, Step::Ask, Event::Accepted)
        }),
{
    let source = after(rules, events).source;
    came_of_something(rules, events);
    step_before_emitting(rules, after(rules, events.drop_last()), events.last());
    if rules[source as int].bounded {
        reading_follows_asking(rules, events.drop_last());
        came_earlier(rules, events, 0, source, Step::Ask, Event::Accepted);
    }
}

proof fn checking_follows_emitting(rules: Seq<SourceRules>, events: Seq<Event>)
    requires
        rules.len() <= usize::MAX,
        is_run(rules, events),
        after(rules, events).step is Check,
    ensures
        ({
            let at = after(rules, events);
            let source = at.source;
            let n = at.step->Check_0;
            &&& source < rules.len()
            &&& rules[source as int].bounded
            &&& n == 0 || n == 1
            &&& n == 1 ==> {
                &&& came_of(rules, events, 0, source, Step::Emit, Event::Emitted)
                &&& came_of(rules, events, 1, source, Step::Read, Event::Found)
                &&& came_of(rules, events, 2, source, Step::Ask, Event::Accepted)
            }
            &&& n == 0 ==> {
                &&& rules[source as int].empty_completes
                &&& came_of(rules, events, 0, source, Step::Read, Event::Empty)
                &&& came_of(rules, events, 1, source, Step::Ask, Event::Accepted)
            }
        }),
{
    let at = after(rules, events);
    let front = events.drop_last();
    came_of_something(rules, events);
    step_before_checking(rules, after(rules, front), events.last());
    if at.step->Check_0 == 1 {
        emitting_follows_reading(rules, front);
        came_earlier(rules, events, 0, at.source, Step::Read, Event::Found);
        came_earlier(rules, events, 1, at.source, Step::Ask, Event::Accepted);
    } else {
        reading_follows_asking(rules, front);
        came_earlier(rules, events, 0, at.source, Step::Ask, Event::Accepted);
    }
}

/// A source is completed only where it can be, where its files were found unchanged
/// just before, and either its one conversation was handed on before that, or it makes
/// none and completes all the same. It was accepted before it was read.
pub proof fn completing_follows_emitting(rules: Seq<SourceRules>, events: Seq<Event>)
    requires
        rules.len() <= usize::MAX,
        is_run(rules, events),
        after(rules, events).step is Complete,
    ensures
        ({
            let at = after(rules, events);
            let source = at.source;
            let n = at.step->Complete_0;
            &&& source < rules.len()
            &&& rules[source as int].bounded
            &&& came_of(rules, events, 0, source, Step::Check(n), Event::Unchanged)
            &&& n == 0 || n == 1
            &&& n == 1 ==> {
                &&& came_of(rules, events, 1, source, Step::Emit, Event::Emitted)
                &&& came_of(rules, events, 2, source, Step::Read, Event::Found)
                &&& came_of(rules, events, 3, source, Step::Ask, Event::Accepted)
            }
            &&& n == 0 ==> {
                &&& rules[source as int].empty_completes
                &&& came_of(rules, events, 1, source, Step::Read, Event::Empty)
                &&& came_of(rules, events, 2, source, Step::Ask, Event::Accepted)
            }
        }),
{
    let at = after(rules, events);
    let front = events.drop_last();
    came_of_something(rules, events);
    step_before_completing(rules, after(rules, front), events.last());
    checking_follows_emitting(rules, front);
    if at.step->Complete_0 == 1 {
        came_earlier(rules, events, 0, at.source, Step::Emit, Event::Emitted);
        came_earlier(rules, events, 1, at.source, Step::Read, Event::Found);
        came_earlier(rules, events, 2, at.source, Step::Ask, Event::Accepted);
    } else {
        came_earlier(rules, events, 0, at.source, Step::Read, Event::Empty);
        came_earlier(rules, events, 1, at.source, Step::Ask, Event::Accepted);
    }
}

/// How far a scan is with a source.
pub open spec fn rank(step: Step) -> int {
    match step {
        Step::Ask => 0,
        Step::Read => 1,
        Step::Emit => 2,
        Step::Check(_) => 3,
        Step::Complete(_) => 4,
        Step::Failed => 5,
        Step::Done => 0,
    }
}

/// Whether a scan stood at an earlier source, or at an earlier step of the same one.
pub open spec fn is_earlier(a: Progress, b: Progress) -> bool {
    a.source < b.source || a.source == b.source && rank(a.step) < rank(b.step)
}

proof fn step_goes_on(rules: Seq<SourceRules>, at: Progress, event: Event)
    requires
        at.source < rules.len() <= usize::MAX,
        answers(at.step, event),
    ensures
        is_earlier(at, advanced(rules, at, event)),
{
}

proof fn event_goes_on(rules: Seq<SourceRules>, events: Seq<Event>, j: int)
    requires
        rules.len() <= usize::MAX,
        is_run(rules, events),
        0 < j <= events.len(),
    ensures
        is_earlier(after(rules, events.take(j - 1)), after(rules, events.take(j))),
{
    let last = events.take(j);
    let front = events.take(j - 1);
    assert(last.drop_last() =~= front);
    assert(last.last() == events[j - 1]);
    assert(answers(after(rules, events.take(j - 1)).step, events[j - 1]));
    sources_are_counted(rules, front);
    step_goes_on(rules, after(rules, front), last.last());
}

proof fn earlier_chains(trace: Seq<Progress>, i: int, j: int)
    requires
        0 <= i < j < trace.len(),
        forall|k: int| 0 < k < trace.len() ==> is_earlier(trace[k - 1], #[trigger] trace[k]),
    ensures
        is_earlier(trace[i], trace[j]),
    decreases j,
{
    assert(is_earlier(trace[j - 1], trace[j]));
    if i < j - 1 {
        earlier_chains(trace, i, j - 1);
    }
}

/// Nothing is done twice: a scan goes on with a later step of the source or with a
/// later source, so that each source is asked for, read, handed on and completed at
/// most once, and in that order.
pub proof fn steps_come_once(rules: Seq<SourceRules>, events: Seq<Event>, i: int, j: int)
    requires
        rules.len() <= usize::MAX,
        is_run(rules, events),
        0 <= i < j <= events.len(),
    ensures
        is_earlier(after(rules, events.take(i)), after(rules, events.take(j))),
{
    let trace = Seq::new((events.len() + 1) as nat, |k: int| after(rules, events.take(k)));
    assert forall|k: int| 0 < k < trace.len() implies is_earlier(trace[k - 1], #[trigger] trace[k]) by {
        event_goes_on(rules, events, k);
    }
    earlier_chains(trace, i, j);
}

/// Who fails on what is handed on, or on being told, ends the scan: nothing is asked
/// for, read, handed on or completed any more.
pub proof fn failing_ends_the_scan(rules: Seq<SourceRules>, events: Seq<Event>, more: Seq<Event>)
    requires
        rules.len() <= usize::MAX,
        events.len() > 0,
        ({
            let before = after(rules, events.drop_last()).step;
            ||| before is Emit && events.last() is EmitFailed
            ||| before is Complete && events.last() is CompleteFailed
        }),
    ensures
        after(rules, events).step is Failed,
        after(rules, events + more) == after(rules, events),
    decreases more.len(),
{
    sources_are_counted(rules, events.drop_last());
    if more.len() > 0 {
        failing_ends_the_scan(rules, events, more.drop_last());
        assert((events + more).drop_last() =~= events + more.drop_last());
    } else {
        assert(events + more =~= events);
    }
}

/// A source that is refused or cannot be read is left behind: whatever comes after,
/// the scan does not come back to it, so that nothing of it is handed on or completed.
pub proof fn refused_sources_are_left(rules: Seq<SourceRules>, events: Seq<Event>, more: Seq<Event>)
    requires
        rules.len() <= usize::MAX,
        events.len() > 0,
        ({
            let before = after(rules, events.drop_last()).step;
            ||| before is Ask && events.last() is Refused
            ||| before is Read && events.last() is Unreadable
        }),
    ensures
        after(rules, events + more).source > after(rules, events.drop_last()).source,
    decreases more.len(),
{
    sources_are_counted(rules, events.drop_last());
    if more.len() > 0 {
        refused_sources_are_left(rules, events, more.drop_last());
        assert((events + more).drop_last() =~= events + more.drop_last());
        sources_are_counted(rules, events + more.drop_last());
    } else {
        assert(events + more =~= events);
    }
}

/// A scan begins at its first source, and goes through the sources one by one: a source that
/// is wanted is read, what it makes is handed on, and it is completed where it can be and
/// its files stayed as they were; then, and wherever it is left, the next one follows.
pub proof fn sources_are_gone_through(rules: Seq<SourceRules>, at: Progress)
    requires
        at.source < rules.len() <= usize::MAX,
    ensures
        ({
            let rule = rules[at.source as int];
            let stays = |step: Step| Progress { source: at.source, step };
            let next = advanced(rules, stays(Step::Ask), Event::Refused);
            &&& at.step is Ask ==> advanced(rules, at, Event::Accepted) == stays(Step::Read)
            &&& at.step is Read ==> advanced(rules, at, Event::Found) == stays(Step::Emit)
            &&& at.step is Read ==> advanced(rules, at, Event::Unreadable) == next
            &&& at.step is Read && rule.bounded && rule.empty_completes ==> advanced(rules, at, Event::Empty) == stays(
                Step::Check(0),
            )
            &&& at.step is Read && !(rule.bounded && rule.empty_completes) ==> advanced(rules, at, Event::Empty) == next
            &&& at.step is Emit && rule.bounded ==> advanced(rules, at, Event::Emitted) == stays(Step::Check(1))
            &&& at.step is Emit && !rule.bounded ==> advanced(rules, at, Event::Emitted) == next
            &&& at.step is Check ==> advanced(rules, at, Event::Unchanged) == stays(Step::Complete(at.step->Check_0))
            &&& at.step is Check ==> advanced(rules, at, Event::Changed) == next
            &&& at.step is Complete ==> advanced(rules, at, Event::Completed) == next
            &&& next.source == at.source + 1
            &&& at.source + 1 < rules.len() && rules[at.source + 1].bounded ==> next.step is Ask
            &&& at.source + 1 < rules.len() && !rules[at.source + 1].bounded ==> next.step is Read
            &&& at.source + 1 == rules.len() ==> next.step is Done
        }),
        after(rules, Seq::empty()).source == 0,
        rules[0].bounded ==> after(rules, Seq::empty()).step is Ask,
        !rules[0].bounded ==> after(rules, Seq::empty()).step is Read,
{
}

} // verus!
