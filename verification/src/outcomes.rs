//! Laws of outcomes: what runs that were crashed and recovered, any number of
//! times, reply and return.

use vstd::prelude::*;

use crate::context::EngineError;
use crate::context::EngineErrorView;
use crate::crashes;
use crate::engine;
use crate::engine::Recovery;
use crate::engine::RunError;
use crate::engine::Workflow;
use crate::equivalence::DuplicateLast;
use crate::equivalence::Equivalence;
use crate::equivalence::ExactlyOnce;
use crate::equivalence::ReplayAll;
use crate::failpoints::Window;
use crate::journal::EventPayload;
use crate::journal::EventView;
use crate::journal::JournalStore;
use crate::laws;
use crate::model;
use crate::model::Act;
use crate::model::Effect;
use crate::model::RunState;
use crate::model::SleepPlan;
use crate::recovery;
use crate::recovery::Cmd;
use crate::recovery::Reply;

verus! {

/// Whether the reply of `cmd` is settled beforehand: a clock reading and a
/// draw are where `reading` and `source` are known.
pub open spec fn is_settled(cmd: Cmd, reading: Option<nat>, source: Option<Seq<u8>>) -> bool {
    match cmd {
        Cmd::Now => reading is Some,
        Cmd::Random => source is Some,
        _ => true,
    }
}

/// The settled reply of `cmd`.
pub open spec fn settled_reply(
    cmd: Cmd,
    reading: Option<nat>,
    source: Option<Seq<u8>>,
) -> Reply {
    match cmd {
        Cmd::Step { answer, .. } => Reply::Answer(answer),
        Cmd::Now => Reply::Instant(reading->0),
        Cmd::Random => Reply::Bytes(source->0),
        Cmd::Sleep { .. } => Reply::Woken,
    }
}

/// Each of `replies` to `cmds` that is settled is the settled one.
pub open spec fn replies_as_settled(
    cmds: Seq<Cmd>,
    replies: Seq<Reply>,
    reading: Option<nat>,
    source: Option<Seq<u8>>,
) -> bool {
    forall|i: int|
        0 <= i < replies.len() && is_settled(cmds[i], reading, source) ==> #[trigger] replies[i]
            == settled_reply(cmds[i], reading, source)
}

/// `event` records no other reading and no other draw than the settled one.
pub open spec fn event_agrees(
    event: EventView,
    reading: Option<nat>,
    source: Option<Seq<u8>>,
) -> bool {
    match event {
        EventView::NowRecorded { value, .. } => reading matches Some(known) ==> value == known,
        EventView::RandomRecorded { value, .. } => source matches Some(known) ==> value == known,
        _ => true,
    }
}

/// All of `events` record what is settled.
pub open spec fn agrees(
    events: Seq<EventView>,
    reading: Option<nat>,
    source: Option<Seq<u8>>,
) -> bool {
    forall|i: int| 0 <= i < events.len() ==> event_agrees(#[trigger] events[i], reading, source)
}

proof fn lemma_agrees_add(
    first: Seq<EventView>,
    second: Seq<EventView>,
    reading: Option<nat>,
    source: Option<Seq<u8>>,
)
    requires
        agrees(first, reading, source),
        agrees(second, reading, source),
    ensures
        agrees(first + second, reading, source),
{
    let all = first + second;
    assert forall|i: int| 0 <= i < all.len() implies event_agrees(
        #[trigger] all[i],
        reading,
        source,
    ) by {
        if i < first.len() {
            assert(all[i] == first[i]);
        } else {
            assert(all[i] == second[i - first.len()]);
        }
    }
}

/// The events after the record of a command are the last of all events.
proof fn lemma_rest_of_record(events: Seq<EventView>, cmd: Cmd, position: nat) -> (n: int)
    requires
        recovery::completed(events, cmd, position) is Some,
    ensures
        0 <= n <= events.len(),
        (recovery::completed(events, cmd, position)->0).1 == events.skip(n),
{
    match cmd {
        Cmd::Step { .. } => {
            let attempts = events.skip(1);
            let starts = model::leading_starts(attempts) as int;
            model::lemma_leading_starts_bound(attempts);
            assert(attempts.skip(starts).skip(1) =~= events.skip(starts + 2));
            starts + 2
        },
        Cmd::Sleep { .. } => 2,
        _ => 1,
    }
}

/// What is recorded is as it is settled.
proof fn lemma_recorded_settled(
    events: Seq<EventView>,
    cmds: Seq<Cmd>,
    position: nat,
    reading: Option<nat>,
    source: Option<Seq<u8>>,
)
    requires
        agrees(events, reading, source),
    ensures
        recovery::recorded(events, cmds, position).len() <= cmds.len(),
        replies_as_settled(cmds, recovery::recorded(events, cmds, position), reading, source),
    decreases cmds.len(),
{
    if cmds.len() > 0 {
        if let Some((reply, rest)) = recovery::completed(events, cmds[0], position) {
            let later = cmds.skip(1);
            let n = lemma_rest_of_record(events, cmds[0], position);
            assert forall|i: int| 0 <= i < rest.len() implies event_agrees(
                #[trigger] rest[i],
                reading,
                source,
            ) by {
                assert(rest[i] == events[n + i]);
            }
            lemma_recorded_settled(rest, later, position + 1, reading, source);
            assert(event_agrees(events[0], reading, source));
            let all = recovery::recorded(events, cmds, position);
            let further = recovery::recorded(rest, later, position + 1);
            assert(all == seq![reply] + further);
            assert forall|i: int|
                0 <= i < all.len() && is_settled(cmds[i], reading, source) implies #[trigger] all[i]
                == settled_reply(cmds[i], reading, source) by {
                if i > 0 {
                    assert(all[i] == further[i - 1]);
                    assert(cmds[i] == later[i - 1]);
                }
            }
        }
    }
}

/// Acts that record neither a reading nor a draw.
proof fn lemma_plain_acts(acts: Seq<Act>, reading: Option<nat>, source: Option<Seq<u8>>)
    requires
        forall|i: int|
            0 <= i < acts.len() ==> (#[trigger] acts[i] matches Act::Append(event) ==> event_agrees(
                event,
                reading,
                source,
            )),
    ensures
        agrees(laws::journaled_by(acts), reading, source),
    decreases acts.len(),
{
    if acts.len() > 0 {
        let earlier = acts.drop_last();
        assert forall|i: int| 0 <= i < earlier.len() implies (#[trigger] earlier[i] matches
            Act::Append(event) ==> event_agrees(event, reading, source)) by {
            assert(earlier[i] == acts[i]);
        }
        lemma_plain_acts(earlier, reading, source);
        assert(acts.last() == acts[acts.len() - 1]);
    }
}

/// Acts that record what is settled, on a store that does not fail.
proof fn lemma_acts_agree(
    start: RunState,
    acts: Seq<Act>,
    after: RunState,
    error: Option<EngineErrorView>,
)
    requires
        start.crash is None,
        laws::appends_command_events(acts),
        model::runs(start, acts, after, error),
        after.failures == start.failures,
        forall|i: int|
            0 <= i < acts.len() ==> (#[trigger] acts[i] matches Act::Append(event) ==> event_agrees(
                event,
                start.reading,
                start.source,
            )),
    ensures
        agrees(recovery::journaled(start, after), start.reading, start.source),
{
    match error {
        None => {
            laws::lemma_acts_evolve(start, acts);
            lemma_plain_acts(acts, start.reading, start.source);
            assert(recovery::journaled(start, after) =~= laws::journaled_by(acts));
        },
        Some(e) => {
            let n = choose|n: int|
                0 <= n < acts.len() && model::halts(
                    start.does_all(acts.take(n)),
                    #[trigger] acts[n],
                    after,
                    e,
                );
            laws::lemma_halt_evolves(start, acts, n, after, e);
            let done = acts.take(n);
            assert forall|i: int| 0 <= i < done.len() implies (#[trigger] done[i] matches
                Act::Append(event) ==> event_agrees(event, start.reading, start.source)) by {
                assert(done[i] == acts[i]);
            }
            lemma_plain_acts(done, start.reading, start.source);
            assert(recovery::journaled(start, after) =~= laws::journaled_by(done));
        },
    }
}

/// A command on a store that does not fail records what is settled.
proof fn lemma_command_agrees(
    cmd: Cmd,
    before: RunState,
    after: RunState,
    r: Result<Reply, EngineErrorView>,
)
    requires
        recovery::command_does(cmd, before, after, r),
        after.failures == before.failures,
    ensures
        agrees(recovery::journaled(before, after), before.reading, before.source),
{
    let start = before.live();
    if after.journal() == before.journal() {
        assert(recovery::journaled(before, after).len() == 0);
    } else {
        match cmd {
            Cmd::Step { name, .. } => {
                let result = recovery::step_result(r);
                let (answer, error) = laws::lemma_live_step(before, name, after, result);
                lemma_acts_agree(
                    start,
                    laws::live_step_acts(before, name, answer),
                    after,
                    error,
                );
            },
            Cmd::Now => {
                let result = recovery::now_result(r);
                let value = choose|value: nat|
                    {
                        &&& model::runs(
                            start,
                            #[trigger] model::now_acts(before.position, value),
                            after,
                            model::error_of(result),
                        )
                        &&& result is Ok ==> result == Ok::<nat, EngineErrorView>(value)
                    };
                let acts = model::now_acts(before.position, value);
                lemma_first_act_is_allowed(start, acts, after, model::error_of(result));
                lemma_acts_agree(start, acts, after, model::error_of(result));
            },
            Cmd::Random => {
                let result = recovery::random_result(r);
                let value = choose|value: Seq<u8>|
                    {
                        &&& model::runs(
                            start,
                            #[trigger] model::random_acts(before.position, value),
                            after,
                            model::error_of(result),
                        )
                        &&& result is Ok ==> result == Ok::<Seq<u8>, EngineErrorView>(value)
                    };
                let acts = model::random_acts(before.position, value);
                lemma_first_act_is_allowed(start, acts, after, model::error_of(result));
                lemma_acts_agree(start, acts, after, model::error_of(result));
            },
            Cmd::Sleep { deadline } => {
                let error = model::error_of(recovery::sleep_result(r));
                match model::plan_sleep(before.replay, before.position, deadline) {
                    SleepPlan::Rearm => {
                        lemma_acts_agree(
                            start,
                            model::rearm_acts(before.position, deadline),
                            after,
                            error,
                        );
                    },
                    _ => {
                        lemma_acts_agree(
                            start,
                            model::sleep_acts(before.position, deadline),
                            after,
                            error,
                        );
                    },
                }
            },
        }
    }
}

/// Of acts the first of which cannot fail, it is allowed.
proof fn lemma_first_act_is_allowed(
    start: RunState,
    acts: Seq<Act>,
    after: RunState,
    error: Option<EngineErrorView>,
)
    requires
        model::runs(start, acts, after, error),
        acts.len() > 0,
        acts[0] is Read || acts[0] is Draw,
    ensures
        start.allows(acts[0]),
{
    if let Some(e) = error {
        let n = choose|n: int|
            0 <= n < acts.len() && start.allows_all(acts.take(n)) && model::halts(
                start.does_all(acts.take(n)),
                #[trigger] acts[n],
                after,
                e,
            );
        assert(n > 0);
        assert(acts.take(n)[0] == acts[0]);
    }
}

/// A run of commands on a store that does not fail records what is settled.
proof fn lemma_program_agrees(
    cmds: Seq<Cmd>,
    before: RunState,
    replies: Seq<Reply>,
    after: RunState,
    error: Option<EngineErrorView>,
)
    requires
        recovery::program_does(cmds, before, replies, after, error),
        after.failures == before.failures,
    ensures
        agrees(recovery::journaled(before, after), before.reading, before.source),
    decreases cmds.len(),
{
    if cmds.len() == 0 {
        assert(recovery::journaled(before, after).len() == 0);
    } else {
        let (middle, r) = choose|middle: RunState, r: Result<Reply, EngineErrorView>| #[trigger]
            recovery::command_does(cmds[0], before, middle, r) && match r {
                Ok(reply) => {
                    &&& replies.len() > 0
                    &&& replies[0] == reply
                    &&& recovery::program_does(
                        cmds.skip(1),
                        middle,
                        replies.skip(1),
                        after,
                        error,
                    )
                },
                Err(e) => replies.len() == 0 && after == middle && error == Some(e),
            };
        recovery::commands_evolve(cmds[0], before, middle, r);
        if r is Ok {
            let later = cmds.skip(1);
            recovery::lemma_program_evolves(later, middle, replies.skip(1), after, error);
            assert(middle.failures =~= before.failures);
            lemma_command_agrees(cmds[0], before, middle, r);
            lemma_program_agrees(later, middle, replies.skip(1), after, error);
            recovery::lemma_stretches_add(before, middle, after);
            lemma_agrees_add(
                recovery::journaled(before, middle),
                recovery::journaled(middle, after),
                before.reading,
                before.source,
            );
        } else {
            lemma_command_agrees(cmds[0], before, middle, r);
        }
    }
}

/// A recovered run comes to the same results: every reply that was given
/// before the crash is given again, and every step gives what its closure
/// answers.
pub proof fn replies_survive_a_crash(
    cmds: Seq<Cmd>,
    first: RunState,
    given: Seq<Reply>,
    crashed: RunState,
    window: Window,
    before: RunState,
    replies: Seq<Reply>,
    after: RunState,
)
    requires
        crashes::run_over(
            cmds,
            Seq::empty(),
            first,
            given,
            crashed,
            Some(EngineErrorView::InjectedCrash(window)),
        ),
        crashes::run_over(cmds, recovery::journaled(first, crashed), before, replies, after, None),
    ensures
        given.is_prefix_of(replies),
        replies.len() == cmds.len(),
        replies_as_settled(cmds, replies, None, None),
{
    crashes::lemma_start(cmds);
    let error = Some(EngineErrorView::InjectedCrash(window));
    recovery::runs_continue_the_journal(cmds, first, given, crashed, error);
    let new = recovery::journaled(first, crashed);
    assert(Seq::<EventView>::empty() + new =~= new);
    recovery::runs_continue_the_journal(cmds, before, replies, after, None);
    let all = new + recovery::journaled(before, after);
    lemma_recorded_settled(all, cmds, 0, None, None);
    assert(given =~= replies.subrange(0, given.len() as int));
}

/// What a workflow asks for, step by step: its input and the replies so far
/// tell its next command, or that it is over, and then what it returns. It
/// may branch on any of them.
pub struct Program {
    /// The next command, `None` once the workflow is over.
    pub next: spec_fn(Seq<u8>, Seq<Reply>) -> Option<Cmd>,
    /// The output of a workflow that is over, `None` if it fails.
    pub output: spec_fn(Seq<u8>, Seq<Reply>) -> Option<Seq<u8>>,
}

/// A run of `program` over `input` that has had the replies `so_far`: it goes
/// on from `before` to `after`, has `replies` more, and ends there or is
/// stopped by `error`.
pub open spec fn follows(
    program: Program,
    input: Seq<u8>,
    so_far: Seq<Reply>,
    before: RunState,
    replies: Seq<Reply>,
    after: RunState,
    error: Option<EngineErrorView>,
) -> bool
    decreases replies.len(),
{
    match (program.next)(input, so_far) {
        None => replies.len() == 0 && after == before && error is None,
        Some(cmd) => exists|middle: RunState, r: Result<Reply, EngineErrorView>| #[trigger]
            recovery::command_does(cmd, before, middle, r) && match r {
                Ok(reply) => {
                    &&& replies.len() > 0
                    &&& replies[0] == reply
                    &&& follows(
                        program,
                        input,
                        so_far.push(reply),
                        middle,
                        replies.skip(1),
                        after,
                        error,
                    )
                },
                Err(e) => replies.len() == 0 && after == middle && error == Some(e),
            },
    }
}

/// The commands that a run of `program` asks for which has had the replies
/// `so_far` and has `replies` more: one for each of them, and one more if it
/// is `stopped` at it.
pub open spec fn asked(
    program: Program,
    input: Seq<u8>,
    so_far: Seq<Reply>,
    replies: Seq<Reply>,
    stopped: bool,
) -> Seq<Cmd> {
    Seq::new(
        if stopped {
            replies.len() + 1
        } else {
            replies.len()
        },
        |i: int| (program.next)(input, so_far + replies.take(i))->0,
    )
}

/// The commands that a run of `program` asks for which ends with `replies`.
pub open spec fn commands_of(
    program: Program,
    input: Seq<u8>,
    replies: Seq<Reply>,
) -> Seq<Cmd> {
    Seq::new(replies.len(), |i: int| (program.next)(input, replies.take(i))->0)
}

/// `replies` are all the replies to a run of `program`: each to a command
/// that it asked for, and after the last it is over.
pub open spec fn is_over(program: Program, input: Seq<u8>, replies: Seq<Reply>) -> bool {
    &&& (program.next)(input, replies) is None
    &&& forall|i: int|
        0 <= i < replies.len() ==> (program.next)(input, #[trigger] replies.take(i)) is Some
}

/// `workflow` does what `program` says, on any input and over any journal,
/// and stops at the first error of the engine.
pub open spec fn asks_for<S: JournalStore, W: Workflow<S>>(workflow: W, program: Program) -> bool {
    forall|
        input: Seq<u8>,
        before: RunState,
        after: RunState,
        result: Result<EventPayload, W::Error>,
    | #[trigger]
        workflow.outcome(input, before, after, result) ==> exists|
            replies: Seq<Reply>,
            error: Option<EngineErrorView>,
        | #[trigger]
            follows(program, input, Seq::empty(), before, replies, after, error) && comes_back(
                result,
                program,
                input,
                replies,
                error,
            )
}

/// What a workflow comes back with that was given `replies`, and was stopped
/// by `error` if at all.
pub open spec fn comes_back<E>(
    result: Result<EventPayload, E>,
    program: Program,
    input: Seq<u8>,
    replies: Seq<Reply>,
    error: Option<EngineErrorView>,
) -> bool {
    match error {
        None => output_of(result) == (program.output)(input, replies),
        Some(_) => result is Err,
    }
}

/// The output in `result`, `None` if it is a failure.
pub open spec fn output_of<E>(result: Result<EventPayload, E>) -> Option<Seq<u8>> {
    match result {
        Ok(output) => Some(output@),
        Err(_) => None,
    }
}

/// A run of a program is a run of the commands that it asks for.
proof fn lemma_follows(
    program: Program,
    input: Seq<u8>,
    so_far: Seq<Reply>,
    before: RunState,
    replies: Seq<Reply>,
    after: RunState,
    error: Option<EngineErrorView>,
)
    requires
        follows(program, input, so_far, before, replies, after, error),
    ensures
        recovery::program_does(
            asked(program, input, so_far, replies, error is Some),
            before,
            replies,
            after,
            error,
        ),
        forall|i: int|
            0 <= i < replies.len() ==> (program.next)(input, so_far + #[trigger] replies.take(i))
                is Some,
        error is Some ==> (program.next)(input, so_far + replies) is Some,
        error is None ==> (program.next)(input, so_far + replies) is None,
    decreases replies.len(),
{
    let cmds = asked(program, input, so_far, replies, error is Some);
    assert(so_far + replies.take(0) =~= so_far);
    match (program.next)(input, so_far) {
        None => {
            assert(so_far + replies =~= so_far);
            assert(cmds.len() == 0);
        },
        Some(cmd) => {
            let (middle, r) = choose|middle: RunState, r: Result<Reply, EngineErrorView>|
             #[trigger]
                recovery::command_does(cmd, before, middle, r) && match r {
                    Ok(reply) => {
                        &&& replies.len() > 0
                        &&& replies[0] == reply
                        &&& follows(
                            program,
                            input,
                            so_far.push(reply),
                            middle,
                            replies.skip(1),
                            after,
                            error,
                        )
                    },
                    Err(e) => replies.len() == 0 && after == middle && error == Some(e),
                };
            assert(cmds[0] == cmd);
            assert(recovery::command_does(cmds[0], before, middle, r));
            match r {
                Ok(reply) => {
                    let more = so_far.push(reply);
                    let later = replies.skip(1);
                    lemma_follows(program, input, more, middle, later, after, error);
                    assert forall|i: int| 0 < i <= replies.len() implies so_far
                        + #[trigger] replies.take(i) == more + later.take(i - 1) by {
                        assert(so_far + replies.take(i) =~= more + later.take(i - 1));
                    }
                    assert(so_far + replies =~= more + later);
                    assert(cmds.skip(1) =~= asked(program, input, more, later, error is Some));
                    assert forall|i: int| 0 <= i < replies.len() implies (program.next)(
                        input,
                        so_far + #[trigger] replies.take(i),
                    ) is Some by {
                        if i > 0 {
                            assert(so_far + replies.take(i) == more + later.take(i - 1));
                        }
                    }
                },
                Err(e) => {
                    assert(so_far + replies =~= so_far);
                },
            }
        },
    }
}

/// `events` were journaled by runs of `program` that got as far as `cmds`:
/// each of them is what it asks for after the replies recorded until then,
/// and all but perhaps the last of them are over.
pub open spec fn on_course(
    program: Program,
    input: Seq<u8>,
    events: Seq<EventView>,
    cmds: Seq<Cmd>,
) -> bool {
    let had = recovery::recorded(events, cmds, 0);
    &&& recovery::covered(events, cmds, 0)
    &&& cmds.len() <= had.len() + 1
    &&& forall|i: int|
        0 <= i < cmds.len() ==> (program.next)(input, had.take(i)) == Some(#[trigger] cmds[i])
}

/// A journal that can be continued by `cmds` can be continued by `cmds` and
/// more commands after them.
proof fn lemma_covered_extends(
    events: Seq<EventView>,
    cmds: Seq<Cmd>,
    all: Seq<Cmd>,
    position: nat,
)
    requires
        recovery::covered(events, cmds, position),
        cmds.is_prefix_of(all),
    ensures
        recovery::covered(events, all, position),
        recovery::recorded(events, all, position) == recovery::recorded(events, cmds, position),
    decreases cmds.len(),
{
    if cmds.len() == 0 {
        assert(events =~= Seq::<EventView>::empty());
        recovery::lemma_nothing_recorded(all, position);
    } else {
        assert(all[0] == cmds[0]);
        if let Some((_, rest)) = recovery::completed(events, cmds[0], position) {
            assert(cmds.skip(1) =~= all.skip(1).subrange(0, cmds.len() - 1));
            lemma_covered_extends(rest, cmds.skip(1), all.skip(1), position + 1);
        }
    }
}

/// A run of `cmds` that was stopped would have been stopped just so with more
/// commands to come.
proof fn lemma_stopped_extends(
    cmds: Seq<Cmd>,
    all: Seq<Cmd>,
    before: RunState,
    replies: Seq<Reply>,
    after: RunState,
    error: EngineErrorView,
)
    requires
        recovery::program_does(cmds, before, replies, after, Some(error)),
        cmds.is_prefix_of(all),
    ensures
        recovery::program_does(all, before, replies, after, Some(error)),
    decreases cmds.len(),
{
    assert(all[0] == cmds[0]);
    let (middle, r) = choose|middle: RunState, r: Result<Reply, EngineErrorView>| #[trigger]
        recovery::command_does(cmds[0], before, middle, r) && match r {
            Ok(reply) => {
                &&& replies.len() > 0
                &&& replies[0] == reply
                &&& recovery::program_does(
                    cmds.skip(1),
                    middle,
                    replies.skip(1),
                    after,
                    Some(error),
                )
            },
            Err(e) => replies.len() == 0 && after == middle && Some(error) == Some(e),
        };
    assert(recovery::command_does(all[0], before, middle, r));
    if r is Ok {
        assert(cmds.skip(1) =~= all.skip(1).subrange(0, cmds.len() - 1));
        lemma_stopped_extends(cmds.skip(1), all.skip(1), middle, replies.skip(1), after, error);
    }
}

/// A run of a program over a journal of its own asks for the commands of the
/// journal again, and is given the recorded replies again.
proof fn lemma_stays_on_course(
    program: Program,
    input: Seq<u8>,
    so_far: Seq<Reply>,
    cmds: Seq<Cmd>,
    before: RunState,
    replies: Seq<Reply>,
    after: RunState,
    error: Option<EngineErrorView>,
)
    requires
        before.crash is None,
        follows(program, input, so_far, before, replies, after, error),
        ({
            let had = recovery::recorded(recovery::left_to_replay(before), cmds, before.position);
            &&& cmds.len() <= had.len() + 1
            &&& forall|i: int|
                0 <= i < cmds.len() ==> (program.next)(input, so_far + had.take(i)) == Some(
                    #[trigger] cmds[i],
                )
        }),
    ensures
        recovery::recorded(
            recovery::left_to_replay(before),
            cmds,
            before.position,
        ).is_prefix_of(replies),
        cmds.is_prefix_of(asked(program, input, so_far, replies, error is Some)),
    decreases cmds.len(),
{
    let events = recovery::left_to_replay(before);
    let had = recovery::recorded(events, cmds, before.position);
    let list = asked(program, input, so_far, replies, error is Some);
    if cmds.len() == 0 {
        assert(had =~= replies.subrange(0, 0));
        assert(cmds =~= list.subrange(0, 0));
    } else {
        let cmd = cmds[0];
        assert(so_far + had.take(0) =~= so_far);
        assert((program.next)(input, so_far) == Some(cmd));
        let (middle, r) = choose|middle: RunState, r: Result<Reply, EngineErrorView>| #[trigger]
            recovery::command_does(cmd, before, middle, r) && match r {
                Ok(reply) => {
                    &&& replies.len() > 0
                    &&& replies[0] == reply
                    &&& follows(
                        program,
                        input,
                        so_far.push(reply),
                        middle,
                        replies.skip(1),
                        after,
                        error,
                    )
                },
                Err(e) => replies.len() == 0 && after == middle && error == Some(e),
            };
        assert(so_far + replies.take(0) =~= so_far);
        assert(list[0] == cmd);
        match recovery::completed(events, cmd, before.position) {
            None => {
                assert(had.len() == 0);
                assert(had =~= replies.subrange(0, 0));
                assert(cmds =~= list.subrange(0, 1));
            },
            Some((reply, rest)) => {
                recovery::recorded_replies_come_back(cmd, before, middle, r);
                let more = so_far.push(reply);
                let later = cmds.skip(1);
                let further = recovery::recorded(rest, later, before.position + 1);
                assert(had == seq![reply] + further);
                assert forall|i: int| 0 <= i < later.len() implies (program.next)(
                    input,
                    more + further.take(i),
                ) == Some(#[trigger] later[i]) by {
                    assert(later[i] == cmds[i + 1]);
                    assert(more + further.take(i) =~= so_far + had.take(i + 1));
                }
                let tail = replies.skip(1);
                lemma_stays_on_course(program, input, more, later, middle, tail, after, error);
                assert(replies =~= seq![reply] + tail);
                assert(had =~= replies.subrange(0, had.len() as int));
                let rest_list = asked(program, input, more, tail, error is Some);
                assert forall|i: int| 0 <= i < rest_list.len() implies list[i + 1]
                    == #[trigger] rest_list[i] by {
                    assert(so_far + replies.take(i + 1) =~= more + tail.take(i));
                }
                assert(cmds =~= list.subrange(0, cmds.len() as int)) by {
                    assert forall|i: int| 0 <= i < cmds.len() implies cmds[i] == list[i] by {
                        if i > 0 {
                            assert(cmds[i] == later[i - 1]);
                            assert(later[i - 1] == rest_list[i - 1]);
                        }
                    }
                }
            },
        }
    }
}

proof fn lemma_prefixes_add<A>(a: Seq<A>, b: Seq<A>, c: Seq<A>)
    requires
        a.is_prefix_of(b),
        b.is_prefix_of(c),
    ensures
        a.is_prefix_of(c),
{
    assert(a =~= c.subrange(0, a.len() as int));
}

/// `start` is the state in which an engine takes up an execution with this
/// `journal`, whose first event started it. The rest of the journal is to be
/// replayed.
pub open spec fn taken_up(
    start: RunState,
    journal: Seq<EventView>,
    reading: Option<nat>,
    source: Option<Seq<u8>>,
) -> bool {
    &&& start.position == 0
    &&& start.crash is None
    &&& start.effects.len() == 0
    &&& start.journal() == journal
    &&& recovery::left_to_replay(start) == journal.skip(1)
    &&& start.reading == reading
    &&& start.source == source
}

/// An engine takes up `journal` in the state `start`, and the run crashes at
/// `window` in the state `crashed`, on a store that does not fail.
pub open spec fn engine_run_crashes<S: JournalStore, W: Workflow<S>>(
    workflow: W,
    input: Seq<u8>,
    start: RunState,
    crashed: RunState,
    error: EngineError,
    window: Window,
) -> bool {
    &&& engine::finishes::<S, W>(workflow, input, start, crashed, Err(RunError::Engine(error)))
    &&& error@ == EngineErrorView::InjectedCrash(window)
    &&& crashed.failures == start.failures
}

/// Engine runs of `workflow` over `journal`, one after the other, each over
/// the journal that the one before it left, and each crashed at its window:
/// in the end the journal is `left`, and `effects` are the closures that ran.
pub open spec fn engine_runs_crash<S: JournalStore, W: Workflow<S>>(
    workflow: W,
    input: Seq<u8>,
    journal: Seq<EventView>,
    reading: Option<nat>,
    source: Option<Seq<u8>>,
    windows: Seq<Window>,
    left: Seq<EventView>,
    effects: Seq<Effect>,
) -> bool
    decreases windows.len(),
{
    if windows.len() == 0 {
        left == journal && effects.len() == 0
    } else {
        exists|start: RunState, crashed: RunState, error: EngineError|
            {
                &&& taken_up(start, journal, reading, source)
                &&& #[trigger] engine_run_crashes::<S, W>(
                    workflow,
                    input,
                    start,
                    crashed,
                    error,
                    windows[0],
                )
                &&& crashed.effects.is_prefix_of(effects)
                &&& engine_runs_crash::<S, W>(
                    workflow,
                    input,
                    crashed.journal(),
                    reading,
                    source,
                    windows.skip(1),
                    left,
                    effects.skip(crashed.effects.len() as int),
                )
            }
    }
}

/// A crashed engine run is a crashed run of commands that the workflow asks
/// for, and leaves a journal on which it is on course.
proof fn lemma_engine_run<S: JournalStore, W: Workflow<S>>(
    workflow: W,
    program: Program,
    input: Seq<u8>,
    journal: Seq<EventView>,
    cmds: Seq<Cmd>,
    start: RunState,
    crashed: RunState,
    error: EngineError,
    window: Window,
) -> (w: (Seq<Cmd>, Seq<Reply>))
    requires
        asks_for::<S, W>(workflow, program),
        journal.len() > 0,
        on_course(program, input, journal.skip(1), cmds),
        model::only_command_events(journal, 1),
        agrees(journal.skip(1), start.reading, start.source),
        taken_up(start, journal, start.reading, start.source),
        engine_run_crashes::<S, W>(workflow, input, start, crashed, error, window),
    ensures
        cmds.is_prefix_of(w.0),
        recovery::recorded(journal.skip(1), cmds, 0).is_prefix_of(
            recovery::recorded(crashed.journal().skip(1), w.0, 0),
        ),
        crashes::run_over(
            w.0,
            journal.skip(1),
            start,
            w.1,
            crashed,
            Some(EngineErrorView::InjectedCrash(window)),
        ),
        on_course(program, input, crashed.journal().skip(1), w.0),
        recovery::performed(start, crashed) == crashed.effects,
        crashed.journal().len() > 0,
        crashed.journal()[0] == journal[0],
        crashed.journal().skip(1) == journal.skip(1) + recovery::journaled(start, crashed),
        model::only_command_events(crashed.journal(), 1),
        agrees(crashed.journal().skip(1), start.reading, start.source),
{
    let none = Seq::<Reply>::empty();
    let events = journal.skip(1);
    let r = Err::<EventPayload, RunError<W::Error>>(RunError::Engine(error));
    let (ran, result) = choose|ran: RunState, result: Result<EventPayload, W::Error>|
        {
            &&& #[trigger] workflow.outcome(input, start, ran, result)
            &&& model::evolves(start, ran)
            &&& engine::ends(ran, result, crashed, r)
        };
    assert(ran == crashed);
    let (given, stopped) = choose|replies: Seq<Reply>, error: Option<EngineErrorView>| #[trigger]
        follows(program, input, none, start, replies, ran, error) && comes_back(
            result,
            program,
            input,
            replies,
            error,
        );
    let list = asked(program, input, none, given, stopped is Some);
    let had = recovery::recorded(events, cmds, 0);
    assert forall|i: int| 0 <= i < cmds.len() implies (program.next)(input, none + had.take(i))
        == Some(#[trigger] cmds[i]) by {
        assert(none + had.take(i) =~= had.take(i));
    }
    lemma_stays_on_course(program, input, none, cmds, start, given, ran, stopped);
    lemma_covered_extends(events, cmds, list, 0);
    lemma_follows(program, input, none, start, given, ran, stopped);
    recovery::runs_continue_the_journal(list, start, given, ran, stopped);
    assert(stopped == Some(EngineErrorView::InjectedCrash(window)));
    lemma_program_agrees(list, start, given, ran, stopped);
    let new = recovery::journaled(start, crashed);
    lemma_agrees_add(events, new, start.reading, start.source);
    assert(recovery::performed(start, crashed) =~= crashed.effects);
    assert(crashed.journal()[0] == journal[0]);
    assert(crashed.journal().skip(1) =~= events + new);
    assert forall|i: int| 1 <= i < crashed.journal().len() implies (
    #[trigger] crashed.journal()[i]).command_kind() is Some by {
        if i < journal.len() {
            assert(crashed.journal()[i] == journal[i]);
        }
    }
    let has = recovery::recorded(events + new, list, 0);
    assert forall|i: int| 0 <= i < list.len() implies (program.next)(input, has.take(i)) == Some(
        #[trigger] list[i],
    ) by {
        assert(has.take(i) =~= none + given.take(i));
        if i == given.len() {
            assert(none + given.take(i) =~= none + given);
        }
    }
    (list, given)
}

/// Crashed engine runs are crashed runs of the commands that the run asks for
/// which comes after them and is given `replies`.
proof fn lemma_engine_runs<S: JournalStore, W: Workflow<S>>(
    workflow: W,
    program: Program,
    input: Seq<u8>,
    journal: Seq<EventView>,
    cmds: Seq<Cmd>,
    reading: Option<nat>,
    source: Option<Seq<u8>>,
    windows: Seq<Window>,
    left: Seq<EventView>,
    effects: Seq<Effect>,
    restart: RunState,
    replies: Seq<Reply>,
    ran: RunState,
    stopped: Option<EngineErrorView>,
)
    requires
        asks_for::<S, W>(workflow, program),
        journal.len() > 0,
        on_course(program, input, journal.skip(1), cmds),
        model::only_command_events(journal, 1),
        agrees(journal.skip(1), reading, source),
        engine_runs_crash::<S, W>(
            workflow,
            input,
            journal,
            reading,
            source,
            windows,
            left,
            effects,
        ),
        taken_up(restart, left, reading, source),
        follows(program, input, Seq::empty(), restart, replies, ran, stopped),
    ensures
        ({
            let all = asked(program, input, Seq::empty(), replies, stopped is Some);
            &&& left.len() > 0
            &&& left[0] == journal[0]
            &&& cmds.is_prefix_of(all)
            &&& recovery::recorded(journal.skip(1), cmds, 0).is_prefix_of(replies)
            &&& crashes::crashed_runs(all, journal.skip(1), windows, left.skip(1), effects)
            &&& recovery::covered(left.skip(1), all, 0)
            &&& model::only_command_events(left, 1)
            &&& agrees(left.skip(1), reading, source)
        }),
    decreases windows.len(),
{
    let none = Seq::<Reply>::empty();
    let all = asked(program, input, none, replies, stopped is Some);
    let events = journal.skip(1);
    if windows.len() == 0 {
        let had = recovery::recorded(events, cmds, 0);
        assert forall|i: int| 0 <= i < cmds.len() implies (program.next)(
            input,
            none + had.take(i),
        ) == Some(#[trigger] cmds[i]) by {
            assert(none + had.take(i) =~= had.take(i));
        }
        lemma_stays_on_course(program, input, none, cmds, restart, replies, ran, stopped);
        lemma_covered_extends(events, cmds, all, 0);
    } else {
        let window = windows[0];
        let stop = EngineErrorView::InjectedCrash(window);
        let (start, crashed, error) = choose|start: RunState, crashed: RunState, error: EngineError|
            {
                &&& taken_up(start, journal, reading, source)
                &&& #[trigger] engine_run_crashes::<S, W>(
                    workflow,
                    input,
                    start,
                    crashed,
                    error,
                    windows[0],
                )
                &&& crashed.effects.is_prefix_of(effects)
                &&& engine_runs_crash::<S, W>(
                    workflow,
                    input,
                    crashed.journal(),
                    reading,
                    source,
                    windows.skip(1),
                    left,
                    effects.skip(crashed.effects.len() as int),
                )
            };
        let (list, given) = lemma_engine_run::<S, W>(
            workflow,
            program,
            input,
            journal,
            cmds,
            start,
            crashed,
            error,
            window,
        );
        lemma_engine_runs::<S, W>(
            workflow,
            program,
            input,
            crashed.journal(),
            list,
            reading,
            source,
            windows.skip(1),
            left,
            effects.skip(crashed.effects.len() as int),
            restart,
            replies,
            ran,
            stopped,
        );
        lemma_prefixes_add(cmds, list, all);
        lemma_prefixes_add(
            recovery::recorded(events, cmds, 0),
            recovery::recorded(crashed.journal().skip(1), list, 0),
            replies,
        );
        lemma_stopped_extends(list, all, start, given, crashed, stop);
        assert(crashes::run_over(all, events, start, given, crashed, Some(stop)));
    }
}

/// What comes of a run of `program` that went on where `events` left it and
/// ended with `replies`, after crashes at `windows`; `effects` are all the
/// closures that ran, and `output` is what it returned, `None` if it failed.
pub open spec fn survives(
    program: Program,
    input: Seq<u8>,
    events: Seq<EventView>,
    reading: Option<nat>,
    source: Option<Seq<u8>>,
    windows: Seq<Window>,
    effects: Seq<Effect>,
    output: Option<Seq<u8>>,
    replies: Seq<Reply>,
) -> bool {
    let cmds = commands_of(program, input, replies);
    let trace = crashes::trace_of(effects);
    let reference = crashes::reference_trace(cmds);
    &&& is_over(program, input, replies)
    &&& output == (program.output)(input, replies)
    &&& recovery::recorded(events, cmds, 0).is_prefix_of(replies)
    &&& replies_as_settled(cmds, replies, reading, source)
    &&& effects == crashes::effects_with_crashes(cmds, 0, windows)
    &&& (forall|i: int| 0 <= i < windows.len() ==> !(#[trigger] windows[i] is AfterSideEffect))
        ==> ExactlyOnce::holds(trace, reference)
    &&& windows.len() == 1 && loses_none_but_the_last(windows[0], cmds) ==> DuplicateLast::holds(
        trace,
        reference,
    )
    &&& reference.no_duplicates() ==> ReplayAll::holds(trace, reference)
}

/// A crash at `window` loses no effect that another of `cmds` comes after.
pub open spec fn loses_none_but_the_last(window: Window, cmds: Seq<Cmd>) -> bool {
    window matches Window::AfterSideEffect(k) ==> recovery::effects_of(
        cmds.skip(k as int + 1),
        k + 1,
    ).len() == 0
}

/// An engine run came to its end: the workflow succeeded or failed, on a
/// store that does not fail.
pub open spec fn engine_run_ends<S: JournalStore, W: Workflow<S>>(
    workflow: W,
    input: Seq<u8>,
    start: RunState,
    after: RunState,
    r: Result<EventPayload, RunError<W::Error>>,
) -> bool {
    &&& engine::finishes::<S, W>(workflow, input, start, after, r)
    &&& after.failures == start.failures
    &&& r is Ok || r matches Err(RunError::Workflow(_))
}

/// Engine runs that crash any number of times, and the recovery that follows
/// them over the same journal, together run what the workflow's commands run
/// with those crashes. Without a crash between a side effect and its record
/// that is every effect exactly once. `DuplicateLast` holds after one crash
/// that loses no effect but the last, and `ReplayAll` after any crashes if no
/// two effects are the same. The journal in between is that of an
/// execution still running, and the recovery takes up the rest of it. It
/// returns what the workflow makes of the replies, and everything that was
/// replied to before a crash is among them.
///
/// The workflow may branch on its input and on every reply. It stops at the
/// first error of the engine, and a step's closure answers alike whenever it
/// runs after the same replies.
pub proof fn engine_runs_survive_crashes<S: JournalStore, W: Workflow<S>>(
    workflow: W,
    program: Program,
    input: Seq<u8>,
    started: EventView,
    reading: Option<nat>,
    source: Option<Seq<u8>>,
    windows: Seq<Window>,
    left: Seq<EventView>,
    effects: Seq<Effect>,
    restart: RunState,
    after: RunState,
    r: Result<EventPayload, RunError<W::Error>>,
)
    requires
        asks_for::<S, W>(workflow, program),
        started matches EventView::ExecutionStarted { version, .. } && version
            == workflow.versioned(),
        engine_runs_crash::<S, W>(
            workflow,
            input,
            seq![started],
            reading,
            source,
            windows,
            left,
            effects,
        ),
        taken_up(restart, left, reading, source),
        engine_run_ends::<S, W>(workflow, input, restart, after, r),
    ensures
        engine::recovery(left, workflow.versioned()) == (Recovery::Running { rest: left.skip(1) }),
        exists|replies: Seq<Reply>| #[trigger]
            survives(
                program,
                input,
                left.skip(1),
                reading,
                source,
                windows,
                effects + after.effects,
                output_of(r),
                replies,
            ),
{
    let none = Seq::<Reply>::empty();
    let nothing = Seq::<EventView>::empty();
    let events = left.skip(1);
    let (ran, result) = choose|ran: RunState, result: Result<EventPayload, W::Error>|
        {
            &&& #[trigger] workflow.outcome(input, restart, ran, result)
            &&& model::evolves(restart, ran)
            &&& engine::ends(ran, result, after, r)
        };
    assert(ran.crash is None && ran.failures == after.failures && ran.effects == after.effects);
    let (replies, stopped) = choose|replies: Seq<Reply>, error: Option<EngineErrorView>| #[trigger]
        follows(program, input, none, restart, replies, ran, error) && comes_back(
            result,
            program,
            input,
            replies,
            error,
        );
    assert(seq![started].skip(1) =~= nothing);
    let first = Seq::<Cmd>::empty();
    recovery::lemma_nothing_recorded(first, 0);
    lemma_engine_runs::<S, W>(
        workflow,
        program,
        input,
        seq![started],
        first,
        reading,
        source,
        windows,
        left,
        effects,
        restart,
        replies,
        ran,
        stopped,
    );
    lemma_follows(program, input, none, restart, replies, ran, stopped);
    let cmds = commands_of(program, input, replies);
    let all = asked(program, input, none, replies, stopped is Some);
    recovery::runs_continue_the_journal(all, restart, replies, ran, stopped);
    assert(stopped is None);
    assert forall|i: int| 0 <= i <= replies.len() implies none + #[trigger] replies.take(i)
        == replies.take(i) by {
        assert(none + replies.take(i) =~= replies.take(i));
    }
    assert(none + replies =~= replies);
    assert(all =~= cmds);
    assert(is_over(program, input, replies));
    assert(crashes::run_over(cmds, events, restart, replies, ran, None));
    assert(recovery::performed(restart, ran) =~= after.effects);
    crashes::lemma_start(cmds);
    crashes::crashes_cost_only_lost_effects(
        cmds,
        nothing,
        windows,
        events,
        effects,
        restart,
        replies,
        ran,
    );
    assert(cmds.skip(0) =~= cmds);
    if forall|i: int| 0 <= i < windows.len() ==> !(#[trigger] windows[i] is AfterSideEffect) {
        crashes::exactly_once_without_lost_effects(
            cmds,
            windows,
            events,
            effects,
            restart,
            replies,
            ran,
        );
    }
    if windows.len() == 1 && loses_none_but_the_last(windows[0], cmds) {
        assert(windows =~= seq![windows[0]]);
        crashes::duplicate_last_survives_a_crash(
            cmds,
            windows[0],
            events,
            effects,
            restart,
            replies,
            ran,
        );
    }
    if crashes::reference_trace(cmds).no_duplicates() {
        crashes::replay_all_survives_any_crashes(
            cmds,
            windows,
            events,
            effects,
            restart,
            replies,
            ran,
        );
    }
    recovery::runs_continue_the_journal(cmds, restart, replies, ran, None);
    lemma_program_agrees(cmds, restart, replies, ran, None);
    lemma_agrees_add(events, recovery::journaled(restart, ran), reading, source);
    lemma_recorded_settled(
        events + recovery::journaled(restart, ran),
        cmds,
        0,
        reading,
        source,
    );
    assert(survives(
        program,
        input,
        events,
        reading,
        source,
        windows,
        effects + after.effects,
        output_of(r),
        replies,
    ));
}

/// Two runs of a program whose replies are all settled have the same replies.
proof fn lemma_settled_alike(
    program: Program,
    input: Seq<u8>,
    reading: Option<nat>,
    source: Option<Seq<u8>>,
    one: Seq<Reply>,
    other: Seq<Reply>,
    n: int,
)
    requires
        is_over(program, input, one),
        is_over(program, input, other),
        replies_as_settled(commands_of(program, input, one), one, reading, source),
        replies_as_settled(commands_of(program, input, other), other, reading, source),
        forall|so_far: Seq<Reply>|
            #[trigger] (program.next)(input, so_far) matches Some(cmd) ==> is_settled(
                cmd,
                reading,
                source,
            ),
        0 <= n <= one.len(),
    ensures
        n <= other.len(),
        one.take(n) == other.take(n),
    decreases n,
{
    if n == 0 {
        assert(one.take(0) =~= other.take(0));
    } else {
        lemma_settled_alike(program, input, reading, source, one, other, n - 1);
        assert((program.next)(input, one.take(n - 1)) is Some);
        if other.len() == n - 1 {
            assert(other.take(n - 1) =~= other);
        }
        assert(commands_of(program, input, one)[n - 1] == commands_of(program, input, other)[n
            - 1]);
        assert(one[n - 1] == other[n - 1]);
        assert(one.take(n) =~= one.take(n - 1).push(one[n - 1]));
        assert(other.take(n) =~= other.take(n - 1).push(other[n - 1]));
    }
}

/// A run that was crashed and recovered any number of times comes to what a
/// run without a crash comes to, if no reply is left to chance: the commands
/// are steps and timers, or read a clock and draw from a source that both
/// show the same all the time.
pub proof fn recovered_runs_return_the_undisturbed_output<S: JournalStore, W: Workflow<S>>(
    workflow: W,
    program: Program,
    input: Seq<u8>,
    started: EventView,
    reading: Option<nat>,
    source: Option<Seq<u8>>,
    windows: Seq<Window>,
    left: Seq<EventView>,
    effects: Seq<Effect>,
    restart: RunState,
    after: RunState,
    recovered: Result<EventPayload, RunError<W::Error>>,
    start: RunState,
    end: RunState,
    undisturbed: Result<EventPayload, RunError<W::Error>>,
)
    requires
        asks_for::<S, W>(workflow, program),
        forall|so_far: Seq<Reply>|
            #[trigger] (program.next)(input, so_far) matches Some(cmd) ==> is_settled(
                cmd,
                reading,
                source,
            ),
        started matches EventView::ExecutionStarted { version, .. } && version
            == workflow.versioned(),
        engine_runs_crash::<S, W>(
            workflow,
            input,
            seq![started],
            reading,
            source,
            windows,
            left,
            effects,
        ),
        taken_up(restart, left, reading, source),
        engine_run_ends::<S, W>(workflow, input, restart, after, recovered),
        taken_up(start, seq![started], reading, source),
        engine_run_ends::<S, W>(workflow, input, start, end, undisturbed),
    ensures
        output_of(recovered) == output_of(undisturbed),
{
    engine_runs_survive_crashes::<S, W>(
        workflow,
        program,
        input,
        started,
        reading,
        source,
        windows,
        left,
        effects,
        restart,
        after,
        recovered,
    );
    let none = Seq::<Effect>::empty();
    engine_runs_survive_crashes::<S, W>(
        workflow,
        program,
        input,
        started,
        reading,
        source,
        Seq::empty(),
        seq![started],
        none,
        start,
        end,
        undisturbed,
    );
    let one = choose|replies: Seq<Reply>| #[trigger]
        survives(
            program,
            input,
            left.skip(1),
            reading,
            source,
            windows,
            effects + after.effects,
            output_of(recovered),
            replies,
        );
    let other = choose|replies: Seq<Reply>| #[trigger]
        survives(
            program,
            input,
            seq![started].skip(1),
            reading,
            source,
            Seq::empty(),
            none + end.effects,
            output_of(undisturbed),
            replies,
        );
    lemma_settled_alike(program, input, reading, source, one, other, one.len() as int);
    lemma_settled_alike(program, input, reading, source, other, one, other.len() as int);
    assert(one.take(one.len() as int) =~= one);
    assert(other.take(other.len() as int) =~= other);
}

} // verus!
