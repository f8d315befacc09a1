//! Laws of single commands: what every command keeps, what replay gives back
//! of what a live command journaled, and what a crash leaves behind.

use vstd::prelude::*;

use crate::context::EngineErrorView;
use crate::failpoints;
use crate::failpoints::Window;
use crate::journal;
use crate::journal::EventView;
use crate::model;
use crate::model::Act;
use crate::model::Effect;
use crate::model::RunState;
use crate::model::SleepPlan;
use crate::model::StepPlan;
use crate::model::ValuePlan;
use crate::step::StepErrorView;
use crate::time::ClockCall;

verus! {

/// The events that `acts` append.
pub open spec fn journaled_by(acts: Seq<Act>) -> Seq<EventView>
    decreases acts.len(),
{
    if acts.len() == 0 {
        Seq::empty()
    } else {
        match acts.last() {
            Act::Append(event) => journaled_by(acts.drop_last()).push(event),
            _ => journaled_by(acts.drop_last()),
        }
    }
}

/// The runs of step closures among `acts`.
pub open spec fn performed_by(acts: Seq<Act>) -> Seq<Effect>
    decreases acts.len(),
{
    if acts.len() == 0 {
        Seq::empty()
    } else {
        match acts.last() {
            Act::Perform(effect) => performed_by(acts.drop_last()).push(effect),
            _ => performed_by(acts.drop_last()),
        }
    }
}

/// Every event that `acts` append belongs to a command.
pub open spec fn appends_command_events(acts: Seq<Act>) -> bool {
    forall|i: int| 0 <= i < acts.len() ==> is_command_act(#[trigger] acts[i])
}

/// An appended event belongs to a command.
pub open spec fn is_command_act(act: Act) -> bool {
    act matches Act::Append(event) ==> event.command_kind() is Some
}

/// A run evolves into itself.
pub proof fn evolving_is_reflexive(state: RunState)
    ensures
        model::evolves(state, state),
{
    assert(state.journal() =~= state.journal().subrange(0, state.journal().len() as int));
    assert(state.failures =~= state.failures.subrange(0, state.failures.len() as int));
    assert(state.consulted =~= state.consulted.subrange(0, state.consulted.len() as int));
    assert(state.clock =~= state.clock.subrange(0, state.clock.len() as int));
    assert(state.draws =~= state.draws.subrange(0, state.draws.len() as int));
    assert(state.effects =~= state.effects.subrange(0, state.effects.len() as int));
}

proof fn lemma_prefix_transitive<A>(a: Seq<A>, b: Seq<A>, c: Seq<A>)
    requires
        a.is_prefix_of(b),
        b.is_prefix_of(c),
    ensures
        a.is_prefix_of(c),
{
    assert(a =~= c.subrange(0, a.len() as int));
}

proof fn lemma_prefix_push<A>(a: Seq<A>, x: A)
    ensures
        a.is_prefix_of(a.push(x)),
        a.is_prefix_of(a),
{
    assert(a =~= a.push(x).subrange(0, a.len() as int));
    assert(a =~= a.subrange(0, a.len() as int));
}

/// What holds of two stretches of a run holds of the whole: commands can be
/// strung together.
pub proof fn evolving_is_transitive(first: RunState, second: RunState, third: RunState)
    requires
        model::evolves(first, second),
        model::evolves(second, third),
    ensures
        model::evolves(first, third),
{
    lemma_prefix_transitive(first.journal(), second.journal(), third.journal());
    lemma_prefix_transitive(first.failures, second.failures, third.failures);
    lemma_prefix_transitive(first.consulted, second.consulted, third.consulted);
    lemma_prefix_transitive(first.clock, second.clock, third.clock);
    lemma_prefix_transitive(first.draws, second.draws, third.draws);
    lemma_prefix_transitive(first.effects, second.effects, third.effects);
    assert forall|i: int| first.journal().len() <= i < third.journal().len() implies (
    #[trigger] third.journal()[i]).command_kind() is Some by {
        if i < second.journal().len() {
            assert(third.journal()[i] == second.journal()[i]);
        }
    }
}

/// An act that succeeds.
proof fn lemma_act_evolves(before: RunState, act: Act)
    requires
        before.crash is None,
        is_command_act(act),
    ensures
        model::evolves(before, before.does(act)),
        before.does(act).crash is None,
        before.does(act).failures == before.failures,
        before.does(act).position == before.position,
        before.does(act).replay == before.replay,
        before.does(act).journal() == before.journal() + journaled_by(seq![act]),
        before.does(act).effects == before.effects + performed_by(seq![act]),
{
    evolving_is_reflexive(before);
    let after = before.does(act);
    let single = seq![act];
    assert(single.drop_last() =~= Seq::<Act>::empty());
    reveal_with_fuel(journaled_by, 2);
    reveal_with_fuel(performed_by, 2);
    match act {
        Act::Consult(window) => {
            lemma_prefix_push(before.consulted, after.consulted.last());
        },
        Act::Append(event) => {
            lemma_prefix_push(before.journal(), event);
            assert(after.journals.remove(after.execution) =~= before.journals.remove(
                before.execution,
            ));
        },
        Act::Read(instant) => {
            lemma_prefix_push(before.clock, after.clock.last());
        },
        Act::Draw(bytes) => {
            lemma_prefix_push(before.draws, bytes);
        },
        Act::Wait(deadline) => {
            lemma_prefix_push(before.clock, after.clock.last());
        },
        Act::Perform(effect) => {
            lemma_prefix_push(before.effects, effect);
        },
    }
    assert(after.journal() =~= before.journal() + journaled_by(single));
    assert(after.effects =~= before.effects + performed_by(single));
}

/// Acts that succeed.
pub proof fn lemma_acts_evolve(before: RunState, acts: Seq<Act>)
    requires
        before.crash is None,
        appends_command_events(acts),
    ensures
        model::evolves(before, before.does_all(acts)),
        before.does_all(acts).crash is None,
        before.does_all(acts).failures == before.failures,
        before.does_all(acts).position == before.position,
        before.does_all(acts).replay == before.replay,
        before.does_all(acts).journal() == before.journal() + journaled_by(acts),
        before.does_all(acts).effects == before.effects + performed_by(acts),
    decreases acts.len(),
{
    if acts.len() == 0 {
        evolving_is_reflexive(before);
        assert(before.journal() + journaled_by(acts) =~= before.journal());
        assert(before.effects + performed_by(acts) =~= before.effects);
    } else {
        let earlier = acts.drop_last();
        let middle = before.does_all(earlier);
        assert forall|i: int| 0 <= i < earlier.len() implies is_command_act(
            #[trigger] earlier[i],
        ) by {
            assert(earlier[i] == acts[i]);
        }
        assert(is_command_act(acts[acts.len() - 1]));
        lemma_acts_evolve(before, earlier);
        lemma_act_evolves(middle, acts.last());
        evolving_is_transitive(before, middle, middle.does(acts.last()));
        let single = seq![acts.last()];
        assert(single.drop_last() =~= Seq::<Act>::empty());
        reveal_with_fuel(journaled_by, 2);
        reveal_with_fuel(performed_by, 2);
        assert(before.journal() + journaled_by(earlier) + journaled_by(single) =~= before.journal()
            + journaled_by(acts));
        assert(before.effects + performed_by(earlier) + performed_by(single) =~= before.effects
            + performed_by(acts));
    }
}

/// A run of acts that halts at its `n`-th act did the acts before it; a
/// crash adds nothing to them, a store failure is noted.
pub proof fn lemma_halt_evolves(
    before: RunState,
    acts: Seq<Act>,
    n: int,
    after: RunState,
    error: EngineErrorView,
)
    requires
        before.crash is None,
        appends_command_events(acts),
        0 <= n < acts.len(),
        model::halts(before.does_all(acts.take(n)), acts[n], after, error),
    ensures
        model::evolves(before, after),
        after.position == before.position,
        after.replay == before.replay,
        after.effects == before.effects + performed_by(acts.take(n)),
        match error {
            EngineErrorView::InjectedCrash(window) => {
                &&& before.armed
                &&& acts[n] == Act::Consult(window)
                &&& after.crash == Some(window)
                &&& after.failures == before.failures
                &&& after.journal() == before.journal() + journaled_by(acts.take(n))
            },
            EngineErrorView::Journal(fault) => {
                &&& before.fallible
                &&& after.crash is None
                &&& after.failures == before.failures.push(fault)
            },
            _ => false,
        },
{
    let middle = before.does_all(acts.take(n));
    assert forall|i: int| 0 <= i < n implies is_command_act(#[trigger] acts.take(n)[i]) by {
        assert(acts.take(n)[i] == acts[i]);
    }
    assert(is_command_act(acts[n]));
    lemma_acts_evolve(before, acts.take(n));
    evolving_is_reflexive(middle);
    match acts[n] {
        Act::Consult(window) => {
            lemma_prefix_push(middle.consulted, after.consulted.last());
            assert(model::evolves(middle, after));
        },
        Act::Append(event) => {
            lemma_act_evolves(middle, acts[n]);
            lemma_prefix_push(middle.failures, after.failures.last());
            let failed = RunState { failures: after.failures, ..middle };
            assert(failed.does(acts[n]).journals == middle.does(acts[n]).journals);
            assert(model::evolves(middle, after));
        },
        _ => {},
    }
    evolving_is_transitive(before, middle, after);
}

/// Acts that are done in order, whether they all succeed or not.
pub proof fn lemma_runs_evolve(
    before: RunState,
    acts: Seq<Act>,
    after: RunState,
    error: Option<EngineErrorView>,
)
    requires
        before.crash is None,
        appends_command_events(acts),
        model::runs(before, acts, after, error),
    ensures
        model::evolves(before, after),
        after.position == before.position,
        after.replay == before.replay,
        error is Some ==> before.armed || before.fallible,
        error matches Some(EngineErrorView::InjectedCrash(window)) ==> before.armed,
{
    match error {
        None => {
            lemma_acts_evolve(before, acts);
        },
        Some(e) => {
            let n = choose|n: int|
                0 <= n < acts.len() && model::halts(
                    before.does_all(acts.take(n)),
                    #[trigger] acts[n],
                    after,
                    e,
                );
            lemma_halt_evolves(before, acts, n, after, e);
        },
    }
}

/// Taking up a command.
proof fn lemma_taken_up_evolves(before: RunState, replay: Option<Seq<EventView>>)
    requires
        before.crash is None,
    ensures
        model::evolves(before, RunState { position: before.position + 1, replay, ..before }),
{
    evolving_is_reflexive(before);
}

/// Every clock reading keeps what all commands keep. Without failpoints and
/// on a store that does not fail, only a divergence from the journal makes it
/// fail.
pub proof fn now_evolves(
    before: RunState,
    after: RunState,
    r: Result<nat, EngineErrorView>,
)
    requires
        model::now_does(before, after, r),
    ensures
        model::evolves(before, after),
        before.crash is None ==> after.position == before.position + 1,
        before.crash is None && !before.armed && !before.fallible && model::plan_now(
            before.replay,
            before.position,
        ) is Live ==> r is Ok,
{
    if before.crash is Some {
        evolving_is_reflexive(before);
    } else {
        match model::plan_now(before.replay, before.position) {
            ValuePlan::Recorded { result, rest } => {
                lemma_taken_up_evolves(before, Some(rest));
            },
            ValuePlan::Live => {
                let value = choose|value: nat|
                    {
                        &&& model::runs(
                            before.live(),
                            #[trigger] model::now_acts(before.position, value),
                            after,
                            model::error_of(r),
                        )
                        &&& r is Ok ==> r == Ok::<nat, EngineErrorView>(value)
                    };
                lemma_taken_up_evolves(before, None);
                lemma_runs_evolve(
                    before.live(),
                    model::now_acts(before.position, value),
                    after,
                    model::error_of(r),
                );
                evolving_is_transitive(before, before.live(), after);
            },
        }
    }
}

/// Every draw keeps what all commands keep. Without failpoints and on a
/// store that does not fail, only a divergence from the journal makes it
/// fail.
pub proof fn random_evolves(
    before: RunState,
    after: RunState,
    r: Result<Seq<u8>, EngineErrorView>,
)
    requires
        model::random_does(before, after, r),
    ensures
        model::evolves(before, after),
        before.crash is None ==> after.position == before.position + 1,
        before.crash is None && !before.armed && !before.fallible && model::plan_random(
            before.replay,
            before.position,
        ) is Live ==> r is Ok,
{
    if before.crash is Some {
        evolving_is_reflexive(before);
    } else {
        match model::plan_random(before.replay, before.position) {
            ValuePlan::Recorded { result, rest } => {
                lemma_taken_up_evolves(before, Some(rest));
            },
            ValuePlan::Live => {
                let value = choose|value: Seq<u8>|
                    {
                        &&& model::runs(
                            before.live(),
                            #[trigger] model::random_acts(before.position, value),
                            after,
                            model::error_of(r),
                        )
                        &&& r is Ok ==> r == Ok::<Seq<u8>, EngineErrorView>(value)
                    };
                lemma_taken_up_evolves(before, None);
                lemma_runs_evolve(
                    before.live(),
                    model::random_acts(before.position, value),
                    after,
                    model::error_of(r),
                );
                evolving_is_transitive(before, before.live(), after);
            },
        }
    }
}

/// Every timer keeps what all commands keep. Without failpoints and on a
/// store that does not fail, only a divergence from the journal makes it
/// fail.
pub proof fn sleep_evolves(
    before: RunState,
    deadline: nat,
    after: RunState,
    r: Result<(), EngineErrorView>,
)
    requires
        model::sleep_does(before, deadline, after, r),
    ensures
        model::evolves(before, after),
        before.crash is None ==> after.position == before.position + 1,
        before.crash is None && !before.armed && !before.fallible && !(model::plan_sleep(
            before.replay,
            before.position,
            deadline,
        ) is Recorded) ==> r is Ok,
{
    if before.crash is Some {
        evolving_is_reflexive(before);
    } else {
        match model::plan_sleep(before.replay, before.position, deadline) {
            SleepPlan::Recorded { result, rest } => {
                lemma_taken_up_evolves(before, Some(rest));
            },
            SleepPlan::Rearm => {
                lemma_taken_up_evolves(before, None);
                lemma_runs_evolve(
                    before.live(),
                    model::rearm_acts(before.position, deadline),
                    after,
                    model::error_of(r),
                );
                evolving_is_transitive(before, before.live(), after);
            },
            SleepPlan::Fresh => {
                lemma_taken_up_evolves(before, None);
                lemma_runs_evolve(
                    before.live(),
                    model::sleep_acts(before.position, deadline),
                    after,
                    model::error_of(r),
                );
                evolving_is_transitive(before, before.live(), after);
            },
        }
    }
}

/// The acts that the step `name` consists of where it runs live.
pub open spec fn live_step_acts(
    before: RunState,
    name: Seq<char>,
    answer: Result<Seq<u8>, Seq<char>>,
) -> Seq<Act> {
    match model::plan_step(before.replay, before.position, name) {
        StepPlan::Retry { attempt } => model::attempt_acts(
            before.position,
            name,
            attempt,
            answer,
        ),
        _ => model::schedule_acts(before.position, name) + model::attempt_acts(
            before.position,
            name,
            1,
            answer,
        ),
    }
}

/// A step that runs live does its acts.
pub proof fn lemma_live_step(
    before: RunState,
    name: Seq<char>,
    after: RunState,
    r: Result<Seq<u8>, StepErrorView>,
) -> (w: (Result<Seq<u8>, Seq<char>>, Option<EngineErrorView>))
    requires
        model::step_does(before, name, after, r),
        model::step_is_live(before, name),
    ensures
        model::runs(before.live(), live_step_acts(before, name, w.0), after, w.1),
        r == model::step_return(w.0, w.1),
{
    let answer = match model::plan_step(before.replay, before.position, name) {
        StepPlan::Retry { attempt } => choose|answer: Result<Seq<u8>, Seq<char>>|
            model::step_runs(
                before.live(),
                #[trigger] model::attempt_acts(before.position, name, attempt, answer),
                answer,
                after,
                r,
            ),
        _ => choose|answer: Result<Seq<u8>, Seq<char>>|
            model::step_runs(
                before.live(),
                model::schedule_acts(before.position, name) + #[trigger] model::attempt_acts(
                    before.position,
                    name,
                    1,
                    answer,
                ),
                answer,
                after,
                r,
            ),
    };
    let acts = live_step_acts(before, name, answer);
    assert(model::step_runs(before.live(), acts, answer, after, r));
    let error = choose|error: Option<EngineErrorView>| #[trigger]
        model::runs(before.live(), acts, after, error) && r == model::step_return(answer, error);
    (answer, error)
}

/// Every step keeps what all commands keep. Without failpoints and on a
/// store that does not fail, the engine fails only by a divergence from the
/// journal.
pub proof fn step_evolves(
    before: RunState,
    name: Seq<char>,
    after: RunState,
    r: Result<Seq<u8>, StepErrorView>,
)
    requires
        model::step_does(before, name, after, r),
    ensures
        model::evolves(before, after),
        before.crash is None ==> after.position == before.position + 1,
        model::step_is_live(before, name) && !before.armed && !before.fallible ==> !(r matches Err(
            StepErrorView::Engine(_),
        )),
{
    if before.crash is Some {
        evolving_is_reflexive(before);
    } else if model::step_is_live(before, name) {
        let (answer, error) = lemma_live_step(before, name, after, r);
        lemma_taken_up_evolves(before, None);
        lemma_runs_evolve(before.live(), live_step_acts(before, name, answer), after, error);
        evolving_is_transitive(before, before.live(), after);
    } else {
        match model::plan_step(before.replay, before.position, name) {
            StepPlan::Recorded { result, rest } => {
                lemma_taken_up_evolves(before, Some(rest));
            },
            _ => {},
        }
    }
}

/// The only wait of a timer is for its own deadline, however late it is
/// asked for: a restart does not start the wait over.
pub proof fn timers_wait_for_their_deadline(
    before: RunState,
    deadline: nat,
    after: RunState,
    r: Result<(), EngineErrorView>,
)
    requires
        model::sleep_does(before, deadline, after, r),
    ensures
        after.clock == before.clock || after.clock == before.clock.push(
            ClockCall::SleepUntil(deadline),
        ),
        r is Ok && !(model::plan_sleep(before.replay, before.position, deadline) is Recorded)
            ==> after.clock == before.clock.push(ClockCall::SleepUntil(deadline)),
{
    if before.crash is None {
        let error = model::error_of(r);
        match model::plan_sleep(before.replay, before.position, deadline) {
            SleepPlan::Recorded { .. } => {},
            SleepPlan::Rearm => {
                lemma_one_wait(
                    before.live(),
                    model::rearm_acts(before.position, deadline),
                    0,
                    deadline,
                    after,
                    error,
                );
            },
            SleepPlan::Fresh => {
                lemma_one_wait(
                    before.live(),
                    model::sleep_acts(before.position, deadline),
                    2,
                    deadline,
                    after,
                    error,
                );
            },
        }
    }
}

proof fn lemma_clock_of_acts(before: RunState, acts: Seq<Act>, at: int, deadline: nat)
    requires
        0 <= at,
        at < acts.len() ==> acts[at] == Act::Wait(deadline),
        forall|i: int|
            0 <= i < acts.len() && i != at ==> (#[trigger] acts[i] is Append || acts[i]
                is Consult),
    ensures
        before.does_all(acts).clock == if at < acts.len() {
            before.clock.push(ClockCall::SleepUntil(deadline))
        } else {
            before.clock
        },
    decreases acts.len(),
{
    if acts.len() > 0 {
        let earlier = acts.drop_last();
        assert forall|i: int| 0 <= i < earlier.len() && i != at implies (#[trigger] earlier[i]
            is Append || earlier[i] is Consult) by {
            assert(earlier[i] == acts[i]);
        }
        lemma_clock_of_acts(before, earlier, at, deadline);
        assert(acts.last() == acts[acts.len() - 1]);
    }
}

proof fn lemma_one_wait(
    before: RunState,
    acts: Seq<Act>,
    at: int,
    deadline: nat,
    after: RunState,
    error: Option<EngineErrorView>,
)
    requires
        model::runs(before, acts, after, error),
        0 <= at < acts.len(),
        acts[at] == Act::Wait(deadline),
        forall|i: int|
            0 <= i < acts.len() && i != at ==> (#[trigger] acts[i] is Append || acts[i]
                is Consult),
    ensures
        after.clock == before.clock || after.clock == before.clock.push(
            ClockCall::SleepUntil(deadline),
        ),
        error is None ==> after.clock == before.clock.push(ClockCall::SleepUntil(deadline)),
{
    match error {
        None => {
            lemma_clock_of_acts(before, acts, at, deadline);
        },
        Some(e) => {
            let n = choose|n: int|
                0 <= n < acts.len() && model::halts(
                    before.does_all(acts.take(n)),
                    #[trigger] acts[n],
                    after,
                    e,
                );
            lemma_clock_of_acts(before, acts.take(n), at, deadline);
        },
    }
}

/// Attempts accumulate: a step whose journal ends in a number of started
/// attempts is tried again as the next attempt.
pub proof fn attempts_accumulate(seq: nat, name: Seq<char>, starts: Seq<EventView>)
    requires
        forall|i: int| 0 <= i < starts.len() ==> #[trigger] starts[i] is StepStarted,
    ensures
        model::plan_step(
            Some(seq![EventView::StepScheduled { seq, name }] + starts),
            seq,
            name,
        ) == (StepPlan::Retry { attempt: starts.len() + 1 }),
{
    let events = seq![EventView::StepScheduled { seq, name }] + starts;
    assert(events.skip(1) =~= starts);
    lemma_all_starts(starts);
    assert(starts.skip(starts.len() as int) =~= Seq::<EventView>::empty());
}

proof fn lemma_all_starts(starts: Seq<EventView>)
    requires
        forall|i: int| 0 <= i < starts.len() ==> #[trigger] starts[i] is StepStarted,
    ensures
        model::leading_starts(starts) == starts.len(),
    decreases starts.len(),
{
    if starts.len() > 0 {
        let later = starts.skip(1);
        assert forall|i: int| 0 <= i < later.len() implies #[trigger] later[i] is StepStarted by {
            assert(later[i] == starts[i + 1]);
        }
        lemma_all_starts(later);
    }
}

/// A retry does not schedule its step again: a second `StepScheduled` at the
/// same position would make every later replay ambiguous.
pub proof fn retries_do_not_reschedule(
    before: RunState,
    name: Seq<char>,
    after: RunState,
    r: Result<Seq<u8>, StepErrorView>,
)
    requires
        before.crash is None,
        model::plan_step(before.replay, before.position, name) is Retry,
        model::step_does(before, name, after, r),
    ensures
        forall|i: int|
            before.journal().len() <= i < after.journal().len() ==> !(#[trigger] after.journal()[i]
                is StepScheduled),
{
    let (answer, error) = lemma_live_step(before, name, after, r);
    let acts = live_step_acts(before, name, answer);
    let start = before.live();
    match error {
        None => {
            lemma_acts_evolve(start, acts);
            lemma_no_schedule(acts);
        },
        Some(e) => {
            let n = choose|n: int|
                0 <= n < acts.len() && model::halts(
                    start.does_all(acts.take(n)),
                    #[trigger] acts[n],
                    after,
                    e,
                );
            let done = acts.take(n);
            assert forall|i: int| 0 <= i < done.len() implies !(#[trigger] done[i] matches
                Act::Append(EventView::StepScheduled { .. })) && is_command_act(done[i]) by {
                assert(done[i] == acts[i]);
            }
            lemma_acts_evolve(start, done);
            lemma_no_schedule(done);
            let middle = start.does_all(done);
            if let Act::Append(event) = acts[n] {
                assert(after.journal() == middle.journal() || after.journal()
                    == middle.journal().push(event));
            }
        },
    }
}

proof fn lemma_no_schedule(acts: Seq<Act>)
    requires
        forall|i: int|
            0 <= i < acts.len() ==> !(#[trigger] acts[i] matches Act::Append(
                EventView::StepScheduled { .. },
            )),
    ensures
        forall|i: int|
            0 <= i < journaled_by(acts).len() ==> !(#[trigger] journaled_by(acts)[i]
                is StepScheduled),
    decreases acts.len(),
{
    if acts.len() > 0 {
        let earlier = acts.drop_last();
        assert forall|i: int| 0 <= i < earlier.len() implies !(#[trigger] earlier[i] matches
            Act::Append(EventView::StepScheduled { .. })) by {
            assert(earlier[i] == acts[i]);
        }
        lemma_no_schedule(earlier);
        assert(acts.last() == acts[acts.len() - 1]);
    }
}

/// A live reading of a clock whose reading is settled shows it, and journals
/// it.
pub proof fn settled_clocks_are_read(
    before: RunState,
    after: RunState,
    r: Result<nat, EngineErrorView>,
    instant: nat,
)
    requires
        model::now_does(before, after, r),
        before.crash is None,
        model::plan_now(before.replay, before.position) is Live,
        !before.fallible,
        before.reading == Some(instant),
    ensures
        r == Ok::<nat, EngineErrorView>(instant),
        after == before.live().does_all(model::now_acts(before.position, instant)),
        after.journal() == before.journal().push(
            EventView::NowRecorded { seq: before.position, value: instant },
        ),
{
    let value = choose|value: nat|
        {
            &&& model::runs(
                before.live(),
                #[trigger] model::now_acts(before.position, value),
                after,
                model::error_of(r),
            )
            &&& r is Ok ==> r == Ok::<nat, EngineErrorView>(value)
        };
    let acts = model::now_acts(before.position, value);
    if let Err(error) = r {
        let n = choose|n: int|
            0 <= n < acts.len() && model::halts(
                before.live().does_all(acts.take(n)),
                #[trigger] acts[n],
                after,
                error,
            );
        lemma_halt_evolves(before.live(), acts, n, after, error);
        assert(n == 0 || n == 1);
    }
    assert(before.live().allows(acts[0]));
    lemma_acts_evolve(before.live(), acts);
    assert(acts.drop_last() =~= seq![Act::Read(value)]);
    assert(acts.drop_last().drop_last() =~= Seq::<Act>::empty());
    reveal_with_fuel(journaled_by, 3);
    assert(after.journal() =~= before.journal().push(
        EventView::NowRecorded { seq: before.position, value },
    ));
}

/// A live draw from a source whose bytes are settled gives them, and journals
/// them.
pub proof fn settled_sources_are_drawn(
    before: RunState,
    after: RunState,
    r: Result<Seq<u8>, EngineErrorView>,
    bytes: Seq<u8>,
)
    requires
        model::random_does(before, after, r),
        before.crash is None,
        model::plan_random(before.replay, before.position) is Live,
        !before.fallible,
        before.source == Some(bytes),
    ensures
        r == Ok::<Seq<u8>, EngineErrorView>(bytes),
        after == before.live().does_all(model::random_acts(before.position, bytes)),
        after.journal() == before.journal().push(
            EventView::RandomRecorded { seq: before.position, value: bytes },
        ),
{
    let value = choose|value: Seq<u8>|
        {
            &&& model::runs(
                before.live(),
                #[trigger] model::random_acts(before.position, value),
                after,
                model::error_of(r),
            )
            &&& r is Ok ==> r == Ok::<Seq<u8>, EngineErrorView>(value)
        };
    let acts = model::random_acts(before.position, value);
    if let Err(error) = r {
        let n = choose|n: int|
            0 <= n < acts.len() && model::halts(
                before.live().does_all(acts.take(n)),
                #[trigger] acts[n],
                after,
                error,
            );
        lemma_halt_evolves(before.live(), acts, n, after, error);
        assert(n == 0 || n == 1);
    }
    assert(before.live().allows(acts[0]));
    lemma_acts_evolve(before.live(), acts);
    assert(acts.drop_last() =~= seq![Act::Draw(value)]);
    assert(acts.drop_last().drop_last() =~= Seq::<Act>::empty());
    reveal_with_fuel(journaled_by, 3);
    assert(after.journal() =~= before.journal().push(
        EventView::RandomRecorded { seq: before.position, value },
    ));
}

/// Acts that a crash is aimed at, on a store that does not fail, are done up
/// to that window, and no further.
proof fn lemma_aimed(
    before: RunState,
    acts: Seq<Act>,
    k: int,
    window: Window,
    after: RunState,
    error: Option<EngineErrorView>,
)
    requires
        before.crash is None,
        appends_command_events(acts),
        model::runs(before, acts, after, error),
        !before.fallible,
        before.decisions == failpoints::decides_once(window, false),
        0 <= k < acts.len(),
        acts[k] == Act::Consult(window),
        forall|i: int| 0 <= i < k ==> #[trigger] acts[i] != Act::Consult(window),
    ensures
        error == Some(EngineErrorView::InjectedCrash(window)),
        after.crash == Some(window),
        after.journal() == before.journal() + journaled_by(acts.take(k)),
        after.effects == before.effects + performed_by(acts.take(k)),
        after.clock == before.does_all(acts.take(k)).clock,
{
    assert(before.decisions.contains_key(window) && before.decisions[window] is Crash);
    assert(!before.allows(acts[k]));
    assert(error is Some);
    let e = error->0;
    let n = choose|n: int|
        0 <= n < acts.len() && before.allows_all(acts.take(n)) && model::halts(
            before.does_all(acts.take(n)),
            #[trigger] acts[n],
            after,
            e,
        );
    let done = acts.take(n);
    if k < n {
        assert(done[k] == acts[k]);
    }
    lemma_halt_evolves(before, acts, n, after, e);
    model::lemma_does_all_settled(before, done);
    if let Act::Consult(at) = acts[n] {
        assert(before.decisions.contains_key(at));
        assert(at == window);
    }
}

/// What a fresh timer has journaled when a run crashes at `window`.
pub open spec fn timer_journaled(seq: nat, deadline: nat, window: Window) -> Seq<EventView> {
    let scheduled = EventView::TimerScheduled { seq, deadline };
    if window is AfterTimerFired {
        seq![scheduled, EventView::TimerFired { seq }]
    } else {
        seq![scheduled]
    }
}

/// A crash that is aimed at a window of a fresh timer fires there: the timer
/// is scheduled, and waited for and fired only before the later window.
pub proof fn aimed_crashes_stop_timers(
    before: RunState,
    deadline: nat,
    after: RunState,
    r: Result<(), EngineErrorView>,
    window: Window,
)
    requires
        model::sleep_does(before, deadline, after, r),
        before.crash is None,
        model::plan_sleep(before.replay, before.position, deadline) is Fresh,
        !before.fallible,
        before.decisions == failpoints::decides_once(window, false),
        window == Window::AfterTimerScheduled(before.position) || window == Window::AfterTimerFired(
            before.position,
        ),
    ensures
        r == Err::<(), _>(EngineErrorView::InjectedCrash(window)),
        after.crash == Some(window),
        after.journal() == before.journal() + timer_journaled(before.position, deadline, window),
        window is AfterTimerScheduled ==> after.clock == before.clock,
        window is AfterTimerFired ==> after.clock == before.clock.push(
            ClockCall::SleepUntil(deadline),
        ),
{
    let seq = before.position;
    let acts = model::sleep_acts(seq, deadline);
    let k: int = if window is AfterTimerScheduled {
        1
    } else {
        4
    };
    lemma_aimed(before.live(), acts, k, window, after, model::error_of(r));
    lemma_clock_of_acts(before.live(), acts.take(k), 2, deadline);
    let done = acts.take(k);
    reveal_with_fuel(journaled_by, 5);
    if window is AfterTimerScheduled {
        assert(done =~= seq![acts[0]]);
        assert(done.drop_last() =~= Seq::<Act>::empty());
        assert(journaled_by(done) =~= timer_journaled(seq, deadline, window));
    } else {
        assert(done =~= seq![acts[0], acts[1], acts[2], acts[3]]);
        assert(done.drop_last() =~= seq![acts[0], acts[1], acts[2]]);
        assert(done.drop_last().drop_last() =~= seq![acts[0], acts[1]]);
        assert(done.drop_last().drop_last().drop_last() =~= seq![acts[0]]);
        assert(done.drop_last().drop_last().drop_last().drop_last() =~= Seq::<Act>::empty());
        assert(journaled_by(done) =~= timer_journaled(seq, deadline, window));
    }
}

/// What a fresh step has journaled when a run crashes at `window`, and its
/// closure, if it ran, gave `result`.
pub open spec fn step_journaled(
    seq: nat,
    name: Seq<char>,
    result: Seq<u8>,
    window: Window,
) -> Seq<EventView> {
    let scheduled = EventView::StepScheduled { seq, name };
    let started = EventView::StepStarted { seq, attempt: 1 };
    match window {
        Window::AfterStepScheduled(_) => seq![scheduled],
        Window::AfterStepStarted(_) => seq![scheduled, started],
        Window::AfterSideEffect(_) => seq![scheduled, started],
        Window::AfterStepCompleted(_) => seq![
            scheduled,
            started,
            EventView::StepCompleted { seq, result },
        ],
        _ => Seq::empty(),
    }
}

/// The windows of a fresh step whose closure gives a result, each with the
/// number of acts before it.
pub open spec fn acts_before(window: Window) -> int {
    match window {
        Window::BeforeStepScheduled(_) => 0,
        Window::AfterStepScheduled(_) => 2,
        Window::AfterStepStarted(_) => 4,
        Window::AfterSideEffect(_) => 6,
        Window::AfterStepCompleted(_) => 8,
        _ => -1,
    }
}

/// A crash that is aimed at a window of a fresh step, whose closure gives
/// `result`, fires there: the step is journaled just so far, and its closure
/// has run, once, only before the last two windows.
pub proof fn aimed_crashes_stop_steps(
    before: RunState,
    name: Seq<char>,
    after: RunState,
    r: Result<Seq<u8>, StepErrorView>,
    window: Window,
    result: Seq<u8>,
)
    requires
        model::step_does(before, name, after, r),
        after.effects != before.effects ==> after.effects.last().answer == Ok::<
            Seq<u8>,
            Seq<char>,
        >(result),
        before.crash is None,
        model::plan_step(before.replay, before.position, name) is Fresh,
        !before.fallible,
        before.decisions == failpoints::decides_once(window, false),
        window.position() == before.position,
        !(window is AfterTimerScheduled || window is AfterTimerFired),
    ensures
        r == Err::<Seq<u8>, _>(StepErrorView::Engine(EngineErrorView::InjectedCrash(window))),
        after.crash == Some(window),
        after.journal() == before.journal() + step_journaled(
            before.position,
            name,
            result,
            window,
        ),
        after.effects == before.effects + if window is AfterSideEffect || window
            is AfterStepCompleted {
            seq![Effect { seq: before.position, name, answer: Ok(result) }]
        } else {
            Seq::empty()
        },
{
    let seq = before.position;
    let (answer, error) = lemma_live_step(before, name, after, r);
    let acts = live_step_acts(before, name, answer);
    let start = before.live();
    let k = acts_before(window);
    let effect = Effect { seq, name, answer };
    assert(acts[5] == Act::Perform(effect));
    if answer is Err && k >= 6 {
        // Nothing stands in the way of such a step.
        lemma_passes(start, acts, window, after, error);
        lemma_acts_evolve(start, acts);
        assert(acts.drop_last() =~= acts.take(6));
        lemma_step_stretch(before, name, answer, 6);
        assert(after.effects.last() == effect);
        assert(after.effects.len() == before.effects.len() + 1);
    } else {
        lemma_aimed(start, acts, k, window, after, error);
        let done = acts.take(k);
        lemma_step_stretch(before, name, answer, k);
        if k >= 6 {
            assert(after.effects =~= before.effects.push(effect));
            assert(after.effects.len() == before.effects.len() + 1);
            assert(answer == Ok::<Seq<u8>, Seq<char>>(result));
        }
        assert(journaled_by(done) =~= step_journaled(seq, name, result, window));
    }
}

/// Acts without a window that a crash is aimed at succeed on a store that
/// does not fail.
proof fn lemma_passes(
    before: RunState,
    acts: Seq<Act>,
    window: Window,
    after: RunState,
    error: Option<EngineErrorView>,
)
    requires
        before.crash is None,
        model::runs(before, acts, after, error),
        !before.fallible,
        appends_command_events(acts),
        before.decisions == failpoints::decides_once(window, false),
        forall|i: int| 0 <= i < acts.len() ==> #[trigger] acts[i] != Act::Consult(window),
    ensures
        error is None,
        after == before.does_all(acts),
{
    if let Some(e) = error {
        let n = choose|n: int|
            0 <= n < acts.len() && before.allows_all(acts.take(n)) && model::halts(
                before.does_all(acts.take(n)),
                #[trigger] acts[n],
                after,
                e,
            );
        lemma_halt_evolves(before, acts, n, after, e);
        model::lemma_does_all_settled(before, acts.take(n));
        if let Act::Consult(at) = acts[n] {
            assert(before.decisions.contains_key(at));
        }
    }
}

/// What the first `k` acts of a fresh step journal and perform.
proof fn lemma_step_stretch(
    before: RunState,
    name: Seq<char>,
    answer: Result<Seq<u8>, Seq<char>>,
    k: int,
)
    requires
        model::plan_step(before.replay, before.position, name) is Fresh,
        0 <= k <= 8,
        k > 6 ==> answer is Ok,
    ensures
        ({
            let seq = before.position;
            let done = live_step_acts(before, name, answer).take(k);
            let scheduled = EventView::StepScheduled { seq, name };
            let started = EventView::StepStarted { seq, attempt: 1 };
            &&& journaled_by(done) == if k <= 1 {
                Seq::empty()
            } else if k <= 3 {
                seq![scheduled]
            } else if k <= 7 {
                seq![scheduled, started]
            } else {
                seq![scheduled, started, EventView::StepCompleted { seq, result: answer->Ok_0 }]
            }
            &&& performed_by(done) == if k <= 5 {
                Seq::empty()
            } else {
                seq![Effect { seq, name, answer }]
            }
        }),
    decreases k,
{
    let done = live_step_acts(before, name, answer).take(k);
    if k > 0 {
        lemma_step_stretch(before, name, answer, k - 1);
        assert(done.drop_last() =~= live_step_acts(before, name, answer).take(k - 1));
    }
    let seq = before.position;
    let scheduled = EventView::StepScheduled { seq, name };
    let started = EventView::StepStarted { seq, attempt: 1 };
    assert(k == 2 ==> journaled_by(done) =~= seq![scheduled]);
    assert(k == 4 ==> journaled_by(done) =~= seq![scheduled, started]);
    assert(k == 6 ==> performed_by(done) =~= seq![Effect { seq, name, answer }]);
    assert(k == 8 ==> journaled_by(done) =~= seq![
        scheduled,
        started,
        EventView::StepCompleted { seq, result: answer->Ok_0 },
    ]);
}

} // verus!
