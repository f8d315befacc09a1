//! Laws of the recovery equivalences: what any number of crashes costs, and
//! which equivalence holds between the effects of crashed and recovered runs
//! and those of a run without a failure.

use vstd::prelude::*;

use crate::context::EngineErrorView;
use crate::equivalence;
use crate::equivalence::DuplicateLast;
use crate::equivalence::Equivalence;
use crate::equivalence::ExactlyOnce;
use crate::equivalence::ReplayAll;
use crate::failpoints::Window;
use crate::journal::EventView;
use crate::model::Effect;
use crate::model::RunState;
use crate::recovery;
use crate::recovery::Cmd;
use crate::recovery::Reply;

verus! {

/// A run of `cmds` from the start, over a journal of `events`, on a store
/// that does not fail.
pub open spec fn run_over(
    cmds: Seq<Cmd>,
    events: Seq<EventView>,
    before: RunState,
    replies: Seq<Reply>,
    after: RunState,
    error: Option<EngineErrorView>,
) -> bool {
    &&& before.crash is None
    &&& before.position == 0
    &&& recovery::left_to_replay(before) == events
    &&& recovery::program_does(cmds, before, replies, after, error)
    &&& after.failures == before.failures
}

/// Runs of `cmds` over a journal of `events`, one after the other, each over
/// the journal that the one before it left, and each crashed at its window:
/// in the end the journal holds `left`, and `effects` are the closures that
/// ran.
pub open spec fn crashed_runs(
    cmds: Seq<Cmd>,
    events: Seq<EventView>,
    windows: Seq<Window>,
    left: Seq<EventView>,
    effects: Seq<Effect>,
) -> bool
    decreases windows.len(),
{
    if windows.len() == 0 {
        left == events && effects.len() == 0
    } else {
        exists|before: RunState, replies: Seq<Reply>, after: RunState| #[trigger]
            run_over(
                cmds,
                events,
                before,
                replies,
                after,
                Some(EngineErrorView::InjectedCrash(windows[0])),
            ) && {
                let performed = recovery::performed(before, after);
                &&& performed.is_prefix_of(effects)
                &&& crashed_runs(
                    cmds,
                    events + recovery::journaled(before, after),
                    windows.skip(1),
                    left,
                    effects.skip(performed.len() as int),
                )
            }
    }
}

/// How many of `windows` lie between the side effect of the step at
/// `position` and its record.
pub open spec fn tally(windows: Seq<Window>, position: nat) -> nat
    decreases windows.len(),
{
    if windows.len() == 0 {
        0
    } else {
        tally(windows.skip(1), position) + if windows[0] == Window::AfterSideEffect(position) {
            1nat
        } else {
            0
        }
    }
}

/// `effects`, `n` times over.
pub open spec fn times(effects: Seq<Effect>, n: nat) -> Seq<Effect>
    decreases n,
{
    if n == 0 {
        Seq::empty()
    } else {
        times(effects, (n - 1) as nat) + effects
    }
}

/// The closures that `cmds` run, the first of them at `position`, when
/// `windows` are where the runs crash: each once, and once more for every
/// crash between its effect and its record.
pub open spec fn effects_with_crashes(
    cmds: Seq<Cmd>,
    position: nat,
    windows: Seq<Window>,
) -> Seq<Effect>
    decreases cmds.len(),
{
    if cmds.len() == 0 {
        Seq::empty()
    } else {
        times(recovery::effect_of(cmds[0], position), 1 + tally(windows, position))
            + effects_with_crashes(cmds.skip(1), position + 1, windows)
    }
}

proof fn lemma_times_front(effects: Seq<Effect>, n: nat)
    ensures
        times(effects, n + 1) == effects + times(effects, n),
    decreases n,
{
    reveal_with_fuel(times, 2);
    if n == 0 {
        assert(times(effects, 1) =~= effects + times(effects, 0));
    } else {
        lemma_times_front(effects, (n - 1) as nat);
        assert((effects + times(effects, (n - 1) as nat)) + effects =~= effects + times(
            effects,
            n,
        ));
    }
}

/// Without a crash after a side effect among them, `cmds` run each closure
/// once.
proof fn lemma_no_crashes(cmds: Seq<Cmd>, position: nat, windows: Seq<Window>)
    requires
        forall|k: nat|
            position <= k < position + cmds.len() ==> #[trigger] tally(windows, k) == 0,
    ensures
        effects_with_crashes(cmds, position, windows) == recovery::effects_of(cmds, position),
    decreases cmds.len(),
{
    if cmds.len() > 0 {
        lemma_no_crashes(cmds.skip(1), position + 1, windows);
        assert(tally(windows, position) == 0);
        reveal_with_fuel(times, 2);
        let first = recovery::effect_of(cmds[0], position);
        assert(times(first, 1) =~= first);
    }
}

/// The closures of two stretches of commands.
proof fn lemma_effects_split(cmds: Seq<Cmd>, position: nat, windows: Seq<Window>, n: int)
    requires
        0 <= n <= cmds.len(),
    ensures
        effects_with_crashes(cmds, position, windows) == effects_with_crashes(
            cmds.take(n),
            position,
            windows,
        ) + effects_with_crashes(cmds.skip(n), (position + n) as nat, windows),
    decreases n,
{
    if n == 0 {
        assert(cmds.skip(0) =~= cmds);
        assert(effects_with_crashes(cmds.take(0), position, windows) =~= Seq::<Effect>::empty());
        assert(Seq::<Effect>::empty() + effects_with_crashes(cmds, position, windows)
            =~= effects_with_crashes(cmds, position, windows));
    } else {
        let later = cmds.skip(1);
        lemma_effects_split(later, position + 1, windows, n - 1);
        assert(cmds.take(n)[0] == cmds[0]);
        assert(cmds.take(n).skip(1) =~= later.take(n - 1));
        assert(later.skip(n - 1) =~= cmds.skip(n));
        let first = times(recovery::effect_of(cmds[0], position), 1 + tally(windows, position));
        let second = effects_with_crashes(later.take(n - 1), position + 1, windows);
        let third = effects_with_crashes(cmds.skip(n), (position + n) as nat, windows);
        assert(first + (second + third) =~= (first + second) + third);
    }
}

/// The closures once each, in two stretches.
proof fn lemma_effects_of_split(cmds: Seq<Cmd>, position: nat, n: int)
    requires
        0 <= n <= cmds.len(),
    ensures
        recovery::effects_of(cmds, position) == recovery::effects_of(cmds.take(n), position)
            + recovery::effects_of(cmds.skip(n), (position + n) as nat),
{
    let none = Seq::<Window>::empty();
    lemma_no_crashes(cmds, position, none);
    lemma_no_crashes(cmds.take(n), position, none);
    lemma_no_crashes(cmds.skip(n), (position + n) as nat, none);
    lemma_effects_split(cmds, position, none, n);
}

/// Crashes before `position` cost nothing from `position` on.
proof fn lemma_crash_elsewhere(
    cmds: Seq<Cmd>,
    position: nat,
    window: Window,
    windows: Seq<Window>,
)
    requires
        window matches Window::AfterSideEffect(k) ==> k < position,
    ensures
        effects_with_crashes(cmds, position, seq![window] + windows) == effects_with_crashes(
            cmds,
            position,
            windows,
        ),
    decreases cmds.len(),
{
    let all = seq![window] + windows;
    assert(all.skip(1) =~= windows);
    if cmds.len() > 0 {
        assert(window != Window::AfterSideEffect(position));
        lemma_crash_elsewhere(cmds.skip(1), position + 1, window, windows);
    }
}

/// One more crash after the side effect of the first command.
proof fn lemma_crash_here(cmds: Seq<Cmd>, position: nat, windows: Seq<Window>)
    requires
        cmds.len() > 0,
    ensures
        effects_with_crashes(
            cmds,
            position,
            seq![Window::AfterSideEffect(position)] + windows,
        ) == recovery::effect_of(cmds[0], position) + effects_with_crashes(cmds, position, windows),
{
    let window = Window::AfterSideEffect(position);
    let all = seq![window] + windows;
    assert(all.skip(1) =~= windows);
    lemma_crash_elsewhere(cmds.skip(1), position + 1, window, windows);
    let first = recovery::effect_of(cmds[0], position);
    let rest = effects_with_crashes(cmds.skip(1), position + 1, windows);
    lemma_times_front(first, 1 + tally(windows, position));
    assert((first + times(first, 1 + tally(windows, position))) + rest =~= first + (times(
        first,
        1 + tally(windows, position),
    ) + rest));
}

/// Every crash after a side effect is one of a step among `cmds`.
pub open spec fn crashed_in_steps(windows: Seq<Window>, cmds: Seq<Cmd>) -> bool {
    forall|i: int|
        0 <= i < windows.len() ==> (#[trigger] windows[i] matches Window::AfterSideEffect(k) ==> k
            < cmds.len() && cmds[k as int] is Step)
}

/// Over any number of crashes, and a last run that is not crashed, exactly
/// these closures run: each step's closure once, and once more for every
/// crash between its side effect and its record. The last run comes back
/// with a reply for every command.
pub proof fn crashes_cost_only_lost_effects(
    cmds: Seq<Cmd>,
    events: Seq<EventView>,
    windows: Seq<Window>,
    left: Seq<EventView>,
    effects: Seq<Effect>,
    before: RunState,
    replies: Seq<Reply>,
    after: RunState,
)
    requires
        recovery::covered(events, cmds, 0),
        crashed_runs(cmds, events, windows, left, effects),
        run_over(cmds, left, before, replies, after, None),
    ensures
        ({
            let done = recovery::recorded(events, cmds, 0).len();
            &&& done <= cmds.len()
            &&& effects + recovery::performed(before, after) == effects_with_crashes(
                cmds.skip(done as int),
                done,
                windows,
            )
            &&& forall|k: nat| k < done ==> #[trigger] tally(windows, k) == 0
            &&& crashed_in_steps(windows, cmds)
            &&& replies.len() == cmds.len()
            &&& recovery::recorded(events, cmds, 0).is_prefix_of(replies)
        }),
    decreases windows.len(),
{
    let had = recovery::recorded(events, cmds, 0);
    let done = had.len();
    if windows.len() == 0 {
        recovery::runs_continue_the_journal(cmds, before, replies, after, None);
        let rest = cmds.skip(done as int);
        assert(rest =~= cmds.subrange(done as int, cmds.len() as int));
        lemma_no_crashes(rest, done, windows);
        assert(effects + recovery::performed(before, after) =~= recovery::performed(
            before,
            after,
        ));
        assert(recovery::performed(before, after) =~= recovery::effects_of(rest, done));
    } else {
        let window = windows[0];
        let error = Some(EngineErrorView::InjectedCrash(window));
        let (first, some, second) = choose|
            first: RunState,
            some: Seq<Reply>,
            second: RunState,
        | #[trigger]
            run_over(cmds, events, first, some, second, error) && {
                let performed = recovery::performed(first, second);
                &&& performed.is_prefix_of(effects)
                &&& crashed_runs(
                    cmds,
                    events + recovery::journaled(first, second),
                    windows.skip(1),
                    left,
                    effects.skip(performed.len() as int),
                )
            };
        recovery::runs_continue_the_journal(cmds, first, some, second, error);
        let performed = recovery::performed(first, second);
        let more = effects.skip(performed.len() as int);
        let next = events + recovery::journaled(first, second);
        let later = windows.skip(1);
        crashes_cost_only_lost_effects(cmds, next, later, left, more, before, replies, after);
        let has = recovery::recorded(next, cmds, 0);
        let reached = has.len();
        let last = recovery::performed(before, after);
        assert(effects =~= performed + more);
        assert(windows =~= seq![window] + later);
        // The commands that this run got over, and those after them.
        let rest = cmds.skip(done as int);
        let over = cmds.subrange(done as int, reached as int);
        let open = cmds.skip(reached as int);
        assert(rest.take(reached - done) =~= over);
        assert(rest.skip(reached - done) =~= open);
        lemma_effects_split(rest, done, windows, reached - done);
        assert forall|k: nat| k < reached implies #[trigger] tally(windows, k) == 0 by {
            assert(tally(later, k) == 0);
            assert(window != Window::AfterSideEffect(k));
        }
        lemma_no_crashes(over, done, windows);
        let lost = recovery::lost_effect(error, cmds, 0, reached);
        if window is AfterSideEffect {
            assert(window == Window::AfterSideEffect(reached));
            assert(open[0] == cmds[reached as int]);
            lemma_crash_here(open, reached, later);
        } else {
            lemma_crash_elsewhere(open, reached, window, later);
            assert(lost =~= Seq::<Effect>::empty());
            assert(lost + effects_with_crashes(open, reached, later) =~= effects_with_crashes(
                open,
                reached,
                later,
            ));
        }
        let ahead = effects_with_crashes(open, reached, later);
        assert(performed == recovery::effects_of(over, done) + lost);
        assert(effects + last =~= performed + (more + last));
        assert(recovery::effects_of(over, done) + lost + ahead =~= recovery::effects_of(over, done)
            + (lost + ahead));
        assert(had.is_prefix_of(has));
        assert(had =~= replies.subrange(0, done as int));
        assert forall|i: int| 0 <= i < windows.len() implies (#[trigger] windows[i] matches
            Window::AfterSideEffect(k) ==> k < cmds.len() && cmds[k as int] is Step) by {
            if i > 0 {
                assert(windows[i] == later[i - 1]);
            }
        }
    }
}

/// What step bodies leave in an effect trace that record their name and
/// their payload as they run.
pub open spec fn trace_of(effects: Seq<Effect>) -> Seq<(Seq<char>, Seq<u8>)> {
    Seq::new(effects.len(), |i: int| record_of(effects[i]))
}

/// What one run of a step body leaves in an effect trace.
pub open spec fn record_of(effect: Effect) -> (Seq<char>, Seq<u8>) {
    (
        effect.name,
        match effect.answer {
            Ok(payload) => payload,
            Err(_) => Seq::empty(),
        },
    )
}

/// The trace of a run of `cmds` without any failure.
pub open spec fn reference_trace(cmds: Seq<Cmd>) -> Seq<(Seq<char>, Seq<u8>)> {
    trace_of(recovery::effects_of(cmds, 0))
}

/// A run without a failure leaves the reference trace, and comes back with a
/// reply for every command.
pub proof fn undisturbed_runs_leave_the_reference(
    cmds: Seq<Cmd>,
    before: RunState,
    replies: Seq<Reply>,
    after: RunState,
)
    requires
        run_over(cmds, Seq::empty(), before, replies, after, None),
    ensures
        trace_of(recovery::performed(before, after)) == reference_trace(cmds),
        replies.len() == cmds.len(),
{
    let none = Seq::<EventView>::empty();
    let effects = Seq::<Effect>::empty();
    lemma_start(cmds);
    crashes_cost_only_lost_effects(
        cmds,
        none,
        Seq::empty(),
        none,
        effects,
        before,
        replies,
        after,
    );
    lemma_no_crashes(cmds, 0, Seq::empty());
    assert(cmds.skip(0) =~= cmds);
    assert(effects + recovery::performed(before, after) =~= recovery::performed(before, after));
}

/// Nothing is recorded in an empty journal.
pub proof fn lemma_start(cmds: Seq<Cmd>)
    ensures
        recovery::covered(Seq::empty(), cmds, 0),
        recovery::recorded(Seq::empty(), cmds, 0).len() == 0,
{
    if cmds.len() > 0 {
        assert(recovery::completed(Seq::empty(), cmds[0], 0) is None);
    }
}

/// Crashes at any windows but those between a side effect and its record
/// cost no duplicate: the crashed runs and the last one together run every
/// effect exactly once.
pub proof fn exactly_once_without_lost_effects(
    cmds: Seq<Cmd>,
    windows: Seq<Window>,
    left: Seq<EventView>,
    effects: Seq<Effect>,
    before: RunState,
    replies: Seq<Reply>,
    after: RunState,
)
    requires
        crashed_runs(cmds, Seq::empty(), windows, left, effects),
        run_over(cmds, left, before, replies, after, None),
        forall|i: int| 0 <= i < windows.len() ==> !(#[trigger] windows[i] is AfterSideEffect),
    ensures
        ExactlyOnce::holds(
            trace_of(effects + recovery::performed(before, after)),
            reference_trace(cmds),
        ),
{
    lemma_start(cmds);
    crashes_cost_only_lost_effects(
        cmds,
        Seq::empty(),
        windows,
        left,
        effects,
        before,
        replies,
        after,
    );
    assert(cmds.skip(0) =~= cmds);
    assert forall|k: nat| 0 <= k < cmds.len() implies #[trigger] tally(windows, k) == 0 by {
        lemma_tally_zero(windows, k);
    }
    lemma_no_crashes(cmds, 0, windows);
}

proof fn lemma_tally_zero(windows: Seq<Window>, k: nat)
    requires
        forall|i: int| 0 <= i < windows.len() ==> !(#[trigger] windows[i] is AfterSideEffect),
    ensures
        tally(windows, k) == 0,
    decreases windows.len(),
{
    if windows.len() > 0 {
        assert(!(windows[0] is AfterSideEffect));
        let later = windows.skip(1);
        assert forall|i: int| 0 <= i < later.len() implies !(#[trigger] later[i]
            is AfterSideEffect) by {
            assert(later[i] == windows[i + 1]);
        }
        lemma_tally_zero(later, k);
    }
}

/// A crash after the side effect of the step at `k`, and a recovery, run
/// that step's closure twice in a row and every other once. It is one effect
/// too many for `ExactlyOnce`. `DuplicateLast` holds if no step comes after
/// it.
pub proof fn a_lost_effect_is_duplicated(
    cmds: Seq<Cmd>,
    k: nat,
    left: Seq<EventView>,
    effects: Seq<Effect>,
    before: RunState,
    replies: Seq<Reply>,
    after: RunState,
)
    requires
        crashed_runs(cmds, Seq::empty(), seq![Window::AfterSideEffect(k)], left, effects),
        run_over(cmds, left, before, replies, after, None),
    ensures
        ({
            let observed = trace_of(effects + recovery::performed(before, after));
            &&& k < cmds.len()
            &&& cmds[k as int] is Step
            &&& observed == trace_of(recovery::effects_of(cmds.take(k as int + 1), 0)) + trace_of(
                recovery::effects_of(cmds.skip(k as int), k),
            )
            &&& observed.len() == reference_trace(cmds).len() + 1
            &&& !ExactlyOnce::holds(observed, reference_trace(cmds))
            &&& recovery::effects_of(cmds.skip(k as int + 1), k + 1).len() == 0 ==> DuplicateLast::holds(
                observed,
                reference_trace(cmds),
            )
        }),
{
    let window = Window::AfterSideEffect(k);
    let windows = seq![window];
    lemma_start(cmds);
    crashes_cost_only_lost_effects(
        cmds,
        Seq::empty(),
        windows,
        left,
        effects,
        before,
        replies,
        after,
    );
    assert(windows[0] == window);
    assert(cmds.skip(0) =~= cmds);
    let all = effects + recovery::performed(before, after);
    let none = Seq::<Window>::empty();
    assert(windows =~= windows + none);
    assert(windows.skip(1) =~= none);
    reveal_with_fuel(tally, 2);
    let earlier = cmds.take(k as int);
    let later = cmds.skip(k as int);
    lemma_effects_split(cmds, 0, windows, k as int);
    lemma_no_crashes(earlier, 0, windows);
    assert(later[0] == cmds[k as int]);
    lemma_crash_here(later, k, none);
    lemma_no_crashes(later, k, none);
    let first = recovery::effects_of(earlier, 0);
    let again = recovery::effect_of(cmds[k as int], k);
    let second = recovery::effects_of(later, k);
    assert(all == first + (again + second));
    lemma_effects_of_split(cmds, 0, k as int);
    let through = cmds.take(k as int + 1);
    assert(through.take(k as int) =~= earlier);
    assert(through.skip(k as int) =~= seq![cmds[k as int]]);
    lemma_effects_of_split(through, 0, k as int);
    assert(recovery::effects_of(seq![cmds[k as int]], k) =~= again) by {
        reveal_with_fuel(recovery::effects_of, 2);
        assert(seq![cmds[k as int]].skip(1) =~= Seq::<Cmd>::empty());
    }
    assert(all =~= recovery::effects_of(through, 0) + second);
    let observed = trace_of(all);
    let reference = reference_trace(cmds);
    assert(observed =~= trace_of(recovery::effects_of(through, 0)) + trace_of(second));
    assert(observed.len() == reference.len() + 1);
    if recovery::effects_of(cmds.skip(k as int + 1), k + 1).len() == 0 {
        assert(later.skip(1) =~= cmds.skip(k as int + 1));
        assert(second =~= again);
        assert(recovery::effects_of(cmds, 0) =~= first + again);
        assert(all =~= (first + again) + again);
        assert(observed =~= reference.push(reference.last()));
    }
}

/// A crash at any window, and a recovery, duplicate at most the last effect,
/// unless the crash lost the effect of a step that others come after.
pub proof fn duplicate_last_survives_a_crash(
    cmds: Seq<Cmd>,
    window: Window,
    left: Seq<EventView>,
    effects: Seq<Effect>,
    before: RunState,
    replies: Seq<Reply>,
    after: RunState,
)
    requires
        crashed_runs(cmds, Seq::empty(), seq![window], left, effects),
        run_over(cmds, left, before, replies, after, None),
        window matches Window::AfterSideEffect(k) ==> recovery::effects_of(
            cmds.skip(k as int + 1),
            k + 1,
        ).len() == 0,
    ensures
        DuplicateLast::holds(
            trace_of(effects + recovery::performed(before, after)),
            reference_trace(cmds),
        ),
{
    match window {
        Window::AfterSideEffect(k) => {
            a_lost_effect_is_duplicated(cmds, k, left, effects, before, replies, after);
        },
        _ => {
            exactly_once_without_lost_effects(
                cmds,
                seq![window],
                left,
                effects,
                before,
                replies,
                after,
            );
        },
    }
}

proof fn lemma_occurrences_skip_repeats(
    effects: Seq<(Seq<char>, Seq<u8>)>,
    repeated: (Seq<char>, Seq<u8>),
)
    requires
        equivalence::first_occurrences(effects).contains(repeated),
    ensures
        equivalence::first_occurrences(effects.push(repeated)) == equivalence::first_occurrences(
            effects,
        ),
{
    assert(effects.push(repeated).drop_last() =~= effects);
}

/// The first occurrences of a trace that ends in a new effect, repeated.
proof fn lemma_occurrences_of_times(
    trace: Seq<(Seq<char>, Seq<u8>)>,
    effect: Effect,
    n: nat,
)
    requires
        !equivalence::first_occurrences(trace).contains(record_of(effect)),
    ensures
        equivalence::first_occurrences(trace + trace_of(times(seq![effect], 1 + n)))
            == equivalence::first_occurrences(trace).push(record_of(effect)),
    decreases n,
{
    let repeated = trace_of(times(seq![effect], 1 + n));
    reveal_with_fuel(times, 2);
    if n == 0 {
        assert(times(seq![effect], 1) =~= seq![effect]);
        assert(trace + repeated =~= trace.push(record_of(effect)));
        assert((trace + repeated).drop_last() =~= trace);
    } else {
        lemma_occurrences_of_times(trace, effect, (n - 1) as nat);
        let fewer = trace_of(times(seq![effect], n));
        assert(trace + repeated =~= (trace + fewer).push(record_of(effect)));
        let first = equivalence::first_occurrences(trace);
        assert(first.push(record_of(effect))[first.len() as int] == record_of(effect));
        lemma_occurrences_skip_repeats(trace + fewer, record_of(effect));
    }
}

/// Collapsed to first occurrences, the trace of crashed runs is the
/// reference.
proof fn lemma_occurrences_with_crashes(cmds: Seq<Cmd>, windows: Seq<Window>)
    requires
        reference_trace(cmds).no_duplicates(),
    ensures
        equivalence::first_occurrences(trace_of(effects_with_crashes(cmds, 0, windows)))
            == reference_trace(cmds),
    decreases cmds.len(),
{
    if cmds.len() == 0 {
        assert(trace_of(Seq::empty()) =~= Seq::<(Seq<char>, Seq<u8>)>::empty());
    } else {
        let n = cmds.len() - 1;
        let earlier = cmds.take(n);
        let last = cmds.skip(n);
        let position = n as nat;
        let cmd = cmds[n];
        lemma_effects_split(cmds, 0, windows, n);
        lemma_effects_of_split(cmds, 0, n);
        assert(last[0] == cmd);
        assert(last.skip(1) =~= Seq::<Cmd>::empty());
        reveal_with_fuel(effects_with_crashes, 2);
        reveal_with_fuel(recovery::effects_of, 2);
        let effect = recovery::effect_of(cmd, position);
        let repeats = times(effect, 1 + tally(windows, position));
        assert(effects_with_crashes(last, position, windows) =~= repeats);
        assert(recovery::effects_of(last, position) =~= effect);
        let before = effects_with_crashes(earlier, 0, windows);
        let all = effects_with_crashes(cmds, 0, windows);
        assert(trace_of(all) =~= trace_of(before) + trace_of(repeats));
        let reference = reference_trace(cmds);
        assert(reference =~= reference_trace(earlier) + trace_of(effect));
        assert forall|i: int, j: int|
            0 <= i < reference_trace(earlier).len() && 0 <= j < reference_trace(earlier).len() && i
                != j implies reference_trace(earlier)[i] != reference_trace(earlier)[j] by {
            assert(reference[i] == reference_trace(earlier)[i]);
            assert(reference[j] == reference_trace(earlier)[j]);
        }
        lemma_occurrences_with_crashes(earlier, windows);
        match cmd {
            Cmd::Step { name, answer } => {
                let one = Effect { seq: position, name, answer };
                assert(effect =~= seq![one]);
                let at = reference_trace(earlier).len() as int;
                assert(reference[at] == record_of(one));
                assert forall|i: int| 0 <= i < at implies reference_trace(earlier)[i]
                    != record_of(one) by {
                    assert(reference[i] == reference_trace(earlier)[i]);
                }
                lemma_occurrences_of_times(trace_of(before), one, tally(windows, position));
                assert(reference =~= reference_trace(earlier).push(record_of(one)));
            },
            _ => {
                lemma_times_nothing(1 + tally(windows, position));
                assert(trace_of(all) =~= trace_of(before));
                assert(reference =~= reference_trace(earlier));
            },
        }
    }
}

proof fn lemma_times_nothing(n: nat)
    ensures
        times(Seq::empty(), n) == Seq::<Effect>::empty(),
    decreases n,
{
    if n > 0 {
        lemma_times_nothing((n - 1) as nat);
        assert(times(Seq::empty(), n) =~= Seq::<Effect>::empty());
    }
}

/// Crashes at any windows whatever keep `ReplayAll`, as long as no two
/// effects of the workflow are the same.
pub proof fn replay_all_survives_any_crashes(
    cmds: Seq<Cmd>,
    windows: Seq<Window>,
    left: Seq<EventView>,
    effects: Seq<Effect>,
    before: RunState,
    replies: Seq<Reply>,
    after: RunState,
)
    requires
        crashed_runs(cmds, Seq::empty(), windows, left, effects),
        run_over(cmds, left, before, replies, after, None),
        reference_trace(cmds).no_duplicates(),
    ensures
        ReplayAll::holds(
            trace_of(effects + recovery::performed(before, after)),
            reference_trace(cmds),
        ),
{
    lemma_start(cmds);
    crashes_cost_only_lost_effects(
        cmds,
        Seq::empty(),
        windows,
        left,
        effects,
        before,
        replies,
        after,
    );
    assert(cmds.skip(0) =~= cmds);
    lemma_occurrences_with_crashes(cmds, windows);
}

} // verus!
