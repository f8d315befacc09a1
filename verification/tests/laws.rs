//! The library's laws on concrete runs: workflows of several steps, crashed
//! at every window, and recovered over the same store.

use std::cell::RefCell;

use yaoki::context::EngineError;
use yaoki::context::ReplayCursor;
use yaoki::context::WorkflowCtx;
use yaoki::engine::Engine;
use yaoki::engine::Execution;
use yaoki::engine::RunError;
use yaoki::engine::Workflow;
use yaoki::equivalence::DuplicateLast;
use yaoki::equivalence::EffectTrace;
use yaoki::equivalence::Equivalence;
use yaoki::equivalence::ExactlyOnce;
use yaoki::equivalence::ReplayAll;
use yaoki::execution::execution_id_from_seed;
use yaoki::execution::ExecutionId;
use yaoki::execution::WorkflowName;
use yaoki::execution::WorkflowVersion;
use yaoki::failpoints::CrashOnce;
use yaoki::failpoints::CrashPoint;
use yaoki::failpoints::FailpointPolicy;
use yaoki::journal::EventPayload;
use yaoki::journal::Journal;
use yaoki::journal::JournalError;
use yaoki::journal::JournalEvent;
use yaoki::journal::JournalStore;
use yaoki::journal::SeqNum;
use yaoki::random::RandomBytes;
use yaoki::random::RngSource;
use yaoki::random::SeededRng;
use yaoki::step::StepError;
use yaoki::step::StepErrorRecord;
use yaoki::step::StepName;
use yaoki::stores::file::journal_file_name;
use yaoki::stores::memory::MemoryJournal;
use yaoki::time::remaining_wait;
use yaoki::time::Clock;
use yaoki::time::Deadline;
use yaoki::time::TestClock;
use yaoki::time::Timestamp;

fn execution() -> ExecutionId {
    execution_id_from_seed("onboarding")
}

fn clock() -> TestClock {
    TestClock::at(Timestamp::from_millis_since_epoch(1_784_937_600_000))
}

fn rng() -> SeededRng {
    SeededRng::from_label(b"drawn")
}

fn step_name(index: usize) -> StepName {
    StepName::new(&format!("step-{index}")).unwrap()
}

fn confirmation(index: usize) -> EventPayload {
    EventPayload::new(format!("done-{index}").into_bytes())
}

fn deadline() -> Deadline {
    Deadline::at(Timestamp::from_millis_since_epoch(1_785_542_400_000))
}

/// A timer, a clock reading and a draw, and `steps` steps after them. The
/// trace counts the runs of step bodies, not journal entries.
struct Onboarding<'a> {
    steps: usize,
    effects: &'a RefCell<EffectTrace>,
}

impl<S: JournalStore> Workflow<S> for Onboarding<'_> {
    type Error = StepError;

    fn name(&self) -> WorkflowName {
        WorkflowName::new("onboarding").unwrap()
    }

    fn version(&self) -> WorkflowVersion {
        WorkflowVersion::new("2026.08.01").unwrap()
    }

    fn run<C: Clock, R: RngSource, P: FailpointPolicy>(
        &self,
        ctx: &mut WorkflowCtx<S, C, R, P>,
        _input: EventPayload,
    ) -> Result<EventPayload, StepError> {
        ctx.sleep_until(deadline())?;
        let mut output = Vec::new();
        output.extend(ctx.now()?.as_millis_since_epoch().to_be_bytes());
        output.extend(ctx.random()?.as_bytes());
        for index in 0..self.steps {
            let result = ctx.step(step_name(index), |_key| {
                self.effects
                    .borrow_mut()
                    .record(step_name(index), confirmation(index));
                Ok(confirmation(index))
            })?;
            output.extend(result.into_bytes());
        }
        Ok(EventPayload::new(output))
    }
}

fn reference(steps: usize) -> (EffectTrace, EventPayload) {
    let effects = RefCell::new(EffectTrace::new());
    let output = Engine::<_, DuplicateLast>::new(MemoryJournal::new())
        .run(
            execution(),
            &Onboarding {
                steps,
                effects: &effects,
            },
            EventPayload::new(Vec::new()),
            &mut clock(),
            &mut rng(),
        )
        .unwrap();
    (effects.into_inner(), output)
}

/// Crashes one run at each of `points` in turn, recovers without a crash, and
/// returns the effects of all the runs, the last output and the journal.
fn crash_and_recover(
    steps: usize,
    points: &[CrashPoint],
) -> (EffectTrace, EventPayload, Vec<JournalEvent>) {
    let mut store = MemoryJournal::new();
    let effects = RefCell::new(EffectTrace::new());
    let workflow = Onboarding {
        steps,
        effects: &effects,
    };
    for (run, point) in points.iter().enumerate() {
        let mut policy = CrashOnce::new(*point);
        let mut engine = Engine::<_, DuplicateLast, _>::with_failpoints(&mut store, &mut policy);
        let input = EventPayload::new(Vec::new());
        let crashed = if run == 0 {
            engine.run(execution(), &workflow, input, &mut clock(), &mut rng())
        } else {
            engine.recover_and_run(execution(), &workflow, input, &mut clock(), &mut rng())
        };
        match crashed {
            Err(RunError::Engine(EngineError::InjectedCrash(at))) => assert_eq!(at, *point),
            other => panic!("expected a crash at {point:?}, got {other:?}"),
        }
        assert!(policy.has_fired());
    }
    // The last run reads another clock and draws other bytes: what the
    // crashed runs journaled has to win where there is anything.
    let output = Engine::<_, DuplicateLast>::new(&mut store)
        .recover_and_run(
            execution(),
            &workflow,
            EventPayload::new(Vec::new()),
            &mut TestClock::at(Timestamp::from_millis_since_epoch(7)),
            &mut SeededRng::from_label(b"other"),
        )
        .unwrap();
    let journal = store.load(&execution()).unwrap().into_events();
    (effects.into_inner(), output, journal)
}

fn step_windows(seq: SeqNum) -> [CrashPoint; 5] {
    [
        CrashPoint::BeforeStepScheduled(seq),
        CrashPoint::AfterStepScheduled(seq),
        CrashPoint::AfterStepStarted(seq),
        CrashPoint::AfterSideEffect(seq),
        CrashPoint::AfterStepCompleted(seq),
    ]
}

#[test]
fn one_crash_at_any_window_costs_at_most_the_lost_effect() {
    for steps in 1..5 {
        let (reference_effects, reference_output) = reference(steps);
        for index in 0..steps {
            let seq = SeqNum::from_index(3 + index as u64);
            for point in step_windows(seq) {
                let (observed, output, _journal) = crash_and_recover(steps, &[point]);

                assert_eq!(output, reference_output);
                assert!(ReplayAll::equivalent(&observed, &reference_effects));
                let lost = matches!(point, CrashPoint::AfterSideEffect(_));
                assert_eq!(
                    ExactlyOnce::equivalent(&observed, &reference_effects),
                    !lost
                );
                assert_eq!(
                    DuplicateLast::equivalent(&observed, &reference_effects),
                    !lost || index == steps - 1
                );
                assert_eq!(
                    observed.records().len(),
                    steps + if lost { 1 } else { 0 }
                );
            }
        }
    }
}

#[test]
fn crashes_around_a_timer_cost_nothing_and_keep_its_schedule() {
    for point in [
        CrashPoint::AfterTimerScheduled(SeqNum::zero()),
        CrashPoint::AfterTimerFired(SeqNum::zero()),
    ] {
        let (observed, _output, journal) = crash_and_recover(2, &[point]);

        assert_eq!(observed, reference(2).0);
        let scheduled = journal
            .iter()
            .filter(|event| matches!(event, JournalEvent::TimerScheduled { .. }))
            .count();
        assert_eq!(scheduled, 1);
    }
}

#[test]
fn any_number_of_crashes_repeats_only_the_lost_effects() {
    let (reference_effects, reference_output) = reference(2);
    let first = SeqNum::from_index(3);
    let second = SeqNum::from_index(4);

    let (observed, output, journal) = crash_and_recover(
        2,
        &[
            CrashPoint::AfterStepStarted(first),
            CrashPoint::AfterSideEffect(first),
            CrashPoint::AfterSideEffect(first),
            CrashPoint::AfterStepCompleted(first),
            CrashPoint::BeforeStepScheduled(second),
            CrashPoint::AfterSideEffect(second),
        ],
    );

    assert_eq!(output, reference_output);
    // Twice lost and once kept for the first step, once each for the second.
    let names: Vec<_> = observed.records().iter().collect();
    assert_eq!(names.len(), 5);
    assert_eq!(names[0], names[1]);
    assert_eq!(names[1], names[2]);
    assert_ne!(names[2], names[3]);
    assert_eq!(names[3], names[4]);
    assert!(ReplayAll::equivalent(&observed, &reference_effects));
    // Attempts accumulate and the step is scheduled once.
    let attempts: Vec<u32> = journal
        .iter()
        .filter_map(|event| match event {
            JournalEvent::StepStarted { seq, attempt } if *seq == first => Some(attempt.get()),
            _ => None,
        })
        .collect();
    assert_eq!(attempts, vec![1, 2, 3, 4]);
    let scheduled = journal
        .iter()
        .filter(|event| matches!(event, JournalEvent::StepScheduled { seq, .. } if *seq == first))
        .count();
    assert_eq!(scheduled, 1);
}

#[test]
fn a_whole_rerun_is_accepted_by_replay_all_alone() {
    let (single, _) = reference(1);
    let (reference_effects, _) = reference(2);
    let mut rerun = reference_effects.clone();
    for index in 0..2 {
        rerun.record(step_name(index), confirmation(index));
    }

    assert!(ReplayAll::equivalent(&rerun, &reference_effects));
    assert!(!DuplicateLast::equivalent(&rerun, &reference_effects));
    assert!(!ExactlyOnce::equivalent(&rerun, &reference_effects));
    // A rerun of a single step is one duplicate of the last effect.
    let mut short = single.clone();
    short.record(step_name(0), confirmation(0));
    assert!(DuplicateLast::equivalent(&short, &single));
    assert!(ReplayAll::equivalent(&short, &single));
}

#[test]
fn what_a_live_command_journals_is_replayed() {
    let mut store = MemoryJournal::new();
    let mut first_clock = clock();
    let mut first_rng = rng();
    let failure = StepErrorRecord::new("payment gateway timed out");
    let (now, drawn, failed) = {
        let mut ctx = WorkflowCtx::new(
            &mut store,
            execution(),
            ReplayCursor::new(Journal::empty()),
            &mut first_clock,
            &mut first_rng,
        );
        let now = ctx.now();
        let drawn = ctx.random();
        ctx.sleep_until(deadline()).unwrap();
        let failed = ctx.step(step_name(0), |_key| Err(failure.clone()));
        (now, drawn, failed)
    };
    assert_eq!(failed, Err(StepError::Failed(failure)));
    let journal = store.load(&execution()).unwrap();
    let events = journal.len();

    let mut other_clock = TestClock::at(Timestamp::from_millis_since_epoch(0));
    let mut other_rng = SeededRng::from_label(b"other");
    let mut ctx = WorkflowCtx::new(
        &mut store,
        execution(),
        ReplayCursor::new(journal),
        &mut other_clock,
        &mut other_rng,
    );

    assert_eq!(ctx.now(), now);
    assert_eq!(ctx.random(), drawn);
    assert_eq!(ctx.sleep_until(deadline()), Ok(()));
    let again = ctx.step(step_name(0), |_key| panic!("answered from the journal"));
    assert_eq!(again, failed);
    assert_eq!(ctx.store().load(&execution()).unwrap().len(), events);
}

/// Fails with an error whose debug text is not its value.
struct Refusing;

impl<S: JournalStore> Workflow<S> for Refusing {
    type Error = String;

    fn name(&self) -> WorkflowName {
        WorkflowName::new("refusing").unwrap()
    }

    fn version(&self) -> WorkflowVersion {
        WorkflowVersion::new("1").unwrap()
    }

    fn run<C: Clock, R: RngSource, P: FailpointPolicy>(
        &self,
        _ctx: &mut WorkflowCtx<S, C, R, P>,
        _input: EventPayload,
    ) -> Result<EventPayload, String> {
        Err("no \"funds\"".to_owned())
    }
}

#[test]
fn a_failed_run_is_recovered_with_the_debug_text_of_its_error() {
    let mut store = MemoryJournal::new();
    let input = EventPayload::new(Vec::new());
    let first = Engine::<_, DuplicateLast>::new(&mut store).run(
        execution(),
        &Refusing,
        input.clone(),
        &mut clock(),
        &mut rng(),
    );
    assert!(matches!(first, Err(RunError::Workflow(error)) if error == "no \"funds\""));
    let events = store.load(&execution()).unwrap().len();

    let second = Engine::<_, DuplicateLast>::new(&mut store).recover_and_run(
        execution(),
        &Refusing,
        input,
        &mut clock(),
        &mut rng(),
    );

    match second {
        Err(RunError::Recovered(record)) => {
            assert_eq!(record.message(), "\"no \\\"funds\\\"\"");
        }
        other => panic!("expected the recorded failure, got {other:?}"),
    }
    assert_eq!(store.load(&execution()).unwrap().len(), events);
}

#[test]
fn another_version_is_not_recovered() {
    let mut store = MemoryJournal::new();
    let recorded = WorkflowVersion::new("0").unwrap();
    Execution::new(execution())
        .start(
            &mut store,
            WorkflowName::new("refusing").unwrap(),
            recorded.clone(),
            EventPayload::new(Vec::new()),
        )
        .unwrap();

    let result = Engine::<_, DuplicateLast>::new(&mut store).recover_and_run(
        execution(),
        &Refusing,
        EventPayload::new(Vec::new()),
        &mut clock(),
        &mut rng(),
    );

    match result {
        Err(RunError::Engine(error)) => assert_eq!(
            error,
            EngineError::VersionMismatch {
                recorded,
                current: WorkflowVersion::new("1").unwrap(),
            }
        ),
        other => panic!("expected a version mismatch, got {other:?}"),
    }
    assert_eq!(store.load(&execution()).unwrap().len(), 1);
}

/// Every append and every load fails.
struct Broken;

impl JournalStore for Broken {
    fn append(&mut self, _id: &ExecutionId, _event: JournalEvent) -> Result<SeqNum, JournalError> {
        Err(JournalError::Io {
            message: "disk full".to_owned(),
        })
    }

    fn load(&self, _id: &ExecutionId) -> Result<Journal, JournalError> {
        Err(JournalError::Codec {
            message: "not a record".to_owned(),
        })
    }
}

#[test]
fn a_failing_store_is_reported_and_runs_nothing() {
    let effects = RefCell::new(EffectTrace::new());
    let workflow = Onboarding {
        steps: 1,
        effects: &effects,
    };
    let mut engine = Engine::<_, DuplicateLast>::new(Broken);

    let started = engine.run(
        execution(),
        &workflow,
        EventPayload::new(Vec::new()),
        &mut clock(),
        &mut rng(),
    );
    let recovered = engine.recover_and_run(
        execution(),
        &workflow,
        EventPayload::new(Vec::new()),
        &mut clock(),
        &mut rng(),
    );

    assert!(matches!(
        started,
        Err(RunError::Engine(EngineError::Journal(JournalError::Io { .. })))
    ));
    assert!(matches!(
        recovered,
        Err(RunError::Engine(EngineError::Journal(JournalError::Codec { .. })))
    ));
    assert_eq!(effects.into_inner(), EffectTrace::new());
}

#[test]
fn commands_of_a_context_report_a_failing_store() {
    let mut first_clock = clock();
    let mut first_rng = rng();
    let mut ctx = WorkflowCtx::new(
        Broken,
        execution(),
        ReplayCursor::new(Journal::empty()),
        &mut first_clock,
        &mut first_rng,
    );
    let failure = || {
        EngineError::Journal(JournalError::Io {
            message: "disk full".to_owned(),
        })
    };

    assert_eq!(ctx.now(), Err(failure()));
    assert_eq!(ctx.random(), Err(failure()));
    assert_eq!(ctx.sleep_until(deadline()), Err(failure()));
}

#[test]
fn trimming_leaves_nothing_to_trim() {
    let name = WorkflowName::new("\u{3000}\tsign up\u{a0}\n").unwrap();
    assert_eq!(name.as_str(), "sign up");
    assert_eq!(WorkflowName::new(name.as_str()), Ok(name));
    // A zero-width space is no white space.
    let version = WorkflowVersion::new(" \u{200b}1 ").unwrap();
    assert_eq!(version.as_str(), "\u{200b}1");
    assert!(StepName::new("\u{2003}").is_err());
    assert_eq!(StepName::new("\u{2003}a-9 ").unwrap().as_str(), "a-9");
}

#[test]
fn an_execution_can_be_known_by_a_label() {
    let mut expected = [0u8; 16];
    expected[..10].copy_from_slice(b"onboarding");
    assert_eq!(execution().as_bytes(), &expected);
    assert_eq!(
        execution_id_from_seed("a label of more than sixteen bytes").as_bytes(),
        b"a label of more "
    );
    let mut source = SeededRng::from_label(b"onboarding");
    assert_eq!(ExecutionId::generate(&mut source), execution());
    let drawn: RandomBytes = source.next_bytes();
    assert_eq!(&drawn.as_bytes()[..10], b"onboarding");
    assert_eq!(&drawn.as_bytes()[10..], &[0u8; 22]);
}

#[test]
fn executions_have_files_of_their_own() {
    assert_ne!(
        journal_file_name(&execution_id_from_seed("a")),
        journal_file_name(&execution_id_from_seed("b"))
    );
}

#[test]
fn only_a_deadline_ahead_is_waited_for() {
    let at = Timestamp::from_millis_since_epoch;
    assert_eq!(remaining_wait(at(40), at(100)), Some(60));
    assert_eq!(remaining_wait(at(100), at(100)), None);
    assert_eq!(remaining_wait(at(101), at(100)), None);
}
