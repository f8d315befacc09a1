//! A workflow that branches on its input, on the clock and on the answer of
//! a step, crashed at every window of every branch and recovered.

use std::cell::RefCell;

use yaoki::context::EngineError;
use yaoki::context::WorkflowCtx;
use yaoki::engine::Engine;
use yaoki::engine::RunError;
use yaoki::engine::Workflow;
use yaoki::equivalence::DuplicateLast;
use yaoki::execution::execution_id_from_seed;
use yaoki::execution::ExecutionId;
use yaoki::execution::WorkflowName;
use yaoki::execution::WorkflowVersion;
use yaoki::failpoints::CrashOnce;
use yaoki::failpoints::CrashPoint;
use yaoki::failpoints::FailpointPolicy;
use yaoki::journal::EventPayload;
use yaoki::journal::JournalStore;
use yaoki::journal::SeqNum;
use yaoki::random::RngSource;
use yaoki::random::SeededRng;
use yaoki::step::StepError;
use yaoki::step::StepErrorRecord;
use yaoki::step::StepName;
use yaoki::stores::memory::MemoryJournal;
use yaoki::time::Clock;
use yaoki::time::Deadline;
use yaoki::time::TestClock;
use yaoki::time::Timestamp;

fn step_name(raw: &str) -> StepName {
    StepName::new(raw).unwrap()
}

fn execution() -> ExecutionId {
    execution_id_from_seed("delivery")
}

/// Express orders are shipped at once, others after a wait. By day the depot
/// is asked, which refuses; then, and by night, the courier is asked.
struct Delivery<'a> {
    effects: &'a RefCell<Vec<String>>,
}

impl Delivery<'_> {
    fn note(&self, what: &str) {
        self.effects.borrow_mut().push(what.to_owned());
    }
}

impl<S: JournalStore> Workflow<S> for Delivery<'_> {
    type Error = StepError;

    fn name(&self) -> WorkflowName {
        WorkflowName::new("delivery").unwrap()
    }

    fn version(&self) -> WorkflowVersion {
        WorkflowVersion::new("3").unwrap()
    }

    fn run<C: Clock, R: RngSource, P: FailpointPolicy>(
        &self,
        ctx: &mut WorkflowCtx<S, C, R, P>,
        input: EventPayload,
    ) -> Result<EventPayload, StepError> {
        if input.as_bytes() != b"express" {
            ctx.sleep_until(Deadline::at(Timestamp::from_millis_since_epoch(50)))?;
        }
        let by_day = ctx.now()?.as_millis_since_epoch() < 100;
        if by_day {
            let asked = ctx.step(step_name("ask-depot"), |_key| {
                self.note("depot");
                Err(StepErrorRecord::new("depot is full"))
            });
            match asked {
                Ok(answer) => return Ok(answer),
                Err(StepError::Failed(_)) => {}
                Err(error) => return Err(error),
            }
        }
        ctx.step(step_name("ask-courier"), |_key| {
            self.note("courier");
            Ok(EventPayload::new(b"courier".to_vec()))
        })
    }
}

fn run_with_crashes(input: &[u8], hour: u64, points: &[CrashPoint]) -> (Vec<String>, EventPayload) {
    let mut store = MemoryJournal::new();
    let effects = RefCell::new(Vec::new());
    let workflow = Delivery { effects: &effects };
    let input = EventPayload::new(input.to_vec());
    let mut clock = TestClock::at(Timestamp::from_millis_since_epoch(hour));
    for (run, point) in points.iter().enumerate() {
        let mut policy = CrashOnce::new(*point);
        let mut engine = Engine::<_, DuplicateLast, _>::with_failpoints(&mut store, &mut policy);
        let rng = SeededRng::from_label(b"unused");
        let crashed = if run == 0 {
            engine.run(execution(), &workflow, input.clone(), &mut clock, rng)
        } else {
            engine.recover_and_run(execution(), &workflow, input.clone(), &mut clock, rng)
        };
        match crashed {
            Err(RunError::Engine(EngineError::InjectedCrash(at))) => assert_eq!(at, *point),
            other => panic!("expected a crash at {point:?}, got {other:?}"),
        }
    }
    let mut engine = Engine::<_, DuplicateLast>::new(&mut store);
    let rng = SeededRng::from_label(b"unused");
    let output = if points.is_empty() {
        engine.run(execution(), &workflow, input, &mut clock, rng)
    } else {
        engine.recover_and_run(execution(), &workflow, input, &mut clock, rng)
    }
    .unwrap();
    (effects.into_inner(), output)
}

#[test]
fn every_branch_is_recovered_on_course() {
    for (input, hour) in [
        (&b"express"[..], 10),
        (b"express", 200),
        (b"standard", 10),
        (b"standard", 200),
    ] {
        let (reference, undisturbed) = run_with_crashes(input, hour, &[]);
        let waits = u64::from(input != b"express");
        let courier = SeqNum::from_index(waits + 1 + u64::from(hour < 100));
        for point in [
            CrashPoint::BeforeStepScheduled(courier),
            CrashPoint::AfterStepScheduled(courier),
            CrashPoint::AfterStepStarted(courier),
            CrashPoint::AfterStepCompleted(courier),
        ] {
            let (effects, output) = run_with_crashes(input, hour, &[point]);
            assert_eq!(effects, reference, "{point:?}");
            assert_eq!(output, undisturbed);
        }

        let lost = CrashPoint::AfterSideEffect(courier);
        let (effects, output) = run_with_crashes(input, hour, &[lost, lost]);
        assert_eq!(effects.len(), reference.len() + 2);
        assert_eq!(output, undisturbed);
    }
}

#[test]
fn the_branch_taken_before_a_crash_is_taken_again() {
    let mut store = MemoryJournal::new();
    let effects = RefCell::new(Vec::new());
    let workflow = Delivery { effects: &effects };
    let input = EventPayload::new(b"express".to_vec());
    let courier = SeqNum::from_index(2);
    let mut policy = CrashOnce::new(CrashPoint::BeforeStepScheduled(courier));
    let crashed = Engine::<_, DuplicateLast, _>::with_failpoints(&mut store, &mut policy).run(
        execution(),
        &workflow,
        input.clone(),
        TestClock::at(Timestamp::from_millis_since_epoch(10)),
        SeededRng::from_label(b"unused"),
    );
    assert!(crashed.is_err());

    // By the clock it is night now; the journal says that it was day.
    let output = Engine::<_, DuplicateLast>::new(&mut store)
        .recover_and_run(
            execution(),
            &workflow,
            input,
            TestClock::at(Timestamp::from_millis_since_epoch(500)),
            SeededRng::from_label(b"unused"),
        )
        .unwrap();

    assert_eq!(output, EventPayload::new(b"courier".to_vec()));
    assert_eq!(effects.into_inner(), ["depot", "courier"]);
}
