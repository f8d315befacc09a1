//! The order in which a live command calls on the store, the clock, the
//! failpoints and the closure of a step.

use std::cell::RefCell;

use yaoki::context::ReplayCursor;
use yaoki::context::WorkflowCtx;
use yaoki::execution::execution_id_from_seed;
use yaoki::execution::ExecutionId;
use yaoki::failpoints::CrashPoint;
use yaoki::failpoints::FailpointDecision;
use yaoki::failpoints::FailpointPolicy;
use yaoki::journal::EventPayload;
use yaoki::journal::Journal;
use yaoki::journal::JournalError;
use yaoki::journal::JournalEvent;
use yaoki::journal::JournalStore;
use yaoki::journal::SeqNum;
use yaoki::random::SeededRng;
use yaoki::step::Attempt;
use yaoki::step::StepErrorRecord;
use yaoki::step::StepName;
use yaoki::stores::memory::MemoryJournal;
use yaoki::time::Clock;
use yaoki::time::Deadline;
use yaoki::time::Timestamp;

type Log = RefCell<Vec<String>>;

fn note(log: &Log, what: String) {
    log.borrow_mut().push(what);
}

struct LoggedStore<'a> {
    log: &'a Log,
    journals: MemoryJournal,
}

fn label(event: &JournalEvent) -> &'static str {
    match event {
        JournalEvent::StepScheduled { .. } => "StepScheduled",
        JournalEvent::StepStarted { .. } => "StepStarted",
        JournalEvent::StepCompleted { .. } => "StepCompleted",
        JournalEvent::StepFailed { .. } => "StepFailed",
        JournalEvent::TimerScheduled { .. } => "TimerScheduled",
        JournalEvent::TimerFired { .. } => "TimerFired",
        _ => "other",
    }
}

impl JournalStore for LoggedStore<'_> {
    fn append(&mut self, id: &ExecutionId, event: JournalEvent) -> Result<SeqNum, JournalError> {
        note(self.log, format!("append {}", label(&event)));
        self.journals.append(id, event)
    }

    fn load(&self, id: &ExecutionId) -> Result<Journal, JournalError> {
        self.journals.load(id)
    }
}

struct LoggedClock<'a>(&'a Log);

impl Clock for LoggedClock<'_> {
    fn now(&mut self) -> Timestamp {
        note(self.0, "now".to_owned());
        Timestamp::from_millis_since_epoch(7)
    }

    fn sleep_until(&mut self, _deadline: Timestamp) {
        note(self.0, "wait".to_owned());
    }
}

struct LoggedPolicy<'a>(&'a Log);

impl FailpointPolicy for LoggedPolicy<'_> {
    fn at(&mut self, point: CrashPoint) -> FailpointDecision {
        let window = match point {
            CrashPoint::BeforeStepScheduled(_) => "BeforeStepScheduled",
            CrashPoint::AfterStepScheduled(_) => "AfterStepScheduled",
            CrashPoint::AfterStepStarted(_) => "AfterStepStarted",
            CrashPoint::AfterSideEffect(_) => "AfterSideEffect",
            CrashPoint::AfterStepCompleted(_) => "AfterStepCompleted",
            CrashPoint::AfterTimerScheduled(_) => "AfterTimerScheduled",
            CrashPoint::AfterTimerFired(_) => "AfterTimerFired",
        };
        note(self.0, format!("at {window}"));
        FailpointDecision::Continue
    }
}

fn context<'a>(
    log: &'a Log,
    events: Vec<JournalEvent>,
) -> WorkflowCtx<LoggedStore<'a>, LoggedClock<'a>, SeededRng, LoggedPolicy<'a>> {
    WorkflowCtx::with_failpoints(
        LoggedStore {
            log,
            journals: MemoryJournal::new(),
        },
        execution_id_from_seed("order"),
        ReplayCursor::new(Journal::new(events)),
        LoggedClock(log),
        SeededRng::from_label(b"order"),
        LoggedPolicy(log),
    )
}

fn name() -> StepName {
    StepName::new("charge-card").unwrap()
}

#[test]
fn a_fresh_step_calls_in_order() {
    let log = Log::default();
    context(&log, Vec::new())
        .step(name(), |_key| {
            note(&log, "closure".to_owned());
            Ok(EventPayload::new(Vec::new()))
        })
        .unwrap();

    assert_eq!(
        log.into_inner(),
        [
            "at BeforeStepScheduled",
            "append StepScheduled",
            "at AfterStepScheduled",
            "append StepStarted",
            "at AfterStepStarted",
            "closure",
            "at AfterSideEffect",
            "append StepCompleted",
            "at AfterStepCompleted",
        ]
    );
}

#[test]
fn a_retried_step_starts_with_its_attempt() {
    let log = Log::default();
    let seq = SeqNum::zero();
    let events = vec![
        JournalEvent::StepScheduled { seq, name: name() },
        JournalEvent::StepStarted {
            seq,
            attempt: Attempt::first(),
        },
    ];
    context(&log, events)
        .step(name(), |_key| {
            note(&log, "closure".to_owned());
            Ok(EventPayload::new(Vec::new()))
        })
        .unwrap();

    assert_eq!(
        log.into_inner(),
        [
            "append StepStarted",
            "at AfterStepStarted",
            "closure",
            "at AfterSideEffect",
            "append StepCompleted",
            "at AfterStepCompleted",
        ]
    );
}

#[test]
fn a_failing_step_comes_to_no_window_after_its_closure() {
    let log = Log::default();
    let result = context(&log, Vec::new()).step(name(), |_key| {
        note(&log, "closure".to_owned());
        Err(StepErrorRecord::new("card declined"))
    });

    assert!(result.is_err());
    assert_eq!(
        log.into_inner(),
        [
            "at BeforeStepScheduled",
            "append StepScheduled",
            "at AfterStepScheduled",
            "append StepStarted",
            "at AfterStepStarted",
            "closure",
            "append StepFailed",
        ]
    );
}

#[test]
fn a_timer_fires_after_the_wait() {
    let log = Log::default();
    let deadline = Deadline::at(Timestamp::from_millis_since_epoch(9));
    context(&log, Vec::new()).sleep_until(deadline).unwrap();

    assert_eq!(
        log.into_inner(),
        [
            "append TimerScheduled",
            "at AfterTimerScheduled",
            "wait",
            "append TimerFired",
            "at AfterTimerFired",
        ]
    );
}

#[test]
fn a_rearmed_timer_waits_before_it_fires() {
    let log = Log::default();
    let deadline = Deadline::at(Timestamp::from_millis_since_epoch(9));
    let events = vec![JournalEvent::TimerScheduled {
        seq: SeqNum::zero(),
        deadline,
    }];
    context(&log, events).sleep_until(deadline).unwrap();

    assert_eq!(
        log.into_inner(),
        ["wait", "append TimerFired", "at AfterTimerFired"]
    );
}
