//! Crash injection. Each window where the engine can die between a side
//! effect and its journal record is named here. A `FailpointPolicy` decides,
//! per window, whether the engine continues or simulates process death.
//! Production uses `NeverCrash`. Tests use `CrashOnce`, and recover over the
//! same store afterwards.

use vstd::prelude::*;

use crate::journal::SeqNum;

verus! {

/// A window where the engine can die, at the command identified by its
/// `SeqNum`. Exhaustive by construction: the live paths of
/// `WorkflowCtx::step` and `WorkflowCtx::sleep_until` consult the policy at
/// each of these and nowhere else.
#[derive(Debug, Clone, Copy, PartialEq, Eq, Hash)]
pub enum CrashPoint {
    /// Before anything is journaled for this step.
    BeforeStepScheduled(SeqNum),
    /// `StepScheduled` durable, `StepStarted` not yet.
    AfterStepScheduled(SeqNum),
    /// `StepStarted` durable, the closure has not run.
    AfterStepStarted(SeqNum),
    /// The closure returned, so its side effect landed, and `StepCompleted`
    /// is not yet durable. Costs a duplicate effect on recovery.
    AfterSideEffect(SeqNum),
    /// `StepCompleted` durable. Recovery replays the step from the journal.
    AfterStepCompleted(SeqNum),
    /// `TimerScheduled` durable, the wait has not started.
    AfterTimerScheduled(SeqNum),
    /// `TimerFired` durable, the workflow has not resumed.
    AfterTimerFired(SeqNum),
}

/// A crash window as a mathematical value: the kind of window, and the
/// position of its command.
pub enum Window {
    BeforeStepScheduled(nat),
    AfterStepScheduled(nat),
    AfterStepStarted(nat),
    AfterSideEffect(nat),
    AfterStepCompleted(nat),
    AfterTimerScheduled(nat),
    AfterTimerFired(nat),
}

impl Window {
    /// The command position this window belongs to.
    pub open spec fn position(self) -> nat {
        match self {
            Window::BeforeStepScheduled(n) => n,
            Window::AfterStepScheduled(n) => n,
            Window::AfterStepStarted(n) => n,
            Window::AfterSideEffect(n) => n,
            Window::AfterStepCompleted(n) => n,
            Window::AfterTimerScheduled(n) => n,
            Window::AfterTimerFired(n) => n,
        }
    }
}

impl View for CrashPoint {
    type V = Window;

    open spec fn view(&self) -> Window {
        match self {
            CrashPoint::BeforeStepScheduled(seq) => Window::BeforeStepScheduled(seq@),
            CrashPoint::AfterStepScheduled(seq) => Window::AfterStepScheduled(seq@),
            CrashPoint::AfterStepStarted(seq) => Window::AfterStepStarted(seq@),
            CrashPoint::AfterSideEffect(seq) => Window::AfterSideEffect(seq@),
            CrashPoint::AfterStepCompleted(seq) => Window::AfterStepCompleted(seq@),
            CrashPoint::AfterTimerScheduled(seq) => Window::AfterTimerScheduled(seq@),
            CrashPoint::AfterTimerFired(seq) => Window::AfterTimerFired(seq@),
        }
    }
}

impl CrashPoint {
    /// The command position this window belongs to.
    pub fn seq(self) -> (r: SeqNum)
        ensures
            r@ == self@.position(),
    {
        match self {
            CrashPoint::BeforeStepScheduled(seq)
            | CrashPoint::AfterStepScheduled(seq)
            | CrashPoint::AfterStepStarted(seq)
            | CrashPoint::AfterSideEffect(seq)
            | CrashPoint::AfterStepCompleted(seq)
            | CrashPoint::AfterTimerScheduled(seq)
            | CrashPoint::AfterTimerFired(seq) => seq,
        }
    }

    /// Whether the two are the same window of the same command.
    pub fn same_window(&self, other: &CrashPoint) -> (r: bool)
        ensures
            r == (self@ == other@),
    {
        match (self, other) {
            (CrashPoint::BeforeStepScheduled(a), CrashPoint::BeforeStepScheduled(b)) => {
                a.get() == b.get()
            },
            (CrashPoint::AfterStepScheduled(a), CrashPoint::AfterStepScheduled(b)) => {
                a.get() == b.get()
            },
            (CrashPoint::AfterStepStarted(a), CrashPoint::AfterStepStarted(b)) => {
                a.get() == b.get()
            },
            (CrashPoint::AfterSideEffect(a), CrashPoint::AfterSideEffect(b)) => {
                a.get() == b.get()
            },
            (CrashPoint::AfterStepCompleted(a), CrashPoint::AfterStepCompleted(b)) => {
                a.get() == b.get()
            },
            (CrashPoint::AfterTimerScheduled(a), CrashPoint::AfterTimerScheduled(b)) => {
                a.get() == b.get()
            },
            (CrashPoint::AfterTimerFired(a), CrashPoint::AfterTimerFired(b)) => {
                a.get() == b.get()
            },
            _ => false,
        }
    }
}

/// What the engine does at a crash window.
#[derive(Debug, Clone, Copy, PartialEq, Eq)]
pub enum FailpointDecision {
    Continue,
    Crash,
}

/// Consulted by the engine at every `CrashPoint`.
pub trait FailpointPolicy {
    /// Whether this policy can ever decide to crash.
    open spec fn armed(&self) -> bool {
        true
    }

    /// Every window this policy was consulted at, oldest first, with its
    /// decision.
    closed spec fn consulted(&self) -> Seq<(Window, FailpointDecision)> {
        arbitrary()
    }

    /// The decisions of this policy that are settled beforehand, until it
    /// crashes a run.
    open spec fn decides(&self) -> Map<Window, FailpointDecision> {
        Map::empty()
    }

    /// What has to hold before this kind of policy is consulted at `window`,
    /// the one after a side effect. A policy may give this a meaning; by
    /// default it asks for nothing.
    open spec fn admits(window: Window) -> bool {
        true
    }

    /// What holds once this kind of policy has let a run pass `window`. A
    /// policy may give this a meaning; by default it has none.
    open spec fn passed(window: Window) -> bool {
        true
    }

    fn at(&mut self, point: CrashPoint) -> (r: FailpointDecision)
        requires
            point@ is AfterSideEffect ==> Self::admits(point@),
        ensures
            final(self).armed() == old(self).armed(),
            final(self).consulted() == old(self).consulted().push((point@, r)),
            r is Crash ==> old(self).armed(),
            old(self).decides().contains_key(point@) ==> r == old(self).decides()[point@],
            r is Continue ==> final(self).decides() == old(self).decides(),
            r is Continue ==> Self::passed(point@),
    ;
}

impl<P: FailpointPolicy> FailpointPolicy for &mut P {
    open spec fn armed(&self) -> bool {
        (**self).armed()
    }

    open spec fn consulted(&self) -> Seq<(Window, FailpointDecision)> {
        (**self).consulted()
    }

    open spec fn decides(&self) -> Map<Window, FailpointDecision> {
        (**self).decides()
    }

    open spec fn admits(window: Window) -> bool {
        P::admits(window)
    }

    open spec fn passed(window: Window) -> bool {
        P::passed(window)
    }

    fn at(&mut self, point: CrashPoint) -> (r: FailpointDecision) {
        (**self).at(point)
    }
}

/// What a policy decides that lets every run pass every window.
pub open spec fn never_crashes() -> Map<Window, FailpointDecision> {
    Map::new(|window: Window| true, |window: Window| FailpointDecision::Continue)
}

/// Production policy: the engine never simulates its own death.
#[derive(Clone, Copy)]
pub struct NeverCrash {
    consulted: Ghost<Seq<(Window, FailpointDecision)>>,
}

impl NeverCrash {
    pub fn new() -> (r: Self)
        ensures
            r.consulted() == Seq::<(Window, FailpointDecision)>::empty(),
    {
        Self { consulted: Ghost(Seq::empty()) }
    }
}

impl Default for NeverCrash {
    fn default() -> (r: Self)
        ensures
            r.consulted() == Seq::<(Window, FailpointDecision)>::empty(),
    {
        Self::new()
    }
}

impl FailpointPolicy for NeverCrash {
    open spec fn armed(&self) -> bool {
        false
    }

    closed spec fn consulted(&self) -> Seq<(Window, FailpointDecision)> {
        self.consulted@
    }

    open spec fn decides(&self) -> Map<Window, FailpointDecision> {
        never_crashes()
    }

    fn at(&mut self, point: CrashPoint) -> (r: FailpointDecision)
        ensures
            r is Continue,
    {
        self.consulted = Ghost(self.consulted@.push((point@, FailpointDecision::Continue)));
        FailpointDecision::Continue
    }
}

/// Test policy: crashes the first time the engine reaches `at`, and lets
/// every later window through. One value can therefore drive both the
/// crashing run and a reused recovery run.
pub struct CrashOnce {
    at: CrashPoint,
    fired: bool,
    consulted: Ghost<Seq<(Window, FailpointDecision)>>,
}

/// What a policy decides that crashes once, at `target`, and may have `fired`
/// before.
pub open spec fn decides_once(target: Window, fired: bool) -> Map<Window, FailpointDecision> {
    Map::new(
        |window: Window| true,
        |window: Window|
            if window == target && !fired {
                FailpointDecision::Crash
            } else {
                FailpointDecision::Continue
            },
    )
}

impl CrashOnce {
    /// The window this policy crashes at.
    pub closed spec fn target(&self) -> Window {
        self.at@
    }

    /// Whether this policy has crashed the engine.
    pub closed spec fn fired(&self) -> bool {
        self.fired
    }

    pub fn new(at: CrashPoint) -> (r: Self)
        ensures
            r.target() == at@,
            !r.fired(),
            r.consulted() == Seq::<(Window, FailpointDecision)>::empty(),
    {
        Self { at, fired: false, consulted: Ghost(Seq::empty()) }
    }

    /// True once the policy has crashed the engine.
    pub fn has_fired(&self) -> (r: bool)
        ensures
            r == self.fired(),
    {
        self.fired
    }
}

impl FailpointPolicy for CrashOnce {
    open spec fn armed(&self) -> bool {
        true
    }

    closed spec fn consulted(&self) -> Seq<(Window, FailpointDecision)> {
        self.consulted@
    }

    open spec fn decides(&self) -> Map<Window, FailpointDecision> {
        decides_once(self.target(), self.fired())
    }

    fn at(&mut self, point: CrashPoint) -> (r: FailpointDecision)
        ensures
            r is Crash <==> point@ == old(self).target() && !old(self).fired(),
            final(self).target() == old(self).target(),
            final(self).fired() == (old(self).fired() || r is Crash),
    {
        if point.same_window(&self.at) && !self.fired {
            self.fired = true;
            self.consulted = Ghost(self.consulted@.push((point@, FailpointDecision::Crash)));
            return FailpointDecision::Crash;
        }
        self.consulted = Ghost(self.consulted@.push((point@, FailpointDecision::Continue)));
        FailpointDecision::Continue
    }
}

/// Whether an injected crash fired during a run. The engine consults this
/// after `Workflow::run` returns: a crash stands for process death, so no
/// terminal event may be journaled regardless of the workflow's own result.
#[derive(Debug, Clone, Copy, PartialEq, Eq)]
pub enum CrashStatus {
    Intact,
    Crashed(CrashPoint),
}

impl View for CrashStatus {
    type V = Option<Window>;

    open spec fn view(&self) -> Option<Window> {
        match self {
            CrashStatus::Intact => None,
            CrashStatus::Crashed(point) => Some(point@),
        }
    }
}

/// A crash point belongs to the command that it was made for, whatever its
/// window.
pub proof fn crash_points_belong_to_their_commands(seq: SeqNum, point: CrashPoint, r: SeqNum)
    requires
        point == CrashPoint::BeforeStepScheduled(seq) || point == CrashPoint::AfterStepScheduled(
            seq,
        ) || point == CrashPoint::AfterStepStarted(seq) || point == CrashPoint::AfterSideEffect(seq)
            || point == CrashPoint::AfterStepCompleted(seq) || point
            == CrashPoint::AfterTimerScheduled(seq) || point == CrashPoint::AfterTimerFired(seq),
        call_ensures(CrashPoint::seq, (point,), r),
    ensures
        r@ == seq@,
        point@.position() == seq@,
{
}

/// Two crash points are the same window exactly if they have the same name
/// and belong to the same command.
pub proof fn crash_points_are_told_apart(
    a: CrashPoint,
    b: CrashPoint,
    r: bool,
    x: SeqNum,
    y: SeqNum,
)
    requires
        call_ensures(CrashPoint::same_window, (&a, &b), r),
        call_ensures(CrashPoint::seq, (a,), x),
        call_ensures(CrashPoint::seq, (b,), y),
    ensures
        r == (x@ == y@ && (a is BeforeStepScheduled <==> b is BeforeStepScheduled) && (
        a is AfterStepScheduled <==> b is AfterStepScheduled) && (a is AfterStepStarted
            <==> b is AfterStepStarted) && (a is AfterSideEffect <==> b is AfterSideEffect) && (
        a is AfterStepCompleted <==> b is AfterStepCompleted) && (a is AfterTimerScheduled
            <==> b is AfterTimerScheduled) && (a is AfterTimerFired <==> b is AfterTimerFired)),
{
}

/// A fresh `CrashOnce` is set to crash the run at its own window and at no
/// other, and one that has fired at none.
pub proof fn one_window_is_crashed(
    at: CrashPoint,
    policy: CrashOnce,
    spent: CrashOnce,
    window: Window,
)
    requires
        call_ensures(CrashOnce::new, (at,), policy),
        call_ensures(CrashOnce::has_fired, (&spent,), true),
    ensures
        policy.armed(),
        policy.decides().contains_key(window),
        policy.decides()[window] is Crash <==> window == at@,
        spent.decides().contains_key(window),
        spent.decides()[window] is Continue,
{
}

/// A `NeverCrash` lets every run pass every window.
pub proof fn no_window_is_crashed(policy: NeverCrash, window: Window)
    ensures
        !policy.armed(),
        policy.decides().contains_key(window),
        policy.decides()[window] is Continue,
{
}

} // verus!
