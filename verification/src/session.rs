//! The decisions of the `snapshot` and `record` commands, as a state machine.
//!
//! The host (the Tauri command) performs each [`Action`] the session hands it and
//! reports what happened as an [`Event`]; the session decides what comes next.
//! Capturing is bracketed by arming (occlusion detection off, a pause for rendering
//! to resume) and disarming (occlusion detection restored): once arming was asked
//! for, the session always disarms before it finishes, also when arming failed
//! (detection may already have been switched off when the pause failed).

use vstd::prelude::*;
use crate::error::{Error, ErrorView};
use crate::frames::{frame_path, frame_path_spec};

verus! {

/// Upper bound on the number of frames one recording captures.
pub const MAX_FRAMES: u32 = 600;

/// Where a session's captures go.
pub enum Plan {
    /// One capture, into the PNG file at this path.
    Single(String),
    /// A burst of frames `dir/f0000.png`, `dir/f0001.png`, ..., with a pause between frames.
    Frames { dir: String, interval_ms: u64 },
}

/// What a contract sees of a [`Plan`].
pub enum PlanView {
    Single(Seq<char>),
    Frames { dir: Seq<char>, interval_ms: u64 },
}

impl View for Plan {
    type V = PlanView;

    open spec fn view(&self) -> PlanView {
        match self {
            Plan::Single(p) => PlanView::Single(p@),
            Plan::Frames { dir, interval_ms } => PlanView::Frames { dir: dir@, interval_ms: *interval_ms },
        }
    }
}

/// The file that capture number `i` of a plan writes.
pub open spec fn target_path(plan: PlanView, i: nat) -> Seq<char> {
    match plan {
        PlanView::Single(p) => p,
        PlanView::Frames { dir, .. } => frame_path_spec(dir, i),
    }
}

/// The pause between two frames of a plan.
pub open spec fn pause_of(plan: PlanView) -> u64 {
    match plan {
        PlanView::Single(_) => 0,
        PlanView::Frames { interval_ms, .. } => interval_ms,
    }
}

/// Where a session stands.
#[derive(PartialEq, Eq, Structural, Clone, Copy)]
pub enum Phase {
    /// Waiting for arming to complete.
    Arming,
    /// Waiting for the capture of frame `next`.
    Capturing,
    /// Waiting out the pause before frame `next`.
    Pausing,
    /// Waiting for occlusion detection to be restored.
    Disarming,
    /// The command's result has been handed out.
    Finished,
}

/// What the host is asked to do next.
pub enum Action {
    /// Turn occlusion detection off and give rendering time to resume.
    Arm,
    /// Capture the webview into the PNG file at this path.
    Capture(String),
    /// Sleep this many milliseconds.
    Pause(u64),
    /// Restore occlusion detection.
    Disarm,
    /// The command is over: the number of frames captured, or the error.
    Finish(Result<u32, Error>),
}

/// What a contract sees of a session's result.
pub open spec fn finish_view(r: Result<u32, Error>) -> Result<u32, ErrorView> {
    match r {
        Ok(n) => Ok(n),
        Err(e) => Err(e@),
    }
}

/// What a contract sees of an [`Action`].
pub enum Step {
    Arm,
    Capture(Seq<char>),
    Pause(u64),
    Disarm,
    Finish(Result<u32, ErrorView>),
}

impl View for Action {
    type V = Step;

    open spec fn view(&self) -> Step {
        match self {
            Action::Arm => Step::Arm,
            Action::Capture(p) => Step::Capture(p@),
            Action::Pause(ms) => Step::Pause(*ms),
            Action::Disarm => Step::Disarm,
            Action::Finish(r) => Step::Finish(finish_view(*r)),
        }
    }
}

/// What the host reports back after performing an action.
pub enum Event {
    /// Arming finished, or failed with this message.
    Armed(Result<(), String>),
    /// The capture finished, or failed with this message.
    Captured(Result<(), String>),
    /// The pause is over.
    Paused,
    /// Occlusion detection has been restored.
    Disarmed,
}

/// What a contract sees of an [`Event`].
pub enum Report {
    Armed(Result<(), Seq<char>>),
    Captured(Result<(), Seq<char>>),
    Paused,
    Disarmed,
}

impl View for Event {
    type V = Report;

    open spec fn view(&self) -> Report {
        match self {
            Event::Armed(Ok(())) => Report::Armed(Ok(())),
            Event::Armed(Err(m)) => Report::Armed(Err(m@)),
            Event::Captured(Ok(())) => Report::Captured(Ok(())),
            Event::Captured(Err(m)) => Report::Captured(Err(m@)),
            Event::Paused => Report::Paused,
            Event::Disarmed => Report::Disarmed,
        }
    }
}

/// The abstract state of a capture session.
pub struct SessionState {
    pub plan: PlanView,
    /// How many frames the session captures when nothing fails.
    pub total: u32,
    /// The frame captured next (while capturing or pausing), or the number captured so far.
    pub next: u32,
    pub phase: Phase,
    /// The first failure's message, if any.
    pub failure: Option<Seq<char>>,
}

impl SessionState {
    /// The states a session can be in: the frame counter never passes the total,
    /// and a frame is pending only while one is left to take.
    pub open spec fn wf(self) -> bool {
        &&& self.next <= self.total
        &&& (self.phase == Phase::Capturing || self.phase == Phase::Pausing) ==> self.next < self.total
        &&& self.phase == Phase::Pausing ==> self.next > 0
        &&& self.failure is Some ==> (self.phase == Phase::Disarming || self.phase == Phase::Finished)
        &&& (self.phase == Phase::Disarming || self.phase == Phase::Finished) && self.failure is None
            ==> self.next == self.total
    }
}

/// The result a session finishes with.
pub open spec fn outcome(s: SessionState) -> Result<u32, ErrorView> {
    match s.failure {
        Some(m) => Err(ErrorView::Capture(m)),
        None => Ok(s.total),
    }
}

/// The action that a session in state `s` is waiting on.
pub open spec fn pending(s: SessionState) -> Step {
    match s.phase {
        Phase::Arming => Step::Arm,
        Phase::Capturing => Step::Capture(target_path(s.plan, s.next as nat)),
        Phase::Pausing => Step::Pause(pause_of(s.plan)),
        Phase::Disarming => Step::Disarm,
        Phase::Finished => Step::Finish(outcome(s)),
    }
}

/// One step of a session: the next state and the next action, given the host's report.
/// A report that does not answer the pending action changes nothing, and the pending
/// action is asked for again.
pub open spec fn transition(s: SessionState, r: Report) -> (SessionState, Step) {
    match (s.phase, r) {
        (Phase::Arming, Report::Armed(Err(m))) => {
            let t = SessionState { phase: Phase::Disarming, failure: Some(m), ..s };
            (t, Step::Disarm)
        },
        (Phase::Arming, Report::Armed(Ok(()))) => {
            if s.total == 0 {
                let t = SessionState { phase: Phase::Disarming, next: 0, ..s };
                (t, Step::Disarm)
            } else {
                let t = SessionState { phase: Phase::Capturing, next: 0, ..s };
                (t, Step::Capture(target_path(s.plan, 0)))
            }
        },
        (Phase::Capturing, Report::Captured(Err(m))) => {
            let t = SessionState { phase: Phase::Disarming, failure: Some(m), ..s };
            (t, Step::Disarm)
        },
        (Phase::Capturing, Report::Captured(Ok(()))) => {
            if s.next + 1 < s.total {
                let t = SessionState { phase: Phase::Pausing, next: (s.next + 1) as u32, ..s };
                (t, Step::Pause(pause_of(s.plan)))
            } else {
                let t = SessionState { phase: Phase::Disarming, next: (s.next + 1) as u32, ..s };
                (t, Step::Disarm)
            }
        },
        (Phase::Pausing, Report::Paused) => {
            let t = SessionState { phase: Phase::Capturing, ..s };
            (t, Step::Capture(target_path(s.plan, s.next as nat)))
        },
        (Phase::Disarming, Report::Disarmed) => {
            let t = SessionState { phase: Phase::Finished, ..s };
            (t, Step::Finish(outcome(t)))
        },
        _ => (s, pending(s)),
    }
}

/// The bound on frames that a `record` of `frames` frames captures.
pub open spec fn frames_to_record(frames: u32) -> u32 {
    if frames < MAX_FRAMES { frames } else { MAX_FRAMES }
}

/// The part of a session that changes as it runs.
struct Progress {
    next: u32,
    phase: Phase,
    failure: Option<String>,
}

/// A capture session of the `snapshot` or `record` command.
pub struct CaptureSession {
    plan: Plan,
    total: u32,
    progress: Progress,
}

impl View for CaptureSession {
    type V = SessionState;

    closed spec fn view(&self) -> SessionState {
        SessionState {
            plan: self.plan@,
            total: self.total,
            next: self.progress.next,
            phase: self.progress.phase,
            failure: match self.progress.failure {
                Some(m) => Some(m@),
                None => None,
            },
        }
    }
}

impl CaptureSession {
    #[verifier::type_invariant]
    closed spec fn inv(self) -> bool {
        self@.wf()
    }

    /// A session that captures the webview once, into the PNG file at `path`.
    /// Its first action is [`Action::Arm`].
    pub fn single(path: String) -> (r: (CaptureSession, Action))
        ensures
            r.0@ == initial(PlanView::Single(path@), 1),
            r.1@ == Step::Arm,
            r.0@.wf(),
    {
        (
            CaptureSession {
                plan: Plan::Single(path),
                total: 1,
                progress: Progress { next: 0, phase: Phase::Arming, failure: None },
            },
            Action::Arm,
        )
    }

    /// A session that records `frames` frames (at most [`MAX_FRAMES`]) into
    /// `dir/f0000.png`, `dir/f0001.png`, ..., pausing `interval_ms` between frames.
    /// Its first action is [`Action::Arm`].
    pub fn frames(dir: String, frames: u32, interval_ms: u64) -> (r: (CaptureSession, Action))
        ensures
            r.0@ == initial(PlanView::Frames { dir: dir@, interval_ms }, frames_to_record(frames)),
            r.1@ == Step::Arm,
            r.0@.wf(),
    {
        let total = if frames < MAX_FRAMES { frames } else { MAX_FRAMES };
        (CaptureSession {
            plan: Plan::Frames { dir, interval_ms },
            total,
            progress: Progress { next: 0, phase: Phase::Arming, failure: None },
        }, Action::Arm)
    }

    /// The path of capture number `i`.
    fn target(&self, i: u32) -> (p: String)
        ensures
            p@ == target_path(self.plan@, i as nat),
    {
        match &self.plan {
            Plan::Single(p) => p.clone(),
            Plan::Frames { dir, .. } => frame_path(dir.as_str(), i),
        }
    }

    fn pause(&self) -> (ms: u64)
        ensures
            ms == pause_of(self.plan@),
    {
        match &self.plan {
            Plan::Single(_) => 0,
            Plan::Frames { interval_ms, .. } => *interval_ms,
        }
    }

    fn result(&self) -> (r: Result<u32, Error>)
        ensures
            finish_view(r) == outcome(self@),
    {
        match &self.progress.failure {
            Some(m) => Err(Error::Capture(m.clone())),
            None => Ok(self.total),
        }
    }

    fn pending_action(&self) -> (a: Action)
        ensures
            a@ == pending(self@),
    {
        match self.progress.phase {
            Phase::Arming => Action::Arm,
            Phase::Capturing => Action::Capture(self.target(self.progress.next)),
            Phase::Pausing => Action::Pause(self.pause()),
            Phase::Disarming => Action::Disarm,
            Phase::Finished => Action::Finish(self.result()),
        }
    }

    /// Takes the host's report on the last action and returns the next action.
    pub fn step(&mut self, event: Event) -> (a: Action)
        ensures
            (final(self)@, a@) == transition(old(self)@, event@),
            final(self)@.wf(),
    {
        proof {
            use_type_invariant(&*self);
        }
        let a = match (self.progress.phase, event) {
            (Phase::Arming, Event::Armed(Err(m))) => {
                self.progress = Progress { next: self.progress.next, phase: Phase::Disarming, failure: Some(m) };
                Action::Disarm
            },
            (Phase::Arming, Event::Armed(Ok(()))) => {
                if self.total == 0 {
                    self.progress = Progress { next: 0, phase: Phase::Disarming, failure: None };
                    Action::Disarm
                } else {
                    self.progress = Progress { next: 0, phase: Phase::Capturing, failure: None };
                    Action::Capture(self.target(0))
                }
            },
            (Phase::Capturing, Event::Captured(Err(m))) => {
                self.progress = Progress { next: self.progress.next, phase: Phase::Disarming, failure: Some(m) };
                Action::Disarm
            },
            (Phase::Capturing, Event::Captured(Ok(()))) => {
                let done = self.progress.next + 1;
                if done < self.total {
                    self.progress = Progress { next: done, phase: Phase::Pausing, failure: None };
                    Action::Pause(self.pause())
                } else {
                    self.progress = Progress { next: done, phase: Phase::Disarming, failure: None };
                    Action::Disarm
                }
            },
            (Phase::Pausing, Event::Paused) => {
                self.progress = Progress { next: self.progress.next, phase: Phase::Capturing, failure: None };
                Action::Capture(self.target(self.progress.next))
            },
            (Phase::Disarming, Event::Disarmed) => {
                self.progress.phase = Phase::Finished;
                Action::Finish(self.result())
            },
            _ => self.pending_action(),
        };
        proof {
            use_type_invariant(&*self);
        }
        a
    }
}

/// Every step keeps a session in the states it can be in.
pub proof fn lemma_transition_wf(s: SessionState, r: Report)
    requires
        s.wf(),
    ensures
        transition(s, r).0.wf(),
{
}

/// Occlusion detection is always restored: a session finishes only from the
/// disarming phase, on the host's report that it disarmed, whether arming and the
/// captures succeeded or not.
pub proof fn lemma_finish_only_after_disarm(s: SessionState, r: Report)
    requires
        s.wf(),
        s.phase != Phase::Finished,
        transition(s, r).1 is Finish,
    ensures
        s.phase == Phase::Disarming && r == Report::Disarmed,
{
}

/// A failed arming is answered by a request to disarm (detection may already be off),
/// and the session then finishes with the arming's failure.
pub proof fn lemma_failed_arming_disarms(s: SessionState, m: Seq<char>)
    requires
        s.wf(),
        s.phase == Phase::Arming,
    ensures
        transition(s, Report::Armed(Err(m))).1 == Step::Disarm,
        transition(transition(s, Report::Armed(Err(m))).0, Report::Disarmed).1 == Step::Finish(
            Err::<u32, ErrorView>(ErrorView::Capture(m)),
        ),
{
}

/// The disarming phase is entered only by an action that asks the host to disarm.
pub proof fn lemma_disarming_begins_with_disarm(s: SessionState, r: Report)
    requires
        s.wf(),
        s.phase != Phase::Disarming,
        transition(s, r).0.phase == Phase::Disarming,
    ensures
        transition(s, r).1 == Step::Disarm,
{
}

/// Captures go to the plan's files in frame order, and only while frames are left:
/// the capture asked for is that of frame `next` of the new state, below the total.
/// After a failure no capture is asked for.
pub proof fn lemma_capture_targets(s: SessionState, r: Report)
    requires
        s.wf(),
        transition(s, r).1 is Capture,
    ensures
        transition(s, r).1 == Step::Capture(target_path(s.plan, transition(s, r).0.next as nat)),
        transition(s, r).0.next < transition(s, r).0.total,
        transition(s, r).0.phase == Phase::Capturing,
        s.failure is None,
{
}

/// A recording never captures more than [`MAX_FRAMES`] frames.
pub proof fn lemma_record_bound(frames: u32)
    ensures
        frames_to_record(frames) <= MAX_FRAMES,
        frames <= MAX_FRAMES ==> frames_to_record(frames) == frames,
{
}

/// A pause comes only between two frames: after at least one capture, with another left.
pub proof fn lemma_pause_between_frames(s: SessionState, r: Report)
    requires
        s.wf(),
        transition(s, r).1 is Pause,
    ensures
        0 < transition(s, r).0.next < transition(s, r).0.total,
        transition(s, r).0.phase == Phase::Pausing,
{
}

/// A session succeeds only when every frame was captured: it finishes with `Ok(n)` only
/// when no step failed, and then `n` is the total and every frame below it was taken.
/// A failure is reported with the first failure's message.
pub proof fn lemma_finish_outcome(s: SessionState, r: Report)
    requires
        s.wf(),
        transition(s, r).1 is Finish,
    ensures
        transition(s, r).1 matches Step::Finish(Ok(n)) ==> (n == s.total && transition(s, r).0.next
            == s.total && transition(s, r).0.failure is None),
        transition(s, r).1 matches Step::Finish(Err(e)) ==> (transition(s, r).0.failure matches Some(
            m,
        ) && e == ErrorView::Capture(m)),
        s.failure is Some ==> transition(s, r).0.failure == s.failure,
{
}

/// The actions a session in state `s` hands out, one per report, for the reports `rs`.
pub open spec fn run(s: SessionState, rs: Seq<Report>) -> Seq<Step>
    decreases rs.len(),
{
    if rs.len() == 0 {
        Seq::empty()
    } else {
        let (t, a) = transition(s, rs[0]);
        seq![a] + run(t, rs.drop_first())
    }
}

/// The state a session starts in.
pub open spec fn initial(plan: PlanView, total: u32) -> SessionState {
    SessionState { plan, total, next: 0, phase: Phase::Arming, failure: None }
}

/// What the actions handed out so far say of a session in state `s`.
spec fn consistent_history(s: SessionState, before: Seq<Step>) -> bool {
    &&& s.phase != Phase::Finished ==> forall|j: int| 0 <= j < before.len() ==> !(before[j] is Finish)
    &&& s.phase == Phase::Disarming ==> exists|j: int| 0 <= j < before.len() && before[j] == Step::Disarm
    &&& s.phase == Phase::Finished ==> exists|j: int| 0 <= j < before.len() && before[j] is Finish
}

/// The first finish of a history comes after a request to disarm.
pub open spec fn restores_before_finishing(steps: Seq<Step>) -> bool {
    forall|k: int|
        0 <= k < steps.len() && (#[trigger] steps[k]) is Finish && (forall|j: int|
            0 <= j < k ==> !(steps[j] is Finish)) ==> exists|j: int|
            0 <= j < k && steps[j] == Step::Disarm
}

proof fn lemma_run_restores(s: SessionState, rs: Seq<Report>, before: Seq<Step>)
    requires
        s.wf(),
        consistent_history(s, before),
        restores_before_finishing(before),
    ensures
        restores_before_finishing(before + run(s, rs)),
    decreases rs.len(),
{
    if rs.len() == 0 {
        assert(before + run(s, rs) == before);
    } else {
        let (t, a) = transition(s, rs[0]);
        let next = before.push(a);
        assert(before + run(s, rs) == next + run(t, rs.drop_first()));
        lemma_transition_wf(s, rs[0]);
        // the new state agrees with the longer history
        if t.phase == Phase::Disarming {
            if s.phase == Phase::Disarming {
                let j = choose|j: int| 0 <= j < before.len() && before[j] == Step::Disarm;
                assert(next[j] == Step::Disarm);
            } else {
                assert(next[before.len() as int] == Step::Disarm);
            }
        }
        if t.phase == Phase::Finished {
            if s.phase == Phase::Finished {
                let j = choose|j: int| 0 <= j < before.len() && before[j] is Finish;
                assert(next[j] is Finish);
            } else {
                assert(next[before.len() as int] is Finish);
            }
        }
        assert(consistent_history(t, next));
        // the new action keeps the property
        assert forall|k: int|
            0 <= k < next.len() && (#[trigger] next[k]) is Finish && (forall|j: int|
                0 <= j < k ==> !(next[j] is Finish)) implies exists|j: int|
            0 <= j < k && next[j] == Step::Disarm by {
            if k < before.len() {
                assert(before[k] is Finish);
                assert forall|j: int| 0 <= j < k implies !(before[j] is Finish) by {
                    assert(next[j] == before[j]);
                }
                let j = choose|j: int| 0 <= j < k && before[j] == Step::Disarm;
                assert(next[j] == Step::Disarm);
            } else {
                // k is the new action: a first finish
                assert(k == before.len());
                assert(a is Finish);
                if s.phase == Phase::Finished {
                    let j = choose|j: int| 0 <= j < before.len() && before[j] is Finish;
                    assert(next[j] is Finish);
                } else {
                    lemma_finish_only_after_disarm(s, rs[0]);
                    let j = choose|j: int| 0 <= j < before.len() && before[j] == Step::Disarm;
                    assert(next[j] == Step::Disarm);
                }
            }
        }
        lemma_run_restores(t, rs.drop_first(), next);
    }
}

/// Occlusion detection is always restored, over a whole session: whatever the host
/// reports, the first result a session hands out follows a request to disarm.
pub proof fn lemma_session_restores_occlusion(plan: PlanView, total: u32, rs: Seq<Report>)
    ensures
        restores_before_finishing(run(initial(plan, total), rs)),
{
    let s = initial(plan, total);
    let e = Seq::<Step>::empty();
    assert(consistent_history(s, e));
    lemma_run_restores(s, rs, e);
    assert(e + run(s, rs) == run(s, rs));
}

/// A recording pauses for exactly the interval it was given, between any two frames:
/// a step of a session recording into `dir` with interval `interval_ms` asks for no
/// pause of another length, and the plan never changes.
pub proof fn lemma_pause_is_the_interval(s: SessionState, r: Report, dir: Seq<char>, interval_ms: u64)
    requires
        s.plan == (PlanView::Frames { dir, interval_ms }),
    ensures
        transition(s, r).0.plan == s.plan,
        transition(s, r).1 is Pause ==> transition(s, r).1 == Step::Pause(interval_ms),
{
}

/// Over a whole recording started by `CaptureSession::frames(dir, n, interval_ms)`,
/// every pause the session asks for lasts `interval_ms`, whatever the host reports.
pub proof fn lemma_recording_pauses_are_the_interval(
    dir: Seq<char>,
    interval_ms: u64,
    total: u32,
    rs: Seq<Report>,
)
    ensures
        forall|k: int|
            0 <= k < run(initial(PlanView::Frames { dir, interval_ms }, total), rs).len()
                && (#[trigger] run(initial(PlanView::Frames { dir, interval_ms }, total), rs)[k]) is Pause
                ==> run(initial(PlanView::Frames { dir, interval_ms }, total), rs)[k] == Step::Pause(interval_ms),
{
    lemma_run_pauses(initial(PlanView::Frames { dir, interval_ms }, total), rs, dir, interval_ms);
}

proof fn lemma_run_pauses(s: SessionState, rs: Seq<Report>, dir: Seq<char>, interval_ms: u64)
    requires
        s.plan == (PlanView::Frames { dir, interval_ms }),
    ensures
        forall|k: int|
            0 <= k < run(s, rs).len() && (#[trigger] run(s, rs)[k]) is Pause ==> run(s, rs)[k]
                == Step::Pause(interval_ms),
    decreases rs.len(),
{
    if rs.len() > 0 {
        let (t, a) = transition(s, rs[0]);
        lemma_pause_is_the_interval(s, rs[0], dir, interval_ms);
        lemma_run_pauses(t, rs.drop_first(), dir, interval_ms);
        let out = run(s, rs);
        assert(out == seq![a] + run(t, rs.drop_first()));
        assert forall|k: int| 0 <= k < out.len() && (#[trigger] out[k]) is Pause implies out[k]
            == Step::Pause(interval_ms) by {
            if k > 0 {
                assert(out[k] == run(t, rs.drop_first())[k - 1]);
            }
        }
    }
}

} // verus!
