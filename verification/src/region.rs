//! The decisions of the `snapshot_region` command: which crop rectangle was asked
//! for, and a session that arms, grabs the (cropped) window image as PNG bytes,
//! always disarms (also after a failed arming), and hands the PNG back base64-encoded.

use vstd::prelude::*;
use base64::Engine as _;
use crate::error::{Error, ErrorView};

verus! {

/// The message of a request that gives some of the rectangle's coordinates but not all.
pub open spec fn partial_rect_message() -> Seq<char> {
    "rect 는 x/y/w/h 전부 또는 전부 생략"@
}

/// The crop rectangle of a region snapshot: all four of `x`, `y`, `w`, `h` (a rectangle),
/// or none of them (the whole window). Any other combination is refused.
pub fn select_rect<T>(x: Option<T>, y: Option<T>, w: Option<T>, h: Option<T>) -> (r: Result<
    Option<(T, T, T, T)>,
    Error,
>)
    ensures
        (x, y, w, h) matches (Some(a), Some(b), Some(c), Some(d)) ==> r == Ok::<
            Option<(T, T, T, T)>,
            Error,
        >(Some((a, b, c, d))),
        (x is None && y is None && w is None && h is None) ==> r == Ok::<
            Option<(T, T, T, T)>,
            Error,
        >(None),
        !(x is Some && y is Some && w is Some && h is Some) && !(x is None && y is None && w is None
            && h is None) ==> (r matches Err(e) && e@ == ErrorView::Capture(partial_rect_message())),
{
    match (x, y, w, h) {
        (Some(x), Some(y), Some(w), Some(h)) => Ok(Some((x, y, w, h))),
        (None, None, None, None) => Ok(None),
        _ => {
            proof {
                reveal_strlit("rect 는 x/y/w/h 전부 또는 전부 생략");
            }
            Err(Error::Capture(String::from_str("rect 는 x/y/w/h 전부 또는 전부 생략")))
        },
    }
}

/// The character of a six-bit value in the standard base64 alphabet `A-Z a-z 0-9 + /`.
pub open spec fn sextet_char(v: int) -> char {
    if v < 26 {
        (v + 65) as char
    } else if v < 52 {
        (v + 71) as char
    } else if v < 62 {
        (v - 4) as char
    } else if v == 62 {
        '+'
    } else {
        '/'
    }
}

/// The six-bit value of a character of the standard base64 alphabet.
pub open spec fn sextet_value(c: char) -> int {
    let n = c as int;
    if 65 <= n <= 90 {
        n - 65
    } else if 97 <= n <= 122 {
        n - 71
    } else if 48 <= n <= 57 {
        n + 4
    } else if c == '+' {
        62
    } else {
        63
    }
}

/// The four characters that encode the first `n` (1 to 3) of the bytes `a`, `b`, `c`;
/// missing bytes are 0, and missing characters are the padding `=`.
pub open spec fn base64_quad(a: int, b: int, c: int, n: nat) -> Seq<char> {
    seq![
        sextet_char(a / 4),
        sextet_char((a % 4) * 16 + b / 16),
        if n >= 2 { sextet_char((b % 16) * 4 + c / 64) } else { '=' },
        if n >= 3 { sextet_char(c % 64) } else { '=' },
    ]
}

/// The standard base64 encoding (RFC 4648 alphabet, `=` padding) of a byte sequence:
/// four characters for each group of three bytes, the last group padded.
pub open spec fn base64_standard(bytes: Seq<u8>) -> Seq<char>
    decreases bytes.len(),
{
    if bytes.len() == 0 {
        Seq::empty()
    } else if bytes.len() == 1 {
        base64_quad(bytes[0] as int, 0, 0, 1)
    } else if bytes.len() == 2 {
        base64_quad(bytes[0] as int, bytes[1] as int, 0, 2)
    } else {
        base64_quad(bytes[0] as int, bytes[1] as int, bytes[2] as int, 3) + base64_standard(bytes.skip(3))
    }
}

proof fn lemma_sextet_roundtrip(v: int)
    requires
        0 <= v < 64,
    ensures
        sextet_value(sextet_char(v)) == v,
        sextet_char(v) != '=',
{
}

/// Equal quads come from the same number of bytes, with the same values.
proof fn lemma_quad_injective(a: int, b: int, c: int, n: nat, a2: int, b2: int, c2: int, n2: nat)
    requires
        0 <= a < 256,
        0 <= b < 256,
        0 <= c < 256,
        0 <= a2 < 256,
        0 <= b2 < 256,
        0 <= c2 < 256,
        1 <= n <= 3,
        1 <= n2 <= 3,
        base64_quad(a, b, c, n) == base64_quad(a2, b2, c2, n2),
    ensures
        n == n2,
        a == a2,
        n >= 2 ==> b == b2,
        n >= 3 ==> c == c2,
{
    let q = base64_quad(a, b, c, n);
    let q2 = base64_quad(a2, b2, c2, n2);
    lemma_sextet_roundtrip(a / 4);
    lemma_sextet_roundtrip(a2 / 4);
    lemma_sextet_roundtrip((a % 4) * 16 + b / 16);
    lemma_sextet_roundtrip((a2 % 4) * 16 + b2 / 16);
    lemma_sextet_roundtrip((b % 16) * 4 + c / 64);
    lemma_sextet_roundtrip((b2 % 16) * 4 + c2 / 64);
    lemma_sextet_roundtrip(c % 64);
    lemma_sextet_roundtrip(c2 % 64);
    assert(q[0] == q2[0] && q[1] == q2[1] && q[2] == q2[2] && q[3] == q2[3]);
    assert(a / 4 == a2 / 4);
    assert((a % 4) * 16 + b / 16 == (a2 % 4) * 16 + b2 / 16);
    if n >= 2 {
        assert(n2 >= 2);
        assert((b % 16) * 4 + c / 64 == (b2 % 16) * 4 + c2 / 64);
    }
    if n >= 3 {
        assert(n2 >= 3);
        assert(c % 64 == c2 % 64);
    }
    if n2 >= 2 {
        assert(n >= 2);
    }
    if n2 >= 3 {
        assert(n >= 3);
    }
}

/// Four characters for each started group of three bytes.
pub proof fn lemma_base64_len(bytes: Seq<u8>)
    ensures
        base64_standard(bytes).len() == 4 * ((bytes.len() + 2) / 3),
    decreases bytes.len(),
{
    if bytes.len() >= 3 {
        lemma_base64_len(bytes.skip(3));
    }
}

/// The PNG bytes come back unchanged: different byte sequences never get the same
/// base64 text, so decoding the text gives back exactly the bytes that were encoded.
pub proof fn lemma_base64_injective(x: Seq<u8>, y: Seq<u8>)
    requires
        base64_standard(x) == base64_standard(y),
    ensures
        x == y,
    decreases x.len(),
{
    lemma_base64_len(x);
    lemma_base64_len(y);
    let ex = base64_standard(x);
    let ey = base64_standard(y);
    if x.len() == 0 {
        assert(y.len() == 0);
        assert(x =~= y);
    } else {
        assert(y.len() > 0);
        let nx: nat = if x.len() >= 3 { 3 } else { x.len() };
        let ny: nat = if y.len() >= 3 { 3 } else { y.len() };
        let qx = base64_quad(x[0] as int, if nx >= 2 { x[1] as int } else { 0 }, if nx >= 3 { x[2] as int } else { 0 }, nx);
        let qy = base64_quad(y[0] as int, if ny >= 2 { y[1] as int } else { 0 }, if ny >= 3 { y[2] as int } else { 0 }, ny);
        assert(ex.subrange(0, 4) =~= qx);
        assert(ey.subrange(0, 4) =~= qy);
        lemma_quad_injective(
            x[0] as int, if nx >= 2 { x[1] as int } else { 0 }, if nx >= 3 { x[2] as int } else { 0 }, nx,
            y[0] as int, if ny >= 2 { y[1] as int } else { 0 }, if ny >= 3 { y[2] as int } else { 0 }, ny,
        );
        if nx == 3 {
            assert(x.len() >= 3 && y.len() >= 3);
            assert(ex.skip(4) =~= base64_standard(x.skip(3)));
            assert(ey.skip(4) =~= base64_standard(y.skip(3)));
            lemma_base64_injective(x.skip(3), y.skip(3));
            assert(x =~= y) by {
                assert forall|i: int| 0 <= i < x.len() implies x[i] == y[i] by {
                    if i >= 3 {
                        assert(x[i] == x.skip(3)[i - 3]);
                        assert(y[i] == y.skip(3)[i - 3]);
                    }
                }
            }
        } else {
            assert(x.len() == y.len());
            assert(x =~= y);
        }
    }
}

/// The byte strings whose base64 encoding has a length that fits in `usize`.
pub open spec fn encodable(n: nat) -> bool {
    4 * ((n + 2) / 3) <= usize::MAX
}

/// Encodes `bytes` with `base64::engine::general_purpose::STANDARD.encode`. Claimed of
/// it: the result is the standard padded encoding of `bytes` (RFC 4648 alphabet, `=`
/// padding), as `base64_standard` writes it out. The crate panics when the encoding's
/// length does not fit in `usize`, which `requires` rules out.
#[verifier::external_body]
fn encode_base64(bytes: &[u8]) -> (s: String)
    requires
        encodable(bytes@.len()),
    ensures
        s@ == base64_standard(bytes@),
{
    base64::engine::general_purpose::STANDARD.encode(bytes)
}

/// Where a region session stands.
#[derive(PartialEq, Eq, Structural, Clone, Copy)]
pub enum RegionPhase {
    Arming,
    Grabbing,
    Disarming,
    Finished,
}

/// What the host is asked to do next in a region snapshot.
pub enum RegionAction {
    /// Turn occlusion detection off and give rendering time to resume.
    Arm,
    /// Capture the window and hand back the (cropped) image as PNG bytes.
    Grab,
    /// Restore occlusion detection.
    Disarm,
    /// The command is over: the PNG, base64-encoded, or the error.
    Finish(Result<String, Error>),
}

/// What a contract sees of a [`RegionAction`].
pub enum RegionStep {
    Arm,
    Grab,
    Disarm,
    Finish(Result<Seq<char>, ErrorView>),
}

impl View for RegionAction {
    type V = RegionStep;

    open spec fn view(&self) -> RegionStep {
        match self {
            RegionAction::Arm => RegionStep::Arm,
            RegionAction::Grab => RegionStep::Grab,
            RegionAction::Disarm => RegionStep::Disarm,
            RegionAction::Finish(Ok(s)) => RegionStep::Finish(Ok(s@)),
            RegionAction::Finish(Err(e)) => RegionStep::Finish(Err(e@)),
        }
    }
}

/// What the host reports back in a region snapshot.
pub enum RegionEvent {
    /// Arming finished, or failed with this message.
    Armed(Result<(), String>),
    /// The PNG bytes of the captured region, or the failure's message.
    Grabbed(Result<Vec<u8>, String>),
    /// Occlusion detection has been restored.
    Disarmed,
}

/// What a contract sees of a [`RegionEvent`].
pub enum RegionReport {
    Armed(Result<(), Seq<char>>),
    Grabbed(Result<Seq<u8>, Seq<char>>),
    Disarmed,
}

impl View for RegionEvent {
    type V = RegionReport;

    open spec fn view(&self) -> RegionReport {
        match self {
            RegionEvent::Armed(Ok(())) => RegionReport::Armed(Ok(())),
            RegionEvent::Armed(Err(m)) => RegionReport::Armed(Err(m@)),
            RegionEvent::Grabbed(Ok(b)) => RegionReport::Grabbed(Ok(b@)),
            RegionEvent::Grabbed(Err(m)) => RegionReport::Grabbed(Err(m@)),
            RegionEvent::Disarmed => RegionReport::Disarmed,
        }
    }
}

/// The abstract state of a region session.
pub struct RegionState {
    pub phase: RegionPhase,
    /// What the grab produced, once it is known.
    pub grabbed: Option<Result<Seq<u8>, Seq<char>>>,
}

impl RegionState {
    /// The states a region session can be in: what the session ends with (the grabbed
    /// bytes, or the failure of arming or grabbing) is known exactly from the disarming
    /// phase on, and grabbed bytes fit an encoding.
    pub open spec fn wf(self) -> bool {
        &&& (self.phase == RegionPhase::Arming || self.phase == RegionPhase::Grabbing)
            ==> self.grabbed is None
        &&& (self.phase == RegionPhase::Disarming || self.phase == RegionPhase::Finished)
            ==> self.grabbed is Some
        &&& self.grabbed matches Some(Ok(b)) ==> encodable(b.len())
    }
}

/// The result a region session finishes with.
pub open spec fn region_outcome(s: RegionState) -> Result<Seq<char>, ErrorView> {
    match s.grabbed {
        Some(Ok(b)) => Ok(base64_standard(b)),
        Some(Err(m)) => Err(ErrorView::Capture(m)),
        None => Err(ErrorView::Capture(Seq::empty())),
    }
}

/// The action that a region session in state `s` is waiting on.
pub open spec fn region_pending(s: RegionState) -> RegionStep {
    match s.phase {
        RegionPhase::Arming => RegionStep::Arm,
        RegionPhase::Grabbing => RegionStep::Grab,
        RegionPhase::Disarming => RegionStep::Disarm,
        RegionPhase::Finished => RegionStep::Finish(region_outcome(s)),
    }
}

/// One step of a region session. A report that does not answer the pending action
/// changes nothing, and the pending action is asked for again.
pub open spec fn region_transition(s: RegionState, r: RegionReport) -> (RegionState, RegionStep) {
    match (s.phase, r) {
        (RegionPhase::Arming, RegionReport::Armed(Err(m))) => {
            (RegionState { phase: RegionPhase::Disarming, grabbed: Some(Err(m)) }, RegionStep::Disarm)
        },
        (RegionPhase::Arming, RegionReport::Armed(Ok(()))) => {
            (RegionState { phase: RegionPhase::Grabbing, ..s }, RegionStep::Grab)
        },
        (RegionPhase::Grabbing, RegionReport::Grabbed(g)) => {
            (RegionState { phase: RegionPhase::Disarming, grabbed: Some(g) }, RegionStep::Disarm)
        },
        (RegionPhase::Disarming, RegionReport::Disarmed) => {
            let t = RegionState { phase: RegionPhase::Finished, ..s };
            (t, RegionStep::Finish(region_outcome(t)))
        },
        _ => (s, region_pending(s)),
    }
}

/// A region snapshot session.
pub struct RegionSession {
    phase: RegionPhase,
    grabbed: Option<Result<Vec<u8>, String>>,
}

impl View for RegionSession {
    type V = RegionState;

    closed spec fn view(&self) -> RegionState {
        RegionState {
            phase: self.phase,
            grabbed: match self.grabbed {
                Some(Ok(b)) => Some(Ok(b@)),
                Some(Err(m)) => Some(Err(m@)),
                None => None,
            },
        }
    }
}

impl RegionSession {
    #[verifier::type_invariant]
    closed spec fn inv(self) -> bool {
        self@.wf()
    }

    /// A new region session. Its first action is [`RegionAction::Arm`].
    pub fn new() -> (r: (RegionSession, RegionAction))
        ensures
            r.0@ == region_initial(),
            r.1@ == RegionStep::Arm,
    {
        (RegionSession { phase: RegionPhase::Arming, grabbed: None }, RegionAction::Arm)
    }

    fn result(&self) -> (r: Result<String, Error>)
        requires
            self@.wf(),
        ensures
            match r {
                Ok(s) => region_outcome(self@) == Ok::<Seq<char>, ErrorView>(s@),
                Err(e) => region_outcome(self@) == Err::<Seq<char>, ErrorView>(e@),
            },
    {
        match &self.grabbed {
            Some(Ok(b)) => Ok(encode_base64(b.as_slice())),
            Some(Err(m)) => Err(Error::Capture(m.clone())),
            None => Err(Error::Capture(String::new())),
        }
    }

    /// Takes the host's report on the last action and returns the next action.
    /// The host refuses PNG data whose base64 encoding would not fit in memory.
    pub fn step(&mut self, event: RegionEvent) -> (a: RegionAction)
        requires
            event matches RegionEvent::Grabbed(Ok(b)) ==> encodable(b@.len()),
        ensures
            (final(self)@, a@) == region_transition(old(self)@, event@),
            final(self)@.wf(),
    {
        proof {
            use_type_invariant(&*self);
        }
        let a = match (self.phase, event) {
            (RegionPhase::Arming, RegionEvent::Armed(Err(m))) => {
                *self = RegionSession { phase: RegionPhase::Disarming, grabbed: Some(Err(m)) };
                RegionAction::Disarm
            },
            (RegionPhase::Arming, RegionEvent::Armed(Ok(()))) => {
                self.phase = RegionPhase::Grabbing;
                RegionAction::Grab
            },
            (RegionPhase::Grabbing, RegionEvent::Grabbed(g)) => {
                *self = RegionSession { phase: RegionPhase::Disarming, grabbed: Some(g) };
                RegionAction::Disarm
            },
            (RegionPhase::Disarming, RegionEvent::Disarmed) => {
                self.phase = RegionPhase::Finished;
                RegionAction::Finish(self.result())
            },
            _ => match self.phase {
                RegionPhase::Arming => RegionAction::Arm,
                RegionPhase::Grabbing => RegionAction::Grab,
                RegionPhase::Disarming => RegionAction::Disarm,
                RegionPhase::Finished => RegionAction::Finish(self.result()),
            },
        };
        proof {
            use_type_invariant(&*self);
        }
        a
    }
}

/// Occlusion detection is always restored in a region snapshot: the session finishes
/// only on the host's report that it disarmed, whether arming and the grab succeeded
/// or not.
pub proof fn lemma_region_finish_only_after_disarm(s: RegionState, r: RegionReport)
    requires
        s.phase != RegionPhase::Finished,
        region_transition(s, r).1 is Finish,
    ensures
        s.phase == RegionPhase::Disarming && r == RegionReport::Disarmed,
{
}

/// A failed arming of a region snapshot is answered by a request to disarm, and the
/// session then finishes with the arming's failure.
pub proof fn lemma_region_failed_arming_disarms(s: RegionState, m: Seq<char>)
    requires
        s.phase == RegionPhase::Arming,
    ensures
        region_transition(s, RegionReport::Armed(Err(m))).1 == RegionStep::Disarm,
        region_transition(region_transition(s, RegionReport::Armed(Err(m))).0, RegionReport::Disarmed).1
            == RegionStep::Finish(Err::<Seq<char>, ErrorView>(ErrorView::Capture(m))),
{
}

/// A region snapshot succeeds exactly when arming and the grab succeeded, and then
/// hands back the base64 encoding of the grabbed PNG bytes; otherwise it reports
/// the failure's message.
pub proof fn lemma_region_outcome(s: RegionState, r: RegionReport)
    requires
        s.wf(),
        s.phase == RegionPhase::Disarming,
        r == RegionReport::Disarmed,
    ensures
        s.grabbed matches Some(Ok(b)) ==> region_transition(s, r).1 == RegionStep::Finish(
            Ok::<Seq<char>, ErrorView>(base64_standard(b)),
        ),
        s.grabbed matches Some(Err(m)) ==> region_transition(s, r).1 == RegionStep::Finish(
            Err::<Seq<char>, ErrorView>(ErrorView::Capture(m)),
        ),
{
}

/// The actions a region session in state `s` hands out, one per report, for the reports `rs`.
pub open spec fn region_run(s: RegionState, rs: Seq<RegionReport>) -> Seq<RegionStep>
    decreases rs.len(),
{
    if rs.len() == 0 {
        Seq::empty()
    } else {
        let (t, a) = region_transition(s, rs[0]);
        seq![a] + region_run(t, rs.drop_first())
    }
}

/// The state a region session starts in.
pub open spec fn region_initial() -> RegionState {
    RegionState { phase: RegionPhase::Arming, grabbed: None }
}

spec fn region_consistent_history(s: RegionState, before: Seq<RegionStep>) -> bool {
    &&& s.phase != RegionPhase::Finished ==> forall|j: int|
        0 <= j < before.len() ==> !(before[j] is Finish)
    &&& s.phase == RegionPhase::Disarming ==> exists|j: int|
        0 <= j < before.len() && before[j] == RegionStep::Disarm
    &&& s.phase == RegionPhase::Finished ==> exists|j: int|
        0 <= j < before.len() && before[j] is Finish
}

/// The first finish of a history comes after a request to disarm.
pub open spec fn region_restores_before_finishing(steps: Seq<RegionStep>) -> bool {
    forall|k: int|
        0 <= k < steps.len() && (#[trigger] steps[k]) is Finish && (forall|j: int|
            0 <= j < k ==> !(steps[j] is Finish)) ==> exists|j: int|
            0 <= j < k && steps[j] == RegionStep::Disarm
}

/// Every step keeps a region session in the states it can be in.
pub proof fn lemma_region_transition_wf(s: RegionState, r: RegionReport)
    requires
        s.wf(),
        r matches RegionReport::Grabbed(Ok(b)) ==> encodable(b.len()),
    ensures
        region_transition(s, r).0.wf(),
{
}

proof fn lemma_region_run_restores(s: RegionState, rs: Seq<RegionReport>, before: Seq<RegionStep>)
    requires
        region_consistent_history(s, before),
        region_restores_before_finishing(before),
    ensures
        region_restores_before_finishing(before + region_run(s, rs)),
    decreases rs.len(),
{
    if rs.len() == 0 {
        assert(before + region_run(s, rs) == before);
    } else {
        let (t, a) = region_transition(s, rs[0]);
        let next = before.push(a);
        assert(before + region_run(s, rs) == next + region_run(t, rs.drop_first()));
        if t.phase == RegionPhase::Disarming {
            if s.phase == RegionPhase::Disarming {
                let j = choose|j: int| 0 <= j < before.len() && before[j] == RegionStep::Disarm;
                assert(next[j] == RegionStep::Disarm);
            } else {
                assert(next[before.len() as int] == RegionStep::Disarm);
            }
        }
        if t.phase == RegionPhase::Finished {
            if s.phase == RegionPhase::Finished {
                let j = choose|j: int| 0 <= j < before.len() && before[j] is Finish;
                assert(next[j] is Finish);
            } else {
                assert(next[before.len() as int] is Finish);
            }
        }
        assert(region_consistent_history(t, next));
        assert forall|k: int|
            0 <= k < next.len() && (#[trigger] next[k]) is Finish && (forall|j: int|
                0 <= j < k ==> !(next[j] is Finish)) implies exists|j: int|
            0 <= j < k && next[j] == RegionStep::Disarm by {
            if k < before.len() {
                assert(before[k] is Finish);
                assert forall|j: int| 0 <= j < k implies !(before[j] is Finish) by {
                    assert(next[j] == before[j]);
                }
                let j = choose|j: int| 0 <= j < k && before[j] == RegionStep::Disarm;
                assert(next[j] == RegionStep::Disarm);
            } else {
                assert(k == before.len());
                if s.phase == RegionPhase::Finished {
                    let j = choose|j: int| 0 <= j < before.len() && before[j] is Finish;
                    assert(next[j] is Finish);
                } else {
                    lemma_region_finish_only_after_disarm(s, rs[0]);
                    let j = choose|j: int| 0 <= j < before.len() && before[j] == RegionStep::Disarm;
                    assert(next[j] == RegionStep::Disarm);
                }
            }
        }
        lemma_region_run_restores(t, rs.drop_first(), next);
    }
}

/// Occlusion detection is always restored by a region snapshot, whatever the host
/// reports: the first result it hands out follows a request to disarm.
pub proof fn lemma_region_restores_occlusion(rs: Seq<RegionReport>)
    ensures
        region_restores_before_finishing(region_run(region_initial(), rs)),
{
    let s = region_initial();
    let e = Seq::<RegionStep>::empty();
    assert(region_consistent_history(s, e));
    lemma_region_run_restores(s, rs, e);
    assert(e + region_run(s, rs) == region_run(s, rs));
}

/// The text a region snapshot finishes with after grabbing `b` and disarming.
pub open spec fn text_after_grab(s: RegionState, b: Seq<u8>) -> RegionStep {
    region_transition(region_transition(s, RegionReport::Grabbed(Ok(b))).0, RegionReport::Disarmed).1
}

/// A region snapshot hands back all of the grabbed PNG: after grabbing the bytes `b` and
/// disarming, it finishes with their standard base64 text, four characters for every
/// started group of three bytes; two different grabs never finish with the same text,
/// so decoding the text gives back exactly the grabbed bytes.
pub proof fn lemma_region_keeps_whole_grab(s: RegionState, b: Seq<u8>, b2: Seq<u8>)
    requires
        s.phase == RegionPhase::Grabbing,
    ensures
        text_after_grab(s, b) == RegionStep::Finish(Ok::<Seq<char>, ErrorView>(base64_standard(b))),
        base64_standard(b).len() == 4 * ((b.len() + 2) / 3),
        text_after_grab(s, b) == text_after_grab(s, b2) ==> b == b2,
{
    lemma_base64_len(b);
    if text_after_grab(s, b) == text_after_grab(s, b2) {
        assert(base64_standard(b) == base64_standard(b2));
        lemma_base64_injective(b, b2);
    }
}

} // verus!
