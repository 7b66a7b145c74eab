//! The decisions of the frame analyses (`analyze_regions`, `analyze_frame_diffs`) as a
//! state machine: probe `dir/f0000.png`, `dir/f0001.png`, ... in turn, stop at the first
//! missing frame, decode each frame, and measure its regions (the mean luma, or the share
//! of pixels that changed since the previous frame).
//!
//! The host reads files and turns the caller's fractional regions into pixel corners for
//! a frame's size; the scan decides everything else.

use vstd::prelude::*;
use crate::analysis::{
    change_fraction, change_row, mean_luma, mean_row, rect_luma_sum, region_luma_sum_wide, Fraction,
    PixelRect, lemma_changed_within_area, lemma_rect_sum_bound, lemma_unchanged_frame_has_no_change,
};
use crate::error::{Error, ErrorView};
use crate::frames::{frame_path, frame_path_spec};
use crate::luma::{
    decoded_luma, frame_error_message, frame_error_text, LumaImage, LumaView,
};

verus! {

/// What a scan measures in each region of each frame.
#[derive(PartialEq, Eq, Structural, Clone, Copy)]
pub enum ScanKind {
    /// The mean luma.
    Means,
    /// The share of pixels whose luma moved by more than the threshold since the previous frame.
    Changes(u8),
}

/// Where a scan stands.
#[derive(PartialEq, Eq, Structural, Clone, Copy)]
pub enum ScanPhase {
    /// Waiting for the file of frame `index` (or word that it is missing).
    Probing,
    /// Waiting for the pixel corners of the regions in the decoded frame `index`.
    Locating,
    /// The result has been handed out.
    Done,
}

/// What the host is asked to do next.
pub enum ScanAction {
    /// Read the frame file at this path, or report that it does not exist.
    Probe(String),
    /// Give the pixel corners of each region for a frame of this size.
    Locate { width: u32, height: u32 },
    /// The analysis is over: one row per frame, one fraction per region; or the error.
    Finish(Result<Vec<Vec<Fraction>>, Error>),
}

/// What the host reports back.
pub enum ScanEvent {
    /// The frame file's bytes, the reason it could not be read, or `None` when it does not exist.
    Frame(Option<Result<Vec<u8>, String>>),
    /// The pixel corners of each region, in order (cut back to the frame by the scan).
    Corners(Vec<PixelRect>),
}

/// What a contract sees of a [`ScanEvent`].
pub enum ScanReport {
    Frame(Option<Result<Seq<u8>, Seq<char>>>),
    Corners(Seq<PixelRect>),
}

impl View for ScanEvent {
    type V = ScanReport;

    open spec fn view(&self) -> ScanReport {
        match self {
            ScanEvent::Frame(None) => ScanReport::Frame(None),
            ScanEvent::Frame(Some(Ok(b))) => ScanReport::Frame(Some(Ok(b@))),
            ScanEvent::Frame(Some(Err(m))) => ScanReport::Frame(Some(Err(m@))),
            ScanEvent::Corners(cs) => ScanReport::Corners(cs@),
        }
    }
}

/// A row of measurements as a contract sees it.
pub open spec fn row_view(row: Vec<Fraction>) -> Seq<(nat, nat)> {
    row@.map_values(|f: Fraction| (f.num as nat, f.den as nat))
}

/// Rows of measurements as a contract sees them.
pub open spec fn rows_view(rows: Seq<Vec<Fraction>>) -> Seq<Seq<(nat, nat)>> {
    rows.map_values(|r: Vec<Fraction>| row_view(r))
}

/// What a contract sees of a [`ScanAction`].
pub enum ScanStep {
    Probe(Seq<char>),
    Locate(u32, u32),
    Finish(Result<Seq<Seq<(nat, nat)>>, ErrorView>),
}

impl View for ScanAction {
    type V = ScanStep;

    open spec fn view(&self) -> ScanStep {
        match self {
            ScanAction::Probe(p) => ScanStep::Probe(p@),
            ScanAction::Locate { width, height } => ScanStep::Locate(*width, *height),
            ScanAction::Finish(Ok(rows)) => ScanStep::Finish(Ok(rows_view(rows@))),
            ScanAction::Finish(Err(e)) => ScanStep::Finish(Err(e@)),
        }
    }
}

/// The abstract state of a scan.
pub struct ScanState {
    pub dir: Seq<char>,
    pub kind: ScanKind,
    /// The frame being read or measured; after the last frame, the number of frames.
    pub index: u32,
    pub phase: ScanPhase,
    /// The last frame measured.
    pub prev: Option<LumaView>,
    /// The frame being measured.
    pub cur: Option<LumaView>,
    /// One row per frame measured so far.
    pub rows: Seq<Seq<(nat, nat)>>,
    /// The failure that ended the scan, if any.
    pub failure: Option<Seq<char>>,
}

impl ScanState {
    /// The states a scan can be in.
    pub open spec fn wf(self) -> bool {
        &&& (self.phase == ScanPhase::Locating) == (self.cur is Some)
        &&& self.cur matches Some(c) ==> c.wf()
        &&& self.phase != ScanPhase::Done ==> (self.prev is None <==> self.index == 0)
        &&& self.phase != ScanPhase::Done ==> self.rows.len() == self.index
        &&& self.phase == ScanPhase::Done ==> self.rows.len() == 0
        &&& self.failure is Some ==> self.phase == ScanPhase::Done
    }
}

/// The regions' corners cut back to a `width × height` frame.
pub open spec fn clip_all(cs: Seq<PixelRect>, width: u32, height: u32) -> Seq<PixelRect> {
    cs.map_values(
        |c: PixelRect|
            PixelRect {
                x0: c.x0,
                y0: c.y0,
                x1: if c.x1 < width { c.x1 } else { width },
                y1: if c.y1 < height { c.y1 } else { height },
            },
    )
}

/// The row of measurements of frame `cur` (after frame `prev`) over the regions `rects`.
pub open spec fn frame_row(kind: ScanKind, cur: LumaView, prev: Option<LumaView>, rects: Seq<PixelRect>) -> Seq<
    (nat, nat),
> {
    rects.map_values(
        |r: PixelRect|
            match kind {
                ScanKind::Means => mean_luma(cur, r),
                ScanKind::Changes(t) => change_fraction(cur, prev, r, t),
            },
    )
}

/// The action that a scan in state `s` is waiting on.
pub open spec fn scan_pending(s: ScanState) -> ScanStep {
    match s.phase {
        ScanPhase::Probing => ScanStep::Probe(frame_path_spec(s.dir, s.index as nat)),
        ScanPhase::Locating => ScanStep::Locate(s.cur.unwrap().width, s.cur.unwrap().height),
        ScanPhase::Done => ScanStep::Finish(
            match s.failure {
                Some(m) => Err(ErrorView::Capture(m)),
                None => Ok(s.rows),
            },
        ),
    }
}

/// A scan ended by the failure message `m`.
pub open spec fn failed(s: ScanState, m: Seq<char>, t: ScanState, a: ScanStep) -> bool {
    &&& t == ScanState { phase: ScanPhase::Done, rows: Seq::empty(), failure: Some(m), cur: None, ..s }
    &&& a == ScanStep::Finish(Err(ErrorView::Capture(m)))
}

/// One step of a scan: `t` and `a` are the state and action that follow state `s` on the
/// host's report `r`. A report that does not answer the pending action changes nothing,
/// and the pending action is asked for again.
pub open spec fn scan_step(s: ScanState, r: ScanReport, t: ScanState, a: ScanStep) -> bool {
    let path = frame_path_spec(s.dir, s.index as nat);
    match (s.phase, r) {
        (ScanPhase::Probing, ScanReport::Frame(None)) => {
            &&& t == ScanState { phase: ScanPhase::Done, rows: Seq::empty(), ..s }
            &&& a == ScanStep::Finish(Ok(s.rows))
        },
        (ScanPhase::Probing, ScanReport::Frame(Some(Err(reason)))) => {
            failed(s, frame_error_message(path, reason), t, a)
        },
        (ScanPhase::Probing, ScanReport::Frame(Some(Ok(bytes)))) => match decoded_luma(path, bytes) {
            Ok((w, h, px)) => {
                &&& t == ScanState {
                    phase: ScanPhase::Locating,
                    cur: Some(LumaView { width: w, height: h, pixels: px }),
                    ..s
                }
                &&& a == ScanStep::Locate(w, h)
            },
            Err(reason) => failed(s, frame_error_message(path, reason), t, a),
        },
        (ScanPhase::Locating, ScanReport::Corners(cs)) => {
            let cur = s.cur.unwrap();
            let rects = clip_all(cs, cur.width, cur.height);
            &&& t == ScanState {
                phase: ScanPhase::Probing,
                index: (s.index + 1) as u32,
                prev: Some(cur),
                cur: None,
                rows: s.rows.push(frame_row(s.kind, cur, s.prev, rects)),
                ..s
            }
            &&& a == ScanStep::Probe(frame_path_spec(s.dir, (s.index + 1) as nat))
        },
        _ => t == s && a == scan_pending(s),
    }
}

/// The reports a scan can take in state `s`: measuring a frame moves on to the next
/// index, which must exist, and a frame's luma sums must fit in `u64`.
pub open spec fn scan_accepts(s: ScanState, r: ScanReport) -> bool {
    (s.phase == ScanPhase::Locating && r is Corners) ==> {
        let cur = s.cur.unwrap();
        let rects = clip_all(r->Corners_0, cur.width, cur.height);
        &&& s.index < u32::MAX
        &&& s.kind == ScanKind::Means ==> forall|i: int|
            0 <= i < rects.len() ==> rect_luma_sum(cur, #[trigger] rects[i]) <= u64::MAX
    }
}

/// The part of a scan that changes as it runs.
struct ScanProgress {
    index: u32,
    phase: ScanPhase,
    prev: Option<LumaImage>,
    cur: Option<LumaImage>,
    rows: Vec<Vec<Fraction>>,
    failure: Option<String>,
}

/// A running frame analysis.
pub struct FrameScan {
    dir: String,
    kind: ScanKind,
    progress: ScanProgress,
}

spec fn image_view(i: Option<LumaImage>) -> Option<LumaView> {
    match i {
        Some(img) => Some(img@),
        None => None,
    }
}

spec fn progress_view(dir: Seq<char>, kind: ScanKind, p: ScanProgress) -> ScanState {
    ScanState {
        dir,
        kind,
        index: p.index,
        phase: p.phase,
        prev: image_view(p.prev),
        cur: image_view(p.cur),
        rows: rows_view(p.rows@),
        failure: match p.failure {
            Some(m) => Some(m@),
            None => None,
        },
    }
}

impl View for FrameScan {
    type V = ScanState;

    closed spec fn view(&self) -> ScanState {
        progress_view(self.dir@, self.kind, self.progress)
    }
}

impl FrameScan {
    #[verifier::type_invariant]
    closed spec fn inv(self) -> bool {
        self@.wf()
    }

    /// A scan of the frames in `dir`. Its first action probes `dir/f0000.png`.
    pub fn new(dir: String, kind: ScanKind) -> (r: (FrameScan, ScanAction))
        ensures
            r.0@ == (ScanState {
                dir: dir@,
                kind,
                index: 0,
                phase: ScanPhase::Probing,
                prev: None,
                cur: None,
                rows: Seq::empty(),
                failure: None,
            }),
            r.1@ == ScanStep::Probe(frame_path_spec(dir@, 0)),
    {
        let first = frame_path(dir.as_str(), 0);
        let scan = FrameScan {
            dir,
            kind,
            progress: ScanProgress {
                index: 0,
                phase: ScanPhase::Probing,
                prev: None,
                cur: None,
                rows: Vec::new(),
                failure: None,
            },
        };
        proof {
            assert(rows_view(Seq::<Vec<Fraction>>::empty()) =~= Seq::empty());
        }
        (scan, ScanAction::Probe(first))
    }

    /// The report can be taken: measuring the frame moves past it to an index that
    /// exists, and (for mean luma) the frame's luma sum over every clipped region fits
    /// in `u64`. (The host stops with an overflow otherwise.)
    pub fn accepts(&self, event: &ScanEvent) -> (b: bool)
        ensures
            b == scan_accepts(self@, event@),
    {
        proof {
            use_type_invariant(self);
        }
        match (self.progress.phase, event) {
            (ScanPhase::Locating, ScanEvent::Corners(cs)) => {
                if self.progress.index == u32::MAX {
                    return false;
                }
                match (&self.progress.cur, self.kind) {
                    (Some(cur), ScanKind::Means) => {
                        let (w, h) = cur.dimensions();
                        let mut i: usize = 0;
                        while i < cs.len()
                            invariant
                                i <= cs@.len(),
                                self@.cur == Some(cur@),
                                self@.phase == ScanPhase::Locating,
                                self@.kind == ScanKind::Means,
                                self@.index < u32::MAX,
                                event@ == ScanReport::Corners(cs@),
                                w == cur@.width,
                                h == cur@.height,
                                forall|k: int|
                                    0 <= k < i ==> rect_luma_sum(cur@, #[trigger] clip_all(cs@, w, h)[k])
                                        <= u64::MAX,
                            decreases cs@.len() - i,
                        {
                            let c = cs[i];
                            let r = PixelRect::clipped(c.x0, c.y0, c.x1, c.y1, w, h);
                            assert(r == clip_all(cs@, w, h)[i as int]);
                            if !r.sum_fits() && region_luma_sum_wide(cur, r) > u64::MAX as u128 {
                                assert(self@.cur.unwrap() == cur@);
                                assert(clip_all(cs@, w, h).len() == cs@.len());
                                assert(!(rect_luma_sum(cur@, clip_all(cs@, w, h)[i as int]) <= u64::MAX));
                                let ghost sv = self@;
                                let ghost ev = event@;
                                assert(ev->Corners_0 == cs@);
                                assert(sv.cur.unwrap().width == w && sv.cur.unwrap().height == h);
                                assert(!scan_accepts(sv, ev));
                                return false;
                            }
                            i = i + 1;
                        }
                        true
                    },
                    _ => true,
                }
            },
            _ => true,
        }
    }

    fn pending(&self) -> (a: ScanAction)
        requires
            self@.wf(),
        ensures
            a@ == scan_pending(self@),
    {
        match self.progress.phase {
            ScanPhase::Probing => {
                ScanAction::Probe(frame_path(self.dir.as_str(), self.progress.index))
            },
            ScanPhase::Locating => match &self.progress.cur {
                Some(cur) => ScanAction::Locate { width: cur.width(), height: cur.height() },
                None => ScanAction::Locate { width: 0, height: 0 },
            },
            ScanPhase::Done => match &self.progress.failure {
                Some(m) => ScanAction::Finish(Err(Error::Capture(m.clone()))),
                None => {
                    let rows: Vec<Vec<Fraction>> = Vec::new();
                    assert(rows_view(rows@) =~= self@.rows);
                    ScanAction::Finish(Ok(rows))
                },
            },
        }
    }

    /// Takes the host's report on the last action and returns the next action.
    pub fn step(&mut self, event: ScanEvent) -> (a: ScanAction)
        requires
            scan_accepts(old(self)@, event@),
        ensures
            scan_step(old(self)@, event@, final(self)@, a@),
            final(self)@.wf(),
    {
        proof {
            use_type_invariant(&*self);
        }
        let ghost s = self@;
        let mut p = ScanProgress {
            index: 0,
            phase: ScanPhase::Done,
            prev: None,
            cur: None,
            rows: Vec::new(),
            failure: None,
        };
        proof {
            assert(rows_view(p.rows@) =~= Seq::empty());
        }
        std::mem::swap(&mut p, &mut self.progress);
        assert(progress_view(self.dir@, self.kind, p) == s);
        let a = match (p.phase, event) {
            (ScanPhase::Probing, ScanEvent::Frame(None)) => {
                let empty: Vec<Vec<Fraction>> = Vec::new();
                assert(rows_view(empty@) =~= Seq::empty());
                self.progress = ScanProgress {
                    index: p.index,
                    phase: ScanPhase::Done,
                    prev: p.prev,
                    cur: None,
                    rows: empty,
                    failure: None,
                };
                ScanAction::Finish(Ok(p.rows))
            },
            (ScanPhase::Probing, ScanEvent::Frame(Some(Err(reason)))) => {
                let path = frame_path(self.dir.as_str(), p.index);
                let m = frame_error_text(path.as_str(), reason.as_str());
                self.fail(p.index, p.prev, m)
            },
            (ScanPhase::Probing, ScanEvent::Frame(Some(Ok(bytes)))) => {
                let path = frame_path(self.dir.as_str(), p.index);
                match LumaImage::decode(path.as_str(), bytes.as_slice()) {
                    Ok(img) => {
                        let (w, h) = img.dimensions();
                        self.progress = ScanProgress {
                            index: p.index,
                            phase: ScanPhase::Locating,
                            prev: p.prev,
                            cur: Some(img),
                            rows: p.rows,
                            failure: None,
                        };
                        ScanAction::Locate { width: w, height: h }
                    },
                    Err(e) => {
                        let m = match e {
                            Error::Capture(m) => m,
                            Error::Io(_) => String::new(),
                        };
                        self.fail(p.index, p.prev, m)
                    },
                }
            },
            (ScanPhase::Locating, ScanEvent::Corners(cs)) => {
                match p.cur {
                    Some(cur) => {
                        let (w, h) = cur.dimensions();
                        let rects = clip_corners(&cs, w, h);
                        let row = match self.kind {
                            ScanKind::Means => mean_row(&cur, rects.as_slice()),
                            ScanKind::Changes(t) => change_row(&cur, p.prev.as_ref(), rects.as_slice(), t),
                        };
                        let ghost prev_view = image_view(p.prev);
                        assert(row_view(row) =~= frame_row(self.kind, cur@, prev_view, rects@));
                        let mut rows = p.rows;
                        let ghost old_rows = rows@;
                        rows.push(row);
                        assert(rows_view(rows@) =~= rows_view(old_rows).push(row_view(row)));
                        let next = p.index + 1;
                        let path = frame_path(self.dir.as_str(), next);
                        self.progress = ScanProgress {
                            index: next,
                            phase: ScanPhase::Probing,
                            prev: Some(cur),
                            cur: None,
                            rows,
                            failure: None,
                        };
                        ScanAction::Probe(path)
                    },
                    None => {
                        self.progress = p;
                        self.pending()
                    },
                }
            },
            (_, _) => {
                self.progress = p;
                self.pending()
            },
        };
        proof {
            use_type_invariant(&*self);
        }
        a
    }

    /// Ends the scan at frame `index` with the failure message `m`.
    fn fail(&mut self, index: u32, prev: Option<LumaImage>, m: String) -> (a: ScanAction)
        requires
            old(self).progress.phase == ScanPhase::Done,
        ensures
            final(self).dir == old(self).dir,
            final(self).kind == old(self).kind,
            final(self)@ == (ScanState {
                index,
                phase: ScanPhase::Done,
                prev: image_view(prev),
                cur: None,
                rows: Seq::empty(),
                failure: Some(m@),
                ..old(self)@
            }),
            a@ == ScanStep::Finish(Err(ErrorView::Capture(m@))),
    {
        let empty: Vec<Vec<Fraction>> = Vec::new();
        assert(rows_view(empty@) =~= Seq::empty());
        let kept = m.clone();
        self.progress = ScanProgress {
            index,
            phase: ScanPhase::Done,
            prev,
            cur: None,
            rows: empty,
            failure: Some(kept),
        };
        ScanAction::Finish(Err(Error::Capture(m)))
    }
}

/// The regions' corners cut back to a `width × height` frame.
fn clip_corners(cs: &Vec<PixelRect>, width: u32, height: u32) -> (rects: Vec<PixelRect>)
    ensures
        rects@ == clip_all(cs@, width, height),
        forall|i: int| 0 <= i < rects@.len() ==> (#[trigger] rects@[i]).within(width, height),
{
    let mut rects: Vec<PixelRect> = Vec::new();
    let mut i: usize = 0;
    while i < cs.len()
        invariant
            i <= cs@.len(),
            rects@ == clip_all(cs@, width, height).take(i as int),
            forall|k: int| 0 <= k < rects@.len() ==> (#[trigger] rects@[k]).within(width, height),
        decreases cs@.len() - i,
    {
        let c = cs[i];
        let r = PixelRect::clipped(c.x0, c.y0, c.x1, c.y1, width, height);
        assert(clip_all(cs@, width, height).take(i + 1) =~= clip_all(cs@, width, height).take(i as int).push(r));
        rects.push(r);
        i = i + 1;
    }
    assert(clip_all(cs@, width, height).take(cs@.len() as int) =~= clip_all(cs@, width, height));
    rects
}

/// Frames are read in order, one row per frame: after a frame is measured, the scan
/// asks for the file of the next index, and has one row for each frame before it.
pub proof fn lemma_scan_reads_in_order(s: ScanState, r: ScanReport, t: ScanState, a: ScanStep)
    requires
        s.wf(),
        scan_accepts(s, r),
        scan_step(s, r, t, a),
        s.phase == ScanPhase::Locating,
        r is Corners,
    ensures
        t.index == s.index + 1,
        a == ScanStep::Probe(frame_path_spec(s.dir, t.index as nat)),
        t.rows.len() == t.index,
        t.rows.drop_last() == s.rows,
{
    assert(t.rows.drop_last() =~= s.rows);
}

/// A scan stops at the first missing frame and hands back one row for every frame
/// before it.
pub proof fn lemma_scan_stops_at_missing_frame(s: ScanState, t: ScanState, a: ScanStep)
    requires
        s.wf(),
        s.phase == ScanPhase::Probing,
        scan_step(s, ScanReport::Frame(None), t, a),
    ensures
        a == ScanStep::Finish(Ok(s.rows)),
        s.rows.len() == s.index,
        t.phase == ScanPhase::Done,
{
}

/// A frame that cannot be read ends the scan with `"<path>: <reason>"`.
pub proof fn lemma_scan_read_failure(s: ScanState, reason: Seq<char>, t: ScanState, a: ScanStep)
    requires
        s.phase == ScanPhase::Probing,
        scan_step(s, ScanReport::Frame(Some(Err(reason))), t, a),
    ensures
        a == ScanStep::Finish(Err(ErrorView::Capture(
            frame_error_message(frame_path_spec(s.dir, s.index as nat), reason),
        ))),
{
}

/// The first frame of a change analysis has no change in any region.
pub proof fn lemma_first_change_row_is_zero(
    s: ScanState,
    cs: Seq<PixelRect>,
    thresh: u8,
    t: ScanState,
    a: ScanStep,
)
    requires
        s.wf(),
        s.kind == ScanKind::Changes(thresh),
        s.phase == ScanPhase::Locating,
        s.index == 0,
        scan_step(s, ScanReport::Corners(cs), t, a),
    ensures
        t.rows.len() == 1,
        t.rows[0].len() == cs.len(),
        forall|i: int| 0 <= i < cs.len() ==> t.rows[0][i] == (0nat, 1nat),
{
}

/// Every measurement of a change analysis is a share between 0 and 1, and every mean
/// luma is between 0 and 255.
pub proof fn lemma_measurements_bounded(s: ScanState, cs: Seq<PixelRect>, t: ScanState, a: ScanStep)
    requires
        s.wf(),
        s.phase == ScanPhase::Locating,
        scan_step(s, ScanReport::Corners(cs), t, a),
    ensures
        forall|i: int|
            0 <= i < cs.len() ==> {
                let (n, d) = #[trigger] t.rows.last()[i];
                &&& s.kind is Changes ==> n <= d
                &&& s.kind == ScanKind::Means ==> n <= 255 * d
            },
{
    let cur = s.cur.unwrap();
    let rects = clip_all(cs, cur.width, cur.height);
    assert forall|i: int|
        0 <= i < cs.len() implies {
        let (n, d) = #[trigger] t.rows.last()[i];
        &&& s.kind is Changes ==> n <= d
        &&& s.kind == ScanKind::Means ==> n <= 255 * d
    } by {
        assert(t.rows.last() == frame_row(s.kind, cur, s.prev, rects));
        match s.kind {
            ScanKind::Means => {
                lemma_rect_sum_bound(cur, rects[i]);
            },
            ScanKind::Changes(th) => {
                if let Some(p) = s.prev {
                    lemma_changed_within_area(cur, p, rects[i], th);
                }
            },
        }
    }
}

/// `states`, `reports` and `steps` record a run of a scan: the host's report `reports[i]`
/// took the scan from `states[i]` to `states[i + 1]` with the action `steps[i]`.
pub open spec fn is_scan_trace(states: Seq<ScanState>, reports: Seq<ScanReport>, steps: Seq<ScanStep>) -> bool {
    &&& states.len() == reports.len() + 1
    &&& steps.len() == reports.len()
    &&& forall|i: int|
        #![trigger reports[i]]
        0 <= i < reports.len() ==> scan_step(states[i], reports[i], states[i + 1], steps[i])
}

/// A finished scan stays as it is.
proof fn lemma_done_stays(s: ScanState, r: ScanReport, t: ScanState, a: ScanStep)
    requires
        s.phase == ScanPhase::Done,
        scan_step(s, r, t, a),
    ensures
        t == s,
{
}

/// A step that does not finish the scan keeps every row and may add one; a step that
/// hands out the rows hands out those of the state it was taken in.
proof fn lemma_step_keeps_rows(s: ScanState, r: ScanReport, t: ScanState, a: ScanStep)
    requires
        scan_step(s, r, t, a),
    ensures
        t.phase != ScanPhase::Done ==> s.rows.is_prefix_of(t.rows),
        s.phase != ScanPhase::Done ==> (a matches ScanStep::Finish(Ok(rows)) ==> rows == s.rows),
{
    if t.phase != ScanPhase::Done && s.phase == ScanPhase::Locating && r is Corners {
        assert(t.rows.subrange(0, s.rows.len() as int) =~= s.rows);
    }
}

/// Each step of a scan, its error messages included, follows from the state and the
/// host's report alone.
pub proof fn lemma_step_determined(s: ScanState, r: ScanReport, t1: ScanState, a1: ScanStep, t2: ScanState, a2: ScanStep)
    requires
        scan_step(s, r, t1, a1),
        scan_step(s, r, t2, a2),
    ensures
        t1 == t2,
        a1 == a2,
{
}

/// Along a run, a state that is not finished has every row of each earlier state.
proof fn lemma_trace_rows_grow(states: Seq<ScanState>, reports: Seq<ScanReport>, steps: Seq<ScanStep>, i: int, j: int)
    requires
        is_scan_trace(states, reports, steps),
        0 <= i <= j < states.len(),
        states[j].phase != ScanPhase::Done,
    ensures
        states[i].rows.is_prefix_of(states[j].rows),
    decreases j - i,
{
    if i < j {
        let k = j - 1;
        assert(scan_step(states[k], reports[k], states[k + 1], steps[k]));
        if states[k].phase == ScanPhase::Done {
            lemma_done_stays(states[k], reports[k], states[k + 1], steps[k]);
        }
        lemma_step_keeps_rows(states[k], reports[k], states[k + 1], steps[k]);
        lemma_trace_rows_grow(states, reports, steps, i, k);
    }
}

/// Along a run, a state that is not finished comes after states that are not finished.
proof fn lemma_trace_not_done_before(states: Seq<ScanState>, reports: Seq<ScanReport>, steps: Seq<ScanStep>, k: int, n: int)
    requires
        is_scan_trace(states, reports, steps),
        0 <= k <= n < states.len(),
        states[n].phase != ScanPhase::Done,
    ensures
        states[k].phase != ScanPhase::Done,
    decreases n - k,
{
    if k < n {
        lemma_trace_not_done_before(states, reports, steps, k + 1, n);
        assert(scan_step(states[k], reports[k], states[k + 1], steps[k]));
        if states[k].phase == ScanPhase::Done {
            lemma_done_stays(states[k], reports[k], states[k + 1], steps[k]);
        }
    }
}

/// Two runs from the same state that get the same reports agree, as long as the first
/// is not finished.
proof fn lemma_traces_agree(
    states1: Seq<ScanState>,
    reports1: Seq<ScanReport>,
    steps1: Seq<ScanStep>,
    states2: Seq<ScanState>,
    reports2: Seq<ScanReport>,
    steps2: Seq<ScanStep>,
    n: int,
)
    requires
        is_scan_trace(states1, reports1, steps1),
        is_scan_trace(states2, reports2, steps2),
        states1[0] == states2[0],
        0 <= n < states1.len(),
        n < states2.len(),
        forall|i: int| 0 <= i < n ==> reports1[i] == reports2[i],
        states1[n].phase != ScanPhase::Done,
    ensures
        states1[n] == states2[n],
    decreases n,
{
    if n > 0 {
        let k = n - 1;
        lemma_trace_not_done_before(states1, reports1, steps1, k, n);
        lemma_traces_agree(states1, reports1, steps1, states2, reports2, steps2, k);
        assert(reports1[k] == reports2[k]);
        assert(scan_step(states1[k], reports1[k], states1[k + 1], steps1[k]));
        assert(scan_step(states2[k], reports2[k], states2[k + 1], steps2[k]));
        lemma_step_determined(states1[k], reports1[k], states1[k + 1], steps1[k], states2[k + 1], steps2[k]);
    }
}

/// Adding a later frame never changes the rows of the earlier ones. Two runs of a scan
/// from the same start get the same reports for their first `n` steps (the same frame
/// files); the first then finds no more frames and hands out `out`, while the second
/// goes on (say, a further frame exists) and later hands out `out2`. Then `out` is the
/// start of `out2`.
pub proof fn lemma_later_frames_keep_earlier_rows(
    states1: Seq<ScanState>,
    reports1: Seq<ScanReport>,
    steps1: Seq<ScanStep>,
    states2: Seq<ScanState>,
    reports2: Seq<ScanReport>,
    steps2: Seq<ScanStep>,
    n: int,
    m: int,
    out: Seq<Seq<(nat, nat)>>,
    out2: Seq<Seq<(nat, nat)>>,
)
    requires
        is_scan_trace(states1, reports1, steps1),
        is_scan_trace(states2, reports2, steps2),
        states1[0] == states2[0],
        0 <= n < reports1.len(),
        n <= m < reports2.len(),
        forall|i: int| 0 <= i < n ==> reports1[i] == reports2[i],
        states1[n].phase != ScanPhase::Done,
        steps1[n] == ScanStep::Finish(Ok(out)),
        states2[m].phase != ScanPhase::Done,
        steps2[m] == ScanStep::Finish(Ok(out2)),
    ensures
        out.is_prefix_of(out2),
{
    assert(scan_step(states1[n], reports1[n], states1[n + 1], steps1[n]));
    lemma_step_keeps_rows(states1[n], reports1[n], states1[n + 1], steps1[n]);
    assert(scan_step(states2[m], reports2[m], states2[m + 1], steps2[m]));
    lemma_step_keeps_rows(states2[m], reports2[m], states2[m + 1], steps2[m]);
    lemma_traces_agree(states1, reports1, steps1, states2, reports2, steps2, n);
    lemma_trace_rows_grow(states2, reports2, steps2, n, m);
}

/// A measurement of a frame: the scan waits for corners and gets them.
pub open spec fn is_measurement(s: ScanState, r: ScanReport) -> bool {
    s.phase == ScanPhase::Locating && r is Corners
}

/// After a frame is measured, it is the frame that the next one is compared with; every
/// other step leaves the frame of comparison as it is.
pub proof fn lemma_measured_frame_becomes_previous(s: ScanState, r: ScanReport, t: ScanState, a: ScanStep)
    requires
        s.wf(),
        scan_step(s, r, t, a),
    ensures
        is_measurement(s, r) ==> t.prev == s.cur && t.cur is None,
        !is_measurement(s, r) ==> t.prev == s.prev,
{
}

/// Each frame of a change analysis is compared with the frame measured just before it,
/// not with an earlier one: in a run, if steps `i` and `j` measure two frames and no
/// step between them measures one, the row that step `j` adds holds, for each region,
/// the change between the frame of step `j` and the frame of step `i`.
pub proof fn lemma_changes_compare_consecutive_frames(
    states: Seq<ScanState>,
    reports: Seq<ScanReport>,
    steps: Seq<ScanStep>,
    i: int,
    j: int,
    thresh: u8,
)
    requires
        is_scan_trace(states, reports, steps),
        0 <= i < j < reports.len(),
        forall|k: int| 0 <= k < states.len() ==> (#[trigger] states[k]).wf(),
        is_measurement(states[i], reports[i]),
        is_measurement(states[j], reports[j]),
        forall|k: int| i < k < j ==> !is_measurement(#[trigger] states[k], reports[k]),
        states[j].kind == ScanKind::Changes(thresh),
    ensures
        states[j].prev == states[i].cur,
        ({
            let cur = states[j].cur.unwrap();
            let rects = clip_all(reports[j]->Corners_0, cur.width, cur.height);
            &&& states[j + 1].rows.last().len() == rects.len()
            &&& forall|k: int|
                0 <= k < rects.len() ==> #[trigger] states[j + 1].rows.last()[k] == change_fraction(
                    cur,
                    states[i].cur,
                    rects[k],
                    thresh,
                )
            &&& states[j].cur == states[i].cur ==> forall|k: int|
                0 <= k < rects.len() ==> #[trigger] states[j + 1].rows.last()[k] == (0nat, rects[k].area())
        }),
{
    lemma_prev_carried(states, reports, steps, i, j);
    assert(scan_step(states[j], reports[j], states[j + 1], steps[j]));
    let cur = states[j].cur.unwrap();
    let rects = clip_all(reports[j]->Corners_0, cur.width, cur.height);
    if states[j].cur == states[i].cur {
        assert forall|k: int| 0 <= k < rects.len() implies #[trigger] states[j + 1].rows.last()[k] == (
        0nat,
        rects[k].area(),
        ) by {
            lemma_unchanged_frame_has_no_change(cur, rects[k], thresh);
        }
    }
}

/// A scan measures every frame a directory holds, however many there are: the corners
/// of a frame are taken whenever the frame counter can still move on (index below
/// `u32::MAX`) and, for mean luma, every region's luma sum fits in `u64`; in particular
/// whenever every region has at most `u64::MAX / 255` pixels. There is no other cap.
pub proof fn lemma_scan_accepts_every_frame(s: ScanState, cs: Seq<PixelRect>)
    requires
        s.wf(),
        s.phase == ScanPhase::Locating,
        s.index < u32::MAX,
    ensures
        s.kind is Changes ==> scan_accepts(s, ScanReport::Corners(cs)),
        ({
            let cur = s.cur.unwrap();
            let rects = clip_all(cs, cur.width, cur.height);
            (forall|i: int| 0 <= i < rects.len() ==> rect_luma_sum(cur, #[trigger] rects[i]) <= u64::MAX)
                ==> scan_accepts(s, ScanReport::Corners(cs))
        }),
        ({
            let cur = s.cur.unwrap();
            let rects = clip_all(cs, cur.width, cur.height);
            (forall|i: int| 0 <= i < rects.len() ==> 255 * (#[trigger] rects[i]).area() <= u64::MAX)
                ==> scan_accepts(s, ScanReport::Corners(cs))
        }),
{
    let cur = s.cur.unwrap();
    let rects = clip_all(cs, cur.width, cur.height);
    if forall|i: int| 0 <= i < rects.len() ==> 255 * (#[trigger] rects[i]).area() <= u64::MAX {
        assert forall|i: int| 0 <= i < rects.len() implies rect_luma_sum(cur, #[trigger] rects[i]) <= u64::MAX by {
            lemma_rect_sum_bound(cur, rects[i]);
        }
    }
}

proof fn lemma_prev_carried(
    states: Seq<ScanState>,
    reports: Seq<ScanReport>,
    steps: Seq<ScanStep>,
    i: int,
    k: int,
)
    requires
        is_scan_trace(states, reports, steps),
        0 <= i < k <= reports.len(),
        forall|m: int| 0 <= m < states.len() ==> (#[trigger] states[m]).wf(),
        is_measurement(states[i], reports[i]),
        forall|m: int| i < m < k ==> !is_measurement(#[trigger] states[m], reports[m]),
    ensures
        states[k].prev == states[i].cur,
    decreases k - i,
{
    assert(scan_step(states[k - 1], reports[k - 1], states[k], steps[k - 1]));
    assert(states[k - 1].wf());
    lemma_measured_frame_becomes_previous(states[k - 1], reports[k - 1], states[k], steps[k - 1]);
    if k - 1 > i {
        lemma_prev_carried(states, reports, steps, i, k - 1);
        assert(!is_measurement(states[k - 1], reports[k - 1]));
    }
}

} // verus!
