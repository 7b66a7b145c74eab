//! Measurements over recorded frames: the mean luma of a rectangle of a frame, and the
//! share of a rectangle's pixels that changed since the previous frame.
//!
//! Results are exact fractions `num / den`; a fraction with `den == 0` (an empty
//! rectangle) stands for 0.

use vstd::prelude::*;
use crate::luma::{LumaImage, LumaView, lemma_pixel_index};

verus! {

/// A rectangle of pixels `x0 <= x < x1`, `y0 <= y < y1`; empty when `x1 <= x0` or `y1 <= y0`.
#[derive(PartialEq, Eq, Structural, Clone, Copy, Debug)]
pub struct PixelRect {
    pub x0: u32,
    pub y0: u32,
    pub x1: u32,
    pub y1: u32,
}

impl PixelRect {
    /// The rectangle lies inside a `width × height` image.
    pub open spec fn within(self, width: u32, height: u32) -> bool {
        self.x1 <= width && self.y1 <= height
    }

    /// The number of pixels in the rectangle.
    pub open spec fn area(self) -> nat {
        let w: int = if self.x1 > self.x0 { self.x1 - self.x0 } else { 0 };
        let h: int = if self.y1 > self.y0 { self.y1 - self.y0 } else { 0 };
        (w * h) as nat
    }

    /// The rectangle with corners `(x0, y0)` and `(x1, y1)`, its far edges cut back to a
    /// `width × height` image.
    pub fn clipped(x0: u32, y0: u32, x1: u32, y1: u32, width: u32, height: u32) -> (r: PixelRect)
        ensures
            r == (PixelRect {
                x0,
                y0,
                x1: if x1 < width { x1 } else { width },
                y1: if y1 < height { y1 } else { height },
            }),
            r.within(width, height),
    {
        PixelRect {
            x0,
            y0,
            x1: if x1 < width { x1 } else { width },
            y1: if y1 < height { y1 } else { height },
        }
    }
}

/// An exact ratio `num / den`; `den == 0` stands for 0.
#[derive(PartialEq, Eq, Structural, Clone, Copy, Debug)]
pub struct Fraction {
    pub num: u64,
    pub den: u64,
}

/// The sum of the luma values of row `y` for `x0 <= x < x1`.
pub open spec fn row_luma_sum(img: LumaView, y: int, x0: int, x1: int) -> nat
    decreases x1 - x0,
{
    if x1 <= x0 {
        0
    } else {
        row_luma_sum(img, y, x0, x1 - 1) + img.luma(x1 - 1, y) as nat
    }
}

/// The sum of the luma values of rows `y0 <= y < y1`, columns `x0 <= x < x1`.
pub open spec fn rows_luma_sum(img: LumaView, x0: int, x1: int, y0: int, y1: int) -> nat
    decreases y1 - y0,
{
    if y1 <= y0 {
        0
    } else {
        rows_luma_sum(img, x0, x1, y0, y1 - 1) + row_luma_sum(img, y1 - 1, x0, x1)
    }
}

/// The sum of the luma values inside a rectangle.
pub open spec fn rect_luma_sum(img: LumaView, r: PixelRect) -> nat {
    rows_luma_sum(img, r.x0 as int, r.x1 as int, r.y0 as int, r.y1 as int)
}

/// Pixel `(x, y)` differs between two frames by more than `thresh`.
pub open spec fn pixel_changed(cur: LumaView, prev: LumaView, x: int, y: int, thresh: u8) -> bool {
    let a = cur.luma(x, y) as int;
    let b = prev.luma(x, y) as int;
    (if a >= b { a - b } else { b - a }) > thresh
}

/// The number of changed pixels of row `y` for `x0 <= x < x1`.
pub open spec fn row_changed(cur: LumaView, prev: LumaView, y: int, x0: int, x1: int, thresh: u8) -> nat
    decreases x1 - x0,
{
    if x1 <= x0 {
        0
    } else {
        row_changed(cur, prev, y, x0, x1 - 1, thresh) + if pixel_changed(cur, prev, x1 - 1, y, thresh) {
            1nat
        } else {
            0nat
        }
    }
}

/// The number of changed pixels of rows `y0 <= y < y1`, columns `x0 <= x < x1`.
pub open spec fn rows_changed(
    cur: LumaView,
    prev: LumaView,
    x0: int,
    x1: int,
    y0: int,
    y1: int,
    thresh: u8,
) -> nat
    decreases y1 - y0,
{
    if y1 <= y0 {
        0
    } else {
        rows_changed(cur, prev, x0, x1, y0, y1 - 1, thresh) + row_changed(cur, prev, y1 - 1, x0, x1, thresh)
    }
}

/// The number of pixels inside a rectangle that changed by more than `thresh`.
pub open spec fn rect_changed(cur: LumaView, prev: LumaView, r: PixelRect, thresh: u8) -> nat {
    rows_changed(cur, prev, r.x0 as int, r.x1 as int, r.y0 as int, r.y1 as int, thresh)
}

/// The mean luma of a rectangle, as the fraction (sum of its luma values) / (its pixel count).
pub open spec fn mean_luma(img: LumaView, r: PixelRect) -> (nat, nat) {
    (rect_luma_sum(img, r), r.area())
}

/// The change of a rectangle between two frames: 0 for the first frame, 1 when the
/// frame's size changed, else (changed pixels) / (pixels).
pub open spec fn change_fraction(cur: LumaView, prev: Option<LumaView>, r: PixelRect, thresh: u8) -> (nat, nat) {
    match prev {
        None => (0, 1),
        Some(p) => if p.width != cur.width || p.height != cur.height {
            (1, 1)
        } else {
            (rect_changed(cur, p, r, thresh), r.area())
        },
    }
}

proof fn lemma_row_sum_step(img: LumaView, y: int, x0: int, x: int)
    requires
        x0 <= x,
    ensures
        row_luma_sum(img, y, x0, x + 1) == row_luma_sum(img, y, x0, x) + img.luma(x, y) as nat,
{
}

proof fn lemma_row_sum_mono(img: LumaView, y: int, x0: int, x: int, x1: int)
    requires
        x <= x1,
    ensures
        row_luma_sum(img, y, x0, x) <= row_luma_sum(img, y, x0, x1),
    decreases x1 - x,
{
    if x < x1 {
        lemma_row_sum_mono(img, y, x0, x, x1 - 1);
    }
}

proof fn lemma_rows_sum_mono(img: LumaView, x0: int, x1: int, y0: int, y: int, y1: int)
    requires
        y <= y1,
    ensures
        rows_luma_sum(img, x0, x1, y0, y) <= rows_luma_sum(img, x0, x1, y0, y1),
    decreases y1 - y,
{
    if y < y1 {
        lemma_rows_sum_mono(img, x0, x1, y0, y, y1 - 1);
    }
}

proof fn lemma_row_changed_bound(cur: LumaView, prev: LumaView, y: int, x0: int, x1: int, thresh: u8)
    ensures
        row_changed(cur, prev, y, x0, x1, thresh) <= if x1 > x0 { x1 - x0 } else { 0 },
    decreases x1 - x0,
{
    if x1 > x0 {
        lemma_row_changed_bound(cur, prev, y, x0, x1 - 1, thresh);
    }
}

proof fn lemma_rows_changed_bound(
    cur: LumaView,
    prev: LumaView,
    x0: int,
    x1: int,
    y0: int,
    y1: int,
    thresh: u8,
)
    requires
        x0 < x1,
    ensures
        rows_changed(cur, prev, x0, x1, y0, y1, thresh) <= (x1 - x0) * (if y1 > y0 { y1 - y0 } else { 0 }),
    decreases y1 - y0,
{
    if y1 > y0 {
        lemma_rows_changed_bound(cur, prev, x0, x1, y0, y1 - 1, thresh);
        lemma_row_changed_bound(cur, prev, y1 - 1, x0, x1, thresh);
        assert((x1 - x0) * (y1 - 1 - y0) + (x1 - x0) == (x1 - x0) * (y1 - y0)) by (nonlinear_arith);
        if y1 - 1 <= y0 {
            assert((x1 - x0) * 0 == 0) by (nonlinear_arith);
        }
    }
}

/// The changed pixels of a rectangle are among its pixels.
pub proof fn lemma_changed_within_area(cur: LumaView, prev: LumaView, r: PixelRect, thresh: u8)
    ensures
        rect_changed(cur, prev, r, thresh) <= r.area(),
{
    if r.x1 > r.x0 {
        lemma_rows_changed_bound(cur, prev, r.x0 as int, r.x1 as int, r.y0 as int, r.y1 as int, thresh);
    } else {
        assert forall|y1: int| #![auto] rows_changed(cur, prev, r.x0 as int, r.x1 as int, r.y0 as int, y1, thresh) == 0 by {
            lemma_rows_changed_empty(cur, prev, r.x0 as int, r.x1 as int, r.y0 as int, y1, thresh);
        }
    }
}

proof fn lemma_rows_changed_empty(cur: LumaView, prev: LumaView, x0: int, x1: int, y0: int, y1: int, thresh: u8)
    requires
        x1 <= x0,
    ensures
        rows_changed(cur, prev, x0, x1, y0, y1, thresh) == 0,
    decreases y1 - y0,
{
    if y1 > y0 {
        lemma_rows_changed_empty(cur, prev, x0, x1, y0, y1 - 1, thresh);
    }
}

/// The sum of the luma values and the pixel count of a rectangle of a frame: the
/// mean luma is `num / den` (0 for an empty rectangle).
pub fn region_mean(img: &LumaImage, r: PixelRect) -> (f: Fraction)
    requires
        r.within(img@.width, img@.height),
        rect_luma_sum(img@, r) <= u64::MAX,
    ensures
        (f.num as nat, f.den as nat) == mean_luma(img@, r),
{
    let ghost v = img@;
    let mut sum: u64 = 0;
    let mut cnt: u64 = 0;
    let mut y: u32 = r.y0;
    let ghost xs: int = if r.x1 > r.x0 { r.x1 - r.x0 } else { 0 };
    if r.y0 < r.y1 {
        while y < r.y1
            invariant
                v == img@,
                r.within(v.width, v.height),
                rect_luma_sum(v, r) <= u64::MAX,
                r.y0 <= y <= r.y1,
                sum == rows_luma_sum(v, r.x0 as int, r.x1 as int, r.y0 as int, y as int),
                cnt == xs * (y - r.y0),
                xs == if r.x1 > r.x0 { r.x1 - r.x0 } else { 0 },
            decreases r.y1 - y,
        {
            let mut x: u32 = r.x0;
            let ghost row_start = sum;
            let ghost cnt_start = cnt;
            proof {
                lemma_rows_sum_mono(v, r.x0 as int, r.x1 as int, r.y0 as int, y + 1, r.y1 as int);
                assert(xs * (y - r.y0) + xs == xs * (y + 1 - r.y0)) by (nonlinear_arith);
                assert(xs * (y + 1 - r.y0) <= xs * (r.y1 - r.y0)) by (nonlinear_arith)
                    requires y + 1 <= r.y1, xs >= 0;
                assert(xs * (r.y1 - r.y0) <= u64::MAX) by (nonlinear_arith)
                    requires 0 <= xs <= u32::MAX, 0 <= r.y1 - r.y0 <= u32::MAX;
            }
            while x < r.x1
                invariant
                    v == img@,
                    r.within(v.width, v.height),
                    r.y0 <= y < r.y1,
                    x >= r.x0,
                    x <= r.x1 || r.x1 <= r.x0,
                    r.x1 <= r.x0 ==> x == r.x0,
                    row_start + row_luma_sum(v, y as int, r.x0 as int, r.x1 as int) <= u64::MAX,
                    sum == row_start + row_luma_sum(v, y as int, r.x0 as int, x as int),
                    cnt == cnt_start + (x - r.x0),
                    cnt_start + xs <= u64::MAX,
                    xs == if r.x1 > r.x0 { r.x1 - r.x0 } else { 0 },
                decreases r.x1 - x,
            {
                proof {
                    lemma_row_sum_step(v, y as int, r.x0 as int, x as int);
                    lemma_row_sum_mono(v, y as int, r.x0 as int, x + 1, r.x1 as int);
                }
                sum = sum + img.get_pixel(x, y) as u64;
                cnt = cnt + 1;
                x = x + 1;
            }
            assert(sum == row_start + row_luma_sum(v, y as int, r.x0 as int, r.x1 as int)) by {
                if r.x1 <= r.x0 {
                    assert(x == r.x0);
                }
            }
            assert(cnt == cnt_start + xs);
            y = y + 1;
        }
    }
    proof {
        if r.y0 >= r.y1 {
            assert(xs * 0 == 0) by (nonlinear_arith);
        }
    }
    Fraction { num: sum, den: cnt }
}

proof fn lemma_row_changed_step(cur: LumaView, prev: LumaView, y: int, x0: int, x: int, thresh: u8)
    requires
        x0 <= x,
    ensures
        row_changed(cur, prev, y, x0, x + 1, thresh) == row_changed(cur, prev, y, x0, x, thresh) + if pixel_changed(
            cur,
            prev,
            x,
            y,
            thresh,
        ) {
            1nat
        } else {
            0nat
        },
{
}

/// The number of pixels of a rectangle whose luma differs between frame `cur` and the
/// same-sized frame `prev` by more than `thresh`, and the rectangle's pixel count.
pub fn region_changed(cur: &LumaImage, prev: &LumaImage, r: PixelRect, thresh: u8) -> (f: Fraction)
    requires
        r.within(cur@.width, cur@.height),
        prev@.width == cur@.width,
        prev@.height == cur@.height,
    ensures
        f.num == rect_changed(cur@, prev@, r, thresh),
        f.den == r.area(),
{
    let ghost c = cur@;
    let ghost p = prev@;
    let mut changed: u64 = 0;
    let mut cnt: u64 = 0;
    let mut y: u32 = r.y0;
    let ghost xs: int = if r.x1 > r.x0 { r.x1 - r.x0 } else { 0 };
    if r.y0 < r.y1 {
        while y < r.y1
            invariant
                c == cur@,
                p == prev@,
                r.within(c.width, c.height),
                p.width == c.width,
                p.height == c.height,
                r.y0 <= y <= r.y1,
                changed == rows_changed(c, p, r.x0 as int, r.x1 as int, r.y0 as int, y as int, thresh),
                cnt == xs * (y - r.y0),
                xs == if r.x1 > r.x0 { r.x1 - r.x0 } else { 0 },
            decreases r.y1 - y,
        {
            let mut x: u32 = r.x0;
            let ghost row_start = changed;
            let ghost cnt_start = cnt;
            proof {
                assert(xs * (y - r.y0) + xs == xs * (y + 1 - r.y0)) by (nonlinear_arith);
                assert(xs * (y + 1 - r.y0) <= xs * (r.y1 - r.y0)) by (nonlinear_arith)
                    requires y + 1 <= r.y1, xs >= 0;
                assert(xs * (r.y1 - r.y0) <= u64::MAX) by (nonlinear_arith)
                    requires 0 <= xs <= u32::MAX, 0 <= r.y1 - r.y0 <= u32::MAX;
                if r.x1 > r.x0 {
                    lemma_rows_changed_bound(c, p, r.x0 as int, r.x1 as int, r.y0 as int, y as int, thresh);
                } else {
                    lemma_rows_changed_empty(c, p, r.x0 as int, r.x1 as int, r.y0 as int, y as int, thresh);
                }
                assert(row_start <= cnt_start);
            }
            while x < r.x1
                invariant
                    c == cur@,
                    p == prev@,
                    r.within(c.width, c.height),
                    p.width == c.width,
                    p.height == c.height,
                    r.y0 <= y < r.y1,
                    x >= r.x0,
                    x <= r.x1 || r.x1 <= r.x0,
                    r.x1 <= r.x0 ==> x == r.x0,
                    row_start <= cnt_start,
                    changed == row_start + row_changed(c, p, y as int, r.x0 as int, x as int, thresh),
                    changed <= cnt,
                    cnt == cnt_start + (x - r.x0),
                    cnt_start + xs <= u64::MAX,
                    xs == if r.x1 > r.x0 { r.x1 - r.x0 } else { 0 },
                decreases r.x1 - x,
            {
                proof {
                    lemma_row_changed_step(c, p, y as int, r.x0 as int, x as int, thresh);
                }
                let a = cur.get_pixel(x, y);
                let b = prev.get_pixel(x, y);
                let diff: u8 = if a >= b { a - b } else { b - a };
                if diff > thresh {
                    changed = changed + 1;
                }
                cnt = cnt + 1;
                x = x + 1;
            }
            assert(changed == row_start + row_changed(c, p, y as int, r.x0 as int, r.x1 as int, thresh)) by {
                if r.x1 <= r.x0 {
                    assert(x == r.x0);
                }
            }
            assert(cnt == cnt_start + xs);
            y = y + 1;
        }
    }
    proof {
        if r.y0 >= r.y1 {
            assert(xs * 0 == 0) by (nonlinear_arith);
        }
    }
    Fraction { num: changed, den: cnt }
}

/// How much of a rectangle changed in frame `cur` since frame `prev`: nothing for the
/// first frame (no `prev`), everything when the frame's size changed, else the share of
/// its pixels whose luma moved by more than `thresh`.
pub fn region_change(cur: &LumaImage, prev: Option<&LumaImage>, r: PixelRect, thresh: u8) -> (f: Fraction)
    requires
        r.within(cur@.width, cur@.height),
    ensures
        (f.num as nat, f.den as nat) == change_fraction(
            cur@,
            match prev {
                Some(p) => Some(p@),
                None => None,
            },
            r,
            thresh,
        ),
        f.num <= f.den,
{
    match prev {
        None => Fraction { num: 0, den: 1 },
        Some(p) => {
            if p.width() != cur.width() || p.height() != cur.height() {
                Fraction { num: 1, den: 1 }
            } else {
                proof {
                    lemma_changed_within_area(cur@, p@, r, thresh);
                }
                region_changed(cur, p, r, thresh)
            }
        },
    }
}

/// The luma threshold above which a pixel counts as changed when none is given.
pub const DEFAULT_DIFF_THRESHOLD: u8 = 30;

/// The change threshold of a frame-difference analysis: the one given, else
/// [`DEFAULT_DIFF_THRESHOLD`].
pub fn diff_threshold(thresh: Option<u8>) -> (t: u8)
    ensures
        t == match thresh {
            Some(t) => t,
            None => DEFAULT_DIFF_THRESHOLD,
        },
{
    match thresh {
        Some(t) => t,
        None => DEFAULT_DIFF_THRESHOLD,
    }
}

proof fn lemma_row_sum_bound(img: LumaView, y: int, x0: int, x1: int)
    ensures
        row_luma_sum(img, y, x0, x1) <= 255 * (if x1 > x0 { x1 - x0 } else { 0 }),
    decreases x1 - x0,
{
    if x1 > x0 {
        lemma_row_sum_bound(img, y, x0, x1 - 1);
    }
}

proof fn lemma_rows_sum_bound(img: LumaView, x0: int, x1: int, y0: int, y1: int)
    ensures
        rows_luma_sum(img, x0, x1, y0, y1) <= 255 * ((if x1 > x0 { x1 - x0 } else { 0 }) * (if y1
            > y0 { y1 - y0 } else { 0 })),
    decreases y1 - y0,
{
    let xs: int = if x1 > x0 { x1 - x0 } else { 0 };
    if y1 > y0 {
        lemma_rows_sum_bound(img, x0, x1, y0, y1 - 1);
        lemma_row_sum_bound(img, y1 - 1, x0, x1);
        let ys: int = y1 - y0;
        assert(xs * (ys - 1) + xs == xs * ys) by (nonlinear_arith);
        if y1 - 1 <= y0 {
            assert(xs * 0 == 0) by (nonlinear_arith);
        }
    } else {
        assert(xs * 0 == 0) by (nonlinear_arith);
    }
}

/// A rectangle's luma sum is at most 255 per pixel.
pub proof fn lemma_rect_sum_bound(img: LumaView, r: PixelRect)
    ensures
        rect_luma_sum(img, r) <= 255 * r.area(),
{
    lemma_rows_sum_bound(img, r.x0 as int, r.x1 as int, r.y0 as int, r.y1 as int);
}

impl PixelRect {
    /// The rectangle is small enough that the luma sum of any frame over it fits in `u64`
    /// (a frame's luma sum over it fits whenever this holds).
    pub fn sum_fits(&self) -> (b: bool)
        ensures
            b <==> 255 * self.area() <= u64::MAX,
            b ==> forall|img: LumaView| #[trigger] rect_luma_sum(img, *self) <= u64::MAX,
    {
        proof {
            assert forall|img: LumaView| 255 * self.area() <= u64::MAX implies #[trigger] rect_luma_sum(img, *self) <= u64::MAX by {
                lemma_rect_sum_bound(img, *self);
            }
        }
        let w: u64 = if self.x1 > self.x0 { (self.x1 - self.x0) as u64 } else { 0 };
        let h: u64 = if self.y1 > self.y0 { (self.y1 - self.y0) as u64 } else { 0 };
        assert(w * h <= u64::MAX) by (nonlinear_arith)
            requires w <= u32::MAX, h <= u32::MAX;
        let a: u64 = w * h;
        a <= u64::MAX / 255
    }
}

/// The mean luma of each rectangle of a frame, in order.
pub fn mean_row(img: &LumaImage, rects: &[PixelRect]) -> (row: Vec<Fraction>)
    requires
        forall|i: int|
            0 <= i < rects@.len() ==> #[trigger] rects@[i].within(img@.width, img@.height)
                && rect_luma_sum(img@, rects@[i]) <= u64::MAX,
    ensures
        row@.len() == rects@.len(),
        forall|i: int|
            0 <= i < rects@.len() ==> (#[trigger] row@[i].num as nat, row@[i].den as nat) == mean_luma(
                img@,
                rects@[i],
            ),
{
    let mut row: Vec<Fraction> = Vec::new();
    let mut i: usize = 0;
    while i < rects.len()
        invariant
            i <= rects@.len(),
            row@.len() == i,
            forall|k: int|
                0 <= k < rects@.len() ==> #[trigger] rects@[k].within(img@.width, img@.height)
                    && rect_luma_sum(img@, rects@[k]) <= u64::MAX,
            forall|k: int|
                0 <= k < i ==> (#[trigger] row@[k].num as nat, row@[k].den as nat) == mean_luma(
                    img@,
                    rects@[k],
                ),
        decreases rects@.len() - i,
    {
        let r = rects[i];
        proof {
            assert(rects@[i as int].within(img@.width, img@.height));
        }
        row.push(region_mean(img, r));
        i = i + 1;
    }
    row
}

/// How much each rectangle changed in frame `cur` since frame `prev` (see [`region_change`]).
pub fn change_row(cur: &LumaImage, prev: Option<&LumaImage>, rects: &[PixelRect], thresh: u8) -> (row: Vec<
    Fraction,
>)
    requires
        forall|i: int| 0 <= i < rects@.len() ==> #[trigger] rects@[i].within(cur@.width, cur@.height),
    ensures
        row@.len() == rects@.len(),
        forall|i: int|
            0 <= i < rects@.len() ==> (#[trigger] row@[i].num as nat, row@[i].den as nat)
                == change_fraction(
                cur@,
                match prev {
                    Some(p) => Some(p@),
                    None => None,
                },
                rects@[i],
                thresh,
            ),
{
    let mut row: Vec<Fraction> = Vec::new();
    let mut i: usize = 0;
    while i < rects.len()
        invariant
            i <= rects@.len(),
            row@.len() == i,
            forall|k: int| 0 <= k < rects@.len() ==> #[trigger] rects@[k].within(cur@.width, cur@.height),
            forall|k: int|
                0 <= k < i ==> (#[trigger] row@[k].num as nat, row@[k].den as nat) == change_fraction(
                    cur@,
                    match prev {
                        Some(p) => Some(p@),
                        None => None,
                    },
                    rects@[k],
                    thresh,
                ),
        decreases rects@.len() - i,
    {
        let r = rects[i];
        proof {
            assert(rects@[i as int].within(cur@.width, cur@.height));
        }
        row.push(region_change(cur, prev, r, thresh));
        i = i + 1;
    }
    row
}

/// The luma sum of a rectangle of a frame, in 128 bits (it cannot overflow there:
/// at most 255 per pixel of at most 2^64 pixels).
pub fn region_luma_sum_wide(img: &LumaImage, r: PixelRect) -> (sum: u128)
    requires
        r.within(img@.width, img@.height),
    ensures
        sum == rect_luma_sum(img@, r),
{
    let ghost v = img@;
    proof {
        lemma_rect_sum_bound(v, r);
        let xs: int = if r.x1 > r.x0 { r.x1 - r.x0 } else { 0 };
        let ys: int = if r.y1 > r.y0 { r.y1 - r.y0 } else { 0 };
        assert(xs * ys <= u32::MAX * u32::MAX) by (nonlinear_arith)
            requires 0 <= xs <= u32::MAX, 0 <= ys <= u32::MAX;
    }
    let mut sum: u128 = 0;
    let mut y: u32 = r.y0;
    if r.y0 < r.y1 {
        while y < r.y1
            invariant
                v == img@,
                r.within(v.width, v.height),
                rect_luma_sum(v, r) <= u128::MAX,
                r.y0 <= y <= r.y1,
                sum == rows_luma_sum(v, r.x0 as int, r.x1 as int, r.y0 as int, y as int),
            decreases r.y1 - y,
        {
            let mut x: u32 = r.x0;
            let ghost row_start = sum;
            proof {
                lemma_rows_sum_mono(v, r.x0 as int, r.x1 as int, r.y0 as int, y + 1, r.y1 as int);
            }
            while x < r.x1
                invariant
                    v == img@,
                    r.within(v.width, v.height),
                    r.y0 <= y < r.y1,
                    x >= r.x0,
                    x <= r.x1 || r.x1 <= r.x0,
                    r.x1 <= r.x0 ==> x == r.x0,
                    row_start + row_luma_sum(v, y as int, r.x0 as int, r.x1 as int) <= u128::MAX,
                    sum == row_start + row_luma_sum(v, y as int, r.x0 as int, x as int),
                decreases r.x1 - x,
            {
                proof {
                    lemma_row_sum_step(v, y as int, r.x0 as int, x as int);
                    lemma_row_sum_mono(v, y as int, r.x0 as int, x + 1, r.x1 as int);
                }
                sum = sum + img.get_pixel(x, y) as u128;
                x = x + 1;
            }
            assert(sum == row_start + row_luma_sum(v, y as int, r.x0 as int, r.x1 as int)) by {
                if r.x1 <= r.x0 {
                    assert(x == r.x0);
                }
            }
            y = y + 1;
        }
    }
    sum
}

/// A pixel counts as changed exactly when its luma moved by more than `thresh`, up or
/// down: a pixel whose luma stays within `thresh` of its old value either way is never
/// counted, and the test does not care which frame came first.
pub proof fn lemma_pixel_changed_is_a_move_beyond_threshold(
    cur: LumaView,
    prev: LumaView,
    x: int,
    y: int,
    thresh: u8,
)
    ensures
        pixel_changed(cur, prev, x, y, thresh) == pixel_changed(prev, cur, x, y, thresh),
        !pixel_changed(cur, prev, x, y, thresh) <==> (cur.luma(x, y) <= prev.luma(x, y) + thresh
            && prev.luma(x, y) <= cur.luma(x, y) + thresh),
        cur.luma(x, y) == prev.luma(x, y) ==> !pixel_changed(cur, prev, x, y, thresh),
{
}

proof fn lemma_row_changed_symmetric(cur: LumaView, prev: LumaView, y: int, x0: int, x1: int, thresh: u8)
    ensures
        row_changed(cur, prev, y, x0, x1, thresh) == row_changed(prev, cur, y, x0, x1, thresh),
    decreases x1 - x0,
{
    if x1 > x0 {
        lemma_row_changed_symmetric(cur, prev, y, x0, x1 - 1, thresh);
        lemma_pixel_changed_is_a_move_beyond_threshold(cur, prev, x1 - 1, y, thresh);
    }
}

proof fn lemma_rows_changed_symmetric(
    cur: LumaView,
    prev: LumaView,
    x0: int,
    x1: int,
    y0: int,
    y1: int,
    thresh: u8,
)
    ensures
        rows_changed(cur, prev, x0, x1, y0, y1, thresh) == rows_changed(prev, cur, x0, x1, y0, y1, thresh),
    decreases y1 - y0,
{
    if y1 > y0 {
        lemma_rows_changed_symmetric(cur, prev, x0, x1, y0, y1 - 1, thresh);
        lemma_row_changed_symmetric(cur, prev, y1 - 1, x0, x1, thresh);
    }
}

proof fn lemma_row_unchanged(img: LumaView, y: int, x0: int, x1: int, thresh: u8)
    ensures
        row_changed(img, img, y, x0, x1, thresh) == 0,
    decreases x1 - x0,
{
    if x1 > x0 {
        lemma_row_unchanged(img, y, x0, x1 - 1, thresh);
    }
}

proof fn lemma_rows_unchanged(img: LumaView, x0: int, x1: int, y0: int, y1: int, thresh: u8)
    ensures
        rows_changed(img, img, x0, x1, y0, y1, thresh) == 0,
    decreases y1 - y0,
{
    if y1 > y0 {
        lemma_rows_unchanged(img, x0, x1, y0, y1 - 1, thresh);
        lemma_row_unchanged(img, y1 - 1, x0, x1, thresh);
    }
}

/// The changed-pixel count of a region does not depend on which of the two frames came
/// first, and a frame compared with itself has no changed pixel.
pub proof fn lemma_rect_changed_symmetric(cur: LumaView, prev: LumaView, r: PixelRect, thresh: u8)
    ensures
        rect_changed(cur, prev, r, thresh) == rect_changed(prev, cur, r, thresh),
        rect_changed(cur, cur, r, thresh) == 0,
{
    lemma_rows_changed_symmetric(cur, prev, r.x0 as int, r.x1 as int, r.y0 as int, r.y1 as int, thresh);
    lemma_rows_unchanged(cur, r.x0 as int, r.x1 as int, r.y0 as int, r.y1 as int, thresh);
}

/// A frame equal to the previous one, of the same size, shows no change in any region.
pub proof fn lemma_unchanged_frame_has_no_change(cur: LumaView, r: PixelRect, thresh: u8)
    ensures
        change_fraction(cur, Some(cur), r, thresh) == (0nat, r.area()),
{
    lemma_rect_changed_symmetric(cur, cur, r, thresh);
}

} // verus!
