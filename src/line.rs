//! Bresenham scan conversion of straight lines.
use vstd::prelude::*;
use crate::canvas::{Canvas, int_points};
use crate::color::RGBA;

verus! {

/// The minor-axis offset of step `i` of a run that advances `minor` over
/// `major` steps: `i * minor / major` rounded to the nearest integer, halves up.
pub open spec fn bres_offset(i: int, major: int, minor: int) -> int {
    if major == 0 {
        0
    } else {
        (2 * i * minor + major) / (2 * major)
    }
}

/// Point `i` of a run from `(sx, sy)`: one step along the major axis (x, or
/// y when `steep`) and the rounded offset times `step` along the other.
pub open spec fn run_point(
    sx: int,
    sy: int,
    i: int,
    major: int,
    minor: int,
    step: int,
    steep: bool,
) -> (int, int) {
    if steep {
        (sx + step * bres_offset(i, major, minor), sy + i)
    } else {
        (sx + i, sy + step * bres_offset(i, major, minor))
    }
}

/// The `major + 1` points of a run, in drawing order.
pub open spec fn run_points(
    sx: int,
    sy: int,
    major: int,
    minor: int,
    step: int,
    steep: bool,
) -> Seq<(int, int)> {
    Seq::new((major + 1) as nat, |i: int| run_point(sx, sy, i, major, minor, step, steep))
}

pub open spec fn abs_diff(a: int, b: int) -> int {
    if a < b {
        b - a
    } else {
        a - b
    }
}

/// The pixels of the line from `(x1, y1)` to `(x2, y2)`, in drawing order.
/// A shallow line (`|dy| <= |dx|`) is walked along x from its left end, a
/// steep one along y from its top end; both ends are always included, and
/// each pixel appears once.
pub open spec fn line_points(x1: int, y1: int, x2: int, y2: int) -> Seq<(int, int)> {
    let dx = abs_diff(x1, x2);
    let dy = abs_diff(y1, y2);
    if dy <= dx {
        let (sx, sy, ey) = if x1 < x2 {
            (x1, y1, y2)
        } else {
            (x2, y2, y1)
        };
        run_points(sx, sy, dx, dy, if sy < ey { 1 } else { -1 }, false)
    } else {
        let (sx, sy, ex) = if y1 < y2 {
            (x1, y1, x2)
        } else {
            (x2, y2, x1)
        };
        run_points(sx, sy, dy, dx, if sx < ex { 1 } else { -1 }, true)
    }
}

/// `n / d` is the `k` with `k * d <= n < (k + 1) * d`.
pub proof fn lemma_div_unique(n: int, d: int, k: int)
    requires
        0 < d,
        k * d <= n < k * d + d,
    ensures
        n / d == k,
{
    vstd::arithmetic::div_mod::lemma_fundamental_div_mod_converse(n, d, k, n - k * d);
}

/// The offsets of a run start at 0, end at `minor`, and never decrease.
pub proof fn lemma_bres_range(i: int, major: int, minor: int)
    requires
        0 <= minor <= major,
        0 <= i <= major,
    ensures
        bres_offset(0, major, minor) == 0,
        bres_offset(major, major, minor) == minor,
        0 <= bres_offset(i, major, minor) <= minor,
{
    if major > 0 {
        lemma_div_unique(major, 2 * major, 0);
        assert(2 * major * minor + major == minor * (2 * major) + major) by (nonlinear_arith);
        lemma_div_unique(2 * major * minor + major, 2 * major, minor);
        assert(0 <= 2 * i * minor <= 2 * major * minor) by (nonlinear_arith)
            requires
                0 <= i <= major,
                0 <= minor,
        ;
        vstd::arithmetic::div_mod::lemma_div_is_ordered(major, 2 * i * minor + major, 2 * major);
        vstd::arithmetic::div_mod::lemma_div_is_ordered(
            2 * i * minor + major,
            2 * major * minor + major,
            2 * major,
        );
    }
}

/// One Bresenham step: with the decision value `p` of step `i`, the offset
/// grows by one exactly when `p >= 0`, and otherwise stays.
pub proof fn lemma_bres_step(i: int, major: int, minor: int, p: int)
    requires
        0 <= minor <= major,
        0 < major,
        1 <= i,
        p == 2 * i * minor - major - 2 * major * bres_offset(i - 1, major, minor),
    ensures
        p >= 0 ==> bres_offset(i, major, minor) == bres_offset(i - 1, major, minor) + 1,
        p < 0 ==> bres_offset(i, major, minor) == bres_offset(i - 1, major, minor),
        -2 * major <= p < 2 * major,
{
    let d = 2 * major;
    let off = bres_offset(i - 1, major, minor);
    let prev = 2 * (i - 1) * minor + major;
    let cur = 2 * i * minor + major;
    assert(cur == prev + 2 * minor) by (nonlinear_arith)
        requires
            prev == 2 * (i - 1) * minor + major,
            cur == 2 * i * minor + major,
    ;
    assert(off == prev / d);
    assert(prev >= 0) by (nonlinear_arith)
        requires
            i >= 1,
            minor >= 0,
            major > 0,
            prev == 2 * (i - 1) * minor + major,
    ;
    vstd::arithmetic::div_mod::lemma_fundamental_div_mod(prev, d);
    vstd::arithmetic::div_mod::lemma_mod_bound(prev, d);
    assert(off * d <= prev < off * d + d) by (nonlinear_arith)
        requires
            prev == d * (prev / d) + prev % d,
            0 <= prev % d < d,
            off == prev / d,
    ;
    assert(p == cur - (off + 1) * d) by (nonlinear_arith)
        requires
            p == 2 * i * minor - major - 2 * major * off,
            cur == 2 * i * minor + major,
            d == 2 * major,
    ;
    if p >= 0 {
        assert((off + 1) * d <= cur < (off + 1) * d + d) by (nonlinear_arith)
            requires
                off * d <= prev < off * d + d,
                cur == prev + 2 * minor,
                2 * minor <= d,
                cur - (off + 1) * d >= 0,
        ;
        lemma_div_unique(cur, d, off + 1);
    } else {
        assert(off * d <= cur < off * d + d) by (nonlinear_arith)
            requires
                off * d <= prev,
                cur == prev + 2 * minor,
                minor >= 0,
                cur - (off + 1) * d < 0,
        ;
        lemma_div_unique(cur, d, off);
    }
    let od = off * d;
    assert((off + 1) * d == od + d) by (nonlinear_arith)
        requires
            od == off * d,
    ;
    assert(-d <= p < d);
}

/// Every point of a run lies between its first and last point on each axis.
pub proof fn lemma_run_between(
    sx: int,
    sy: int,
    major: int,
    minor: int,
    step: int,
    steep: bool,
    i: int,
)
    requires
        0 <= minor <= major,
        step == 1 || step == -1,
        0 <= i <= major,
    ensures
        ({
            let p = run_point(sx, sy, i, major, minor, step, steep);
            let e = run_point(sx, sy, major, major, minor, step, steep);
            &&& (sx <= p.0 <= e.0 || e.0 <= p.0 <= sx)
            &&& (sy <= p.1 <= e.1 || e.1 <= p.1 <= sy)
        }),
{
    lemma_bres_range(i, major, minor);
    lemma_bres_range(major, major, minor);
}

/// Bresenham offsets never decrease along a run.
pub proof fn lemma_bres_monotone(j: int, i: int, major: int, minor: int)
    requires
        0 <= minor <= major,
        0 <= j <= i,
    ensures
        bres_offset(j, major, minor) <= bres_offset(i, major, minor),
{
    if major > 0 {
        assert(2 * j * minor + major <= 2 * i * minor + major) by (nonlinear_arith)
            requires
                0 <= j <= i,
                0 <= minor,
        ;
        vstd::arithmetic::div_mod::lemma_div_is_ordered(
            2 * j * minor + major,
            2 * i * minor + major,
            2 * major,
        );
    }
}

/// Every pixel of a line lies between its two ends, on both axes.
pub proof fn lemma_line_between(x1: int, y1: int, x2: int, y2: int, i: int)
    requires
        0 <= i < line_points(x1, y1, x2, y2).len(),
    ensures
        ({
            let p = line_points(x1, y1, x2, y2)[i];
            &&& (x1 <= p.0 <= x2 || x2 <= p.0 <= x1)
            &&& (y1 <= p.1 <= y2 || y2 <= p.1 <= y1)
        }),
{
    let dx = abs_diff(x1, x2);
    let dy = abs_diff(y1, y2);
    if dy <= dx {
        let (sx, sy, ey) = if x1 < x2 { (x1, y1, y2) } else { (x2, y2, y1) };
        let step = if sy < ey { 1int } else { -1int };
        lemma_run_between(sx, sy, dx, dy, step, false, i);
        lemma_bres_range(dx, dx, dy);
    } else {
        let (sx, sy, ex) = if y1 < y2 { (x1, y1, x2) } else { (x2, y2, x1) };
        let step = if sx < ex { 1int } else { -1int };
        lemma_run_between(sx, sy, dy, dx, step, true, i);
        lemma_bres_range(dy, dy, dx);
    }
}

/// A line never comes back to a row it has left: if pixels `j` and `i` share
/// a row, so does every pixel between them.
pub proof fn lemma_line_rows_unbroken(x1: int, y1: int, x2: int, y2: int, j: int, k: int, i: int)
    requires
        0 <= j <= k <= i < line_points(x1, y1, x2, y2).len(),
        line_points(x1, y1, x2, y2)[j].1 == line_points(x1, y1, x2, y2)[i].1,
    ensures
        line_points(x1, y1, x2, y2)[k].1 == line_points(x1, y1, x2, y2)[i].1,
{
    let dx = abs_diff(x1, x2);
    let dy = abs_diff(y1, y2);
    if dy <= dx {
        let (sx, sy, ey) = if x1 < x2 { (x1, y1, y2) } else { (x2, y2, y1) };
        let step = if sy < ey { 1int } else { -1int };
        lemma_bres_monotone(j, k, dx, dy);
        lemma_bres_monotone(k, i, dx, dy);
        let (bj, bk, bi) = (bres_offset(j, dx, dy), bres_offset(k, dx, dy), bres_offset(i, dx, dy));
        if step == 1 {
            assert(step * bj == bj && step * bk == bk && step * bi == bi) by (nonlinear_arith)
                requires
                    step == 1,
            ;
        } else {
            assert(step * bj == -bj && step * bk == -bk && step * bi == -bi) by (nonlinear_arith)
                requires
                    step == -1,
            ;
        }
    }
}

/// The points of a run, walked with the Bresenham decision value
/// `p = 2 * i * minor - major - 2 * major * offset`: the offset grows by one
/// at each step where `p` is not negative.
fn run_pixels(sx: isize, sy: isize, major: i128, minor: i128, step: i128, steep: bool) -> (pts: Vec<
    (isize, isize),
>)
    requires
        0 <= minor <= major <= 0x1_0000_0000_0000_0000,
        step == 1 || step == -1,
        forall|i: int|
            0 <= i <= major ==> {
                let q = #[trigger] run_point(sx as int, sy as int, i, major as int, minor as int, step as int, steep);
                &&& isize::MIN <= q.0 <= isize::MAX
                &&& isize::MIN <= q.1 <= isize::MAX
            },
    ensures
        int_points(pts@) == run_points(sx as int, sy as int, major as int, minor as int, step as int, steep),
{
    let ghost all = run_points(sx as int, sy as int, major as int, minor as int, step as int, steep);
    let mut pts: Vec<(isize, isize)> = Vec::new();
    proof {
        lemma_bres_range(0, major as int, minor as int);
        assert(all[0] == (sx as int, sy as int));
    }
    pts.push((sx, sy));
    proof {
        assert(int_points(pts@) =~= all.take(1));
    }
    let a: i128 = 2 * minor;
    let b: i128 = a - 2 * major;
    let mut p: i128 = a - major;
    let mut offset: i128 = 0;
    let mut i: i128 = 1;
    while i <= major
        invariant
            0 <= minor <= major <= 0x1_0000_0000_0000_0000,
            step == 1 || step == -1,
            a == 2 * minor,
            b == a - 2 * major,
            1 <= i <= major + 1,
            offset == bres_offset(i - 1, major as int, minor as int),
            0 <= offset <= minor,
            p == 2 * i * minor - major - 2 * major * offset,
            int_points(pts@) == all.take(i as int),
            all == run_points(sx as int, sy as int, major as int, minor as int, step as int, steep),
            forall|i: int|
                0 <= i <= major ==> {
                    let q = #[trigger] run_point(sx as int, sy as int, i, major as int, minor as int, step as int, steep);
                    &&& isize::MIN <= q.0 <= isize::MAX
                    &&& isize::MIN <= q.1 <= isize::MAX
                },
        decreases major + 1 - i,
    {
        proof {
            lemma_bres_step(i as int, major as int, minor as int, p as int);
            lemma_bres_range(i as int, major as int, minor as int);
        }
        let ghost p0 = p;
        let ghost off0 = offset;
        if p < 0 {
            p = p + a;
        } else {
            offset = offset + 1;
            p = p + b;
        }
        assert(offset == bres_offset(i as int, major as int, minor as int));
        assert(p == 2 * (i + 1) * minor - major - 2 * major * offset) by (nonlinear_arith)
            requires
                p0 == 2 * i * minor - major - 2 * major * off0,
                a == 2 * minor,
                b == a - 2 * major,
                (p0 < 0 && p == p0 + a && offset == off0) || (p0 >= 0 && p == p0 + b && offset
                    == off0 + 1),
        ;
        let ghost q = run_point(sx as int, sy as int, i as int, major as int, minor as int, step as int, steep);
        assert(isize::MIN <= q.0 <= isize::MAX && isize::MIN <= q.1 <= isize::MAX);
        let (x, y) = if steep {
            ((sx as i128 + step * offset) as isize, (sy as i128 + i) as isize)
        } else {
            ((sx as i128 + i) as isize, (sy as i128 + step * offset) as isize)
        };
        let ghost before = pts@;
        pts.push((x, y));
        proof {
            assert(int_points(pts@) =~= int_points(before).push(q));
            assert(all.take(i + 1) =~= all.take(i as int).push(q));
        }
        i = i + 1;
    }
    proof {
        assert(all.take(i as int) =~= all);
    }
    pts
}

/// The pixels of the line from `(x1, y1)` to `(x2, y2)`, in drawing order.
pub(crate) fn line_pixels(x1: isize, y1: isize, x2: isize, y2: isize) -> (pts: Vec<(isize, isize)>)
    ensures
        int_points(pts@) == line_points(x1 as int, y1 as int, x2 as int, y2 as int),
{
    let dx: i128 = if x1 < x2 { x2 as i128 - x1 as i128 } else { x1 as i128 - x2 as i128 };
    let dy: i128 = if y1 < y2 { y2 as i128 - y1 as i128 } else { y1 as i128 - y2 as i128 };
    if dy <= dx {
        let (sx, sy, ey) = if x1 < x2 { (x1, y1, y2) } else { (x2, y2, y1) };
        let step: i128 = if sy < ey { 1 } else { -1 };
        proof {
            assert forall|i: int| 0 <= i <= dx implies {
                let q = #[trigger] run_point(sx as int, sy as int, i, dx as int, dy as int, step as int, false);
                &&& isize::MIN <= q.0 <= isize::MAX
                &&& isize::MIN <= q.1 <= isize::MAX
            } by {
                lemma_run_between(sx as int, sy as int, dx as int, dy as int, step as int, false, i);
                lemma_bres_range(i, dx as int, dy as int);
            }
        }
        run_pixels(sx, sy, dx, dy, step, false)
    } else {
        let (sx, sy, ex) = if y1 < y2 { (x1, y1, x2) } else { (x2, y2, x1) };
        let step: i128 = if sx < ex { 1 } else { -1 };
        proof {
            assert forall|i: int| 0 <= i <= dy implies {
                let q = #[trigger] run_point(sx as int, sy as int, i, dy as int, dx as int, step as int, true);
                &&& isize::MIN <= q.0 <= isize::MAX
                &&& isize::MIN <= q.1 <= isize::MAX
            } by {
                lemma_run_between(sx as int, sy as int, dy as int, dx as int, step as int, true, i);
                lemma_bres_range(i, dy as int, dx as int);
            }
        }
        run_pixels(sx, sy, dy, dx, step, true)
    }
}

impl Canvas {
    /// Draws the line from `(x1, y1)` to `(x2, y2)`: both ends and every
    /// Bresenham point between them, each painted once with `color`.
    pub fn draw_line(&mut self, x1: isize, y1: isize, x2: isize, y2: isize, color: RGBA)
        requires
            old(self).wf(),
        ensures
            final(self).wf(),
            final(self)@ == old(self)@.paint_all(
                line_points(x1 as int, y1 as int, x2 as int, y2 as int),
                color,
            ),
    {
        let pts = line_pixels(x1, y1, x2, y2);
        self.draw_points(&pts, color);
    }
}

} // verus!
