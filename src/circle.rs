//! Midpoint scan conversion of circles: the outline by eight-way symmetry of
//! one octant, and the filled disk row by row.
use vstd::prelude::*;
use crate::canvas::{Canvas, int_points, lemma_paint_all_append};
use crate::color::RGBA;

verus! {

/// A pixel offset `(u, v)` from the center is within radius `r` when
/// `u * u + v * v < circle_bound(r)`: the disk of radius about `r + 1/2`.
pub open spec fn circle_bound(r: int) -> int {
    r * r + r
}

/// The largest `u` in `[0, top]` with `u * u + v * v < t`, or 0 when none.
pub open spec fn reach_down(t: int, v: int, top: int) -> int
    decreases top,
{
    if top <= 0 || top * top + v * v < t {
        top
    } else {
        reach_down(t, v, top - 1)
    }
}

/// The x offset that the midpoint algorithm picks at row offset `v`.
pub open spec fn reach(r: int, v: int) -> int {
    reach_down(circle_bound(r), v, r)
}

/// Whether the midpoint walk of radius `r` is over before row offset `k`.
pub open spec fn octant_done(r: int, k: int) -> bool {
    k > r || k > reach(r, k)
}

/// The first row offset at or after `k` where the walk is over.
pub open spec fn octant_end(r: int, k: int) -> int
    decreases r + 1 - k,
{
    if k < 0 || octant_done(r, k) {
        k
    } else {
        octant_end(r, k + 1)
    }
}

/// The offsets `(u, v)` of one octant, `v` counting up from 0 while `v <= u`.
pub open spec fn octant(r: int) -> Seq<(int, int)> {
    Seq::new(octant_end(r, 0) as nat, |k: int| (reach(r, k), k))
}

/// The eight reflections of offset `p` about the center `(cx, cy)`.
pub open spec fn eight(cx: int, cy: int, p: (int, int)) -> Seq<(int, int)> {
    let (u, v) = p;
    seq![
        (cx + u, cy + v),
        (cx + u, cy - v),
        (cx - u, cy + v),
        (cx - u, cy - v),
        (cx + v, cy + u),
        (cx + v, cy - u),
        (cx - v, cy - u),
        (cx - v, cy + u),
    ]
}

/// The reflections of each offset of `oct`, offset by offset.
pub open spec fn eights(cx: int, cy: int, oct: Seq<(int, int)>) -> Seq<(int, int)>
    decreases oct.len(),
{
    if oct.len() == 0 {
        Seq::empty()
    } else {
        eights(cx, cy, oct.drop_last()) + eight(cx, cy, oct.last())
    }
}

/// The pixels of the outline of the circle of radius `r` around `(cx, cy)`,
/// in drawing order.
pub open spec fn circle_points(cx: int, cy: int, r: int) -> Seq<(int, int)> {
    eights(cx, cy, octant(r))
}

/// The circle lies within the machine's coordinates.
pub open spec fn circle_fits(cx: int, cy: int, r: int) -> bool {
    &&& isize::MIN <= cx - r
    &&& cx + r <= isize::MAX
    &&& isize::MIN <= cy - r
    &&& cy + r <= isize::MAX
}

/// `w` squared.
pub open spec fn sq(w: int) -> int {
    w * w
}

/// How far the reflections of the offsets in `oct` reach on the row at
/// distance `d` from the center: the largest horizontal offset among them,
/// or -1 when none lies on that row.
pub open spec fn half_width(oct: Seq<(int, int)>, d: int) -> int
    decreases oct.len(),
{
    if oct.len() == 0 {
        -1
    } else {
        let (u, v) = oct.last();
        let h = half_width(oct.drop_last(), d);
        let h = if v == d && u > h { u } else { h };
        if u == d && v > h { v } else { h }
    }
}

/// The pixels from `x0 - h` to `x0 + h` of row `y`, left to right; none
/// when `h` is negative.
pub open spec fn span(x0: int, y: int, h: int) -> Seq<(int, int)> {
    Seq::new((if h < 0 { 0 } else { 2 * h + 1 }) as nat, |i: int| (x0 - h + i, y))
}

/// The first `n` rows of the disk of radius `r` around `(cx, cy)`, from the
/// top row `cy - r` down: each row spans as far as the outline reaches on it.
pub open spec fn disk_rows(cx: int, cy: int, r: int, n: int) -> Seq<(int, int)>
    decreases n,
{
    if n <= 0 {
        Seq::empty()
    } else {
        let d = n - 1 - r;
        disk_rows(cx, cy, r, n - 1) + span(
            cx,
            cy + d,
            half_width(octant(r), if d < 0 { -d } else { d }),
        )
    }
}

/// The pixels of the filled disk of radius `r` around `(cx, cy)`, in drawing
/// order: row by row from the top, each row left to right.
pub open spec fn disk_points(cx: int, cy: int, r: int) -> Seq<(int, int)> {
    disk_rows(cx, cy, r, 2 * r + 1)
}

/// `reach_down` picks a valid `u`, and nothing beyond it up to `top` is valid.
pub proof fn lemma_reach_down(t: int, v: int, top: int)
    requires
        top >= 0,
    ensures
        0 <= reach_down(t, v, top) <= top,
        reach_down(t, v, top) == 0 || reach_down(t, v, top) * reach_down(t, v, top) + v * v < t,
        forall|w: int| reach_down(t, v, top) < w <= top ==> #[trigger] sq(w) + v * v >= t,
    decreases top,
{
    if top > 0 && top * top + v * v >= t {
        lemma_reach_down(t, v, top - 1);
    }
}

/// `reach_down` is the one `u` that is valid and beyond which nothing is.
pub proof fn lemma_reach_down_is(t: int, v: int, top: int, u: int)
    requires
        0 <= u <= top,
        u == 0 || u * u + v * v < t,
        forall|w: int| u < w <= top ==> #[trigger] sq(w) + v * v >= t,
    ensures
        reach_down(t, v, top) == u,
{
    lemma_reach_down(t, v, top);
    let q = reach_down(t, v, top);
    if q < u {
        assert(sq(u) + v * v >= t);
    } else if q > u {
        assert(sq(q) + v * v >= t);
    }
}

/// The walk ends at the first row offset where it is done.
pub proof fn lemma_octant_end(r: int, k: int, n: int)
    requires
        0 <= k <= n,
        forall|j: int| k <= j < n ==> !octant_done(r, j),
        octant_done(r, n),
    ensures
        octant_end(r, k) == n,
    decreases n - k,
{
    if k < n {
        lemma_octant_end(r, k + 1, n);
    }
}

/// The walk goes on past every row offset where it is not yet done.
pub proof fn lemma_octant_end_beyond(r: int, k: int, j: int)
    requires
        0 <= k <= j,
        forall|i: int| k <= i <= j ==> !octant_done(r, i),
    ensures
        octant_end(r, k) > j,
    decreases j - k,
{
    if k < j {
        lemma_octant_end_beyond(r, k + 1, j);
    } else {
        lemma_octant_end_ge(r, k + 1);
    }
}

/// The walk never ends before it starts.
pub proof fn lemma_octant_end_ge(r: int, k: int)
    requires
        k >= 0,
    ensures
        octant_end(r, k) >= k,
    decreases r + 1 - k,
{
    if !octant_done(r, k) {
        lemma_octant_end_ge(r, k + 1);
    }
}

/// Each offset `(u, v)` of the octant has `0 <= v <= u <= r`.
pub proof fn lemma_octant_entry(r: int, k: int)
    requires
        0 <= r,
        0 <= k < octant(r).len(),
    ensures
        0 <= octant(r)[k].1 <= octant(r)[k].0 <= r,
{
    lemma_octant_end_ge(r, 0);
    lemma_octant_end_bounded(r, 0, k);
    lemma_reach_down(circle_bound(r), k, r);
}

/// Before the end of the walk, no row offset is done.
pub proof fn lemma_octant_end_bounded(r: int, k: int, j: int)
    requires
        0 <= k <= j < octant_end(r, k),
    ensures
        !octant_done(r, j),
    decreases j - k,
{
    if k < j {
        lemma_octant_end_bounded(r, k + 1, j);
    }
}

/// Squaring keeps the order of non-negative numbers.
proof fn lemma_square_le(a: int, b: int)
    requires
        0 <= a <= b,
    ensures
        a * a <= b * b,
{
    assert(a * a <= b * b) by (nonlinear_arith)
        requires
            0 <= a <= b,
    ;
}

/// The eight reflections of `(u, v)` around `(cx, cy)`, as machine coordinates.
fn eight_points(cx: isize, cy: isize, u: i128, v: i128) -> (r: Vec<(isize, isize)>)
    requires
        0 <= v <= u,
        circle_fits(cx as int, cy as int, u as int),
    ensures
        int_points(r@) == eight(cx as int, cy as int, (u as int, v as int)),
{
    let (x, y) = (cx as i128, cy as i128);
    let mut r: Vec<(isize, isize)> = Vec::new();
    r.push(((x + u) as isize, (y + v) as isize));
    r.push(((x + u) as isize, (y - v) as isize));
    r.push(((x - u) as isize, (y + v) as isize));
    r.push(((x - u) as isize, (y - v) as isize));
    r.push(((x + v) as isize, (y + u) as isize));
    r.push(((x + v) as isize, (y - u) as isize));
    r.push(((x - v) as isize, (y - u) as isize));
    r.push(((x - v) as isize, (y + u) as isize));
    assert(int_points(r@) =~= eight(cx as int, cy as int, (u as int, v as int)));
    r
}

/// The offsets as integers.
pub open spec fn int_offsets(oct: Seq<(i128, i128)>) -> Seq<(int, int)> {
    oct.map_values(|p: (i128, i128)| (p.0 as int, p.1 as int))
}

/// Walks one octant of the circle of radius `r` with the midpoint decision
/// value `e = u * u + v * v - (r * r + r)`: `v` steps up by one, and `u`
/// steps down by one whenever `e` is no longer negative.
fn midpoint_octant(r: usize) -> (oct: Vec<(i128, i128)>)
    ensures
        int_offsets(oct@) == octant(r as int),
{
    let mut oct: Vec<(i128, i128)> = Vec::new();
    let ghost ri = r as int;
    let ghost t = circle_bound(ri);
    let rr: i128 = r as i128;
    let mut e: i128 = -rr;
    let mut x_offset: i128 = rr;
    let mut y_offset: i128 = 0;
    proof {
        assert((rr + 1) * (rr + 1) >= t) by (nonlinear_arith)
            requires
                t == rr * rr + rr,
                rr >= 0,
        ;
        assert(e == x_offset * x_offset + y_offset * y_offset - t);
        assert(int_offsets(oct@) =~= octant(ri).take(0));
    }
    while y_offset <= x_offset
        invariant
            ri == r,
            0 <= ri <= usize::MAX,
            rr == ri,
            t == circle_bound(ri),
            0 <= y_offset <= ri + 1,
            x_offset >= 0 || y_offset >= 1,
            -1 <= x_offset <= ri,
            e == x_offset * x_offset + y_offset * y_offset - t,
            (x_offset + 1) * (x_offset + 1) + y_offset * y_offset >= t,
            y_offset <= x_offset ==> (x_offset == 0 || x_offset * x_offset + y_offset * y_offset < t),
            forall|j: int| 0 <= j < y_offset ==> !octant_done(ri, j),
            int_offsets(oct@) =~= octant(ri).take(y_offset as int),
        decreases ri + 1 - y_offset,
    {
        let ghost xo = x_offset as int;
        let ghost yo = y_offset as int;
        proof {
            assert forall|w: int| xo < w <= ri implies #[trigger] sq(w) + yo * yo >= t by {
                lemma_square_le(xo + 1, w);
            }
            lemma_reach_down_is(t, yo, ri, xo);
            assert(!octant_done(ri, yo));
            lemma_octant_end_beyond(ri, 0, yo);
            assert(-2 * xo - 1 <= e <= 0) by (nonlinear_arith)
                requires
                    e == xo * xo + yo * yo - t,
                    (xo + 1) * (xo + 1) + yo * yo >= t,
                    yo <= xo,
                    0 <= yo,
                    xo == 0 || xo * xo + yo * yo < t,
                    t >= 0,
            ;
        }
        let ghost before = oct@;
        oct.push((x_offset, y_offset));
        proof {
            assert(int_offsets(oct@) =~= int_offsets(before).push((xo, yo)));
            assert(octant(ri)[yo] == (xo, yo));
            assert(int_offsets(oct@) =~= octant(ri).take(yo + 1));
        }
        let ghost e0 = e;
        e = e + 2 * y_offset + 1;
        y_offset = y_offset + 1;
        if e >= 0 {
            e = e - (2 * x_offset - 1);
            x_offset = x_offset - 1;
        }
        proof {
            let (xn, yn) = (x_offset as int, y_offset as int);
            assert(yn == yo + 1);
            assert(e == xn * xn + yn * yn - t) by (nonlinear_arith)
                requires
                    e0 == xo * xo + yo * yo - t,
                    yn == yo + 1,
                    (xn == xo && e == e0 + 2 * yo + 1) || (xn == xo - 1 && e == e0 + 2 * yo + 1
                        - (2 * xo - 1)),
            ;
            assert((xn + 1) * (xn + 1) + yn * yn >= t) by (nonlinear_arith)
                requires
                    (xo + 1) * (xo + 1) + yo * yo >= t,
                    yn == yo + 1,
                    yo >= 0,
                    e0 == xo * xo + yo * yo - t,
                    (xn == xo) || (xn == xo - 1 && e0 + 2 * yo + 1 >= 0),
            ;
            if yn <= xn && xn != 0 {
                if xn == xo {
                    assert(xn * xn + yn * yn < t);
                } else {
                    assert((xo - 1) * (xo - 1) + (yo + 1) * (yo + 1) == xo * xo + yo * yo - 2 * xo
                        + 2 * yo + 2) by (nonlinear_arith);
                    assert(xn * xn + yn * yn < t);
                }
            }
        }
    }
    proof {
        let (xo, yo) = (x_offset as int, y_offset as int);
        // the walk is over: no offset from yo on lies inside at row yo
        if yo <= ri {
            lemma_reach_down(t, yo, ri);
            let q = reach(ri, yo);
            if q >= yo {
                lemma_square_le(xo + 1, q);
                assert(sq(q) + yo * yo >= t);
            }
        }
        assert(octant_done(ri, yo));
        lemma_octant_end(ri, 0, yo);
        assert(octant(ri).take(yo) =~= octant(ri));
    }
    oct
}

impl Canvas {
    /// Draws the outline of the circle of radius `r` around `(x, y)` with the
    /// midpoint algorithm: for each offset of one octant, its eight
    /// reflections.
    pub fn draw_circle(&mut self, x: isize, y: isize, r: usize, color: RGBA)
        requires
            old(self).wf(),
            circle_fits(x as int, y as int, r as int),
        ensures
            final(self).wf(),
            final(self)@ == old(self)@.paint_all(circle_points(x as int, y as int, r as int), color),
    {
        let ghost start = self@;
        let oct = midpoint_octant(r);
        let ghost all = octant(r as int);
        let mut k: usize = 0;
        proof {
            assert(all.take(0) =~= Seq::<(int, int)>::empty());
        }
        while k < oct.len()
            invariant
                self.wf(),
                int_offsets(oct@) == all,
                all == octant(r as int),
                circle_fits(x as int, y as int, r as int),
                k <= oct@.len(),
                self@ == start.paint_all(eights(x as int, y as int, all.take(k as int)), color),
            decreases oct@.len() - k,
        {
            let (u, v) = oct[k];
            proof {
                assert(all[k as int] == (u as int, v as int));
                lemma_octant_entry(r as int, k as int);
            }
            let pts = eight_points(x, y, u, v);
            self.draw_points(&pts, color);
            proof {
                assert(all.take(k + 1).drop_last() =~= all.take(k as int));
                lemma_paint_all_append(
                    start,
                    eights(x as int, y as int, all.take(k as int)),
                    eight(x as int, y as int, (u as int, v as int)),
                    color,
                );
            }
            k += 1;
        }
        proof {
            assert(all.take(k as int) =~= all);
        }
    }

    /// Draws the filled disk of radius `r` around `(x, y)`. The midpoint walk
    /// records, for each row, how far the outline reaches on it; then each row
    /// is painted between those bounds, both included.
    pub fn draw_circle_solid(&mut self, x: isize, y: isize, r: usize, color: RGBA)
        requires
            old(self).wf(),
            circle_fits(x as int, y as int, r as int),
        ensures
            final(self).wf(),
            final(self)@ == old(self)@.paint_all(disk_points(x as int, y as int, r as int), color),
    {
        let ghost start = self@;
        let ghost ri = r as int;
        let oct = midpoint_octant(r);
        let ghost all = octant(ri);
        let mut half: Vec<i128> = vec![-1i128; r + 1];
        let mut k: usize = 0;
        while k < oct.len()
            invariant
                int_offsets(oct@) == all,
                all == octant(ri),
                ri == r,
                half@.len() == ri + 1,
                k <= oct@.len(),
                forall|d: int| 0 <= d <= ri ==> -1 <= #[trigger] half@[d] <= ri,
                forall|d: int| 0 <= d <= ri ==> #[trigger] half@[d] == half_width(all.take(k as int), d),
            decreases oct@.len() - k,
        {
            let (u, v) = oct[k];
            proof {
                assert(all[k as int] == (u as int, v as int));
                lemma_octant_entry(ri, k as int);
                assert(all.take(k + 1).drop_last() =~= all.take(k as int));
            }
            let hv = half[v as usize];
            if u > hv {
                half.set(v as usize, u);
            }
            let hu = half[u as usize];
            if v > hu {
                half.set(u as usize, v);
            }
            k += 1;
        }
        assert(all.take(k as int) =~= all);
        let rr: i128 = r as i128;
        let (cx, cy) = (x as i128, y as i128);
        let mut i: i128 = 0;
        proof {
            assert(disk_rows(x as int, y as int, ri, 0) =~= Seq::<(int, int)>::empty());
        }
        while i <= 2 * rr
            invariant
                self.wf(),
                ri == r,
                rr == ri,
                cx == x,
                cy == y,
                circle_fits(x as int, y as int, ri),
                half@.len() == ri + 1,
                0 <= i <= 2 * rr + 1,
                forall|d: int| 0 <= d <= ri ==> -1 <= #[trigger] half@[d] <= ri,
                forall|d: int| 0 <= d <= ri ==> #[trigger] half@[d] == half_width(all, d),
                all == octant(ri),
                self@ == start.paint_all(disk_rows(x as int, y as int, ri, i as int), color),
            decreases 2 * rr + 1 - i,
        {
            let d: i128 = i - rr;
            let ad: i128 = if d < 0 { -d } else { d };
            let h: i128 = half[ad as usize];
            let ghost row = span(x as int, y as int + d, h as int);
            let ghost row_start = self@;
            let mut j: i128 = 0;
            proof {
                assert(row.take(0) =~= Seq::<(int, int)>::empty());
            }
            while j <= 2 * h
                invariant
                    self.wf(),
                    -1 <= h <= rr,
                    rr == ri,
                    cx == x,
                    cy == y,
                    circle_fits(x as int, y as int, ri),
                    -rr <= d <= rr,
                    0 <= j <= 2 * h + 1 || (h < 0 && j == 0),
                    row == span(x as int, y as int + d, h as int),
                    self@ == row_start.paint_all(row.take(j as int), color),
                decreases 2 * h + 1 - j,
            {
                self.draw_pixel((cx - h + j) as isize, (cy + d) as isize, color);
                proof {
                    assert(row.take(j + 1).drop_last() =~= row.take(j as int));
                }
                j += 1;
            }
            proof {
                assert(row.take(j as int) =~= row);
                lemma_paint_all_append(
                    start,
                    disk_rows(x as int, y as int, ri, i as int),
                    row,
                    color,
                );
            }
            i += 1;
        }
    }
}

} // verus!
