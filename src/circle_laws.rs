//! What the circle rasterizer guarantees of the pixels it draws.
use vstd::prelude::*;
use crate::circle::{circle_points, disk_points, disk_rows, eight, eights, half_width, lemma_octant_entry, octant, span};

verus! {

/// `p` is one of the eight reflections of offset `o` about `(cx, cy)`.
pub open spec fn reflection_of(cx: int, cy: int, o: (int, int), p: (int, int)) -> bool {
    let (u, v) = o;
    ||| p == (cx + u, cy + v)
    ||| p == (cx + u, cy - v)
    ||| p == (cx - u, cy + v)
    ||| p == (cx - u, cy - v)
    ||| p == (cx + v, cy + u)
    ||| p == (cx + v, cy - u)
    ||| p == (cx - v, cy - u)
    ||| p == (cx - v, cy + u)
}

/// The pixels of `eight` are exactly the reflections of the offset.
pub proof fn lemma_eight_contains(cx: int, cy: int, o: (int, int), p: (int, int))
    ensures
        eight(cx, cy, o).contains(p) <==> reflection_of(cx, cy, o, p),
{
    let e = eight(cx, cy, o);
    if reflection_of(cx, cy, o, p) {
        if p == e[0] {
        } else if p == e[1] {
        } else if p == e[2] {
        } else if p == e[3] {
        } else if p == e[4] {
        } else if p == e[5] {
        } else if p == e[6] {
        } else {
            assert(p == e[7]);
        }
    }
    if e.contains(p) {
        let i = choose|i: int| 0 <= i < e.len() && e[i] == p;
        assert(0 <= i < 8);
    }
}

/// A pixel is on the outline exactly when it reflects some octant offset.
pub proof fn lemma_eights_contains(cx: int, cy: int, oct: Seq<(int, int)>, p: (int, int))
    ensures
        eights(cx, cy, oct).contains(p) <==> exists|k: int|
            0 <= k < oct.len() && reflection_of(cx, cy, #[trigger] oct[k], p),
    decreases oct.len(),
{
    if oct.len() > 0 {
        let rest = oct.drop_last();
        let a = eights(cx, cy, rest);
        let b = eight(cx, cy, oct.last());
        lemma_eights_contains(cx, cy, rest, p);
        lemma_eight_contains(cx, cy, oct.last(), p);
        if (a + b).contains(p) {
            let i = choose|i: int| 0 <= i < (a + b).len() && (a + b)[i] == p;
            if i < a.len() {
                assert(a.contains(p));
                let k = choose|k: int| 0 <= k < rest.len() && reflection_of(cx, cy, #[trigger] rest[k], p);
                assert(oct[k] == rest[k]);
            } else {
                assert(b[i - a.len()] == p);
                assert(b.contains(p));
                assert(oct[oct.len() - 1] == oct.last());
            }
        }
        if exists|k: int| 0 <= k < oct.len() && reflection_of(cx, cy, #[trigger] oct[k], p) {
            let k = choose|k: int| 0 <= k < oct.len() && reflection_of(cx, cy, #[trigger] oct[k], p);
            if k < rest.len() {
                assert(rest[k] == oct[k]);
                assert(a.contains(p));
                let i = choose|i: int| 0 <= i < a.len() && a[i] == p;
                assert((a + b)[i] == p);
            } else {
                assert(b.contains(p));
                let i = choose|i: int| 0 <= i < b.len() && b[i] == p;
                assert((a + b)[a.len() + i] == p);
            }
        }
    }
}

/// The outline is symmetric about the center: reflecting one of its pixels
/// about the vertical axis, the horizontal axis or the diagonal through
/// `(cx, cy)` gives a pixel of the outline again.
pub proof fn lemma_outline_symmetric(cx: int, cy: int, r: int, x: int, y: int)
    requires
        circle_points(cx, cy, r).contains((x, y)),
    ensures
        circle_points(cx, cy, r).contains((2 * cx - x, y)),
        circle_points(cx, cy, r).contains((x, 2 * cy - y)),
        circle_points(cx, cy, r).contains((cx + (y - cy), cy + (x - cx))),
{
    let oct = octant(r);
    lemma_eights_contains(cx, cy, oct, (x, y));
    let k = choose|k: int| 0 <= k < oct.len() && reflection_of(cx, cy, #[trigger] oct[k], (x, y));
    lemma_eights_contains(cx, cy, oct, (2 * cx - x, y));
    lemma_eights_contains(cx, cy, oct, (x, 2 * cy - y));
    lemma_eights_contains(cx, cy, oct, (cx + (y - cy), cy + (x - cx)));
    assert(reflection_of(cx, cy, oct[k], (2 * cx - x, y)));
    assert(reflection_of(cx, cy, oct[k], (x, 2 * cy - y)));
    assert(reflection_of(cx, cy, oct[k], (cx + (y - cy), cy + (x - cx))));
}

/// The widest reach recorded for a row is at least that of each offset on it.
pub proof fn lemma_half_width_at_least(oct: Seq<(int, int)>, k: int)
    requires
        0 <= k < oct.len(),
    ensures
        half_width(oct, oct[k].1) >= oct[k].0,
        half_width(oct, oct[k].0) >= oct[k].1,
    decreases oct.len(),
{
    let rest = oct.drop_last();
    if k < rest.len() {
        lemma_half_width_at_least(rest, k);
        assert(rest[k] == oct[k]);
    }
}

pub open spec fn dist(a: int, b: int) -> int {
    if a < b {
        b - a
    } else {
        a - b
    }
}

/// A pixel lies in the first `n` rows of the disk exactly when its row is
/// among them and it is no farther from the center column than that row
/// reaches.
pub proof fn lemma_disk_rows_contains(cx: int, cy: int, r: int, n: int, x: int, y: int)
    requires
        0 <= n,
    ensures
        disk_rows(cx, cy, r, n).contains((x, y)) <==> (-r <= y - cy < n - r && dist(x, cx)
            <= half_width(octant(r), dist(y, cy))),
    decreases n,
{
    if n > 0 {
        let d = n - 1 - r;
        let a = disk_rows(cx, cy, r, n - 1);
        let h = half_width(octant(r), if d < 0 { -d } else { d });
        let b = span(cx, cy + d, h);
        lemma_disk_rows_contains(cx, cy, r, n - 1, x, y);
        assert(disk_rows(cx, cy, r, n) == a + b);
        if (a + b).contains((x, y)) {
            let i = choose|i: int| 0 <= i < (a + b).len() && (a + b)[i] == (x, y);
            if i < a.len() {
                assert(a.contains((x, y)));
            } else {
                assert(b[i - a.len()] == (x, y));
            }
        }
        if -r <= y - cy < n - r && dist(x, cx) <= half_width(octant(r), dist(y, cy)) {
            if y - cy < n - 1 - r {
                let i = choose|i: int| 0 <= i < a.len() && a[i] == (x, y);
                assert((a + b)[i] == (x, y));
            } else {
                let i = x - cx + h;
                assert(b[i] == (x, y));
                assert((a + b)[a.len() + i] == (x, y));
            }
        }
    }
}

/// A pixel of the filled disk: its row lies within `r` of the center row,
/// and it lies no farther from the center column than the outline reaches
/// on that row.
pub proof fn lemma_disk_contains(cx: int, cy: int, r: int, x: int, y: int)
    requires
        0 <= r,
    ensures
        disk_points(cx, cy, r).contains((x, y)) <==> (dist(y, cy) <= r && dist(x, cx)
            <= half_width(octant(r), dist(y, cy))),
{
    lemma_disk_rows_contains(cx, cy, r, 2 * r + 1, x, y);
}

/// The filled disk holds every pixel of the outline of the same circle.
pub proof fn lemma_disk_covers_outline(cx: int, cy: int, r: int, x: int, y: int)
    requires
        0 <= r,
        circle_points(cx, cy, r).contains((x, y)),
    ensures
        disk_points(cx, cy, r).contains((x, y)),
{
    let oct = octant(r);
    lemma_eights_contains(cx, cy, oct, (x, y));
    let k = choose|k: int| 0 <= k < oct.len() && reflection_of(cx, cy, #[trigger] oct[k], (x, y));
    lemma_octant_entry(r, k);
    lemma_half_width_at_least(oct, k);
    lemma_disk_contains(cx, cy, r, x, y);
}

/// Each row of the filled disk is one unbroken run of pixels.
pub proof fn lemma_disk_rows_unbroken(cx: int, cy: int, r: int, x1: int, x2: int, x: int, y: int)
    requires
        0 <= r,
        disk_points(cx, cy, r).contains((x1, y)),
        disk_points(cx, cy, r).contains((x2, y)),
        x1 <= x <= x2,
    ensures
        disk_points(cx, cy, r).contains((x, y)),
{
    lemma_disk_contains(cx, cy, r, x1, y);
    lemma_disk_contains(cx, cy, r, x2, y);
    lemma_disk_contains(cx, cy, r, x, y);
}

} // verus!
