//! What the polygon fill guarantees on axis-aligned rectangles.
use vstd::prelude::*;
use crate::line::{bres_offset, lemma_div_unique, line_points};
use crate::polygon::{
    bottom_index, edge_bound, fill_points, fill_rows, first_on_row, last_on_row,
    lemma_first_on_row_none, lemma_first_on_row_some, top_index, walk_bound, walk_len,
};

verus! {

/// The pixels of a straight run along one axis: `(x + i, y)` for a
/// horizontal one, `(x, y + i)` for a vertical one, `i` from 0 to `n`.
pub open spec fn axis_run(x: int, y: int, n: int, vertical: bool) -> Seq<(int, int)> {
    Seq::new((n + 1) as nat, |i: int| if vertical { (x, y + i) } else { (x + i, y) })
}

/// A run that never moves on the minor axis keeps offset 0.
proof fn lemma_flat_offset(i: int, major: int)
    requires
        0 < major,
    ensures
        bres_offset(i, major, 0) == 0,
{
    assert(2 * i * 0 + major == major);
    lemma_div_unique(major, 2 * major, 0);
}

/// A horizontal line, walked from its left end.
pub proof fn lemma_horizontal_line(xa: int, xb: int, y: int)
    requires
        xa < xb,
    ensures
        line_points(xa, y, xb, y) =~= axis_run(xa, y, xb - xa, false),
        line_points(xb, y, xa, y) =~= axis_run(xa, y, xb - xa, false),
{
    assert forall|i: int| 0 <= i <= xb - xa implies #[trigger] bres_offset(i, xb - xa, 0) == 0 by {
        lemma_flat_offset(i, xb - xa);
    }
}

/// A vertical line, walked from its top end.
pub proof fn lemma_vertical_line(x: int, ya: int, yb: int)
    requires
        ya < yb,
    ensures
        line_points(x, ya, x, yb) =~= axis_run(x, ya, yb - ya, true),
        line_points(x, yb, x, ya) =~= axis_run(x, ya, yb - ya, true),
{
    assert forall|i: int| 0 <= i <= yb - ya implies #[trigger] bres_offset(i, yb - ya, 0) == 0 by {
        lemma_flat_offset(i, yb - ya);
    }
}

/// A row that no point lies on records no last x.
proof fn lemma_last_on_row_none(pts: Seq<(int, int)>, y: int)
    requires
        forall|j: int| 0 <= j < pts.len() ==> (#[trigger] pts[j]).1 != y,
    ensures
        last_on_row(pts, y).is_none(),
    decreases pts.len(),
{
    if pts.len() > 0 {
        let rest = pts.drop_last();
        assert forall|j: int| 0 <= j < rest.len() implies (#[trigger] rest[j]).1 != y by {
            assert(rest[j] == pts[j]);
        }
        lemma_last_on_row_none(rest, y);
    }
}

/// Where every point has the same x, a row records that x or nothing.
proof fn lemma_on_row_one_column(pts: Seq<(int, int)>, x: int, y: int)
    requires
        forall|j: int| 0 <= j < pts.len() ==> (#[trigger] pts[j]).0 == x,
    ensures
        last_on_row(pts, y).is_none() || last_on_row(pts, y) == Some(x),
        first_on_row(pts, y).is_none() || first_on_row(pts, y) == Some(x),
    decreases pts.len(),
{
    if pts.len() > 0 {
        let rest = pts.drop_last();
        assert forall|j: int| 0 <= j < rest.len() implies (#[trigger] rest[j]).0 == x by {
            assert(rest[j] == pts[j]);
        }
        lemma_on_row_one_column(rest, x, y);
    }
}

/// After a vertical run, each row that it crosses holds its column.
proof fn lemma_vertical_bound(buf: Seq<int>, y0: int, x: int, ya: int, n: int, right: bool)
    requires
        0 <= n,
    ensures
        forall|i: int|
            0 <= i < buf.len() ==> #[trigger] edge_bound(buf, y0, axis_run(x, ya, n, true), right)[i]
                == if ya <= y0 + i <= ya + n {
                x
            } else {
                buf[i]
            },
{
    let pts = axis_run(x, ya, n, true);
    assert forall|i: int| 0 <= i < buf.len() implies #[trigger] edge_bound(buf, y0, pts, right)[i]
        == if ya <= y0 + i <= ya + n {
        x
    } else {
        buf[i]
    } by {
        let y = y0 + i;
        lemma_on_row_one_column(pts, x, y);
        if ya <= y <= ya + n {
            assert(pts[y - ya].1 == y);
            lemma_first_on_row_some(pts, y - ya);
            lemma_last_on_row_some(pts, y - ya);
        } else {
            lemma_last_on_row_none(pts, y);
            lemma_first_on_row_none(pts, y);
        }
    }
}

/// A row that some point lies on records a last x.
proof fn lemma_last_on_row_some(pts: Seq<(int, int)>, k: int)
    requires
        0 <= k < pts.len(),
    ensures
        last_on_row(pts, pts[k].1).is_some(),
    decreases pts.len(),
{
    if k < pts.len() - 1 && pts.last().1 != pts[k].1 {
        lemma_last_on_row_some(pts.drop_last(), k);
        assert(pts.drop_last()[k] == pts[k]);
    }
}

/// After a horizontal run on row `y`, that row holds its right end for a
/// right bound, its left end for a left one; the other rows keep theirs.
proof fn lemma_horizontal_bound(buf: Seq<int>, y0: int, xa: int, y: int, n: int, right: bool)
    requires
        0 <= n,
    ensures
        forall|i: int|
            0 <= i < buf.len() ==> #[trigger] edge_bound(buf, y0, axis_run(xa, y, n, false), right)[i]
                == if y0 + i == y {
                if right {
                    xa + n
                } else {
                    xa
                }
            } else {
                buf[i]
            },
{
    let pts = axis_run(xa, y, n, false);
    assert forall|i: int| 0 <= i < buf.len() implies #[trigger] edge_bound(buf, y0, pts, right)[i]
        == if y0 + i == y {
        if right {
            xa + n
        } else {
            xa
        }
    } else {
        buf[i]
    } by {
        if y0 + i == y {
            assert(pts.last() == (xa + n, y));
            if !right {
                lemma_first_on_row_from_start(pts, xa, y);
            }
        } else {
            lemma_last_on_row_none(pts, y0 + i);
            lemma_first_on_row_none(pts, y0 + i);
        }
    }
}

/// The row of the first point records that point's x as its first.
proof fn lemma_first_on_row_from_start(pts: Seq<(int, int)>, x: int, y: int)
    requires
        pts.len() > 0,
        pts[0] == (x, y),
    ensures
        first_on_row(pts, y) == Some(x),
    decreases pts.len(),
{
    if pts.len() > 1 {
        assert(pts.drop_last()[0] == pts[0]);
        lemma_first_on_row_from_start(pts.drop_last(), x, y);
    } else {
        assert(pts.drop_last() =~= Seq::<(int, int)>::empty());
        assert(first_on_row(Seq::<(int, int)>::empty(), y).is_none());
    }
}

/// A pixel lies in the first `n` rows of a fill exactly when its row is
/// among them and it lies from the row's left bound up to, not including,
/// its right bound.
pub proof fn lemma_fill_rows_contains(y0: int, left: Seq<int>, right: Seq<int>, n: int, x: int, y: int)
    requires
        0 <= n <= left.len(),
        n <= right.len(),
    ensures
        fill_rows(y0, left, right, n).contains((x, y)) <==> (0 <= y - y0 < n && left[y - y0] <= x
            < right[y - y0]),
    decreases n,
{
    if n > 0 {
        let i = n - 1;
        let a = fill_rows(y0, left, right, i);
        let b = Seq::new(
            (if right[i] > left[i] { right[i] - left[i] } else { 0 }) as nat,
            |j: int| (left[i] + j, y0 + i),
        );
        lemma_fill_rows_contains(y0, left, right, i, x, y);
        assert(fill_rows(y0, left, right, n) == a + b);
        if (a + b).contains((x, y)) {
            let k = choose|k: int| 0 <= k < (a + b).len() && (a + b)[k] == (x, y);
            if k < a.len() {
                assert(a.contains((x, y)));
            } else {
                assert(b[k - a.len()] == (x, y));
            }
        }
        if 0 <= y - y0 < n && left[y - y0] <= x < right[y - y0] {
            if y - y0 < i {
                let k = choose|k: int| 0 <= k < a.len() && a[k] == (x, y);
                assert((a + b)[k] == (x, y));
            } else {
                let k = x - left[i];
                assert(b[k] == (x, y));
                assert((a + b)[a.len() + k] == (x, y));
            }
        }
    }
}

/// An axis-aligned rectangle listed from its top left corner down its left
/// side (with `clockwise`) or along its top side (without) is filled on
/// exactly the pixels with `x0 <= x < x1` and `y0 <= y <= y1`: every pixel
/// strictly inside it is filled, and none strictly outside.
pub proof fn lemma_rectangle_fill(x0: int, y0: int, x1: int, y1: int, x: int, y: int)
    requires
        x0 < x1,
        y0 < y1,
    ensures
        fill_points(seq![(x0, y0), (x0, y1), (x1, y1), (x1, y0)], true).contains((x, y)) <==> (x0
            <= x < x1 && y0 <= y <= y1),
        fill_points(seq![(x0, y0), (x1, y0), (x1, y1), (x0, y1)], false).contains((x, y)) <==> (x0
            <= x < x1 && y0 <= y <= y1),
{
    let rows = y1 - y0 + 1;
    let init = Seq::new(rows as nat, |i: int| x0);
    let full = Seq::new(rows as nat, |i: int| x1);
    lemma_horizontal_line(x0, x1, y1);
    lemma_horizontal_line(x0, x1, y0);
    lemma_vertical_line(x1, y0, y1);
    lemma_vertical_line(x0, y0, y1);
    assert((0int + 0) % 4 == 0 && (0int + 1) % 4 == 1 && (0int + 2) % 4 == 2);
    assert((1int + 0) % 4 == 1 && (1int + 1) % 4 == 2 && (1int + 2) % 4 == 3 && (1int + 3) % 4 == 0);
    assert((2int + 0) % 4 == 2 && (2int + 1) % 4 == 3 && (2int + 2) % 4 == 0);
    assert(walk_len(4, 1, 0) == 3 && walk_len(4, 0, 1) == 1);
    assert(walk_len(4, 0, 2) == 2 && walk_len(4, 2, 0) == 2);
    // down the left side first: the right bound comes back along the
    // bottom, up the right side and along the top
    let vs = seq![(x0, y0), (x0, y1), (x1, y1), (x1, y0)];
    assert(vs.len() == 4);
    assert(vs[0] == (x0, y0) && vs[1] == (x0, y1) && vs[2] == (x1, y1) && vs[3] == (x1, y0));
    assert(walk_bound(init, y0, vs, 1, 0, true) == init);
    assert(walk_bound(init, y0, vs, 0, 0, false) == init);
    let r1 = walk_bound(init, y0, vs, 1, 1, true);
    let r2 = walk_bound(init, y0, vs, 1, 2, true);
    let r3 = walk_bound(init, y0, vs, 1, 3, true);
    assert(r1 == edge_bound(init, y0, line_points(x0, y1, x1, y1), true));
    assert(r2 == edge_bound(r1, y0, line_points(x1, y1, x1, y0), true));
    assert(r3 == edge_bound(r2, y0, line_points(x1, y0, x0, y0), true));
    lemma_horizontal_bound(init, y0, x0, y1, x1 - x0, true);
    lemma_vertical_bound(r1, y0, x1, y0, y1 - y0, true);
    lemma_horizontal_bound(r2, y0, x0, y0, x1 - x0, true);
    assert(r3 =~= full);
    let l1 = walk_bound(init, y0, vs, 0, 1, false);
    assert(l1 == edge_bound(init, y0, line_points(x0, y0, x0, y1), false));
    lemma_vertical_bound(init, y0, x0, y0, y1 - y0, false);
    assert(l1 =~= init);
    assert(top_index(vs, 1) == 0);
    assert(top_index(vs, 2) == 0);
    assert(top_index(vs, 3) == 0);
    assert(top_index(vs, 4) == 0);
    assert(bottom_index(vs, 1) == 0);
    assert(bottom_index(vs, 2) == 1);
    assert(bottom_index(vs, 3) == 1);
    assert(bottom_index(vs, 4) == 1);
    assert(Seq::new(rows as nat, |i: int| vs[0].0) =~= init);
    assert(fill_points(vs, true) == fill_rows(y0, init, full, rows));
    // along the top first: the right bound runs along the top and down the
    // right side, the left bound back along the bottom and up the left side
    let ws = seq![(x0, y0), (x1, y0), (x1, y1), (x0, y1)];
    assert(ws.len() == 4);
    assert(ws[0] == (x0, y0) && ws[1] == (x1, y0) && ws[2] == (x1, y1) && ws[3] == (x0, y1));
    assert(walk_bound(init, y0, ws, 0, 0, true) == init);
    assert(walk_bound(init, y0, ws, 2, 0, false) == init);
    let s1 = walk_bound(init, y0, ws, 0, 1, true);
    let s2 = walk_bound(init, y0, ws, 0, 2, true);
    assert(s1 == edge_bound(init, y0, line_points(x0, y0, x1, y0), true));
    assert(s2 == edge_bound(s1, y0, line_points(x1, y0, x1, y1), true));
    lemma_horizontal_bound(init, y0, x0, y0, x1 - x0, true);
    lemma_vertical_bound(s1, y0, x1, y0, y1 - y0, true);
    assert(s2 =~= full);
    let t1 = walk_bound(init, y0, ws, 2, 1, false);
    let t2 = walk_bound(init, y0, ws, 2, 2, false);
    assert(t1 == edge_bound(init, y0, line_points(x1, y1, x0, y1), false));
    assert(t2 == edge_bound(t1, y0, line_points(x0, y1, x0, y0), false));
    lemma_horizontal_bound(init, y0, x0, y1, x1 - x0, false);
    lemma_vertical_bound(t1, y0, x0, y0, y1 - y0, false);
    assert(t2 =~= init);
    assert(top_index(ws, 1) == 0);
    assert(top_index(ws, 2) == 0);
    assert(top_index(ws, 3) == 0);
    assert(top_index(ws, 4) == 0);
    assert(bottom_index(ws, 1) == 0);
    assert(bottom_index(ws, 2) == 0);
    assert(bottom_index(ws, 3) == 2);
    assert(bottom_index(ws, 4) == 2);
    assert(Seq::new(rows as nat, |i: int| ws[0].0) =~= init);
    assert(fill_points(ws, false) == fill_rows(y0, init, full, rows));
    lemma_fill_rows_contains(y0, init, full, rows, x, y);
}

} // verus!
