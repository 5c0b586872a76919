//! Polygons: the outline as a closed chain of lines, and the solid fill as a
//! two-boundary scanline walk.
use vstd::prelude::*;
use crate::canvas::{Canvas, int_points, lemma_paint_all_append};
use crate::color::RGBA;
use crate::line::{lemma_line_between, lemma_line_rows_unbroken, line_pixels, line_points};

verus! {

/// The lines from each of the first `n` vertices but the first back to the
/// one before it, in order.
pub open spec fn chain_points(vs: Seq<(int, int)>, n: int) -> Seq<(int, int)>
    decreases n,
{
    if n <= 1 {
        Seq::empty()
    } else {
        chain_points(vs, n - 1) + line_points(vs[n - 1].0, vs[n - 1].1, vs[n - 2].0, vs[n - 2].1)
    }
}

/// The pixels of the polygon's outline, in drawing order: each vertex joined
/// to the one before it, then the first joined to the last. None for no
/// vertices.
pub open spec fn outline_points(vs: Seq<(int, int)>) -> Seq<(int, int)> {
    if vs.len() == 0 {
        Seq::empty()
    } else {
        chain_points(vs, vs.len() as int) + line_points(
            vs[0].0,
            vs[0].1,
            vs.last().0,
            vs.last().1,
        )
    }
}

/// The values of a vector of machine integers.
pub open spec fn ints(s: Seq<isize>) -> Seq<int> {
    s.map_values(|v: isize| v as int)
}

/// The x of the last of `pts` on row `y`.
pub open spec fn last_on_row(pts: Seq<(int, int)>, y: int) -> Option<int>
    decreases pts.len(),
{
    if pts.len() == 0 {
        None
    } else if pts.last().1 == y {
        Some(pts.last().0)
    } else {
        last_on_row(pts.drop_last(), y)
    }
}

/// The x of the first of `pts` on row `y`.
pub open spec fn first_on_row(pts: Seq<(int, int)>, y: int) -> Option<int>
    decreases pts.len(),
{
    if pts.len() == 0 {
        None
    } else {
        match first_on_row(pts.drop_last(), y) {
            Some(x) => Some(x),
            None => if pts.last().1 == y {
                Some(pts.last().0)
            } else {
                None
            },
        }
    }
}

/// A bound buffer, whose entry `i` belongs to row `y0 + i`, after an edge
/// whose pixels are `pts`: each row that they touch takes the x of the last
/// of them on it for a right bound, of the first for a left bound; the other
/// rows keep their value.
pub open spec fn edge_bound(buf: Seq<int>, y0: int, pts: Seq<(int, int)>, right: bool) -> Seq<int> {
    Seq::new(
        buf.len(),
        |i: int|
            match (if right {
                last_on_row(pts, y0 + i)
            } else {
                first_on_row(pts, y0 + i)
            }) {
                Some(x) => x,
                None => buf[i],
            },
    )
}

/// Appending a point changes what a row records only on the point's row.
pub proof fn lemma_on_row_push(pts: Seq<(int, int)>, q: (int, int), y: int)
    ensures
        last_on_row(pts.push(q), y) == if q.1 == y {
            Some(q.0)
        } else {
            last_on_row(pts, y)
        },
        first_on_row(pts.push(q), y) == match first_on_row(pts, y) {
            Some(x) => Some(x),
            None => if q.1 == y {
                Some(q.0)
            } else {
                None
            },
        },
{
    assert(pts.push(q).drop_last() =~= pts);
}

/// The buffer after one more point of an edge.
pub proof fn lemma_edge_bound_push(
    buf: Seq<int>,
    y0: int,
    pts: Seq<(int, int)>,
    q: (int, int),
    right: bool,
)
    ensures
        edge_bound(buf, y0, pts.push(q), right) =~= Seq::new(
            buf.len(),
            |i: int|
                if y0 + i == q.1 && (right || first_on_row(pts, q.1).is_none()) {
                    q.0
                } else {
                    edge_bound(buf, y0, pts, right)[i]
                },
        ),
{
    assert forall|i: int| 0 <= i < buf.len() implies edge_bound(buf, y0, pts.push(q), right)[i] == (
    if y0 + i == q.1 && (right || first_on_row(pts, q.1).is_none()) {
        q.0
    } else {
        edge_bound(buf, y0, pts, right)[i]
    }) by {
        lemma_on_row_push(pts, q, y0 + i);
    }
}

/// A row that some point lies on records a first x.
pub proof fn lemma_first_on_row_some(pts: Seq<(int, int)>, k: int)
    requires
        0 <= k < pts.len(),
    ensures
        first_on_row(pts, pts[k].1).is_some(),
    decreases pts.len(),
{
    if k < pts.len() - 1 {
        lemma_first_on_row_some(pts.drop_last(), k);
        assert(pts.drop_last()[k] == pts[k]);
    }
}

/// A row that no point lies on records no first x.
pub proof fn lemma_first_on_row_none(pts: Seq<(int, int)>, y: int)
    requires
        forall|j: int| 0 <= j < pts.len() ==> (#[trigger] pts[j]).1 != y,
    ensures
        first_on_row(pts, y).is_none(),
    decreases pts.len(),
{
    if pts.len() > 0 {
        let rest = pts.drop_last();
        assert forall|j: int| 0 <= j < rest.len() implies (#[trigger] rest[j]).1 != y by {
            assert(rest[j] == pts[j]);
        }
        lemma_first_on_row_none(rest, y);
    }
}

/// The index of the first vertex of least y among the first `n`.
pub open spec fn top_index(vs: Seq<(int, int)>, n: int) -> int
    decreases n,
{
    if n <= 1 {
        0
    } else {
        let m = top_index(vs, n - 1);
        if vs[n - 1].1 < vs[m].1 {
            n - 1
        } else {
            m
        }
    }
}

/// The index of the first vertex of greatest y among the first `n`.
pub open spec fn bottom_index(vs: Seq<(int, int)>, n: int) -> int
    decreases n,
{
    if n <= 1 {
        0
    } else {
        let m = bottom_index(vs, n - 1);
        if vs[n - 1].1 > vs[m].1 {
            n - 1
        } else {
            m
        }
    }
}

/// How many edges lead forward around a ring of `n` vertices from vertex
/// `a` to vertex `b`: a full turn when they are the same.
pub open spec fn walk_len(n: int, a: int, b: int) -> int {
    if a < b {
        b - a
    } else {
        b + n - a
    }
}

/// A bound buffer after the first `m` edges that lead forward from vertex
/// `a`, each recorded as `edge_bound` says.
pub open spec fn walk_bound(
    buf: Seq<int>,
    y0: int,
    vs: Seq<(int, int)>,
    a: int,
    m: int,
    right: bool,
) -> Seq<int>
    decreases m,
{
    if m <= 0 {
        buf
    } else {
        let p = vs[(a + m - 1) % vs.len() as int];
        let q = vs[(a + m) % vs.len() as int];
        edge_bound(walk_bound(buf, y0, vs, a, m - 1, right), y0, line_points(p.0, p.1, q.0, q.1), right)
    }
}

/// The first `n` rows of a fill from row `y0` down: row `y0 + i` from
/// `left[i]` up to, not including, `right[i]`.
pub open spec fn fill_rows(y0: int, left: Seq<int>, right: Seq<int>, n: int) -> Seq<(int, int)>
    decreases n,
{
    if n <= 0 {
        Seq::empty()
    } else {
        let i = n - 1;
        fill_rows(y0, left, right, i) + Seq::new(
            (if right[i] > left[i] { right[i] - left[i] } else { 0 }) as nat,
            |j: int| (left[i] + j, y0 + i),
        )
    }
}

/// The pixels of the solid fill of the polygon, in drawing order. From the
/// first topmost vertex to the first bottommost one, the edges forward
/// around the list give one boundary and the edges from there on back to the
/// top give the other. With `clockwise`, the edges that follow the topmost
/// vertex in the list run down its left side (as when the vertices go
/// clockwise with y pointing up); without it, its right side. Each row is
/// then painted from its left bound up to its right bound. None for no
/// vertices.
pub open spec fn fill_points(vs: Seq<(int, int)>, clockwise: bool) -> Seq<(int, int)> {
    if vs.len() == 0 {
        Seq::empty()
    } else {
        let n = vs.len() as int;
        let top = top_index(vs, n);
        let bottom = bottom_index(vs, n);
        let y0 = vs[top].1;
        let rows = vs[bottom].1 - y0 + 1;
        let init = Seq::new(rows as nat, |i: int| vs[top].0);
        let (a, b) = if clockwise {
            (bottom, top)
        } else {
            (top, bottom)
        };
        let right = walk_bound(init, y0, vs, a, walk_len(n, a, b), true);
        let left = walk_bound(init, y0, vs, b, walk_len(n, b, a), false);
        fill_rows(y0, left, right, rows)
    }
}

/// Records the edges that lead forward from vertex `a` until vertex `b` in a
/// bound buffer whose entry `i` belongs to row `y0 + i`.
fn walk_chain(buff: &mut Vec<isize>, right: bool, y0: isize, vertices: &Vec<(isize, isize)>, a: usize, b: usize)
    requires
        0 <= a < vertices@.len(),
        0 <= b < vertices@.len(),
        forall|j: int|
            0 <= j < vertices@.len() ==> y0 <= (#[trigger] vertices@[j]).1 < y0 + old(buff)@.len(),
    ensures
        final(buff)@.len() == old(buff)@.len(),
        ints(final(buff)@) == walk_bound(
            ints(old(buff)@),
            y0 as int,
            int_points(vertices@),
            a as int,
            walk_len(vertices@.len() as int, a as int, b as int),
            right,
        ),
{
    let ghost vs = int_points(vertices@);
    let ghost start = ints(buff@);
    let n = vertices.len();
    let m: usize = if a < b { b - a } else { b + (n - a) };
    let mut idx: usize = a;
    let mut j: usize = 0;
    proof {
        vstd::arithmetic::div_mod::lemma_small_mod(a as nat, n as nat);
    }
    while j < m
        invariant
            n == vertices@.len(),
            vs == int_points(vertices@),
            0 <= a < n,
            m == walk_len(n as int, a as int, b as int),
            0 <= j <= m,
            m <= n,
            idx < n,
            idx == (a + j) % (n as int),
            buff@.len() == start.len(),
            ints(buff@) == walk_bound(start, y0 as int, vs, a as int, j as int, right),
            forall|j: int|
                0 <= j < vertices@.len() ==> y0 <= (#[trigger] vertices@[j]).1 < y0 + start.len(),
        decreases m - j,
    {
        let next: usize = if idx + 1 == n { 0 } else { idx + 1 };
        proof {
            vstd::arithmetic::div_mod::lemma_mod_add_multiples_vanish((a + j) as int, n as int);
            vstd::arithmetic::div_mod::lemma_add_mod_noop(a + j, 1, n as int);
            if n > 1 {
                vstd::arithmetic::div_mod::lemma_small_mod(1, n as nat);
            }
            if idx + 1 < n {
                vstd::arithmetic::div_mod::lemma_small_mod((idx + 1) as nat, n as nat);
            } else {
                vstd::arithmetic::div_mod::lemma_mod_self_0(n as int);
            }
            assert(next == (a + j + 1) % (n as int));
        }
        let (x1, y1) = vertices[idx];
        let (x2, y2) = vertices[next];
        assert(vertices@[idx as int] == (x1, y1));
        assert(vertices@[next as int] == (x2, y2));
        Canvas::polygon_buffer_line(buff, right, y0, x1, y1, x2, y2);
        idx = next;
        j += 1;
    }
}

impl Canvas {
    /// Draws the closed outline through `vertices`; nothing when there are
    /// none.
    pub fn draw_polygon(&mut self, vertices: Vec<(isize, isize)>, color: RGBA)
        requires
            old(self).wf(),
        ensures
            final(self).wf(),
            final(self)@ == old(self)@.paint_all(outline_points(int_points(vertices@)), color),
    {
        let ghost vs = int_points(vertices@);
        if vertices.len() == 0 {
            return;
        }
        let ghost start = self@;
        let mut i: usize = 1;
        while i < vertices.len()
            invariant
                self.wf(),
                1 <= i <= vertices@.len(),
                vs == int_points(vertices@),
                self@ == start.paint_all(chain_points(vs, i as int), color),
            decreases vertices@.len() - i,
        {
            let (x1, y1) = vertices[i];
            let (x2, y2) = vertices[i - 1];
            self.draw_line(x1, y1, x2, y2, color);
            proof {
                lemma_paint_all_append(
                    start,
                    chain_points(vs, i as int),
                    line_points(x1 as int, y1 as int, x2 as int, y2 as int),
                    color,
                );
            }
            i += 1;
        }
        let (x1, y1) = vertices[0];
        let (x2, y2) = vertices[vertices.len() - 1];
        self.draw_line(x1, y1, x2, y2, color);
        proof {
            lemma_paint_all_append(
                start,
                chain_points(vs, vs.len() as int),
                line_points(x1 as int, y1 as int, x2 as int, y2 as int),
                color,
            );
        }
    }

    /// Records the edge from `(x1, y1)` to `(x2, y2)` in a bound buffer whose
    /// entry `i` belongs to row `y0 + i`: walked as `draw_line` walks it, each
    /// row it touches takes its last x for a right bound, its first for a
    /// left one.
    fn polygon_buffer_line(
        buff: &mut Vec<isize>,
        right: bool,
        y0: isize,
        x1: isize,
        y1: isize,
        x2: isize,
        y2: isize,
    )
        requires
            y0 <= y1 < y0 + old(buff)@.len(),
            y0 <= y2 < y0 + old(buff)@.len(),
        ensures
            final(buff)@.len() == old(buff)@.len(),
            ints(final(buff)@) == edge_bound(
                ints(old(buff)@),
                y0 as int,
                line_points(x1 as int, y1 as int, x2 as int, y2 as int),
                right,
            ),
    {
        let ghost all = line_points(x1 as int, y1 as int, x2 as int, y2 as int);
        let ghost start = ints(buff@);
        let rows: usize = buff.len();
        let pts = line_pixels(x1, y1, x2, y2);
        let mut i: usize = 0;
        proof {
            assert(all.take(0) =~= Seq::<(int, int)>::empty());
            assert(edge_bound(start, y0 as int, Seq::empty(), right) =~= start);
        }
        while i < pts.len()
            invariant
                int_points(pts@) == all,
                all == line_points(x1 as int, y1 as int, x2 as int, y2 as int),
                y0 <= y1 < y0 + start.len(),
                y0 <= y2 < y0 + start.len(),
                start.len() == rows,
                buff@.len() == rows,
                i <= pts@.len(),
                ints(buff@) == edge_bound(start, y0 as int, all.take(i as int), right),
            decreases pts@.len() - i,
        {
            let (x, y) = pts[i];
            let ghost q = all[i as int];
            proof {
                assert(q == (x as int, y as int));
                lemma_line_between(x1 as int, y1 as int, x2 as int, y2 as int, i as int);
                assert(all.take(i + 1) =~= all.take(i as int).push(q));
                lemma_edge_bound_push(start, y0 as int, all.take(i as int), q, right);
            }
            if right || i == 0 || y != pts[i - 1].1 {
                proof {
                    if !right {
                        assert forall|j: int| 0 <= j < i implies (#[trigger] all.take(i as int)[j]).1 != q.1 by {
                            assert(all.take(i as int)[j] == all[j]);
                            if all[j].1 == q.1 {
                                lemma_line_rows_unbroken(x1 as int, y1 as int, x2 as int, y2 as int, j, i - 1, i as int);
                            }
                        }
                        lemma_first_on_row_none(all.take(i as int), q.1);
                    }
                }
                buff.set((y as i128 - y0 as i128) as usize, x);
                proof {
                    assert(ints(buff@) =~= edge_bound(start, y0 as int, all.take(i + 1), right));
                }
            } else {
                proof {
                    assert(all.take(i as int)[i - 1] == all[i - 1]);
                    lemma_first_on_row_some(all.take(i as int), i - 1);
                    assert(ints(buff@) =~= edge_bound(start, y0 as int, all.take(i + 1), right));
                }
            }
            i += 1;
        }
        proof {
            assert(all.take(i as int) =~= all);
        }
    }

    /// Fills the simple polygon through `vertices` by scanlines: each row from
    /// the top vertex to the bottom one is painted between the bounds that the
    /// two chains of edges record on it (see `fill_points` for the role of
    /// `clockwise`). Nothing for no vertices.
    pub fn draw_polygon_solid(&mut self, vertices: Vec<(isize, isize)>, clockwise: bool, color: RGBA)
        requires
            old(self).wf(),
            forall|i: int, j: int|
                0 <= i < vertices@.len() && 0 <= j < vertices@.len() ==> vertices@[i].1
                    - vertices@[j].1 < usize::MAX,
        ensures
            final(self).wf(),
            final(self)@ == old(self)@.paint_all(fill_points(int_points(vertices@), clockwise), color),
    {
        let ghost vs = int_points(vertices@);
        let n = vertices.len();
        if n == 0 {
            return;
        }
        let mut min_vert: usize = 0;
        let mut max_vert: usize = 0;
        let mut i: usize = 1;
        while i < n
            invariant
                n == vertices@.len(),
                vs == int_points(vertices@),
                1 <= i <= n,
                min_vert == top_index(vs, i as int),
                max_vert == bottom_index(vs, i as int),
                min_vert < i,
                max_vert < i,
                forall|j: int| 0 <= j < i ==> vertices@[min_vert as int].1 <= (#[trigger] vertices@[j]).1,
                forall|j: int| 0 <= j < i ==> vertices@[max_vert as int].1 >= (#[trigger] vertices@[j]).1,
            decreases n - i,
        {
            if vertices[i].1 < vertices[min_vert].1 {
                min_vert = i;
            }
            if vertices[i].1 > vertices[max_vert].1 {
                max_vert = i;
            }
            i += 1;
        }
        let (start_x, start_y) = vertices[min_vert];
        let rows: usize = (vertices[max_vert].1 as i128 - start_y as i128 + 1) as usize;
        let mut left_buff: Vec<isize> = vec![start_x; rows];
        let mut right_buff: Vec<isize> = vec![start_x; rows];
        let ghost init = Seq::new(rows as nat, |i: int| start_x as int);
        proof {
            assert(ints(left_buff@) =~= init);
            assert(ints(right_buff@) =~= init);
        }
        let (a, b) = if clockwise { (max_vert, min_vert) } else { (min_vert, max_vert) };
        walk_chain(&mut right_buff, true, start_y, &vertices, a, b);
        walk_chain(&mut left_buff, false, start_y, &vertices, b, a);
        let ghost left = ints(left_buff@);
        let ghost right = ints(right_buff@);
        let ghost start = self@;
        let mut row: usize = 0;
        proof {
            assert(fill_rows(start_y as int, left, right, 0) =~= Seq::<(int, int)>::empty());
        }
        while row < rows
            invariant
                self.wf(),
                row <= rows,
                left_buff@.len() == rows,
                right_buff@.len() == rows,
                left == ints(left_buff@),
                right == ints(right_buff@),
                start_y + rows - 1 <= isize::MAX,
                self@ == start.paint_all(fill_rows(start_y as int, left, right, row as int), color),
            decreases rows - row,
        {
            let y = (start_y as i128 + row as i128) as isize;
            let x1 = left_buff[row];
            let x2 = right_buff[row];
            let ghost span = Seq::new(
                (if x2 > x1 { x2 - x1 } else { 0 }) as nat,
                |j: int| (x1 as int + j, y as int),
            );
            let ghost row_start = self@;
            let mut x: isize = x1;
            proof {
                assert(span.take(0) =~= Seq::<(int, int)>::empty());
            }
            while x < x2
                invariant
                    self.wf(),
                    x1 <= x,
                    x1 < x2 ==> x <= x2,
                    x1 >= x2 ==> x == x1,
                    span == Seq::new(
                        (if x2 > x1 { x2 - x1 } else { 0 }) as nat,
                        |j: int| (x1 as int + j, y as int),
                    ),
                    self@ == row_start.paint_all(span.take(x - x1), color),
                decreases x2 - x,
            {
                self.draw_pixel(x, y, color);
                proof {
                    assert(span.take(x - x1 + 1).drop_last() =~= span.take(x - x1));
                }
                x += 1;
            }
            proof {
                if x1 < x2 {
                    assert(x == x2);
                } else {
                    assert(x == x1);
                }
                assert(span.len() == x - x1);
                assert(span.take(x - x1) =~= span);
                lemma_paint_all_append(
                    start,
                    fill_rows(start_y as int, left, right, row as int),
                    span,
                    color,
                );
            }
            row += 1;
        }
        proof {
            assert(fill_points(vs, clockwise) == fill_rows(start_y as int, left, right, rows as int));
        }
    }
}

} // verus!
