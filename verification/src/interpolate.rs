//! Bilinear reconstruction over one lattice cell.
//!
//! The four corner samples of an axis-aligned cell determine a unique
//! polynomial `a + b*x + c*y + d*x*y`; its value at the query point is
//! computed exactly.  A cell whose corners collapsed at the lattice
//! boundary makes the system singular; the reconstruction is then defined
//! to be zero everywhere, never an error.

use vstd::prelude::*;
use crate::rat::{
    Rat, Q, q_wf, q_eq, q_zero, q_sub, q_add, q_mul, q_div, abs_i,
    lemma_q_eq_trans, lemma_q_mul_congr, lemma_q_add_congr, lemma_q_div_congr, lemma_q_ops_wf,
    lemma_q_add_zero, lemma_q_add_both_zero, lemma_q_mul_zero, lemma_q_mul_div_cancel,
    lemma_raw_fits, lemma_norm_bounds, lemma_q_eq_sign,
};
use crate::coordinate::GameCoor;
use crate::grid::{Grid, GridCell, node_coord};

verus! {

/// The four corners form an axis-aligned quad: left corners share an `x`,
/// right corners share an `x`, bottom corners share a `y`, top corners
/// share a `y`.
pub open spec fn cell_aligned(cell: GridCell) -> bool {
    &&& cell.bottom_left.x == cell.top_left.x
    &&& cell.bottom_right.x == cell.top_right.x
    &&& cell.bottom_left.y == cell.bottom_right.y
    &&& cell.top_left.y == cell.top_right.y
}

/// A cell whose boundary clamping collapsed corners: opposite corners
/// coincide on at least one axis, so the bilinear system is singular.
pub open spec fn cell_degenerate(cell: GridCell) -> bool {
    cell.bottom_left.x == cell.bottom_right.x || cell.bottom_left.y == cell.top_left.y
}

/// A grid inside the guaranteed interpolation domain: integer spacing,
/// node positions within `2000` world units, and samples with numerators
/// within `10^5` over at most twentieths.
pub open spec fn interp_grid_modest(grid: Grid) -> bool {
    &&& grid.dx@.d == 1
    &&& grid.dy@.d == 1
    &&& grid.width * grid.dx@.n <= 2000
    &&& grid.height * grid.dy@.n <= 2000
    &&& forall|i: int|
        0 <= i < grid.values.len() ==> abs_i((#[trigger] grid.values[i])@.n) <= 100000
            && grid.values[i]@.d <= 20
}

/// A query point inside the guaranteed interpolation domain: numerators
/// within `2000`, denominators within `2`.
pub open spec fn interp_probe_modest(coor: GameCoor) -> bool {
    &&& abs_i(coor.x@.n) <= 2000
    &&& abs_i(coor.y@.n) <= 2000
    &&& coor.x@.d <= 2
    &&& coor.y@.d <= 2
}

/// The bilinear interpolant through four corner samples, evaluated at
/// `(px, py)`: the value at the query point of the unique polynomial
/// `a + b*x + c*y + d*x*y` that matches `f00` at `(x0, y0)`, `f10` at
/// `(x1, y0)`, `f01` at `(x0, y1)` and `f11` at `(x1, y1)`, written in its
/// weighted corner form.
pub open spec fn bilinear_at(
    f00: Q,
    f10: Q,
    f01: Q,
    f11: Q,
    x0: Q,
    x1: Q,
    y0: Q,
    y1: Q,
    px: Q,
    py: Q,
) -> Q {
    let wx1 = q_sub(x1, px);
    let wx0 = q_sub(px, x0);
    let wy1 = q_sub(y1, py);
    let wy0 = q_sub(py, y0);
    let num = q_add(
        q_add(q_mul(f00, q_mul(wx1, wy1)), q_mul(f10, q_mul(wx0, wy1))),
        q_add(q_mul(f01, q_mul(wx1, wy0)), q_mul(f11, q_mul(wx0, wy0))),
    );
    q_div(num, q_mul(q_sub(x1, x0), q_sub(y1, y0)))
}

/// The bilinear reconstruction a grid defines over a cell, at a query
/// point.
pub open spec fn cell_interp(grid: Grid, cell: GridCell, coor: GameCoor) -> Q {
    bilinear_at(
        grid.value_at(cell.bottom_left.x as int, cell.bottom_left.y as int)@,
        grid.value_at(cell.bottom_right.x as int, cell.bottom_right.y as int)@,
        grid.value_at(cell.top_left.x as int, cell.top_left.y as int)@,
        grid.value_at(cell.top_right.x as int, cell.top_right.y as int)@,
        node_coord(cell.bottom_left.x as int, grid.dx@),
        node_coord(cell.bottom_right.x as int, grid.dx@),
        node_coord(cell.bottom_left.y as int, grid.dy@),
        node_coord(cell.top_left.y as int, grid.dy@),
        coor.x@,
        coor.y@,
    )
}

impl Grid {
    /// Reconstructs the field value at `coor` from the four corner samples
    /// of `cell` by exact bilinear interpolation.  On a degenerate
    /// (boundary-collapsed) cell the result is zero at every point, by
    /// definition rather than by error.  `None` can arise only when an
    /// intermediate rational leaves the `i64` range; on a well-oriented
    /// cell of a modest grid queried at a modest point (see
    /// [`interp_grid_modest`] and [`interp_probe_modest`]) the
    /// reconstruction always answers.
    pub fn interpolate_temperature(&self, cell: &GridCell, coor: &GameCoor) -> (r: Option<Rat>)
        requires
            self.wf(),
            coor.wf(),
            cell_aligned(*cell),
            cell.in_bounds(self.width as int, self.height as int),
        ensures
            cell_degenerate(*cell) ==> (r matches Some(v) && v@ == q_zero()),
            r matches Some(v) ==> v.wf(),
            !cell_degenerate(*cell) ==> (r matches Some(v) ==> q_wf(cell_interp(*self, *cell, *coor))
                && q_eq(v@, cell_interp(*self, *cell, *coor))),
            (interp_grid_modest(*self) && interp_probe_modest(*coor) && cell.bottom_left.x
                < cell.bottom_right.x && cell.bottom_left.y < cell.top_left.y) ==> r is Some,
    {
        let bl = cell.bottom_left;
        let br = cell.bottom_right;
        let tl = cell.top_left;
        let tr = cell.top_right;
        if bl.x == br.x || bl.y == tl.y {
            return Some(Rat::zero());
        }
        let f00 = self.get_value(bl.x, bl.y).unwrap();
        let f10 = self.get_value(br.x, br.y).unwrap();
        let f01 = self.get_value(tl.x, tl.y).unwrap();
        let f11 = self.get_value(tr.x, tr.y).unwrap();
        let p00 = self.node_world(bl);
        let p11 = self.node_world(tr);
        let ghost qx0 = node_coord(bl.x as int, self.dx@);
        let ghost qx1 = node_coord(br.x as int, self.dx@);
        let ghost qy0 = node_coord(bl.y as int, self.dy@);
        let ghost qy1 = node_coord(tl.y as int, self.dy@);
        let ghost px = coor.x@;
        let ghost py = coor.y@;
        let ghost pm = interp_grid_modest(*self) && interp_probe_modest(*coor) && bl.x < br.x
            && bl.y < tl.y;
        proof {
            if pm {
                assert(0 <= qx0.n <= 2000 && 0 <= qx1.n <= 2000 && qx0.d == 1 && qx1.d == 1)
                    by (nonlinear_arith)
                    requires
                        qx0.n == bl.x as int * self.dx@.n,
                        qx1.n == br.x as int * self.dx@.n,
                        qx0.d == 1 * self.dx@.d,
                        qx1.d == 1 * self.dx@.d,
                        self.dx@.d == 1,
                        1 <= self.dx@.n,
                        0 <= (bl.x as int) < self.width,
                        0 <= (br.x as int) < self.width,
                        self.width * self.dx@.n <= 2000,
                ;
                assert(0 <= qy0.n <= 2000 && 0 <= qy1.n <= 2000 && qy0.d == 1 && qy1.d == 1)
                    by (nonlinear_arith)
                    requires
                        qy0.n == bl.y as int * self.dy@.n,
                        qy1.n == tl.y as int * self.dy@.n,
                        qy0.d == 1 * self.dy@.d,
                        qy1.d == 1 * self.dy@.d,
                        self.dy@.d == 1,
                        1 <= self.dy@.n,
                        0 <= (bl.y as int) < self.height,
                        0 <= (tl.y as int) < self.height,
                        self.height * self.dy@.n <= 2000,
                ;
                assert(abs_i(q_sub(qx1, px).n) <= 6000 && 1 <= q_sub(qx1, px).d <= 2)
                    by (nonlinear_arith)
                    requires
                        0 <= qx1.n <= 2000,
                        qx1.d == 1,
                        abs_i(px.n) <= 2000,
                        1 <= px.d <= 2,
                ;
                assert(abs_i(q_sub(px, qx0).n) <= 6000 && 1 <= q_sub(px, qx0).d <= 2)
                    by (nonlinear_arith)
                    requires
                        0 <= qx0.n <= 2000,
                        qx0.d == 1,
                        abs_i(px.n) <= 2000,
                        1 <= px.d <= 2,
                ;
                assert(abs_i(q_sub(qy1, py).n) <= 6000 && 1 <= q_sub(qy1, py).d <= 2)
                    by (nonlinear_arith)
                    requires
                        0 <= qy1.n <= 2000,
                        qy1.d == 1,
                        abs_i(py.n) <= 2000,
                        1 <= py.d <= 2,
                ;
                assert(abs_i(q_sub(py, qy0).n) <= 6000 && 1 <= q_sub(py, qy0).d <= 2)
                    by (nonlinear_arith)
                    requires
                        0 <= qy0.n <= 2000,
                        qy0.d == 1,
                        abs_i(py.n) <= 2000,
                        1 <= py.d <= 2,
                ;
                lemma_raw_fits(q_sub(qx1, px).n, q_sub(qx1, px).d);
                lemma_raw_fits(q_sub(px, qx0).n, q_sub(px, qx0).d);
                lemma_raw_fits(q_sub(qy1, py).n, q_sub(qy1, py).d);
                lemma_raw_fits(q_sub(py, qy0).n, q_sub(py, qy0).d);
                assert(bl.x * self.height + bl.y < self.values.len() && br.x * self.height + br.y
                    < self.values.len() && tl.x * self.height + tl.y < self.values.len() && tr.x
                    * self.height + tr.y < self.values.len()) by (nonlinear_arith)
                    requires
                        bl.x < self.width,
                        br.x < self.width,
                        tl.x < self.width,
                        tr.x < self.width,
                        bl.y < self.height,
                        br.y < self.height,
                        tl.y < self.height,
                        tr.y < self.height,
                        self.values.len() == self.width * self.height,
                ;
                assert(abs_i(f00@.n) <= 100000 && f00@.d <= 20);
                assert(abs_i(f10@.n) <= 100000 && f10@.d <= 20);
                assert(abs_i(f01@.n) <= 100000 && f01@.d <= 20);
                assert(abs_i(f11@.n) <= 100000 && f11@.d <= 20);
            }
        }
        let wx1 = match p11.x.sub(coor.x) {
            Some(v) => v,
            None => {
                return None;
            },
        };
        let wx0 = match coor.x.sub(p00.x) {
            Some(v) => v,
            None => {
                return None;
            },
        };
        let wy1 = match p11.y.sub(coor.y) {
            Some(v) => v,
            None => {
                return None;
            },
        };
        let wy0 = match coor.y.sub(p00.y) {
            Some(v) => v,
            None => {
                return None;
            },
        };
        let ghost gwx1 = q_sub(qx1, px);
        let ghost gwx0 = q_sub(px, qx0);
        let ghost gwy1 = q_sub(qy1, py);
        let ghost gwy0 = q_sub(py, qy0);
        proof {
            lemma_q_ops_wf(qx1, px);
            lemma_q_ops_wf(px, qx0);
            lemma_q_ops_wf(qy1, py);
            lemma_q_ops_wf(py, qy0);
            if pm {
                lemma_norm_bounds(q_sub(qx1, px).n, q_sub(qx1, px).d);
                lemma_norm_bounds(q_sub(px, qx0).n, q_sub(px, qx0).d);
                lemma_norm_bounds(q_sub(qy1, py).n, q_sub(qy1, py).d);
                lemma_norm_bounds(q_sub(py, qy0).n, q_sub(py, qy0).d);
                assert(abs_i(wx1@.n) <= 6000 && 1 <= wx1@.d <= 2);
                assert(abs_i(wx0@.n) <= 6000 && 1 <= wx0@.d <= 2);
                assert(abs_i(wy1@.n) <= 6000 && 1 <= wy1@.d <= 2);
                assert(abs_i(wy0@.n) <= 6000 && 1 <= wy0@.d <= 2);
                assert(abs_i(q_mul(wx1@, wy1@).n) <= 36000000 && 1 <= q_mul(wx1@, wy1@).d <= 4)
                    by (nonlinear_arith)
                    requires
                        abs_i(wx1@.n) <= 6000,
                        1 <= wx1@.d <= 2,
                        abs_i(wy1@.n) <= 6000,
                        1 <= wy1@.d <= 2,
                ;
                assert(abs_i(q_mul(wx0@, wy1@).n) <= 36000000 && 1 <= q_mul(wx0@, wy1@).d <= 4)
                    by (nonlinear_arith)
                    requires
                        abs_i(wx0@.n) <= 6000,
                        1 <= wx0@.d <= 2,
                        abs_i(wy1@.n) <= 6000,
                        1 <= wy1@.d <= 2,
                ;
                assert(abs_i(q_mul(wx1@, wy0@).n) <= 36000000 && 1 <= q_mul(wx1@, wy0@).d <= 4)
                    by (nonlinear_arith)
                    requires
                        abs_i(wx1@.n) <= 6000,
                        1 <= wx1@.d <= 2,
                        abs_i(wy0@.n) <= 6000,
                        1 <= wy0@.d <= 2,
                ;
                assert(abs_i(q_mul(wx0@, wy0@).n) <= 36000000 && 1 <= q_mul(wx0@, wy0@).d <= 4)
                    by (nonlinear_arith)
                    requires
                        abs_i(wx0@.n) <= 6000,
                        1 <= wx0@.d <= 2,
                        abs_i(wy0@.n) <= 6000,
                        1 <= wy0@.d <= 2,
                ;
                lemma_raw_fits(q_mul(wx1@, wy1@).n, q_mul(wx1@, wy1@).d);
                lemma_raw_fits(q_mul(wx0@, wy1@).n, q_mul(wx0@, wy1@).d);
                lemma_raw_fits(q_mul(wx1@, wy0@).n, q_mul(wx1@, wy0@).d);
                lemma_raw_fits(q_mul(wx0@, wy0@).n, q_mul(wx0@, wy0@).d);
            }
        }
        let m00 = match wx1.mul(wy1) {
            Some(v) => v,
            None => {
                return None;
            },
        };
        let m10 = match wx0.mul(wy1) {
            Some(v) => v,
            None => {
                return None;
            },
        };
        let m01 = match wx1.mul(wy0) {
            Some(v) => v,
            None => {
                return None;
            },
        };
        let m11 = match wx0.mul(wy0) {
            Some(v) => v,
            None => {
                return None;
            },
        };
        let ghost gm00 = q_mul(gwx1, gwy1);
        let ghost gm10 = q_mul(gwx0, gwy1);
        let ghost gm01 = q_mul(gwx1, gwy0);
        let ghost gm11 = q_mul(gwx0, gwy0);
        proof {
            lemma_q_mul_congr(wx1@, wy1@, gwx1, gwy1);
            lemma_q_mul_congr(wx0@, wy1@, gwx0, gwy1);
            lemma_q_mul_congr(wx1@, wy0@, gwx1, gwy0);
            lemma_q_mul_congr(wx0@, wy0@, gwx0, gwy0);
            lemma_q_ops_wf(wx1@, wy1@);
            lemma_q_ops_wf(wx0@, wy1@);
            lemma_q_ops_wf(wx1@, wy0@);
            lemma_q_ops_wf(wx0@, wy0@);
            lemma_q_ops_wf(gwx1, gwy1);
            lemma_q_ops_wf(gwx0, gwy1);
            lemma_q_ops_wf(gwx1, gwy0);
            lemma_q_ops_wf(gwx0, gwy0);
            lemma_q_eq_trans(m00@, q_mul(wx1@, wy1@), gm00);
            lemma_q_eq_trans(m10@, q_mul(wx0@, wy1@), gm10);
            lemma_q_eq_trans(m01@, q_mul(wx1@, wy0@), gm01);
            lemma_q_eq_trans(m11@, q_mul(wx0@, wy0@), gm11);
            if pm {
                lemma_norm_bounds(q_mul(wx1@, wy1@).n, q_mul(wx1@, wy1@).d);
                lemma_norm_bounds(q_mul(wx0@, wy1@).n, q_mul(wx0@, wy1@).d);
                lemma_norm_bounds(q_mul(wx1@, wy0@).n, q_mul(wx1@, wy0@).d);
                lemma_norm_bounds(q_mul(wx0@, wy0@).n, q_mul(wx0@, wy0@).d);
                assert(abs_i(m00@.n) <= 36000000 && 1 <= m00@.d <= 4);
                assert(abs_i(m10@.n) <= 36000000 && 1 <= m10@.d <= 4);
                assert(abs_i(m01@.n) <= 36000000 && 1 <= m01@.d <= 4);
                assert(abs_i(m11@.n) <= 36000000 && 1 <= m11@.d <= 4);
                assert(abs_i(q_mul(f00@, m00@).n) <= 3600000000000 && 1 <= q_mul(f00@, m00@).d
                    <= 80) by (nonlinear_arith)
                    requires
                        abs_i(f00@.n) <= 100000,
                        1 <= f00@.d <= 20,
                        abs_i(m00@.n) <= 36000000,
                        1 <= m00@.d <= 4,
                ;
                assert(abs_i(q_mul(f10@, m10@).n) <= 3600000000000 && 1 <= q_mul(f10@, m10@).d
                    <= 80) by (nonlinear_arith)
                    requires
                        abs_i(f10@.n) <= 100000,
                        1 <= f10@.d <= 20,
                        abs_i(m10@.n) <= 36000000,
                        1 <= m10@.d <= 4,
                ;
                assert(abs_i(q_mul(f01@, m01@).n) <= 3600000000000 && 1 <= q_mul(f01@, m01@).d
                    <= 80) by (nonlinear_arith)
                    requires
                        abs_i(f01@.n) <= 100000,
                        1 <= f01@.d <= 20,
                        abs_i(m01@.n) <= 36000000,
                        1 <= m01@.d <= 4,
                ;
                assert(abs_i(q_mul(f11@, m11@).n) <= 3600000000000 && 1 <= q_mul(f11@, m11@).d
                    <= 80) by (nonlinear_arith)
                    requires
                        abs_i(f11@.n) <= 100000,
                        1 <= f11@.d <= 20,
                        abs_i(m11@.n) <= 36000000,
                        1 <= m11@.d <= 4,
                ;
                lemma_raw_fits(q_mul(f00@, m00@).n, q_mul(f00@, m00@).d);
                lemma_raw_fits(q_mul(f10@, m10@).n, q_mul(f10@, m10@).d);
                lemma_raw_fits(q_mul(f01@, m01@).n, q_mul(f01@, m01@).d);
                lemma_raw_fits(q_mul(f11@, m11@).n, q_mul(f11@, m11@).d);
            }
        }
        let t00 = match f00.mul(m00) {
            Some(v) => v,
            None => {
                return None;
            },
        };
        let t10 = match f10.mul(m10) {
            Some(v) => v,
            None => {
                return None;
            },
        };
        let t01 = match f01.mul(m01) {
            Some(v) => v,
            None => {
                return None;
            },
        };
        let t11 = match f11.mul(m11) {
            Some(v) => v,
            None => {
                return None;
            },
        };
        let ghost gt00 = q_mul(f00@, gm00);
        let ghost gt10 = q_mul(f10@, gm10);
        let ghost gt01 = q_mul(f01@, gm01);
        let ghost gt11 = q_mul(f11@, gm11);
        proof {
            lemma_q_mul_congr(f00@, m00@, f00@, gm00);
            lemma_q_mul_congr(f10@, m10@, f10@, gm10);
            lemma_q_mul_congr(f01@, m01@, f01@, gm01);
            lemma_q_mul_congr(f11@, m11@, f11@, gm11);
            lemma_q_ops_wf(f00@, m00@);
            lemma_q_ops_wf(f10@, m10@);
            lemma_q_ops_wf(f01@, m01@);
            lemma_q_ops_wf(f11@, m11@);
            lemma_q_ops_wf(f00@, gm00);
            lemma_q_ops_wf(f10@, gm10);
            lemma_q_ops_wf(f01@, gm01);
            lemma_q_ops_wf(f11@, gm11);
            lemma_q_eq_trans(t00@, q_mul(f00@, m00@), gt00);
            lemma_q_eq_trans(t10@, q_mul(f10@, m10@), gt10);
            lemma_q_eq_trans(t01@, q_mul(f01@, m01@), gt01);
            lemma_q_eq_trans(t11@, q_mul(f11@, m11@), gt11);
            if pm {
                lemma_norm_bounds(q_mul(f00@, m00@).n, q_mul(f00@, m00@).d);
                lemma_norm_bounds(q_mul(f10@, m10@).n, q_mul(f10@, m10@).d);
                lemma_norm_bounds(q_mul(f01@, m01@).n, q_mul(f01@, m01@).d);
                lemma_norm_bounds(q_mul(f11@, m11@).n, q_mul(f11@, m11@).d);
                assert(abs_i(t00@.n) <= 3600000000000 && 1 <= t00@.d <= 80);
                assert(abs_i(t10@.n) <= 3600000000000 && 1 <= t10@.d <= 80);
                assert(abs_i(t01@.n) <= 3600000000000 && 1 <= t01@.d <= 80);
                assert(abs_i(t11@.n) <= 3600000000000 && 1 <= t11@.d <= 80);
                assert(abs_i(q_add(t00@, t10@).n) <= 576000000000000 && 1 <= q_add(t00@, t10@).d
                    <= 6400) by (nonlinear_arith)
                    requires
                        abs_i(t00@.n) <= 3600000000000,
                        1 <= t00@.d <= 80,
                        abs_i(t10@.n) <= 3600000000000,
                        1 <= t10@.d <= 80,
                ;
                assert(abs_i(q_add(t01@, t11@).n) <= 576000000000000 && 1 <= q_add(t01@, t11@).d
                    <= 6400) by (nonlinear_arith)
                    requires
                        abs_i(t01@.n) <= 3600000000000,
                        1 <= t01@.d <= 80,
                        abs_i(t11@.n) <= 3600000000000,
                        1 <= t11@.d <= 80,
                ;
                lemma_raw_fits(q_add(t00@, t10@).n, q_add(t00@, t10@).d);
                lemma_raw_fits(q_add(t01@, t11@).n, q_add(t01@, t11@).d);
            }
        }
        let s1 = match t00.add(t10) {
            Some(v) => v,
            None => {
                return None;
            },
        };
        let s2 = match t01.add(t11) {
            Some(v) => v,
            None => {
                return None;
            },
        };
        let ghost gs1 = q_add(gt00, gt10);
        let ghost gs2 = q_add(gt01, gt11);
        proof {
            lemma_q_add_congr(t00@, t10@, gt00, gt10);
            lemma_q_add_congr(t01@, t11@, gt01, gt11);
            lemma_q_ops_wf(t00@, t10@);
            lemma_q_ops_wf(t01@, t11@);
            lemma_q_ops_wf(gt00, gt10);
            lemma_q_ops_wf(gt01, gt11);
            lemma_q_eq_trans(s1@, q_add(t00@, t10@), gs1);
            lemma_q_eq_trans(s2@, q_add(t01@, t11@), gs2);
            if pm {
                lemma_norm_bounds(q_add(t00@, t10@).n, q_add(t00@, t10@).d);
                lemma_norm_bounds(q_add(t01@, t11@).n, q_add(t01@, t11@).d);
                assert(abs_i(s1@.n) <= 576000000000000 && 1 <= s1@.d <= 6400);
                assert(abs_i(s2@.n) <= 576000000000000 && 1 <= s2@.d <= 6400);
                assert(abs_i(q_add(s1@, s2@).n) <= 7372800000000000000 && 1 <= q_add(s1@, s2@).d
                    <= 40960000) by (nonlinear_arith)
                    requires
                        abs_i(s1@.n) <= 576000000000000,
                        1 <= s1@.d <= 6400,
                        abs_i(s2@.n) <= 576000000000000,
                        1 <= s2@.d <= 6400,
                ;
                lemma_raw_fits(q_add(s1@, s2@).n, q_add(s1@, s2@).d);
            }
        }
        let num = match s1.add(s2) {
            Some(v) => v,
            None => {
                return None;
            },
        };
        let ghost gnum = q_add(gs1, gs2);
        proof {
            lemma_q_add_congr(s1@, s2@, gs1, gs2);
            lemma_q_ops_wf(s1@, s2@);
            lemma_q_ops_wf(gs1, gs2);
            lemma_q_eq_trans(num@, q_add(s1@, s2@), gnum);
        }
        proof {
            if pm {
                assert(abs_i(q_sub(qx1, qx0).n) <= 4000 && q_sub(qx1, qx0).d == 1)
                    by (nonlinear_arith)
                    requires
                        0 <= qx0.n <= 2000,
                        0 <= qx1.n <= 2000,
                        qx0.d == 1,
                        qx1.d == 1,
                ;
                assert(abs_i(q_sub(qy1, qy0).n) <= 4000 && q_sub(qy1, qy0).d == 1)
                    by (nonlinear_arith)
                    requires
                        0 <= qy0.n <= 2000,
                        0 <= qy1.n <= 2000,
                        qy0.d == 1,
                        qy1.d == 1,
                ;
                lemma_raw_fits(q_sub(qx1, qx0).n, q_sub(qx1, qx0).d);
                lemma_raw_fits(q_sub(qy1, qy0).n, q_sub(qy1, qy0).d);
            }
        }
        let ex = match p11.x.sub(p00.x) {
            Some(v) => v,
            None => {
                return None;
            },
        };
        let ey = match p11.y.sub(p00.y) {
            Some(v) => v,
            None => {
                return None;
            },
        };
        proof {
            if pm {
                lemma_norm_bounds(q_sub(qx1, qx0).n, q_sub(qx1, qx0).d);
                lemma_norm_bounds(q_sub(qy1, qy0).n, q_sub(qy1, qy0).d);
                assert(abs_i(ex@.n) <= 4000 && ex@.d == 1);
                assert(abs_i(ey@.n) <= 4000 && ey@.d == 1);
                assert(abs_i(q_mul(ex@, ey@).n) <= 16000000 && q_mul(ex@, ey@).d == 1)
                    by (nonlinear_arith)
                    requires
                        abs_i(ex@.n) <= 4000,
                        ex@.d == 1,
                        abs_i(ey@.n) <= 4000,
                        ey@.d == 1,
                ;
                lemma_raw_fits(q_mul(ex@, ey@).n, q_mul(ex@, ey@).d);
            }
        }
        let den = match ex.mul(ey) {
            Some(v) => v,
            None => {
                return None;
            },
        };
        let ghost gex = q_sub(qx1, qx0);
        let ghost gey = q_sub(qy1, qy0);
        let ghost gden = q_mul(gex, gey);
        proof {
            lemma_q_ops_wf(qx1, qx0);
            lemma_q_ops_wf(qy1, qy0);
            lemma_q_mul_congr(ex@, ey@, gex, gey);
            lemma_q_ops_wf(ex@, ey@);
            lemma_q_ops_wf(gex, gey);
            lemma_q_eq_trans(den@, q_mul(ex@, ey@), gden);
            assert(gex.n != 0) by (nonlinear_arith)
                requires
                    gex == q_sub(qx1, qx0),
                    qx1.n == br.x as int * self.dx@.n,
                    qx0.n == bl.x as int * self.dx@.n,
                    qx1.d == 1 * self.dx@.d,
                    qx0.d == 1 * self.dx@.d,
                    bl.x != br.x,
                    self.dx@.n >= 1,
                    self.dx@.d >= 1,
            ;
            assert(gey.n != 0) by (nonlinear_arith)
                requires
                    gey == q_sub(qy1, qy0),
                    qy1.n == tl.y as int * self.dy@.n,
                    qy0.n == bl.y as int * self.dy@.n,
                    qy1.d == 1 * self.dy@.d,
                    qy0.d == 1 * self.dy@.d,
                    bl.y != tl.y,
                    self.dy@.n >= 1,
                    self.dy@.d >= 1,
            ;
            assert(gden.n != 0) by (nonlinear_arith)
                requires
                    gden == q_mul(gex, gey),
                    gex.n != 0,
                    gey.n != 0,
            ;
            assert(den@.n != 0) by (nonlinear_arith)
                requires
                    q_eq(den@, gden),
                    den@.d >= 1,
                    gden.d >= 1,
                    gden.n != 0,
            ;
            if pm {
                lemma_norm_bounds(q_mul(ex@, ey@).n, q_mul(ex@, ey@).d);
                assert(abs_i(den@.n) <= 16000000 && den@.d == 1);
                assert(gex.n > 0) by (nonlinear_arith)
                    requires
                        gex == q_sub(qx1, qx0),
                        qx0.d == 1,
                        qx1.d == 1,
                        qx0.n == bl.x as int * self.dx@.n,
                        qx1.n == br.x as int * self.dx@.n,
                        bl.x < br.x,
                        self.dx@.n >= 1,
                ;
                assert(gey.n > 0) by (nonlinear_arith)
                    requires
                        gey == q_sub(qy1, qy0),
                        qy0.d == 1,
                        qy1.d == 1,
                        qy0.n == bl.y as int * self.dy@.n,
                        qy1.n == tl.y as int * self.dy@.n,
                        bl.y < tl.y,
                        self.dy@.n >= 1,
                ;
                assert(gden.n > 0) by (nonlinear_arith)
                    requires
                        gden == q_mul(gex, gey),
                        gex.n > 0,
                        gey.n > 0,
                ;
                lemma_q_eq_sign(den@, gden);
                assert(den@.n >= 1);
                assert(crate::rat::q_inv(den@) == (Q { n: den@.d, d: den@.n }));
                assert(q_div(num@, den@) == (Q { n: num@.n * den@.d, d: num@.d * den@.n }));
                lemma_norm_bounds(q_add(s1@, s2@).n, q_add(s1@, s2@).d);
                assert(abs_i(num@.n) <= 7372800000000000000 && 1 <= num@.d <= 40960000);
                assert(abs_i(q_div(num@, den@).n) <= 7372800000000000000 && 1 <= q_div(
                    num@,
                    den@,
                ).d <= 655360000000000) by (nonlinear_arith)
                    requires
                        q_div(num@, den@) == (Q { n: num@.n * den@.d, d: num@.d * den@.n }),
                        abs_i(num@.n) <= 7372800000000000000,
                        1 <= num@.d <= 40960000,
                        den@.d == 1,
                        1 <= den@.n <= 16000000,
                ;
                lemma_raw_fits(q_div(num@, den@).n, q_div(num@, den@).d);
            }
        }
        let v = match num.div(den) {
            Some(v) => v,
            None => {
                return None;
            },
        };
        proof {
            lemma_q_div_congr(num@, den@, gnum, gden);
            lemma_q_ops_wf(num@, den@);
            lemma_q_ops_wf(gnum, gden);
            lemma_q_eq_trans(v@, q_div(num@, den@), q_div(gnum, gden));
        }
        Some(v)
    }
}

/// On a well-formed grid, a non-degenerate cell spans a nonzero world
/// interval on both axes, so [`lemma_bilinear_corner_reproduction`]
/// applies to [`cell_interp`] with the cell's corner positions and
/// samples.
pub proof fn lemma_cell_spans_nonzero(grid: Grid, cell: GridCell)
    requires
        grid.wf(),
        !cell_degenerate(cell),
    ensures
        q_sub(
            node_coord(cell.bottom_right.x as int, grid.dx@),
            node_coord(cell.bottom_left.x as int, grid.dx@),
        ).n != 0,
        q_sub(
            node_coord(cell.top_left.y as int, grid.dy@),
            node_coord(cell.bottom_left.y as int, grid.dy@),
        ).n != 0,
{
    assert(q_sub(
        node_coord(cell.bottom_right.x as int, grid.dx@),
        node_coord(cell.bottom_left.x as int, grid.dx@),
    ).n != 0) by (nonlinear_arith)
        requires
            cell.bottom_left.x != cell.bottom_right.x,
            grid.dx@.n >= 1,
            grid.dx@.d >= 1,
            q_sub(
                node_coord(cell.bottom_right.x as int, grid.dx@),
                node_coord(cell.bottom_left.x as int, grid.dx@),
            ).n == (cell.bottom_right.x as int * grid.dx@.n) * (1 * grid.dx@.d) - (
            cell.bottom_left.x as int * grid.dx@.n) * (1 * grid.dx@.d),
    ;
    assert(q_sub(
        node_coord(cell.top_left.y as int, grid.dy@),
        node_coord(cell.bottom_left.y as int, grid.dy@),
    ).n != 0) by (nonlinear_arith)
        requires
            cell.bottom_left.y != cell.top_left.y,
            grid.dy@.n >= 1,
            grid.dy@.d >= 1,
            q_sub(
                node_coord(cell.top_left.y as int, grid.dy@),
                node_coord(cell.bottom_left.y as int, grid.dy@),
            ).n == (cell.top_left.y as int * grid.dy@.n) * (1 * grid.dy@.d) - (
            cell.bottom_left.y as int * grid.dy@.n) * (1 * grid.dy@.d),
    ;
}

/// On a non-degenerate axis-aligned cell, the bilinear reconstruction
/// evaluated at a corner's own position reproduces that corner's sample
/// exactly.
pub proof fn lemma_bilinear_corner_reproduction(
    f00: Q,
    f10: Q,
    f01: Q,
    f11: Q,
    x0: Q,
    x1: Q,
    y0: Q,
    y1: Q,
)
    requires
        q_wf(f00),
        q_wf(f10),
        q_wf(f01),
        q_wf(f11),
        q_wf(x0),
        q_wf(x1),
        q_wf(y0),
        q_wf(y1),
        q_sub(x1, x0).n != 0,
        q_sub(y1, y0).n != 0,
    ensures
        q_eq(bilinear_at(f00, f10, f01, f11, x0, x1, y0, y1, x0, y0), f00),
        q_eq(bilinear_at(f00, f10, f01, f11, x0, x1, y0, y1, x1, y0), f10),
        q_eq(bilinear_at(f00, f10, f01, f11, x0, x1, y0, y1, x0, y1), f01),
        q_eq(bilinear_at(f00, f10, f01, f11, x0, x1, y0, y1, x1, y1), f11),
{
    let dxq = q_sub(x1, x0);
    let dyq = q_sub(y1, y0);
    let den = q_mul(dxq, dyq);
    lemma_q_ops_wf(x1, x0);
    lemma_q_ops_wf(y1, y0);
    lemma_q_ops_wf(dxq, dyq);
    assert(den.n != 0) by (nonlinear_arith)
        requires
            den == q_mul(dxq, dyq),
            dxq.n != 0,
            dyq.n != 0,
    ;
    lemma_bilinear_one_corner(f00, f10, f01, f11, x0, x1, y0, y1, x0, y0, f00);
    lemma_bilinear_one_corner(f00, f10, f01, f11, x0, x1, y0, y1, x1, y0, f10);
    lemma_bilinear_one_corner(f00, f10, f01, f11, x0, x1, y0, y1, x0, y1, f01);
    lemma_bilinear_one_corner(f00, f10, f01, f11, x0, x1, y0, y1, x1, y1, f11);
}

/// Helper for the corner reproduction: at a corner position three of the
/// four weighted terms have a zero factor, and the survivor is the corner
/// sample times the full denominator.
proof fn lemma_bilinear_one_corner(
    f00: Q,
    f10: Q,
    f01: Q,
    f11: Q,
    x0: Q,
    x1: Q,
    y0: Q,
    y1: Q,
    px: Q,
    py: Q,
    f: Q,
)
    requires
        q_wf(f00),
        q_wf(f10),
        q_wf(f01),
        q_wf(f11),
        q_wf(x0),
        q_wf(x1),
        q_wf(y0),
        q_wf(y1),
        q_wf(px),
        q_wf(py),
        q_sub(x1, x0).n != 0,
        q_sub(y1, y0).n != 0,
        (px == x0 || px == x1) && (py == y0 || py == y1),
        f == (if px == x0 && py == y0 {
            f00
        } else if py == y0 {
            f10
        } else if px == x0 {
            f01
        } else {
            f11
        }),
    ensures
        q_eq(bilinear_at(f00, f10, f01, f11, x0, x1, y0, y1, px, py), f),
{
    let wx1 = q_sub(x1, px);
    let wx0 = q_sub(px, x0);
    let wy1 = q_sub(y1, py);
    let wy0 = q_sub(py, y0);
    let den = q_mul(q_sub(x1, x0), q_sub(y1, y0));
    lemma_q_ops_wf(x1, px);
    lemma_q_ops_wf(px, x0);
    lemma_q_ops_wf(y1, py);
    lemma_q_ops_wf(py, y0);
    lemma_q_ops_wf(x1, x0);
    lemma_q_ops_wf(y1, y0);
    lemma_q_ops_wf(q_sub(x1, x0), q_sub(y1, y0));
    assert(den.n != 0) by (nonlinear_arith)
        requires
            den == q_mul(q_sub(x1, x0), q_sub(y1, y0)),
            q_sub(x1, x0).n != 0,
            q_sub(y1, y0).n != 0,
    ;
    let t00 = q_mul(f00, q_mul(wx1, wy1));
    let t10 = q_mul(f10, q_mul(wx0, wy1));
    let t01 = q_mul(f01, q_mul(wx1, wy0));
    let t11 = q_mul(f11, q_mul(wx0, wy0));
    lemma_q_ops_wf(wx1, wy1);
    lemma_q_ops_wf(wx0, wy1);
    lemma_q_ops_wf(wx1, wy0);
    lemma_q_ops_wf(wx0, wy0);
    lemma_q_ops_wf(f00, q_mul(wx1, wy1));
    lemma_q_ops_wf(f10, q_mul(wx0, wy1));
    lemma_q_ops_wf(f01, q_mul(wx1, wy0));
    lemma_q_ops_wf(f11, q_mul(wx0, wy0));
    let s1 = q_add(t00, t10);
    let s2 = q_add(t01, t11);
    let num = q_add(s1, s2);
    lemma_q_ops_wf(t00, t10);
    lemma_q_ops_wf(t01, t11);
    lemma_q_ops_wf(s1, s2);
    // The weight opposite the corner is exactly zero on each axis the
    // corner pins down, so three of the four terms vanish; the survivor's
    // weight product is exactly the denominator.
    if px == x0 && py == y0 {
        assert(wx0.n == 0);
        assert(wy0.n == 0);
        lemma_q_mul_zero(wy1, wx0);
        lemma_q_mul_zero(wx1, wy0);
        lemma_q_mul_zero(wx0, wy0);
        lemma_q_mul_zero(f10, q_mul(wx0, wy1));
        lemma_q_mul_zero(f01, q_mul(wx1, wy0));
        lemma_q_mul_zero(f11, q_mul(wx0, wy0));
        lemma_q_add_zero(t00, t10);
        lemma_q_add_both_zero(t01, t11);
        lemma_q_add_zero(s1, s2);
        lemma_q_eq_trans(num, s1, t00);
        assert(q_mul(wx1, wy1) == den);
        assert(t00 == q_mul(f, den));
        lemma_q_mul_div_cancel(f, den);
        lemma_q_div_congr(num, den, q_mul(f, den), den);
        lemma_q_ops_wf(num, den);
        lemma_q_ops_wf(q_mul(f, den), den);
        lemma_q_eq_trans(q_div(num, den), q_div(q_mul(f, den), den), f);
    } else if py == y0 {
        assert(wx1.n == 0);
        assert(wy0.n == 0);
        lemma_q_mul_zero(wy1, wx1);
        lemma_q_mul_zero(wx1, wy0);
        lemma_q_mul_zero(wx0, wy0);
        lemma_q_mul_zero(f00, q_mul(wx1, wy1));
        lemma_q_mul_zero(f01, q_mul(wx1, wy0));
        lemma_q_mul_zero(f11, q_mul(wx0, wy0));
        lemma_q_add_zero(t10, t00);
        lemma_q_add_both_zero(t01, t11);
        lemma_q_add_zero(s1, s2);
        lemma_q_eq_trans(num, s1, t10);
        assert(q_mul(wx0, wy1) == den);
        assert(t10 == q_mul(f, den));
        lemma_q_mul_div_cancel(f, den);
        lemma_q_div_congr(num, den, q_mul(f, den), den);
        lemma_q_ops_wf(num, den);
        lemma_q_ops_wf(q_mul(f, den), den);
        lemma_q_eq_trans(q_div(num, den), q_div(q_mul(f, den), den), f);
    } else if px == x0 {
        assert(wx0.n == 0);
        assert(wy1.n == 0);
        lemma_q_mul_zero(wy1, wx0);
        lemma_q_mul_zero(wx1, wy1);
        lemma_q_mul_zero(wy0, wx0);
        lemma_q_mul_zero(f00, q_mul(wx1, wy1));
        lemma_q_mul_zero(f10, q_mul(wx0, wy1));
        lemma_q_mul_zero(f11, q_mul(wx0, wy0));
        lemma_q_add_both_zero(t00, t10);
        lemma_q_add_zero(t01, t11);
        lemma_q_add_zero(s2, s1);
        lemma_q_eq_trans(num, s2, t01);
        assert(q_mul(wx1, wy0) == den);
        assert(t01 == q_mul(f, den));
        lemma_q_mul_div_cancel(f, den);
        lemma_q_div_congr(num, den, q_mul(f, den), den);
        lemma_q_ops_wf(num, den);
        lemma_q_ops_wf(q_mul(f, den), den);
        lemma_q_eq_trans(q_div(num, den), q_div(q_mul(f, den), den), f);
    } else {
        assert(wx1.n == 0);
        assert(wy1.n == 0);
        lemma_q_mul_zero(wy1, wx1);
        lemma_q_mul_zero(wx1, wy1);
        lemma_q_mul_zero(wy0, wx1);
        lemma_q_mul_zero(f00, q_mul(wx1, wy1));
        lemma_q_mul_zero(f10, q_mul(wx0, wy1));
        lemma_q_mul_zero(f01, q_mul(wx1, wy0));
        lemma_q_add_both_zero(t00, t10);
        lemma_q_add_zero(t11, t01);
        lemma_q_add_zero(s2, s1);
        lemma_q_eq_trans(num, s2, t11);
        assert(q_mul(wx0, wy0) == den);
        assert(t11 == q_mul(f, den));
        lemma_q_mul_div_cancel(f, den);
        lemma_q_div_congr(num, den, q_mul(f, den), den);
        lemma_q_ops_wf(num, den);
        lemma_q_ops_wf(q_mul(f, den), den);
        lemma_q_eq_trans(q_div(num, den), q_div(q_mul(f, den), den), f);
    }
}

} // verus!
