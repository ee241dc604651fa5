//! The scalar field: a regular lattice of temperature samples with its
//! spacing metadata, plus cell location over it.

use vstd::prelude::*;
use crate::rat::{Rat, Q, q_le, q_lt, q_int, q_mul, q_sq, q_zero, abs_i};
use crate::coordinate::{GameCoor, GridCoor, GridStep, QualitativeRelPos, clamp_idx,
    get_qualitative_position, compute_distance, dist_sq_q, dist_val_bound, coord_ok};
use crate::color::color_input_modest;

verus! {

/// The lattice index that a world offset `w` falls in along one axis with
/// spacing `s`, before clamping: `floor(w / s)`.
pub open spec fn lattice_floor(w: Q, s: Q) -> int {
    (w.n * s.d) / (w.d * s.n)
}

/// The reference lattice index of a world offset along one axis: the floor
/// of `w / s`, clamped into `[0, n)`.
pub open spec fn lattice_coord(w: Q, s: Q, n: int) -> int {
    clamp_idx(lattice_floor(w, s), n)
}

/// The world-space position of lattice index `i` along an axis with
/// spacing `s`.
pub open spec fn node_coord(i: int, s: Q) -> Q {
    q_mul(q_int(i), s)
}

/// The unit quad of four mutually adjacent lattice nodes that encloses a
/// query point (with boundary clamping, edge cells may repeat corners).
#[derive(Clone, Copy, Debug, PartialEq, Eq, Structural)]
pub struct GridCell {
    pub bottom_right: GridCoor,
    pub bottom_left: GridCoor,
    pub top_left: GridCoor,
    pub top_right: GridCoor,
}

impl GridCell {
    pub open spec fn in_bounds(self, width: int, height: int) -> bool {
        &&& self.bottom_left.x < width && self.bottom_left.y < height
        &&& self.bottom_right.x < width && self.bottom_right.y < height
        &&& self.top_left.x < width && self.top_left.y < height
        &&& self.top_right.x < width && self.top_right.y < height
    }

    /// The corner picked by `k`, in the order bottom-left, bottom-right,
    /// top-right, top-left.
    pub open spec fn corner(self, k: int) -> GridCoor {
        if k == 0 {
            self.bottom_left
        } else if k == 1 {
            self.bottom_right
        } else if k == 2 {
            self.top_right
        } else {
            self.top_left
        }
    }

    /// The corners in the order bottom-left, top-left, top-right,
    /// bottom-right.
    pub fn points(&self) -> (r: Vec<GridCoor>)
        ensures
            r@.len() == 4,
            r@[0] == self.bottom_left,
            r@[1] == self.top_left,
            r@[2] == self.top_right,
            r@[3] == self.bottom_right,
    {
        let mut v: Vec<GridCoor> = Vec::new();
        v.push(self.bottom_left);
        v.push(self.top_left);
        v.push(self.top_right);
        v.push(self.bottom_right);
        v
    }
}

/// Lower bound of the generated temperature range: 288.15 kelvin (15
/// degrees Celsius).
pub open spec fn gen_min_q() -> Q {
    Q { n: 5763, d: 20 }
}

/// Upper bound of the generated temperature range: 308.15 kelvin (35
/// degrees Celsius).
pub open spec fn gen_max_q() -> Q {
    Q { n: 6163, d: 20 }
}

/// Largest lattice edge the field accepts (memory limit).
pub open spec fn max_extent() -> int {
    10000
}

/// Largest lattice spacing value the field accepts, so node positions stay
/// inside the box the distance computation covers.
pub open spec fn max_spacing() -> int {
    1000
}

/// Largest spacing denominator the field accepts.
pub open spec fn max_spacing_den() -> int {
    100
}

/// A lattice spacing acceptable to [`Grid`]: positive, bounded value,
/// bounded denominator.
pub open spec fn spacing_ok(s: Rat) -> bool {
    &&& s.wf()
    &&& q_lt(q_zero(), s@)
    &&& q_le(s@, q_int(max_spacing()))
    &&& s@.d <= max_spacing_den()
}

/// The regular lattice of scalar samples.  `values` stores the sample of
/// node `(x, y)` at index `x * height + y`.
pub struct Grid {
    pub values: Vec<Rat>,
    pub width: usize,
    pub height: usize,
    pub min: Rat,
    pub max: Rat,
    pub dx: Rat,
    pub dy: Rat,
    pub origin: GameCoor,
}

impl Grid {
    pub open spec fn wf(self) -> bool {
        &&& 1 <= self.width <= max_extent()
        &&& 1 <= self.height <= max_extent()
        &&& self.values.len() == self.width * self.height
        &&& forall|i: int| 0 <= i < self.values.len() ==> (#[trigger] self.values[i]).wf()
        &&& self.min.wf()
        &&& self.max.wf()
        &&& q_lt(self.min@, self.max@)
        &&& spacing_ok(self.dx)
        &&& spacing_ok(self.dy)
        &&& self.origin.wf()
    }

    /// The sample stored at node `(x, y)`.
    pub open spec fn value_at(self, x: int, y: int) -> Rat {
        self.values[x * self.height + y]
    }

    /// All samples lie in the closed range `[lo, hi]`.
    pub open spec fn values_in_range(self, lo: Q, hi: Q) -> bool {
        forall|i: int| 0 <= i < self.values.len() ==> q_le(lo, (#[trigger] self.values[i])@)
            && q_le(self.values[i]@, hi)
    }

    /// Direct sample lookup: `Some` exactly on in-range indices, and then
    /// the stored sample itself.
    pub fn get_value(&self, x: usize, y: usize) -> (r: Option<Rat>)
        requires
            self.wf(),
        ensures
            r is Some <==> (x < self.width && y < self.height),
            r matches Some(v) ==> v == self.value_at(x as int, y as int) && v.wf(),
    {
        if x < self.width && y < self.height {
            proof {
                assert(x * self.height + y < self.width * self.height) by (nonlinear_arith)
                    requires
                        x < self.width,
                        y < self.height,
                ;
                assert(self.width * self.height <= max_extent() * max_extent())
                    by (nonlinear_arith)
                    requires
                        self.width <= max_extent(),
                        self.height <= max_extent(),
                ;
            }
            Some(self.values[x * self.height + y])
        } else {
            None
        }
    }

    pub fn get_dxdy(&self) -> (r: (Rat, Rat))
        ensures
            r.0 == self.dx,
            r.1 == self.dy,
    {
        (self.dx, self.dy)
    }

    pub fn get_minmax(&self) -> (r: (Rat, Rat))
        ensures
            r.0 == self.min,
            r.1 == self.max,
    {
        (self.min, self.max)
    }

    /// Builds a field from explicit samples; the deterministic counterpart
    /// of [`Grid::generate`] for callers that inject their own values.
    pub fn from_samples(
        values: Vec<Rat>,
        width: usize,
        height: usize,
        min: Rat,
        max: Rat,
        dx: Rat,
        dy: Rat,
        origin: GameCoor,
    ) -> (r: Grid)
        requires
            1 <= width <= max_extent(),
            1 <= height <= max_extent(),
            values.len() == width * height,
            forall|i: int| 0 <= i < values.len() ==> (#[trigger] values[i]).wf(),
            min.wf(),
            max.wf(),
            q_lt(min@, max@),
            spacing_ok(dx),
            spacing_ok(dy),
            origin.wf(),
        ensures
            r.wf(),
            r == (Grid { values, width, height, min, max, dx, dy, origin }),
    {
        Grid { values, width, height, min, max, dx, dy, origin }
    }

    /// Populates every lattice node with a pseudo-random sample from the
    /// fixed kelvin range: at least 288.15 and strictly below 308.15, in
    /// steps of a twentieth of a kelvin (the draw is half-open, as a
    /// uniform draw over the declared bounds is).  The field is centered
    /// on the world origin: the node `(0, 0)` sits at `(-width/2 * dx,
    /// -height/2 * dy)`.
    pub fn generate(width: usize, height: usize, dx: Rat, dy: Rat) -> (r: Grid)
        requires
            1 <= width <= max_extent(),
            1 <= height <= max_extent(),
            spacing_ok(dx),
            spacing_ok(dy),
        ensures
            r.wf(),
            r.width == width,
            r.height == height,
            r.dx == dx,
            r.dy == dy,
            r.min@ == gen_min_q(),
            r.max@ == gen_max_q(),
            r.values_in_range(gen_min_q(), gen_max_q()),
            forall|i: int|
                0 <= i < r.values.len() ==> q_lt((#[trigger] r.values[i])@, gen_max_q()),
            field_modest(r),
            r.origin.x@ == (Q { n: -(width as int * dx@.n), d: 2 * dx@.d }),
            r.origin.y@ == (Q { n: -(height as int * dy@.n), d: 2 * dy@.d }),
    {
        proof {
            assert(width * height <= max_extent() * max_extent()) by (nonlinear_arith)
                requires
                    width <= max_extent(),
                    height <= max_extent(),
            ;
        }
        let total: usize = width * height;
        let mut values: Vec<Rat> = Vec::new();
        let mut i: usize = 0;
        while i < total
            invariant
                i <= total,
                values.len() == i,
                forall|j: int| 0 <= j < values.len() ==> (#[trigger] values[j]).wf(),
                forall|j: int| 0 <= j < values.len() ==> q_le(gen_min_q(), (#[trigger] values[j])@)
                    && q_lt(values[j]@, gen_max_q()),
                forall|j: int| 0 <= j < values.len() ==> color_input_modest(
                    (#[trigger] values[j])@,
                ),
            decreases total - i,
        {
            let draw = random_u64();
            let step = (draw % 400) as i64;
            let sample = Rat::new(5763 + step, 20);
            values.push(sample);
            i = i + 1;
        }
        proof {
            assert(abs_i(width as int * dx@.n) <= 0x4000000000000000) by (nonlinear_arith)
                requires
                    1 <= width <= max_extent(),
                    1 <= dx@.n,
                    dx@.n <= max_spacing() * dx@.d,
                    0 < dx@.d <= max_spacing_den(),
            ;
            assert(abs_i(height as int * dy@.n) <= 0x4000000000000000) by (nonlinear_arith)
                requires
                    1 <= height <= max_extent(),
                    1 <= dy@.n,
                    dy@.n <= max_spacing() * dy@.d,
                    0 < dy@.d <= max_spacing_den(),
            ;
        }
        let origin = GameCoor::new(
            Rat::new(-((width as i64) * dx.num), 2 * dx.den),
            Rat::new(-((height as i64) * dy.num), 2 * dy.den),
        );
        let min = Rat::new(5763, 20);
        let max = Rat::new(6163, 20);
        Grid { values, width, height, min, max, dx, dy, origin }
    }
}

/// Relies on `rand::random` (thread-local generator) for entropy; nothing
/// is assumed about the drawn value.
#[verifier::external_body]
fn random_u64() -> u64 {
    rand::random::<u64>()
}

impl Grid {
    /// World-space position of a lattice node: `(x * dx, y * dy)`.
    pub fn node_world(&self, c: GridCoor) -> (r: GameCoor)
        requires
            self.wf(),
            c.x < self.width,
            c.y < self.height,
        ensures
            r.wf(),
            r.x@ == node_coord(c.x as int, self.dx@),
            r.y@ == node_coord(c.y as int, self.dy@),
            coord_ok(r.x),
            coord_ok(r.y),
    {
        proof {
            assert(0 <= c.x as int * self.dx@.n <= 0x4000000000000000 && c.x as int * self.dx@.n
                <= dist_val_bound() * self.dx@.d) by (nonlinear_arith)
                requires
                    0 <= (c.x as int) < max_extent(),
                    1 <= self.dx@.n,
                    self.dx@.n <= max_spacing() * self.dx@.d,
                    0 < self.dx@.d <= max_spacing_den(),
            ;
            assert(0 <= c.y as int * self.dy@.n <= 0x4000000000000000 && c.y as int * self.dy@.n
                <= dist_val_bound() * self.dy@.d) by (nonlinear_arith)
                requires
                    0 <= (c.y as int) < max_extent(),
                    1 <= self.dy@.n,
                    self.dy@.n <= max_spacing() * self.dy@.d,
                    0 < self.dy@.d <= max_spacing_den(),
            ;
        }
        GameCoor {
            x: Rat::new((c.x as i64) * self.dx.num, self.dx.den),
            y: Rat::new((c.y as i64) * self.dy.num, self.dy.den),
        }
    }

    /// Reference lattice node of a world position: componentwise
    /// `floor(world / spacing)`, clamped into the lattice.  The mapping is
    /// many-to-one on purpose: it names the reference node, not the cell.
    pub fn to_grid_coor(&self, coor: &GameCoor) -> (r: GridCoor)
        requires
            self.wf(),
            coor.wf(),
        ensures
            r.x == lattice_coord(coor.x@, self.dx@, self.width as int),
            r.y == lattice_coord(coor.y@, self.dy@, self.height as int),
            r.x < self.width,
            r.y < self.height,
    {
        let fx = coor.x.floor_div(self.dx);
        let fy = coor.y.floor_div(self.dy);
        let x: usize = if fx < 0 {
            0
        } else if fx >= self.width as i128 {
            self.width - 1
        } else {
            fx as usize
        };
        let y: usize = if fy < 0 {
            0
        } else if fy >= self.height as i128 {
            self.height - 1
        } else {
            fy as usize
        };
        GridCoor { x, y }
    }

    /// The cell that [`Grid::find_nearest_cell`] locates for a query
    /// point: the reference node is the clamped floor of the point in
    /// lattice units, the point's quadrant relative to that node picks the
    /// three remaining corners, and every corner that would leave the
    /// lattice is clamped to the boundary (which may collapse corners at
    /// the edge).
    pub open spec fn located_cell(self, coor: GameCoor) -> GridCell {
        let w = self.width as int;
        let h = self.height as int;
        let rx = lattice_coord(coor.x@, self.dx@, w);
        let ry = lattice_coord(coor.y@, self.dy@, h);
        let is_left = q_le(coor.x@, node_coord(rx, self.dx@));
        let is_bottom = q_le(coor.y@, node_coord(ry, self.dy@));
        let xl = if is_left {
            clamp_idx(rx - 1, w)
        } else {
            rx
        };
        let xr = if is_left {
            rx
        } else {
            clamp_idx(rx + 1, w)
        };
        let yb = if is_bottom {
            clamp_idx(ry - 1, h)
        } else {
            ry
        };
        let yt = if is_bottom {
            ry
        } else {
            clamp_idx(ry + 1, h)
        };
        GridCell {
            bottom_left: GridCoor { x: xl as usize, y: yb as usize },
            bottom_right: GridCoor { x: xr as usize, y: yb as usize },
            top_left: GridCoor { x: xl as usize, y: yt as usize },
            top_right: GridCoor { x: xr as usize, y: yt as usize },
        }
    }

    /// Locates the enclosing cell of a query point; see
    /// [`Grid::located_cell`] for the exact construction.
    pub fn find_nearest_cell(&self, cube_coor: &GameCoor) -> (r: GridCell)
        requires
            self.wf(),
            cube_coor.wf(),
        ensures
            r == self.located_cell(*cube_coor),
            r.in_bounds(self.width as int, self.height as int),
    {
        let rf = self.to_grid_coor(cube_coor);
        let node = self.node_world(rf);
        let rel = get_qualitative_position(cube_coor, &node);
        let w = self.width;
        let h = self.height;
        match rel {
            QualitativeRelPos::TopLeft => GridCell {
                top_left: rf.step_clamped(GridStep { x: -1, y: 1 }, w, h),
                top_right: rf.step_clamped(GridStep { x: 0, y: 1 }, w, h),
                bottom_left: rf.step_clamped(GridStep { x: -1, y: 0 }, w, h),
                bottom_right: rf,
            },
            QualitativeRelPos::TopRight => GridCell {
                top_right: rf.step_clamped(GridStep { x: 1, y: 1 }, w, h),
                top_left: rf.step_clamped(GridStep { x: 0, y: 1 }, w, h),
                bottom_right: rf.step_clamped(GridStep { x: 1, y: 0 }, w, h),
                bottom_left: rf,
            },
            QualitativeRelPos::BottomLeft => GridCell {
                bottom_left: rf.step_clamped(GridStep { x: -1, y: -1 }, w, h),
                top_left: rf.step_clamped(GridStep { x: -1, y: 0 }, w, h),
                bottom_right: rf.step_clamped(GridStep { x: 0, y: -1 }, w, h),
                top_right: rf,
            },
            QualitativeRelPos::BottomRight => GridCell {
                bottom_right: rf.step_clamped(GridStep { x: 1, y: -1 }, w, h),
                bottom_left: rf.step_clamped(GridStep { x: 0, y: -1 }, w, h),
                top_right: rf.step_clamped(GridStep { x: 1, y: 0 }, w, h),
                top_left: rf,
            },
        }
    }

    /// The four corner samples of a cell, each paired with the floored
    /// distance from the query point to that corner's world position, in
    /// the order bottom-left, bottom-right, top-right, top-left.  Total.
    pub fn get_cell_temp(&self, grid_cell: &GridCell, coor: &GameCoor) -> (r: Vec<(Rat, Rat)>)
        requires
            self.wf(),
            coor.wf(),
            grid_cell.in_bounds(self.width as int, self.height as int),
            coord_ok(coor.x),
            coord_ok(coor.y),
        ensures
            r@.len() == 4,
            forall|k: int|
                0 <= k < 4 ==> (#[trigger] r@[k]).0 == self.value_at(
                    grid_cell.corner(k).x as int,
                    grid_cell.corner(k).y as int,
                ),
            forall|k: int|
                0 <= k < 4 ==> corner_dist_ok(self, *grid_cell, *coor, k, (#[trigger] r@[k]).1),
    {
        let mut out: Vec<(Rat, Rat)> = Vec::new();
        let corners = grid_cell.points();
        let c0 = corners[0];
        let c1 = corners[3];
        let c2 = corners[2];
        let c3 = corners[1];
        let t0 = self.get_value(c0.x, c0.y).unwrap();
        let t1 = self.get_value(c1.x, c1.y).unwrap();
        let t2 = self.get_value(c2.x, c2.y).unwrap();
        let t3 = self.get_value(c3.x, c3.y).unwrap();
        let d0 = compute_distance(coor, &self.node_world(c0));
        let d1 = compute_distance(coor, &self.node_world(c1));
        let d2 = compute_distance(coor, &self.node_world(c2));
        let d3 = compute_distance(coor, &self.node_world(c3));
        out.push((t0, d0));
        out.push((t1, d1));
        out.push((t2, d2));
        out.push((t3, d3));
        out
    }
}

/// A grid whose range bounds and samples are modest color inputs.
pub open spec fn field_modest(grid: Grid) -> bool {
    &&& color_input_modest(grid.min@)
    &&& color_input_modest(grid.max@)
    &&& forall|i: int|
        0 <= i < grid.values.len() ==> color_input_modest((#[trigger] grid.values[i])@)
}

/// `d` is the exact floor, to hundredths, of the distance from the query
/// point to the world position of lattice node `c`: `d` squared is at
/// most the exact squared distance, which stays below `(d + 1/100)`
/// squared.
pub open spec fn node_dist_ok(grid: Grid, coor: GameCoor, c: GridCoor, d: Rat) -> bool {
    let nx = node_coord(c.x as int, grid.dx@);
    let ny = node_coord(c.y as int, grid.dy@);
    &&& d.wf()
    &&& d@.d == 100
    &&& d@.n >= 0
    &&& q_le(q_sq(d@), dist_sq_q(coor.x@, coor.y@, nx, ny))
    &&& q_lt(dist_sq_q(coor.x@, coor.y@, nx, ny), q_sq(Q { n: d@.n + 1, d: 100 }))
}

/// The distance entry paired with corner `k` brackets the exact distance
/// from the query point to that corner's world position.
pub open spec fn corner_dist_ok(grid: &Grid, cell: GridCell, coor: GameCoor, k: int, d: Rat)
    -> bool {
    node_dist_ok(*grid, coor, cell.corner(k), d)
}

} // verus!
