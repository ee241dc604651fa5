//! Coordinates: continuous world positions, discrete lattice nodes, and the
//! qualitative position of a point relative to a node.

use vstd::prelude::*;
use vstd::arithmetic::div_mod::lemma_fundamental_div_mod;
use crate::rat::{
    Rat, Q, q_wf, q_le, q_lt, q_add, q_sub, q_sq, abs_i, lemma_raw_fits, lemma_norm_bounds,
    lemma_q_mul_congr, lemma_q_add_congr, lemma_q_cmp_congr, isqrt_u128,
};

verus! {

/// A continuous (world-space) position; unrestricted domain.
#[derive(Clone, Copy, Debug)]
pub struct GameCoor {
    pub x: Rat,
    pub y: Rat,
}

impl GameCoor {
    pub open spec fn wf(self) -> bool {
        &&& self.x.wf()
        &&& self.y.wf()
    }

    pub fn new(x: Rat, y: Rat) -> (r: GameCoor)
        requires
            x.wf(),
            y.wf(),
        ensures
            r.wf(),
            r.x == x,
            r.y == y,
    {
        GameCoor { x, y }
    }
}

/// A lattice node index; produced only by clamped conversion, hence always
/// within bounds wherever a grid is in play.
#[derive(Clone, Copy, Debug, PartialEq, Eq, Structural)]
pub struct GridCoor {
    pub x: usize,
    pub y: usize,
}

/// A relative step between lattice nodes.
#[derive(Clone, Copy, Debug)]
pub struct GridStep {
    pub x: isize,
    pub y: isize,
}

/// `i` clamped into `[0, n)` (for `n >= 1`).
pub open spec fn clamp_idx(i: int, n: int) -> int {
    if i < 0 {
        0
    } else if i >= n {
        n - 1
    } else {
        i
    }
}

impl GridCoor {
    /// Moves by `step`, clamping each axis to the lattice bounds
    /// `[0, cols) x [0, rows)`: a step over the edge stops at the boundary
    /// node.
    pub fn step_clamped(self, step: GridStep, cols: usize, rows: usize) -> (r: GridCoor)
        requires
            cols >= 1,
            rows >= 1,
        ensures
            r.x == clamp_idx(self.x + step.x, cols as int),
            r.y == clamp_idx(self.y + step.y, rows as int),
            r.x < cols,
            r.y < rows,
    {
        let xi: i128 = self.x as i128 + step.x as i128;
        let yi: i128 = self.y as i128 + step.y as i128;
        let x: usize = if xi < 0 {
            0
        } else if xi >= cols as i128 {
            cols - 1
        } else {
            xi as usize
        };
        let y: usize = if yi < 0 {
            0
        } else if yi >= rows as i128 {
            rows - 1
        } else {
            yi as usize
        };
        GridCoor { x, y }
    }
}

/// Position of a point relative to a lattice node, one of the four
/// quadrants.  Ties resolve toward left/bottom.
#[derive(Clone, Copy, Debug, PartialEq, Eq, Structural)]
pub enum QualitativeRelPos {
    TopLeft,
    TopRight,
    BottomLeft,
    BottomRight,
}

/// Classifies where `coor_game` lies relative to the world-space position
/// `node_pos` of a lattice node.  The tie-break is part of the contract:
/// a point exactly on the node's vertical line counts as left, exactly on
/// its horizontal line as bottom.
pub fn get_qualitative_position(coor_game: &GameCoor, node_pos: &GameCoor) -> (r:
    QualitativeRelPos)
    requires
        coor_game.wf(),
        node_pos.wf(),
    ensures
        r is BottomLeft <==> (q_le(coor_game.x@, node_pos.x@) && q_le(coor_game.y@, node_pos.y@)),
        r is BottomRight <==> (!q_le(coor_game.x@, node_pos.x@) && q_le(
            coor_game.y@,
            node_pos.y@,
        )),
        r is TopLeft <==> (q_le(coor_game.x@, node_pos.x@) && !q_le(coor_game.y@, node_pos.y@)),
        r is TopRight <==> (!q_le(coor_game.x@, node_pos.x@) && !q_le(coor_game.y@, node_pos.y@)),
{
    let is_left = coor_game.x.le(node_pos.x);
    let is_bottom = coor_game.y.le(node_pos.y);
    if is_bottom && is_left {
        QualitativeRelPos::BottomLeft
    } else if is_bottom {
        QualitativeRelPos::BottomRight
    } else if is_left {
        QualitativeRelPos::TopLeft
    } else {
        QualitativeRelPos::TopRight
    }
}

/// The exact squared Euclidean distance between the points `(ax, ay)` and
/// `(bx, by)`.
pub open spec fn dist_sq_q(ax: Q, ay: Q, bx: Q, by: Q) -> Q {
    q_add(q_sq(q_sub(ax, bx)), q_sq(q_sub(ay, by)))
}

/// The exact squared Euclidean distance between two world positions.
pub open spec fn dist_sq(a: GameCoor, b: GameCoor) -> Q {
    dist_sq_q(a.x@, a.y@, b.x@, b.y@)
}

/// Largest coordinate magnitude the distance computation accepts.
pub open spec fn dist_val_bound() -> int {
    10000000
}

/// Largest coordinate denominator the distance computation accepts.
pub open spec fn dist_den_bound() -> int {
    100
}

/// A world coordinate the distance computation accepts: value within
/// `10^7`, denominator within `100` (machine limits of the exact scaled
/// square root).
pub open spec fn coord_ok(r: Rat) -> bool {
    &&& abs_i(r@.n) <= dist_val_bound() * r@.d
    &&& r@.d <= dist_den_bound()
}

/// Core floor argument for the scaled integer square root: if `t` floors
/// `10^4` times the exact squared distance and `s` floors the square root
/// of `t`, then `s/100` is the exact floor of the distance to hundredths.
proof fn lemma_dist_floor(nx: int, dxd: int, ny: int, dyd: int, t: int, s: int)
    requires
        nx >= 0,
        ny >= 0,
        dxd >= 1,
        dyd >= 1,
        s >= 0,
        t == (10000 * ((nx * nx) * (dyd * dyd) + (ny * ny) * (dxd * dxd))) / ((dxd * dxd) * (dyd
            * dyd)),
        s * s <= t,
        t < (s + 1) * (s + 1),
    ensures
        (s * s) * ((dxd * dxd) * (dyd * dyd)) <= ((nx * nx) * (dyd * dyd) + (ny * ny) * (dxd
            * dxd)) * 10000,
        ((nx * nx) * (dyd * dyd) + (ny * ny) * (dxd * dxd)) * 10000 < ((s + 1) * (s + 1)) * ((dxd
            * dxd) * (dyd * dyd)),
{
    let nn = (nx * nx) * (dyd * dyd) + (ny * ny) * (dxd * dxd);
    let dd = (dxd * dxd) * (dyd * dyd);
    assert(dd >= 1) by (nonlinear_arith)
        requires
            dxd >= 1,
            dyd >= 1,
            dd == (dxd * dxd) * (dyd * dyd),
    ;
    lemma_fundamental_div_mod(10000 * nn, dd);
    vstd::arithmetic::div_mod::lemma_mod_bound(10000 * nn, dd);
    assert(10000 * nn == dd * t + (10000 * nn) % dd);
    assert((s * s) * dd <= t * dd) by (nonlinear_arith)
        requires
            s * s <= t,
            dd >= 1,
    ;
    assert(t * dd == dd * t) by (nonlinear_arith);
    assert((t + 1) * dd == dd * t + dd) by (nonlinear_arith);
    assert((t + 1) * dd <= ((s + 1) * (s + 1)) * dd) by (nonlinear_arith)
        requires
            t + 1 <= (s + 1) * (s + 1),
            dd >= 1,
    ;
    assert(nn * 10000 == 10000 * nn) by (nonlinear_arith);
}

/// Euclidean distance between two world positions, floored exactly to a
/// whole number of hundredths: the result is the unique nonnegative
/// multiple of `1/100` whose square is at most the exact squared distance
/// while the next multiple's square exceeds it.  Total on its stated
/// coordinate box; uniqueness makes the result symmetric in its
/// arguments, and it is below `1/10` exactly when the true distance is.
pub fn compute_distance(a: &GameCoor, b: &GameCoor) -> (r: Rat)
    requires
        a.wf(),
        b.wf(),
        coord_ok(a.x),
        coord_ok(a.y),
        coord_ok(b.x),
        coord_ok(b.y),
    ensures
        r.wf(),
        r@.d == 100,
        r@.n >= 0,
        q_le(q_sq(r@), dist_sq(*a, *b)),
        q_lt(dist_sq(*a, *b), q_sq(Q { n: r@.n + 1, d: 100 })),
{
    let ghost rawx = q_sub(a.x@, b.x@);
    let ghost rawy = q_sub(a.y@, b.y@);
    proof {
        // The offsets always fit: their raw numerators are bounded by
        // twice the coordinate box times their raw denominators.
        assert(rawx.d >= 1 && rawy.d >= 1 && rawx.d <= 10000 && rawy.d <= 10000)
            by (nonlinear_arith)
            requires
                1 <= a.x@.d <= 100,
                1 <= b.x@.d <= 100,
                1 <= a.y@.d <= 100,
                1 <= b.y@.d <= 100,
                rawx.d == a.x@.d * b.x@.d,
                rawy.d == a.y@.d * b.y@.d,
        ;
        assert(abs_i(rawx.n) <= 2 * dist_val_bound() * rawx.d) by (nonlinear_arith)
            requires
                rawx == q_sub(a.x@, b.x@),
                a.x@.d >= 1,
                b.x@.d >= 1,
                abs_i(a.x@.n) <= dist_val_bound() * a.x@.d,
                abs_i(b.x@.n) <= dist_val_bound() * b.x@.d,
        ;
        assert(abs_i(rawy.n) <= 2 * dist_val_bound() * rawy.d) by (nonlinear_arith)
            requires
                rawy == q_sub(a.y@, b.y@),
                a.y@.d >= 1,
                b.y@.d >= 1,
                abs_i(a.y@.n) <= dist_val_bound() * a.y@.d,
                abs_i(b.y@.n) <= dist_val_bound() * b.y@.d,
        ;
        assert(abs_i(rawx.n) <= 200000000000 && abs_i(rawy.n) <= 200000000000)
            by (nonlinear_arith)
            requires
                abs_i(rawx.n) <= 2 * dist_val_bound() * rawx.d,
                abs_i(rawy.n) <= 2 * dist_val_bound() * rawy.d,
                rawx.d <= 10000,
                rawy.d <= 10000,
        ;
        lemma_raw_fits(rawx.n, rawx.d);
        lemma_raw_fits(rawy.n, rawy.d);
    }
    let dx = a.x.sub(b.x).unwrap();
    let dy = a.y.sub(b.y).unwrap();
    proof {
        lemma_norm_bounds(rawx.n, rawx.d);
        lemma_norm_bounds(rawy.n, rawy.d);
        assert(abs_i(dx@.n) <= 200000000000 && 1 <= dx@.d <= 10000);
        assert(abs_i(dy@.n) <= 200000000000 && 1 <= dy@.d <= 10000);
    }
    let nx: u128 = if dx.num < 0 {
        (-(dx.num as i128)) as u128
    } else {
        dx.num as u128
    };
    let ny: u128 = if dy.num < 0 {
        (-(dy.num as i128)) as u128
    } else {
        dy.num as u128
    };
    let dxd: u128 = dx.den as u128;
    let dyd: u128 = dy.den as u128;
    proof {
        assert((nx as int) * (nx as int) <= 40000000000000000000000 && (ny as int) * (ny as int)
            <= 40000000000000000000000 && 1 <= (dxd as int) * (dxd as int) <= 100000000 && 1 <= (
        dyd as int) * (dyd as int) <= 100000000) by (nonlinear_arith)
            requires
                0 <= nx as int <= 200000000000,
                0 <= ny as int <= 200000000000,
                1 <= dxd as int <= 10000,
                1 <= dyd as int <= 10000,
        ;
        assert(((nx as int) * (nx as int)) * ((dyd as int) * (dyd as int))
            <= 4000000000000000000000000000000 && ((ny as int) * (ny as int)) * ((dxd as int) * (
        dxd as int)) <= 4000000000000000000000000000000 && 1 <= ((dxd as int) * (dxd as int)) * ((
        dyd as int) * (dyd as int)) <= 10000000000000000) by (nonlinear_arith)
            requires
                0 <= (nx as int) * (nx as int) <= 40000000000000000000000,
                0 <= (ny as int) * (ny as int) <= 40000000000000000000000,
                1 <= (dxd as int) * (dxd as int) <= 100000000,
                1 <= (dyd as int) * (dyd as int) <= 100000000,
        ;
    }
    let nn: u128 = (nx * nx) * (dyd * dyd) + (ny * ny) * (dxd * dxd);
    let dd: u128 = (dxd * dxd) * (dyd * dyd);
    let t: u128 = (10000 * nn) / dd;
    proof {
        lemma_fundamental_div_mod((10000 * nn) as int, dd as int);
        vstd::arithmetic::div_mod::lemma_mod_bound((10000 * nn) as int, dd as int);
        assert(t as int <= (10000 * nn) as int) by (nonlinear_arith)
            requires
                dd as int >= 1,
                t as int >= 0,
                (10000 * nn) as int == (dd as int) * (t as int) + ((10000 * nn) as int % (
                dd as int)),
                (10000 * nn) as int % (dd as int) >= 0,
        ;
    }
    let s = isqrt_u128(t);
    let r = Rat::new(s as i64, 100);
    proof {
        lemma_dist_floor(nx as int, dxd as int, ny as int, dyd as int, t as int, s as int);
        assert(nx as int == abs_i(dx@.n) && ny as int == abs_i(dy@.n));
        // Transfer the floor bracket from the reduced offsets to the raw
        // offsets that `dist_sq` is written with.
        let d2r = q_add(q_sq(dx@), q_sq(dy@));
        assert(q_sq(dx@).n == abs_i(dx@.n) * abs_i(dx@.n)) by (nonlinear_arith);
        assert(q_sq(dy@).n == abs_i(dy@.n) * abs_i(dy@.n)) by (nonlinear_arith);
        assert(q_le(q_sq(r@), d2r) && q_lt(d2r, q_sq(Q { n: r@.n + 1, d: 100 })))
            by (nonlinear_arith)
            requires
                r@.n == s as int,
                r@.d == 100,
                dx@.d >= 1,
                dy@.d >= 1,
                d2r == q_add(q_sq(dx@), q_sq(dy@)),
                q_sq(dx@).n == abs_i(dx@.n) * abs_i(dx@.n),
                q_sq(dy@).n == abs_i(dy@.n) * abs_i(dy@.n),
                nx as int == abs_i(dx@.n),
                ny as int == abs_i(dy@.n),
                dxd as int == dx@.d,
                dyd as int == dy@.d,
                ((s as int) * (s as int)) * (((dxd as int) * (dxd as int)) * ((dyd as int) * (
                dyd as int))) <= (((nx as int) * (nx as int)) * ((dyd as int) * (dyd as int)) + ((
                ny as int) * (ny as int)) * ((dxd as int) * (dxd as int))) * 10000,
                (((nx as int) * (nx as int)) * ((dyd as int) * (dyd as int)) + ((ny as int) * (
                ny as int)) * ((dxd as int) * (dxd as int))) * 10000 < (((s as int) + 1) * ((
                s as int) + 1)) * (((dxd as int) * (dxd as int)) * ((dyd as int) * (dyd as int))),
        ;
        lemma_q_mul_congr(dx@, dx@, rawx, rawx);
        lemma_q_mul_congr(dy@, dy@, rawy, rawy);
        assert(q_wf(q_sq(dx@)) && q_wf(q_sq(dy@)) && q_wf(q_sq(rawx)) && q_wf(q_sq(rawy)))
            by (nonlinear_arith)
            requires
                dx@.d >= 1,
                dy@.d >= 1,
                rawx.d >= 1,
                rawy.d >= 1,
        ;
        lemma_q_add_congr(q_sq(dx@), q_sq(dy@), q_sq(rawx), q_sq(rawy));
        assert(q_wf(d2r) && q_wf(dist_sq(*a, *b))) by (nonlinear_arith)
            requires
                q_sq(dx@).d >= 1,
                q_sq(dy@).d >= 1,
                q_sq(rawx).d >= 1,
                q_sq(rawy).d >= 1,
                d2r == q_add(q_sq(dx@), q_sq(dy@)),
                dist_sq(*a, *b) == q_add(q_sq(rawx), q_sq(rawy)),
        ;
        lemma_q_cmp_congr(q_sq(r@), d2r, q_sq(r@), dist_sq(*a, *b));
        lemma_q_cmp_congr(
            d2r,
            q_sq(Q { n: r@.n + 1, d: 100 }),
            dist_sq(*a, *b),
            q_sq(Q { n: r@.n + 1, d: 100 }),
        );
    }
    r
}

} // verus!
