//! End-to-end behavior of the field sampler: cell location, bilinear
//! reconstruction, inverse-distance aggregation, and color mapping.

use heatgrid::rat::Rat;
use heatgrid::coordinate::{GameCoor, QualitativeRelPos, get_qualitative_position};
use heatgrid::grid::{Grid, GridCell};
use heatgrid::color::{compute_color, compute_color_bloom, to_kelvin};
use heatgrid::cube::{aggregate_neighbors, cube_color, AdjacentCubeQuantity, NearCube};
use heatgrid::color::ColorWeights;

fn rat(n: i64, d: i64) -> Rat {
    Rat::new(n, d)
}

fn point(x: i64, xd: i64, y: i64, yd: i64) -> GameCoor {
    GameCoor::new(rat(x, xd), rat(y, yd))
}

/// A 2x2 field with unit spacing, range `[0, 10]`, and the checkerboard
/// samples `[0,0]=0`, `[1,0]=10`, `[0,1]=10`, `[1,1]=0`.
fn checkerboard() -> Grid {
    let values = vec![rat(0, 1), rat(10, 1), rat(10, 1), rat(0, 1)];
    Grid::from_samples(
        values,
        2,
        2,
        rat(0, 1),
        rat(10, 1),
        rat(1, 1),
        rat(1, 1),
        point(0, 1, 0, 1),
    )
}

#[test]
fn color_at_median_is_black() {
    let c = compute_color((rat(0, 1), rat(10, 1)), rat(5, 1)).unwrap();
    assert_eq!(c.red.num, 0);
    assert_eq!(c.blue.num, 0);
}

#[test]
fn color_saturates_at_bounds() {
    let range = (rat(0, 1), rat(10, 1));
    let at_min = compute_color(range, rat(0, 1)).unwrap();
    assert!(at_min.blue.eq_val(rat(1, 1)));
    assert_eq!(at_min.red.num, 0);
    let below_min = compute_color(range, rat(-7, 2)).unwrap();
    assert!(below_min.blue.eq_val(rat(1, 1)));
    assert_eq!(below_min.red.num, 0);
    let at_max = compute_color(range, rat(10, 1)).unwrap();
    assert!(at_max.red.eq_val(rat(1, 1)));
    assert_eq!(at_max.blue.num, 0);
    let above_max = compute_color(range, rat(99, 1)).unwrap();
    assert!(above_max.red.eq_val(rat(1, 1)));
    assert_eq!(above_max.blue.num, 0);
}

#[test]
fn color_halfway_up_is_half_red() {
    // value 7.5 in [0, 10]: red = (7.5 - 5) / (10 - 5) = 1/2, blue = 0.
    let c = compute_color((rat(0, 1), rat(10, 1)), rat(15, 2)).unwrap();
    assert!(c.red.eq_val(rat(1, 2)));
    assert_eq!(c.blue.num, 0);
}

#[test]
fn bloom_color_quadruples_at_the_extreme() {
    // value 10 in [0, 10]: base red 1, bloom multiplier 4.
    let c = compute_color_bloom((rat(0, 1), rat(10, 1)), rat(10, 1)).unwrap();
    assert!(c.red.eq_val(rat(4, 1)));
    assert_eq!(c.blue.num, 0);
}

#[test]
fn kelvin_conversion_is_exact() {
    let k = to_kelvin(rat(15, 1)).unwrap();
    assert_eq!(k.num, 5763);
    assert_eq!(k.den, 20);
}

#[test]
fn single_far_sample_aggregates_to_itself() {
    let samples = vec![(rat(7, 1), rat(1, 1))];
    let r = aggregate_neighbors(&samples).unwrap();
    assert!(r.eq_val(rat(7, 1)));
}

#[test]
fn close_sample_short_circuits() {
    let samples = vec![(rat(100, 1), rat(1, 1)), (rat(5, 1), rat(1, 20)), (rat(-3, 1), rat(2, 1))];
    let r = aggregate_neighbors(&samples).unwrap();
    assert!(r.eq_val(rat(5, 1)));
}

#[test]
fn weighted_mean_of_two_samples() {
    // (10/1 + 20/2) / (1/1 + 1/2) = 20 / 1.5 = 40/3.
    let samples = vec![(rat(10, 1), rat(1, 1)), (rat(20, 1), rat(2, 1))];
    let r = aggregate_neighbors(&samples).unwrap();
    assert!(r.eq_val(rat(40, 3)));
}

#[test]
fn located_cell_stays_in_bounds_far_away() {
    let g = checkerboard();
    let far = point(1000, 1, -1000, 1);
    let cell = g.find_nearest_cell(&far);
    for c in cell.points() {
        assert!(c.x < 2 && c.y < 2);
    }
}

#[test]
fn tie_break_at_a_node_is_deterministic() {
    let g = checkerboard();
    let at_node = point(1, 1, 1, 1);
    let first = g.find_nearest_cell(&at_node);
    let second = g.find_nearest_cell(&at_node);
    assert_eq!(first, second);
    // A point exactly on a node counts as left/bottom of it.
    assert_eq!((first.top_right.x, first.top_right.y), (1, 1));
    assert_eq!((first.bottom_left.x, first.bottom_left.y), (0, 0));
}

#[test]
fn quadrant_ties_resolve_left_and_bottom() {
    let node = point(2, 1, 3, 1);
    let on_node = get_qualitative_position(&point(2, 1, 3, 1), &node);
    assert!(matches!(on_node, QualitativeRelPos::BottomLeft));
    let on_vertical_above = get_qualitative_position(&point(2, 1, 7, 2), &node);
    assert!(matches!(on_vertical_above, QualitativeRelPos::TopLeft));
    let on_horizontal_right = get_qualitative_position(&point(5, 2, 3, 1), &node);
    assert!(matches!(on_horizontal_right, QualitativeRelPos::BottomRight));
    let strictly_above_right = get_qualitative_position(&point(5, 2, 7, 2), &node);
    assert!(matches!(strictly_above_right, QualitativeRelPos::TopRight));
}

#[test]
fn corner_samples_are_reproduced_exactly() {
    let g = checkerboard();
    let cell = GridCell {
        bottom_left: heatgrid::coordinate::GridCoor { x: 0, y: 0 },
        bottom_right: heatgrid::coordinate::GridCoor { x: 1, y: 0 },
        top_left: heatgrid::coordinate::GridCoor { x: 0, y: 1 },
        top_right: heatgrid::coordinate::GridCoor { x: 1, y: 1 },
    };
    let at_bl = g.interpolate_temperature(&cell, &point(0, 1, 0, 1)).unwrap();
    assert!(at_bl.eq_val(rat(0, 1)));
    let at_br = g.interpolate_temperature(&cell, &point(1, 1, 0, 1)).unwrap();
    assert!(at_br.eq_val(rat(10, 1)));
    let at_tl = g.interpolate_temperature(&cell, &point(0, 1, 1, 1)).unwrap();
    assert!(at_tl.eq_val(rat(10, 1)));
    let at_tr = g.interpolate_temperature(&cell, &point(1, 1, 1, 1)).unwrap();
    assert!(at_tr.eq_val(rat(0, 1)));
}

#[test]
fn degenerate_cell_interpolates_to_zero() {
    let g = checkerboard();
    let collapsed = GridCell {
        bottom_left: heatgrid::coordinate::GridCoor { x: 0, y: 0 },
        bottom_right: heatgrid::coordinate::GridCoor { x: 0, y: 0 },
        top_left: heatgrid::coordinate::GridCoor { x: 0, y: 1 },
        top_right: heatgrid::coordinate::GridCoor { x: 0, y: 1 },
    };
    let r = g.interpolate_temperature(&collapsed, &point(1, 2, 1, 2)).unwrap();
    assert_eq!(r.num, 0);
}

#[test]
fn checkerboard_center_interpolates_to_five_and_black() {
    let g = checkerboard();
    let center = point(1, 2, 1, 2);
    let cell = g.find_nearest_cell(&center);
    let temp = g.interpolate_temperature(&cell, &center).unwrap();
    assert!(temp.eq_val(rat(5, 1)));
    let c = compute_color((rat(0, 1), rat(10, 1)), temp).unwrap();
    assert_eq!(c.red.num, 0);
    assert_eq!(c.blue.num, 0);
}

#[test]
fn query_pipeline_at_the_center() {
    let g = checkerboard();
    let c = g.query(&point(1, 2, 1, 2)).unwrap();
    // The center interpolates to the median, so even the bloom variant
    // leaves both channels at zero.
    assert_eq!(c.red.num, 0);
    assert_eq!(c.blue.num, 0);
}

#[test]
fn generated_field_respects_its_bounds() {
    let g = Grid::generate(3, 4, rat(1, 1), rat(2, 1));
    assert_eq!(g.width, 3);
    assert_eq!(g.height, 4);
    assert_eq!(g.values.len(), 12);
    let (min, max) = g.get_minmax();
    assert_eq!((min.num, min.den), (5763, 20));
    assert_eq!((max.num, max.den), (6163, 20));
    for v in &g.values {
        // The draw is half-open: at least the minimum, strictly below the
        // maximum.
        assert!(min.le(*v) && v.lt(max));
    }
    // The field is centered on the origin: node (0, 0) sits at
    // (-width/2 * dx, -height/2 * dy).
    assert!(g.origin.x.eq_val(rat(-3, 2)));
    assert!(g.origin.y.eq_val(rat(-4, 1)));
}

#[test]
fn lookup_outside_the_lattice_is_absent() {
    let g = checkerboard();
    assert!(g.get_value(0, 0).is_some());
    assert!(g.get_value(2, 0).is_none());
    assert!(g.get_value(0, 2).is_none());
}

#[test]
fn neighbor_window_has_twenty_five_entries() {
    let g = checkerboard();
    let probe = point(1, 2, 1, 2);
    let cubes = g.get_near_cubes(0, 0, AdjacentCubeQuantity::ThreeByThree, &probe).unwrap();
    assert_eq!(cubes.len(), 25);
    for c in &cubes {
        assert!(rat(0, 1).le(c.temperature) && c.temperature.le(rat(10, 1)));
        assert!(c.distance.den == 100 && c.distance.num >= 0);
    }
}

#[test]
fn cell_corner_distances_bracket_the_truth() {
    let g = checkerboard();
    let probe = point(1, 1, 1, 1);
    let cell = g.find_nearest_cell(&probe);
    let pairs = g.get_cell_temp(&cell, &probe);
    assert_eq!(pairs.len(), 4);
    // The probe sits on the cell's top-right corner (tie-break), so that
    // corner's distance is exactly zero and the opposite corner sits at
    // distance sqrt(2), floored to 1.41.
    assert_eq!(pairs[2].1.num, 0);
    assert_eq!(pairs[0].1.num, 141);
}

#[test]
fn probe_color_comes_from_the_closest_sample_when_on_top_of_it() {
    let stored = ColorWeights::new(rat(9, 10), rat(1, 10));
    let cubes = vec![
        NearCube::new(ColorWeights::new(rat(0, 1), rat(0, 1)), rat(3, 1), rat(100, 1)),
        NearCube::new(stored, rat(1, 100), rat(42, 1)),
    ];
    let c = cube_color((rat(0, 1), rat(200, 1)), &cubes).unwrap();
    assert!(c.red.eq_val(rat(9, 10)));
    assert!(c.blue.eq_val(rat(1, 10)));
}

#[test]
fn probe_color_uses_the_weighted_mean_otherwise() {
    // Two samples at equal distance 1: mean (0 + 10)/2 = 5, the median of
    // [0, 10], so the probe turns black.
    let cubes = vec![
        NearCube::new(ColorWeights::new(rat(0, 1), rat(1, 1)), rat(1, 1), rat(0, 1)),
        NearCube::new(ColorWeights::new(rat(1, 1), rat(0, 1)), rat(1, 1), rat(10, 1)),
    ];
    let c = cube_color((rat(0, 1), rat(10, 1)), &cubes).unwrap();
    assert_eq!(c.red.num, 0);
    assert_eq!(c.blue.num, 0);
}

#[test]
fn unrepresentable_color_is_reported() {
    // A range so wide that min + max cannot be held in an i64 fraction:
    // the computation reports the failure instead of silently rounding.
    let r = compute_color((rat(1, i64::MAX), rat(i64::MAX, 1)), rat(0, 1));
    assert!(r.is_none());
}

#[test]
fn interior_point_interpolates_bilinearly() {
    // At (1/4, 1/4) of the checkerboard: 10*(1/4)(3/4) + 10*(3/4)(1/4)
    // = 15/4.
    let g = checkerboard();
    let cell = g.find_nearest_cell(&point(1, 4, 1, 4));
    let temp = g.interpolate_temperature(&cell, &point(1, 4, 1, 4)).unwrap();
    assert!(temp.eq_val(rat(15, 4)));
}

#[test]
fn bloom_scales_interior_values() {
    // value 7.5 in [0, 10]: base red 1/2, distance from median 1/2, bloom
    // multiplier 5/2, so red = 5/4.
    let c = compute_color_bloom((rat(0, 1), rat(10, 1)), rat(15, 2)).unwrap();
    assert!(c.red.eq_val(rat(5, 4)));
    assert_eq!(c.blue.num, 0);
}
