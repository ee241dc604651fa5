//! Exact-arithmetic behavior of the rational scalar type and the distance
//! computation.

use heatgrid::rat::Rat;
use heatgrid::coordinate::{GameCoor, GridCoor, GridStep, compute_distance};

fn rat(n: i64, d: i64) -> Rat {
    Rat::new(n, d)
}

#[test]
fn add_reduces_to_lowest_terms() {
    let r = rat(1, 2).add(rat(1, 3)).unwrap();
    assert_eq!(r.num, 5);
    assert_eq!(r.den, 6);
}

#[test]
fn sub_crosses_zero() {
    let r = rat(1, 4).sub(rat(3, 4)).unwrap();
    assert_eq!(r.num, -1);
    assert_eq!(r.den, 2);
}

#[test]
fn mul_and_div_are_exact() {
    let p = rat(2, 3).mul(rat(9, 4)).unwrap();
    assert_eq!(p.num, 3);
    assert_eq!(p.den, 2);
    let q = rat(3, 2).div(rat(-3, 4)).unwrap();
    assert_eq!(q.num, -2);
    assert_eq!(q.den, 1);
}

#[test]
fn add_overflow_is_reported() {
    let big = rat(i64::MAX, 1);
    assert!(big.add(big).is_none());
}

#[test]
fn comparisons_are_exact() {
    assert!(rat(1, 3).lt(rat(34, 100)));
    assert!(!rat(1, 3).lt(rat(33, 100)));
    assert!(rat(2, 4).eq_val(rat(1, 2)));
    assert!(rat(-1, 2).le(rat(-1, 2)));
}

#[test]
fn floor_div_rounds_toward_negative_infinity() {
    assert_eq!(rat(7, 2).floor_div(rat(1, 1)), 3);
    assert_eq!(rat(-7, 2).floor_div(rat(1, 1)), -4);
    assert_eq!(rat(-1, 10).floor_div(rat(5, 1)), -1);
}

#[test]
fn distance_of_three_four_is_five() {
    let a = GameCoor::new(rat(0, 1), rat(0, 1));
    let b = GameCoor::new(rat(3, 1), rat(4, 1));
    let d = compute_distance(&a, &b);
    assert!(d.eq_val(rat(5, 1)));
}

#[test]
fn distance_is_floored_to_hundredths() {
    // sqrt(2) = 1.41421...; the exact floor to hundredths is 1.41.
    let a = GameCoor::new(rat(0, 1), rat(0, 1));
    let b = GameCoor::new(rat(1, 1), rat(1, 1));
    let d = compute_distance(&a, &b);
    assert_eq!(d.den, 100);
    assert_eq!(d.num, 141);
}

#[test]
fn distance_to_self_is_zero() {
    let a = GameCoor::new(rat(7, 3), rat(-5, 2));
    let d = compute_distance(&a, &a);
    assert_eq!(d.num, 0);
}

#[test]
fn step_clamps_at_both_edges() {
    let c = GridCoor { x: 0, y: 1 };
    let low = c.step_clamped(GridStep { x: -1, y: -2 }, 2, 2);
    assert_eq!((low.x, low.y), (0, 0));
    let high = c.step_clamped(GridStep { x: 3, y: 1 }, 2, 2);
    assert_eq!((high.x, high.y), (1, 1));
    let stay = c.step_clamped(GridStep { x: 1, y: 0 }, 2, 2);
    assert_eq!((stay.x, stay.y), (1, 1));
}

#[test]
fn distance_is_symmetric() {
    let a = GameCoor::new(rat(1, 3), rat(-7, 4));
    let b = GameCoor::new(rat(52, 7), rat(9, 2));
    let there = compute_distance(&a, &b);
    let back = compute_distance(&b, &a);
    assert_eq!((there.num, there.den), (back.num, back.den));
}

#[test]
fn coincidence_threshold_is_exact() {
    // The floored distance drops below 1/10 exactly when the true
    // distance does.
    let origin = GameCoor::new(rat(0, 1), rat(0, 1));
    let just_inside = compute_distance(&origin, &GameCoor::new(rat(9, 100), rat(0, 1)));
    assert!(just_inside.lt(rat(1, 10)));
    let on_the_line = compute_distance(&origin, &GameCoor::new(rat(1, 10), rat(0, 1)));
    assert!(!on_the_line.lt(rat(1, 10)));
}
