//! Mapping a scalar to a diverging red/blue color.
//!
//! The scale is centered on the median of the configured value range: the
//! red channel rises linearly above the median, the blue channel rises
//! below it, both clamped; green is always zero.  A high-dynamic-range
//! variant additionally amplifies the channels by a bloom factor that
//! grows with the distance from the median.

use vstd::prelude::*;
use crate::rat::{
    Rat, Q, q_wf, q_eq, q_le, q_lt, q_int, q_zero, q_one, q_add, q_sub, q_mul, q_div, q_neg,
    q_abs, fits_i64, lemma_q_eq_trans, lemma_q_cmp_congr, lemma_q_add_congr,
    lemma_q_mul_congr, lemma_q_div_congr, lemma_q_ops_wf, lemma_q_mul_zero, lemma_q_order_trans,
    lemma_q_sub_mono, lemma_q_sub_mono_left, lemma_q_abs_congr, lemma_mul_bounds,
    lemma_mul_pos_bounds, lemma_norm_bounds, lemma_raw_fits, lemma_q_eq_sign, abs_i,
};

verus! {

/// Celsius-to-kelvin offset: 273.15.
pub open spec fn kelvin_offset() -> Q {
    Q { n: 5463, d: 20 }
}

/// Converts a temperature from degrees Celsius to kelvin.
pub fn to_kelvin(celsius: Rat) -> (r: Option<Rat>)
    requires
        celsius.wf(),
    ensures
        r is Some <==> fits_i64(
            q_add(celsius@, kelvin_offset()).n,
            q_add(celsius@, kelvin_offset()).d,
        ),
        r matches Some(k) ==> k.wf() && q_eq(k@, q_add(celsius@, kelvin_offset())),
{
    celsius.add(Rat::new(5463, 20))
}

/// `v` clamped into `[lo, hi]`.
pub open spec fn q_clamp(v: Q, lo: Q, hi: Q) -> Q {
    if q_lt(v, lo) {
        lo
    } else if q_lt(hi, v) {
        hi
    } else {
        v
    }
}

/// The midpoint of the value range.
pub open spec fn median_q(min: Q, max: Q) -> Q {
    q_div(q_add(min, max), q_int(2))
}

/// The red channel before clamping: how far the value sits above the
/// median, normalized by the upper half-range.
pub open spec fn red_raw(value: Q, min: Q, max: Q) -> Q {
    q_div(q_sub(value, median_q(min, max)), q_sub(max, median_q(min, max)))
}

/// The blue channel before clamping: how far the value sits below the
/// median, normalized by the lower half-range.
pub open spec fn blue_raw(value: Q, min: Q, max: Q) -> Q {
    q_div(q_sub(median_q(min, max), value), q_sub(median_q(min, max), min))
}

pub open spec fn red_channel(value: Q, min: Q, max: Q) -> Q {
    q_clamp(red_raw(value, min, max), q_zero(), q_one())
}

pub open spec fn blue_channel(value: Q, min: Q, max: Q) -> Q {
    q_clamp(blue_raw(value, min, max), q_zero(), q_one())
}

/// The median strictly separates the bounds of a nonempty range.
pub proof fn lemma_median_between(min: Q, max: Q)
    requires
        q_wf(min),
        q_wf(max),
        q_lt(min, max),
    ensures
        q_wf(median_q(min, max)),
        q_lt(min, median_q(min, max)),
        q_lt(median_q(min, max), max),
{
    lemma_q_ops_wf(min, max);
    assert(q_wf(median_q(min, max)) && q_lt(min, median_q(min, max)) && q_lt(
        median_q(min, max),
        max,
    )) by (nonlinear_arith)
        requires
            min.d > 0,
            max.d > 0,
            q_lt(min, max),
            median_q(min, max) == (Q {
                n: (min.n * max.d + max.n * min.d) * 1,
                d: (min.d * max.d) * 2,
            }),
    ;
}

/// The red and blue channel weights of one color.
#[derive(Clone, Copy, Debug)]
pub struct ColorWeights {
    pub red: Rat,
    pub blue: Rat,
}

impl ColorWeights {
    pub open spec fn wf(self) -> bool {
        &&& self.red.wf()
        &&& self.blue.wf()
    }

    pub fn new(red: Rat, blue: Rat) -> (r: ColorWeights)
        requires
            red.wf(),
            blue.wf(),
        ensures
            r.wf(),
            r.red == red,
            r.blue == blue,
    {
        ColorWeights { red, blue }
    }
}

/// `x` clamped into the integer interval `[lo, hi]`; exact and total.
fn clamp_to(x: Rat, lo: i64, hi: i64) -> (r: Rat)
    requires
        x.wf(),
        lo > i64::MIN,
        hi > i64::MIN,
    ensures
        r.wf(),
        r@ == q_clamp(x@, q_int(lo as int), q_int(hi as int)),
{
    let loq = Rat::from_int(lo);
    let hiq = Rat::from_int(hi);
    if x.lt(loq) {
        loq
    } else if hiq.lt(x) {
        hiq
    } else {
        x
    }
}

/// A scalar whose numerator stays within `10^5` and whose denominator
/// stays within `100`: for such inputs the color computation is
/// guaranteed to succeed.
pub open spec fn color_input_modest(v: Q) -> bool {
    &&& abs_i(v.n) <= 100000
    &&& v.d <= 100
}

/// Maps a scalar to its diverging red/blue color for the given value
/// range: channels are the clamped linear ramps around the range's
/// median.  Same scalar and same range always give the same color.
/// `None` can arise only when an intermediate rational leaves the `i64`
/// range, which modest inputs (see [`color_input_modest`]) never do.
pub fn compute_color(min_max: (Rat, Rat), temperature: Rat) -> (r: Option<ColorWeights>)
    requires
        min_max.0.wf(),
        min_max.1.wf(),
        temperature.wf(),
        q_lt(min_max.0@, min_max.1@),
    ensures
        r matches Some(c) ==> {
            &&& c.wf()
            &&& q_eq(c.red@, red_channel(temperature@, min_max.0@, min_max.1@))
            &&& q_eq(c.blue@, blue_channel(temperature@, min_max.0@, min_max.1@))
        },
        (color_input_modest(min_max.0@) && color_input_modest(min_max.1@) && color_input_modest(
            temperature@,
        )) ==> r is Some,
{
    let (mn, mx) = min_max;
    let ghost qmin = mn@;
    let ghost qmax = mx@;
    let ghost qt = temperature@;
    let ghost gmed = median_q(qmin, qmax);
    let ghost modest = color_input_modest(qmin) && color_input_modest(qmax) && color_input_modest(
        qt,
    );
    let two = Rat::new(2, 1);
    proof {
        if modest {
            lemma_mul_bounds(qmin.n, qmax.d, 100000, 100);
            lemma_mul_bounds(qmax.n, qmin.d, 100000, 100);
            lemma_mul_pos_bounds(qmin.d, qmax.d, 100, 100);
            lemma_raw_fits(q_add(qmin, qmax).n, q_add(qmin, qmax).d);
        }
    }
    let sum = match mn.add(mx) {
        Some(v) => v,
        None => {
            return None;
        },
    };
    proof {
        if modest {
            lemma_norm_bounds(q_add(qmin, qmax).n, q_add(qmin, qmax).d);
            assert(abs_i(sum@.n) <= 20000000 && 1 <= sum@.d <= 10000);
            assert(crate::rat::q_inv(q_int(2)) == (Q { n: 1, d: 2 }));
            assert(q_div(sum@, q_int(2)) == q_mul(sum@, Q { n: 1, d: 2 }));
            assert(q_mul(sum@, Q { n: 1, d: 2 }).n == sum@.n * 1);
            assert(sum@.n * 1 == sum@.n);
            assert(q_div(sum@, q_int(2)).n == sum@.n);
            assert(-20000000 <= sum@.n <= 20000000);
            assert(q_div(sum@, q_int(2)).d == sum@.d * 2);
            assert(1 <= sum@.d * 2 <= 20000);
            lemma_raw_fits(q_div(sum@, q_int(2)).n, q_div(sum@, q_int(2)).d);
        }
    }
    let med = match sum.div(two) {
        Some(v) => v,
        None => {
            return None;
        },
    };
    proof {
        if modest {
            lemma_norm_bounds(q_div(sum@, q_int(2)).n, q_div(sum@, q_int(2)).d);
            assert(abs_i(med@.n) <= 20000000 && 1 <= med@.d <= 20000);
            lemma_mul_bounds(qt.n, med@.d, 100000, 20000);
            lemma_mul_bounds(med@.n, qt.d, 20000000, 100);
            lemma_mul_pos_bounds(qt.d, med@.d, 100, 20000);
            lemma_raw_fits(q_sub(qt, med@).n, q_sub(qt, med@).d);
            lemma_mul_bounds(qmax.n, med@.d, 100000, 20000);
            lemma_mul_pos_bounds(qmax.d, med@.d, 100, 20000);
            lemma_mul_bounds(med@.n, qmax.d, 20000000, 100);
            lemma_raw_fits(q_sub(qmax, med@).n, q_sub(qmax, med@).d);
            lemma_mul_pos_bounds(med@.d, qt.d, 20000, 100);
            lemma_raw_fits(q_sub(med@, qt).n, q_sub(med@, qt).d);
            lemma_mul_bounds(qmin.n, med@.d, 100000, 20000);
            lemma_mul_bounds(med@.n, qmin.d, 20000000, 100);
            lemma_mul_pos_bounds(med@.d, qmin.d, 20000, 100);
            lemma_raw_fits(q_sub(med@, qmin).n, q_sub(med@, qmin).d);
        }
        lemma_q_ops_wf(qmin, qmax);
        lemma_q_div_congr(sum@, q_int(2), q_add(qmin, qmax), q_int(2));
        lemma_q_ops_wf(sum@, q_int(2));
        lemma_q_ops_wf(q_add(qmin, qmax), q_int(2));
        lemma_q_eq_trans(med@, q_div(sum@, q_int(2)), gmed);
        lemma_median_between(qmin, qmax);
    }
    let rnum = match temperature.sub(med) {
        Some(v) => v,
        None => {
            return None;
        },
    };
    let rden = match mx.sub(med) {
        Some(v) => v,
        None => {
            return None;
        },
    };
    let ghost grnum = q_sub(qt, gmed);
    let ghost grden = q_sub(qmax, gmed);
    proof {
        lemma_q_add_congr(qt, med@, qt, gmed);
        lemma_q_add_congr(qmax, med@, qmax, gmed);
        lemma_q_ops_wf(qt, med@);
        lemma_q_ops_wf(qt, gmed);
        lemma_q_ops_wf(qmax, med@);
        lemma_q_ops_wf(qmax, gmed);
        lemma_q_eq_trans(rnum@, q_sub(qt, med@), grnum);
        lemma_q_eq_trans(rden@, q_sub(qmax, med@), grden);
        assert(grden.n > 0);
        assert(rden@.n != 0) by (nonlinear_arith)
            requires
                q_eq(rden@, grden),
                rden@.d >= 1,
                grden.d >= 1,
                grden.n > 0,
        ;
        if modest {
            lemma_norm_bounds(q_sub(qt, med@).n, q_sub(qt, med@).d);
            lemma_norm_bounds(q_sub(qmax, med@).n, q_sub(qmax, med@).d);
            assert(abs_i(rnum@.n) <= 4000000000 && 1 <= rnum@.d <= 2000000);
            assert(abs_i(rden@.n) <= 4000000000 && 1 <= rden@.d <= 2000000);
            lemma_mul_bounds(rnum@.n, rden@.d, 4000000000, 2000000);
            lemma_mul_bounds(rnum@.d, rden@.n, 2000000, 4000000000);
            lemma_q_ops_wf(rnum@, rden@);
            if rden@.n >= 0 {
                assert(crate::rat::q_inv(rden@) == (Q { n: rden@.d, d: rden@.n }));
                assert(q_div(rnum@, rden@) == (Q {
                    n: rnum@.n * rden@.d,
                    d: rnum@.d * rden@.n,
                }));
            } else {
                assert(crate::rat::q_inv(rden@) == (Q { n: -rden@.d, d: -rden@.n }));
                assert(q_div(rnum@, rden@) == (Q {
                    n: rnum@.n * -rden@.d,
                    d: rnum@.d * -rden@.n,
                }));
                assert(rnum@.n * -rden@.d == -(rnum@.n * rden@.d)) by (nonlinear_arith);
                assert(rnum@.d * -rden@.n == -(rnum@.d * rden@.n)) by (nonlinear_arith);
            }
            assert(abs_i(q_div(rnum@, rden@).n) <= 8000000000000000 && 1 <= q_div(
                rnum@,
                rden@,
            ).d <= 8000000000000000);
            lemma_raw_fits(q_div(rnum@, rden@).n, q_div(rnum@, rden@).d);
        }
    }
    let red_ratio = match rnum.div(rden) {
        Some(v) => v,
        None => {
            return None;
        },
    };
    proof {
        lemma_q_div_congr(rnum@, rden@, grnum, grden);
        lemma_q_ops_wf(rnum@, rden@);
        lemma_q_ops_wf(grnum, grden);
        lemma_q_eq_trans(red_ratio@, q_div(rnum@, rden@), red_raw(qt, qmin, qmax));
    }
    let red = clamp_to(red_ratio, 0, 1);
    proof {
        lemma_q_ops_wf(grnum, grden);
        lemma_q_cmp_congr(red_ratio@, q_zero(), red_raw(qt, qmin, qmax), q_zero());
        lemma_q_cmp_congr(q_one(), red_ratio@, q_one(), red_raw(qt, qmin, qmax));
        assert(q_eq(red@, red_channel(qt, qmin, qmax)));
    }
    let bnum = match med.sub(temperature) {
        Some(v) => v,
        None => {
            return None;
        },
    };
    let bden = match med.sub(mn) {
        Some(v) => v,
        None => {
            return None;
        },
    };
    let ghost gbnum = q_sub(gmed, qt);
    let ghost gbden = q_sub(gmed, qmin);
    proof {
        lemma_q_add_congr(med@, qt, gmed, qt);
        lemma_q_add_congr(med@, qmin, gmed, qmin);
        lemma_q_ops_wf(med@, qt);
        lemma_q_ops_wf(gmed, qt);
        lemma_q_ops_wf(med@, qmin);
        lemma_q_ops_wf(gmed, qmin);
        lemma_q_eq_trans(bnum@, q_sub(med@, qt), gbnum);
        lemma_q_eq_trans(bden@, q_sub(med@, qmin), gbden);
        assert(gbden.n > 0);
        assert(bden@.n != 0) by (nonlinear_arith)
            requires
                q_eq(bden@, gbden),
                bden@.d >= 1,
                gbden.d >= 1,
                gbden.n > 0,
        ;
        if modest {
            lemma_norm_bounds(q_sub(med@, qt).n, q_sub(med@, qt).d);
            lemma_norm_bounds(q_sub(med@, qmin).n, q_sub(med@, qmin).d);
            assert(abs_i(bnum@.n) <= 4000000000 && 1 <= bnum@.d <= 2000000);
            assert(abs_i(bden@.n) <= 4000000000 && 1 <= bden@.d <= 2000000);
            lemma_mul_bounds(bnum@.n, bden@.d, 4000000000, 2000000);
            lemma_mul_bounds(bnum@.d, bden@.n, 2000000, 4000000000);
            lemma_q_ops_wf(bnum@, bden@);
            if bden@.n >= 0 {
                assert(crate::rat::q_inv(bden@) == (Q { n: bden@.d, d: bden@.n }));
                assert(q_div(bnum@, bden@) == (Q {
                    n: bnum@.n * bden@.d,
                    d: bnum@.d * bden@.n,
                }));
            } else {
                assert(crate::rat::q_inv(bden@) == (Q { n: -bden@.d, d: -bden@.n }));
                assert(q_div(bnum@, bden@) == (Q {
                    n: bnum@.n * -bden@.d,
                    d: bnum@.d * -bden@.n,
                }));
                assert(bnum@.n * -bden@.d == -(bnum@.n * bden@.d)) by (nonlinear_arith);
                assert(bnum@.d * -bden@.n == -(bnum@.d * bden@.n)) by (nonlinear_arith);
            }
            assert(abs_i(q_div(bnum@, bden@).n) <= 8000000000000000 && 1 <= q_div(
                bnum@,
                bden@,
            ).d <= 8000000000000000);
            lemma_raw_fits(q_div(bnum@, bden@).n, q_div(bnum@, bden@).d);
        }
    }
    let blue_ratio = match bnum.div(bden) {
        Some(v) => v,
        None => {
            return None;
        },
    };
    proof {
        lemma_q_div_congr(bnum@, bden@, gbnum, gbden);
        lemma_q_ops_wf(bnum@, bden@);
        lemma_q_ops_wf(gbnum, gbden);
        lemma_q_eq_trans(blue_ratio@, q_div(bnum@, bden@), blue_raw(qt, qmin, qmax));
    }
    let blue = clamp_to(blue_ratio, 0, 1);
    proof {
        lemma_q_cmp_congr(blue_ratio@, q_zero(), blue_raw(qt, qmin, qmax), q_zero());
        lemma_q_cmp_congr(q_one(), blue_ratio@, q_one(), blue_raw(qt, qmin, qmax));
        assert(q_eq(blue@, blue_channel(qt, qmin, qmax)));
    }
    Some(ColorWeights { red, blue })
}

/// Half the width of the value range.
pub open spec fn half_range(min: Q, max: Q) -> Q {
    q_div(q_sub(max, min), q_int(2))
}

/// How far the value sits from the median, normalized by the half-range:
/// zero at the median, one at either bound.
pub open spec fn distance_from_median(value: Q, min: Q, max: Q) -> Q {
    q_div(q_abs(q_sub(value, median_q(min, max))), half_range(min, max))
}

/// The bloom amplification factor: `1` at the median, rising linearly to
/// `4` at the bounds.
pub open spec fn bloom_multiplier(value: Q, min: Q, max: Q) -> Q {
    q_add(q_one(), q_mul(q_int(3), distance_from_median(value, min, max)))
}

pub open spec fn red_channel_bloom(value: Q, min: Q, max: Q) -> Q {
    q_mul(q_clamp(red_raw(value, min, max), q_zero(), q_int(3)), bloom_multiplier(value, min, max))
}

pub open spec fn blue_channel_bloom(value: Q, min: Q, max: Q) -> Q {
    q_mul(
        q_clamp(blue_raw(value, min, max), q_zero(), q_int(3)),
        bloom_multiplier(value, min, max),
    )
}

/// A scalar whose numerator stays within `5000` and whose denominator
/// stays within `10`: for such inputs the bloom color computation is
/// guaranteed to succeed (its longer chain of products needs a tighter
/// box than [`color_input_modest`]).
pub open spec fn bloom_input_modest(v: Q) -> bool {
    &&& abs_i(v.n) <= 5000
    &&& v.d <= 10
}

/// The high-dynamic-range variant of [`compute_color`]: the channel ramps
/// are clamped to the extended range `[0, 3]` and then amplified by the
/// bloom factor, which grows with the distance from the median.  Same
/// scalar and same range always give the same color.  `None` can arise
/// only when an intermediate rational leaves the `i64` range, which
/// modest inputs (see [`bloom_input_modest`]) never do.
pub fn compute_color_bloom(min_max: (Rat, Rat), temperature: Rat) -> (r: Option<ColorWeights>)
    requires
        min_max.0.wf(),
        min_max.1.wf(),
        temperature.wf(),
        q_lt(min_max.0@, min_max.1@),
    ensures
        r matches Some(c) ==> {
            &&& c.wf()
            &&& q_eq(c.red@, red_channel_bloom(temperature@, min_max.0@, min_max.1@))
            &&& q_eq(c.blue@, blue_channel_bloom(temperature@, min_max.0@, min_max.1@))
        },
        (bloom_input_modest(min_max.0@) && bloom_input_modest(min_max.1@) && bloom_input_modest(
            temperature@,
        )) ==> r is Some,
{
    let (mn, mx) = min_max;
    let ghost qmin = mn@;
    let ghost qmax = mx@;
    let ghost qt = temperature@;
    let ghost gmed = median_q(qmin, qmax);
    let ghost bm = bloom_input_modest(qmin) && bloom_input_modest(qmax) && bloom_input_modest(qt);
    let two = Rat::new(2, 1);
    proof {
        if bm {
            lemma_mul_bounds(qmin.n, qmax.d, 5000, 10);
            lemma_mul_bounds(qmax.n, qmin.d, 5000, 10);
            lemma_mul_pos_bounds(qmin.d, qmax.d, 10, 10);
            lemma_raw_fits(q_add(qmin, qmax).n, q_add(qmin, qmax).d);
        }
    }
    let sum = match mn.add(mx) {
        Some(v) => v,
        None => {
            return None;
        },
    };
    proof {
        if bm {
            lemma_norm_bounds(q_add(qmin, qmax).n, q_add(qmin, qmax).d);
            assert(abs_i(sum@.n) <= 100000 && 1 <= sum@.d <= 100);
            assert(crate::rat::q_inv(q_int(2)) == (Q { n: 1, d: 2 }));
            assert(q_div(sum@, q_int(2)) == q_mul(sum@, Q { n: 1, d: 2 }));
            assert(q_mul(sum@, Q { n: 1, d: 2 }).n == sum@.n * 1);
            assert(sum@.n * 1 == sum@.n) by (nonlinear_arith);
            assert(q_div(sum@, q_int(2)).n == sum@.n);
            assert(-100000 <= sum@.n <= 100000);
            assert(q_div(sum@, q_int(2)).d == sum@.d * 2);
            assert(1 <= sum@.d * 2 <= 200);
            lemma_raw_fits(q_div(sum@, q_int(2)).n, q_div(sum@, q_int(2)).d);
        }
    }
    let med = match sum.div(two) {
        Some(v) => v,
        None => {
            return None;
        },
    };
    proof {
        if bm {
            lemma_norm_bounds(q_div(sum@, q_int(2)).n, q_div(sum@, q_int(2)).d);
            assert(abs_i(med@.n) <= 100000 && 1 <= med@.d <= 200);
            lemma_mul_bounds(qt.n, med@.d, 5000, 200);
            lemma_mul_bounds(med@.n, qt.d, 100000, 10);
            lemma_mul_pos_bounds(qt.d, med@.d, 10, 200);
            lemma_raw_fits(q_sub(qt, med@).n, q_sub(qt, med@).d);
            lemma_mul_bounds(qmax.n, med@.d, 5000, 200);
            lemma_mul_bounds(med@.n, qmax.d, 100000, 10);
            lemma_mul_pos_bounds(qmax.d, med@.d, 10, 200);
            lemma_raw_fits(q_sub(qmax, med@).n, q_sub(qmax, med@).d);
            lemma_mul_pos_bounds(med@.d, qt.d, 200, 10);
            lemma_raw_fits(q_sub(med@, qt).n, q_sub(med@, qt).d);
            lemma_mul_bounds(qmin.n, med@.d, 5000, 200);
            lemma_mul_bounds(med@.n, qmin.d, 100000, 10);
            lemma_mul_pos_bounds(med@.d, qmin.d, 200, 10);
            lemma_raw_fits(q_sub(med@, qmin).n, q_sub(med@, qmin).d);
            lemma_mul_bounds(qmax.n, qmin.d, 5000, 10);
            lemma_mul_bounds(qmin.n, qmax.d, 5000, 10);
            lemma_raw_fits(q_sub(qmax, qmin).n, q_sub(qmax, qmin).d);
        }
        lemma_q_ops_wf(qmin, qmax);
        lemma_q_div_congr(sum@, q_int(2), q_add(qmin, qmax), q_int(2));
        lemma_q_ops_wf(sum@, q_int(2));
        lemma_q_ops_wf(q_add(qmin, qmax), q_int(2));
        lemma_q_eq_trans(med@, q_div(sum@, q_int(2)), gmed);
        lemma_median_between(qmin, qmax);
    }
    let rnum = match temperature.sub(med) {
        Some(v) => v,
        None => {
            return None;
        },
    };
    let rden = match mx.sub(med) {
        Some(v) => v,
        None => {
            return None;
        },
    };
    let ghost grnum = q_sub(qt, gmed);
    let ghost grden = q_sub(qmax, gmed);
    proof {
        lemma_q_add_congr(qt, med@, qt, gmed);
        lemma_q_add_congr(qmax, med@, qmax, gmed);
        lemma_q_ops_wf(qt, med@);
        lemma_q_ops_wf(qt, gmed);
        lemma_q_ops_wf(qmax, med@);
        lemma_q_ops_wf(qmax, gmed);
        lemma_q_eq_trans(rnum@, q_sub(qt, med@), grnum);
        lemma_q_eq_trans(rden@, q_sub(qmax, med@), grden);
        assert(grden.n > 0);
        assert(rden@.n != 0) by (nonlinear_arith)
            requires
                q_eq(rden@, grden),
                rden@.d >= 1,
                grden.d >= 1,
                grden.n > 0,
        ;
        if bm {
            lemma_norm_bounds(q_sub(qt, med@).n, q_sub(qt, med@).d);
            lemma_norm_bounds(q_sub(qmax, med@).n, q_sub(qmax, med@).d);
            assert(abs_i(rnum@.n) <= 2000000 && 1 <= rnum@.d <= 2000);
            assert(abs_i(rden@.n) <= 2000000 && 1 <= rden@.d <= 2000);
            lemma_q_eq_sign(rden@, grden);
            assert(rden@.n >= 1);
            assert(crate::rat::q_inv(rden@) == (Q { n: rden@.d, d: rden@.n }));
            assert(q_div(rnum@, rden@) == (Q { n: rnum@.n * rden@.d, d: rnum@.d * rden@.n }));
            assert(abs_i(q_div(rnum@, rden@).n) <= 4000000000 && 1 <= q_div(rnum@, rden@).d
                <= 4000000000) by (nonlinear_arith)
                requires
                    q_div(rnum@, rden@) == (Q { n: rnum@.n * rden@.d, d: rnum@.d * rden@.n }),
                    abs_i(rnum@.n) <= 2000000,
                    1 <= rnum@.d <= 2000,
                    1 <= rden@.n <= 2000000,
                    1 <= rden@.d <= 2000,
            ;
            lemma_raw_fits(q_div(rnum@, rden@).n, q_div(rnum@, rden@).d);
        }
    }
    let red_ratio = match rnum.div(rden) {
        Some(v) => v,
        None => {
            return None;
        },
    };
    proof {
        lemma_q_div_congr(rnum@, rden@, grnum, grden);
        lemma_q_ops_wf(rnum@, rden@);
        lemma_q_ops_wf(grnum, grden);
        lemma_q_eq_trans(red_ratio@, q_div(rnum@, rden@), red_raw(qt, qmin, qmax));
        if bm {
            lemma_norm_bounds(q_div(rnum@, rden@).n, q_div(rnum@, rden@).d);
            assert(abs_i(red_ratio@.n) <= 4000000000 && 1 <= red_ratio@.d <= 4000000000);
        }
    }
    let red3 = clamp_to(red_ratio, 0, 3);
    proof {
        lemma_q_cmp_congr(red_ratio@, q_zero(), red_raw(qt, qmin, qmax), q_zero());
        lemma_q_cmp_congr(q_int(3), red_ratio@, q_int(3), red_raw(qt, qmin, qmax));
        assert(q_eq(red3@, q_clamp(red_raw(qt, qmin, qmax), q_zero(), q_int(3))));
    }
    let bnum = match med.sub(temperature) {
        Some(v) => v,
        None => {
            return None;
        },
    };
    let bden = match med.sub(mn) {
        Some(v) => v,
        None => {
            return None;
        },
    };
    let ghost gbnum = q_sub(gmed, qt);
    let ghost gbden = q_sub(gmed, qmin);
    proof {
        lemma_q_add_congr(med@, qt, gmed, qt);
        lemma_q_add_congr(med@, qmin, gmed, qmin);
        lemma_q_ops_wf(med@, qt);
        lemma_q_ops_wf(gmed, qt);
        lemma_q_ops_wf(med@, qmin);
        lemma_q_ops_wf(gmed, qmin);
        lemma_q_eq_trans(bnum@, q_sub(med@, qt), gbnum);
        lemma_q_eq_trans(bden@, q_sub(med@, qmin), gbden);
        assert(gbden.n > 0);
        assert(bden@.n != 0) by (nonlinear_arith)
            requires
                q_eq(bden@, gbden),
                bden@.d >= 1,
                gbden.d >= 1,
                gbden.n > 0,
        ;
        if bm {
            lemma_norm_bounds(q_sub(med@, qt).n, q_sub(med@, qt).d);
            lemma_norm_bounds(q_sub(med@, qmin).n, q_sub(med@, qmin).d);
            assert(abs_i(bnum@.n) <= 2000000 && 1 <= bnum@.d <= 2000);
            assert(abs_i(bden@.n) <= 2000000 && 1 <= bden@.d <= 2000);
            lemma_q_eq_sign(bden@, gbden);
            assert(bden@.n >= 1);
            assert(crate::rat::q_inv(bden@) == (Q { n: bden@.d, d: bden@.n }));
            assert(q_div(bnum@, bden@) == (Q { n: bnum@.n * bden@.d, d: bnum@.d * bden@.n }));
            assert(abs_i(q_div(bnum@, bden@).n) <= 4000000000 && 1 <= q_div(bnum@, bden@).d
                <= 4000000000) by (nonlinear_arith)
                requires
                    q_div(bnum@, bden@) == (Q { n: bnum@.n * bden@.d, d: bnum@.d * bden@.n }),
                    abs_i(bnum@.n) <= 2000000,
                    1 <= bnum@.d <= 2000,
                    1 <= bden@.n <= 2000000,
                    1 <= bden@.d <= 2000,
            ;
            lemma_raw_fits(q_div(bnum@, bden@).n, q_div(bnum@, bden@).d);
        }
    }
    let blue_ratio = match bnum.div(bden) {
        Some(v) => v,
        None => {
            return None;
        },
    };
    proof {
        lemma_q_div_congr(bnum@, bden@, gbnum, gbden);
        lemma_q_ops_wf(bnum@, bden@);
        lemma_q_ops_wf(gbnum, gbden);
        lemma_q_eq_trans(blue_ratio@, q_div(bnum@, bden@), blue_raw(qt, qmin, qmax));
        if bm {
            lemma_norm_bounds(q_div(bnum@, bden@).n, q_div(bnum@, bden@).d);
            assert(abs_i(blue_ratio@.n) <= 4000000000 && 1 <= blue_ratio@.d <= 4000000000);
        }
    }
    let blue3 = clamp_to(blue_ratio, 0, 3);
    proof {
        lemma_q_cmp_congr(blue_ratio@, q_zero(), blue_raw(qt, qmin, qmax), q_zero());
        lemma_q_cmp_congr(q_int(3), blue_ratio@, q_int(3), blue_raw(qt, qmin, qmax));
        assert(q_eq(blue3@, q_clamp(blue_raw(qt, qmin, qmax), q_zero(), q_int(3))));
    }
    let absd = rnum.abs();
    let range = match mx.sub(mn) {
        Some(v) => v,
        None => {
            return None;
        },
    };
    proof {
        if bm {
            lemma_norm_bounds(q_sub(qmax, qmin).n, q_sub(qmax, qmin).d);
            assert(abs_i(range@.n) <= 100000 && 1 <= range@.d <= 100);
            assert(q_div(range@, q_int(2)) == q_mul(range@, Q { n: 1, d: 2 }));
            assert(q_mul(range@, Q { n: 1, d: 2 }).n == range@.n * 1);
            assert(range@.n * 1 == range@.n) by (nonlinear_arith);
            assert(q_div(range@, q_int(2)).n == range@.n);
            assert(-100000 <= range@.n <= 100000);
            assert(q_div(range@, q_int(2)).d == range@.d * 2);
            assert(1 <= range@.d * 2 <= 200);
            lemma_raw_fits(q_div(range@, q_int(2)).n, q_div(range@, q_int(2)).d);
        }
    }
    let hr = match range.div(two) {
        Some(v) => v,
        None => {
            return None;
        },
    };
    let ghost ghr = half_range(qmin, qmax);
    proof {
        lemma_q_abs_congr(rnum@, grnum);
        lemma_q_div_congr(range@, q_int(2), q_sub(qmax, qmin), q_int(2));
        lemma_q_ops_wf(range@, q_int(2));
        lemma_q_ops_wf(q_sub(qmax, qmin), q_int(2));
        lemma_q_eq_trans(hr@, q_div(range@, q_int(2)), ghr);
        assert(q_sub(qmax, qmin).n > 0);
        assert(ghr.n > 0);
        assert(hr@.n != 0) by (nonlinear_arith)
            requires
                q_eq(hr@, ghr),
                hr@.d >= 1,
                ghr.d >= 1,
                ghr.n > 0,
        ;
        if bm {
            lemma_norm_bounds(q_div(range@, q_int(2)).n, q_div(range@, q_int(2)).d);
            assert(abs_i(hr@.n) <= 100000 && 1 <= hr@.d <= 200);
            lemma_q_eq_sign(hr@, ghr);
            assert(hr@.n >= 1);
            assert(abs_i(absd@.n) <= 2000000 && 1 <= absd@.d <= 2000);
            assert(crate::rat::q_inv(hr@) == (Q { n: hr@.d, d: hr@.n }));
            assert(q_div(absd@, hr@) == (Q { n: absd@.n * hr@.d, d: absd@.d * hr@.n }));
            assert(abs_i(q_div(absd@, hr@).n) <= 400000000 && 1 <= q_div(absd@, hr@).d
                <= 200000000) by (nonlinear_arith)
                requires
                    q_div(absd@, hr@) == (Q { n: absd@.n * hr@.d, d: absd@.d * hr@.n }),
                    abs_i(absd@.n) <= 2000000,
                    1 <= absd@.d <= 2000,
                    1 <= hr@.n <= 100000,
                    1 <= hr@.d <= 200,
            ;
            lemma_raw_fits(q_div(absd@, hr@).n, q_div(absd@, hr@).d);
        }
    }
    let dfm = match absd.div(hr) {
        Some(v) => v,
        None => {
            return None;
        },
    };
    let ghost gdfm = distance_from_median(qt, qmin, qmax);
    proof {
        lemma_q_div_congr(absd@, hr@, q_abs(grnum), ghr);
        lemma_q_ops_wf(absd@, hr@);
        lemma_q_ops_wf(q_abs(grnum), ghr);
        lemma_q_eq_trans(dfm@, q_div(absd@, hr@), gdfm);
        if bm {
            lemma_norm_bounds(q_div(absd@, hr@).n, q_div(absd@, hr@).d);
            assert(abs_i(dfm@.n) <= 400000000 && 1 <= dfm@.d <= 200000000);
            assert(abs_i(q_mul(Q { n: 3, d: 1 }, dfm@).n) <= 1200000000 && 1 <= q_mul(
                Q { n: 3, d: 1 },
                dfm@,
            ).d <= 200000000) by (nonlinear_arith)
                requires
                    abs_i(dfm@.n) <= 400000000,
                    1 <= dfm@.d <= 200000000,
            ;
            lemma_raw_fits(q_mul(Q { n: 3, d: 1 }, dfm@).n, q_mul(Q { n: 3, d: 1 }, dfm@).d);
        }
    }
    let three = Rat::new(3, 1);
    let scaled = match three.mul(dfm) {
        Some(v) => v,
        None => {
            return None;
        },
    };
    proof {
        if bm {
            lemma_norm_bounds(q_mul(Q { n: 3, d: 1 }, dfm@).n, q_mul(Q { n: 3, d: 1 }, dfm@).d);
            assert(abs_i(scaled@.n) <= 1200000000 && 1 <= scaled@.d <= 200000000);
            assert(abs_i(q_add(Q { n: 1, d: 1 }, scaled@).n) <= 1400000000 && 1 <= q_add(
                Q { n: 1, d: 1 },
                scaled@,
            ).d <= 200000000) by (nonlinear_arith)
                requires
                    abs_i(scaled@.n) <= 1200000000,
                    1 <= scaled@.d <= 200000000,
            ;
            lemma_raw_fits(
                q_add(Q { n: 1, d: 1 }, scaled@).n,
                q_add(Q { n: 1, d: 1 }, scaled@).d,
            );
        }
    }
    let one = Rat::one();
    let bloom = match one.add(scaled) {
        Some(v) => v,
        None => {
            return None;
        },
    };
    let ghost gbloom = bloom_multiplier(qt, qmin, qmax);
    proof {
        lemma_q_mul_congr(q_int(3), dfm@, q_int(3), gdfm);
        lemma_q_ops_wf(q_int(3), dfm@);
        lemma_q_ops_wf(q_int(3), gdfm);
        lemma_q_eq_trans(scaled@, q_mul(q_int(3), dfm@), q_mul(q_int(3), gdfm));
        lemma_q_add_congr(q_one(), scaled@, q_one(), q_mul(q_int(3), gdfm));
        lemma_q_ops_wf(q_one(), scaled@);
        lemma_q_ops_wf(q_one(), q_mul(q_int(3), gdfm));
        lemma_q_eq_trans(bloom@, q_add(q_one(), scaled@), gbloom);
    }
    proof {
        if bm {
            lemma_norm_bounds(q_add(Q { n: 1, d: 1 }, scaled@).n, q_add(Q { n: 1, d: 1 }, scaled@).d);
            assert(abs_i(bloom@.n) <= 1400000000 && 1 <= bloom@.d <= 200000000);
            assert(abs_i(red3@.n) <= 4000000000 && 1 <= red3@.d <= 4000000000);
            assert(abs_i(blue3@.n) <= 4000000000 && 1 <= blue3@.d <= 4000000000);
            assert(abs_i(q_mul(red3@, bloom@).n) <= 5600000000000000000 && 1 <= q_mul(
                red3@,
                bloom@,
            ).d <= 800000000000000000) by (nonlinear_arith)
                requires
                    abs_i(red3@.n) <= 4000000000,
                    1 <= red3@.d <= 4000000000,
                    abs_i(bloom@.n) <= 1400000000,
                    1 <= bloom@.d <= 200000000,
            ;
            assert(abs_i(q_mul(blue3@, bloom@).n) <= 5600000000000000000 && 1 <= q_mul(
                blue3@,
                bloom@,
            ).d <= 800000000000000000) by (nonlinear_arith)
                requires
                    abs_i(blue3@.n) <= 4000000000,
                    1 <= blue3@.d <= 4000000000,
                    abs_i(bloom@.n) <= 1400000000,
                    1 <= bloom@.d <= 200000000,
            ;
            lemma_raw_fits(q_mul(red3@, bloom@).n, q_mul(red3@, bloom@).d);
            lemma_raw_fits(q_mul(blue3@, bloom@).n, q_mul(blue3@, bloom@).d);
        }
    }
    let red = match red3.mul(bloom) {
        Some(v) => v,
        None => {
            return None;
        },
    };
    let blue = match blue3.mul(bloom) {
        Some(v) => v,
        None => {
            return None;
        },
    };
    proof {
        assert(q_wf(q_clamp(red_raw(qt, qmin, qmax), q_zero(), q_int(3))));
        assert(q_wf(q_clamp(blue_raw(qt, qmin, qmax), q_zero(), q_int(3))));
        lemma_q_mul_congr(
            red3@,
            bloom@,
            q_clamp(red_raw(qt, qmin, qmax), q_zero(), q_int(3)),
            gbloom,
        );
        lemma_q_mul_congr(
            blue3@,
            bloom@,
            q_clamp(blue_raw(qt, qmin, qmax), q_zero(), q_int(3)),
            gbloom,
        );
        lemma_q_ops_wf(red3@, bloom@);
        lemma_q_ops_wf(blue3@, bloom@);
        lemma_q_ops_wf(q_clamp(red_raw(qt, qmin, qmax), q_zero(), q_int(3)), gbloom);
        lemma_q_ops_wf(q_clamp(blue_raw(qt, qmin, qmax), q_zero(), q_int(3)), gbloom);
        lemma_q_eq_trans(red@, q_mul(red3@, bloom@), red_channel_bloom(qt, qmin, qmax));
        lemma_q_eq_trans(blue@, q_mul(blue3@, bloom@), blue_channel_bloom(qt, qmin, qmax));
    }
    Some(ColorWeights { red, blue })
}

/// The color channels are well-formed rationals for any well-formed
/// scalar and nonempty range.
pub proof fn lemma_channels_wf(v: Q, min: Q, max: Q)
    requires
        q_wf(v),
        q_wf(min),
        q_wf(max),
        q_lt(min, max),
    ensures
        q_wf(red_channel(v, min, max)),
        q_wf(blue_channel(v, min, max)),
        q_wf(red_channel_bloom(v, min, max)),
        q_wf(blue_channel_bloom(v, min, max)),
{
    let med = median_q(min, max);
    lemma_median_between(min, max);
    lemma_q_ops_wf(v, med);
    lemma_q_ops_wf(max, med);
    lemma_q_ops_wf(med, v);
    lemma_q_ops_wf(med, min);
    assert(q_sub(max, med).n > 0);
    assert(q_sub(med, min).n > 0);
    lemma_q_ops_wf(q_sub(v, med), q_sub(max, med));
    lemma_q_ops_wf(q_sub(med, v), q_sub(med, min));
    let hr = half_range(min, max);
    lemma_q_ops_wf(max, min);
    lemma_q_ops_wf(q_sub(max, min), q_int(2));
    assert(q_sub(max, min).n > 0);
    assert(hr.n > 0);
    assert(q_wf(q_abs(q_sub(v, med))));
    lemma_q_ops_wf(q_abs(q_sub(v, med)), hr);
    lemma_q_ops_wf(q_int(3), distance_from_median(v, min, max));
    lemma_q_ops_wf(q_one(), q_mul(q_int(3), distance_from_median(v, min, max)));
    lemma_q_ops_wf(
        q_clamp(red_raw(v, min, max), q_zero(), q_int(3)),
        bloom_multiplier(v, min, max),
    );
    lemma_q_ops_wf(
        q_clamp(blue_raw(v, min, max), q_zero(), q_int(3)),
        bloom_multiplier(v, min, max),
    );
}

/// The color channels depend only on the value of the scalar, not on its
/// representation: equal rationals map to equal colors, in both the plain
/// and the high-dynamic-range variant.
pub proof fn lemma_channels_congr(v: Q, v2: Q, min: Q, max: Q)
    requires
        q_wf(v),
        q_wf(v2),
        q_wf(min),
        q_wf(max),
        q_lt(min, max),
        q_eq(v, v2),
    ensures
        q_eq(red_channel(v, min, max), red_channel(v2, min, max)),
        q_eq(blue_channel(v, min, max), blue_channel(v2, min, max)),
        q_eq(red_channel_bloom(v, min, max), red_channel_bloom(v2, min, max)),
        q_eq(blue_channel_bloom(v, min, max), blue_channel_bloom(v2, min, max)),
{
    let med = median_q(min, max);
    lemma_median_between(min, max);
    lemma_q_ops_wf(v, med);
    lemma_q_ops_wf(v2, med);
    lemma_q_ops_wf(max, med);
    lemma_q_ops_wf(med, v);
    lemma_q_ops_wf(med, v2);
    lemma_q_ops_wf(med, min);
    assert(q_sub(max, med).n > 0);
    assert(q_sub(med, min).n > 0);
    lemma_q_add_congr(v, med, v2, med);
    lemma_q_add_congr(med, v, med, v2);
    lemma_q_div_congr(q_sub(v, med), q_sub(max, med), q_sub(v2, med), q_sub(max, med));
    lemma_q_div_congr(q_sub(med, v), q_sub(med, min), q_sub(med, v2), q_sub(med, min));
    lemma_q_ops_wf(q_sub(v, med), q_sub(max, med));
    lemma_q_ops_wf(q_sub(v2, med), q_sub(max, med));
    lemma_q_ops_wf(q_sub(med, v), q_sub(med, min));
    lemma_q_ops_wf(q_sub(med, v2), q_sub(med, min));
    lemma_q_cmp_congr(red_raw(v, min, max), q_zero(), red_raw(v2, min, max), q_zero());
    lemma_q_cmp_congr(q_one(), red_raw(v, min, max), q_one(), red_raw(v2, min, max));
    lemma_q_cmp_congr(q_int(3), red_raw(v, min, max), q_int(3), red_raw(v2, min, max));
    lemma_q_cmp_congr(blue_raw(v, min, max), q_zero(), blue_raw(v2, min, max), q_zero());
    lemma_q_cmp_congr(q_one(), blue_raw(v, min, max), q_one(), blue_raw(v2, min, max));
    lemma_q_cmp_congr(q_int(3), blue_raw(v, min, max), q_int(3), blue_raw(v2, min, max));
    assert(q_eq(red_channel(v, min, max), red_channel(v2, min, max)));
    assert(q_eq(blue_channel(v, min, max), blue_channel(v2, min, max)));
    let cr = q_clamp(red_raw(v, min, max), q_zero(), q_int(3));
    let cr2 = q_clamp(red_raw(v2, min, max), q_zero(), q_int(3));
    let cb = q_clamp(blue_raw(v, min, max), q_zero(), q_int(3));
    let cb2 = q_clamp(blue_raw(v2, min, max), q_zero(), q_int(3));
    assert(q_eq(cr, cr2) && q_wf(cr) && q_wf(cr2));
    assert(q_eq(cb, cb2) && q_wf(cb) && q_wf(cb2));
    let hr = half_range(min, max);
    lemma_q_ops_wf(max, min);
    lemma_q_ops_wf(q_sub(max, min), q_int(2));
    assert(q_sub(max, min).n > 0);
    assert(hr.n > 0);
    lemma_q_abs_congr(q_sub(v, med), q_sub(v2, med));
    assert(q_wf(q_abs(q_sub(v, med))) && q_wf(q_abs(q_sub(v2, med))));
    lemma_q_div_congr(q_abs(q_sub(v, med)), hr, q_abs(q_sub(v2, med)), hr);
    lemma_q_ops_wf(q_abs(q_sub(v, med)), hr);
    lemma_q_ops_wf(q_abs(q_sub(v2, med)), hr);
    let dfm = distance_from_median(v, min, max);
    let dfm2 = distance_from_median(v2, min, max);
    lemma_q_mul_congr(q_int(3), dfm, q_int(3), dfm2);
    lemma_q_ops_wf(q_int(3), dfm);
    lemma_q_ops_wf(q_int(3), dfm2);
    lemma_q_add_congr(q_one(), q_mul(q_int(3), dfm), q_one(), q_mul(q_int(3), dfm2));
    lemma_q_ops_wf(q_one(), q_mul(q_int(3), dfm));
    lemma_q_ops_wf(q_one(), q_mul(q_int(3), dfm2));
    lemma_q_mul_congr(cr, bloom_multiplier(v, min, max), cr2, bloom_multiplier(v2, min, max));
    lemma_q_mul_congr(cb, bloom_multiplier(v, min, max), cb2, bloom_multiplier(v2, min, max));
}

/// A value exactly at the median maps to black: both channels are zero.
pub proof fn lemma_color_at_median(value: Q, min: Q, max: Q)
    requires
        q_wf(value),
        q_wf(min),
        q_wf(max),
        q_lt(min, max),
        q_eq(value, median_q(min, max)),
    ensures
        q_eq(red_channel(value, min, max), q_zero()),
        q_eq(blue_channel(value, min, max), q_zero()),
{
    let med = median_q(min, max);
    lemma_median_between(min, max);
    let rnum = q_sub(value, med);
    let rden = q_sub(max, med);
    lemma_q_ops_wf(value, med);
    lemma_q_ops_wf(max, med);
    assert(rnum.n == 0);
    assert(rden.n > 0);
    lemma_q_mul_zero(crate::rat::q_inv(rden), rnum);
    lemma_q_ops_wf(rnum, rden);
    assert(red_raw(value, min, max).n == 0);
    assert(q_eq(red_channel(value, min, max), q_zero()));
    let bnum = q_sub(med, value);
    let bden = q_sub(med, min);
    lemma_q_ops_wf(med, value);
    lemma_q_ops_wf(med, min);
    assert(bnum.n == 0);
    assert(bden.n > 0);
    lemma_q_mul_zero(crate::rat::q_inv(bden), bnum);
    lemma_q_ops_wf(bnum, bden);
    assert(blue_raw(value, min, max).n == 0);
    assert(q_eq(blue_channel(value, min, max), q_zero()));
}

/// Values at or beyond the range bounds saturate: at or below the
/// minimum the color is pure blue, at or above the maximum pure red.
pub proof fn lemma_color_saturates(value: Q, min: Q, max: Q)
    requires
        q_wf(value),
        q_wf(min),
        q_wf(max),
        q_lt(min, max),
    ensures
        q_le(value, min) ==> q_eq(blue_channel(value, min, max), q_one()) && q_eq(
            red_channel(value, min, max),
            q_zero(),
        ),
        q_le(max, value) ==> q_eq(red_channel(value, min, max), q_one()) && q_eq(
            blue_channel(value, min, max),
            q_zero(),
        ),
{
    let med = median_q(min, max);
    lemma_median_between(min, max);
    let rnum = q_sub(value, med);
    let rden = q_sub(max, med);
    let bnum = q_sub(med, value);
    let bden = q_sub(med, min);
    lemma_q_ops_wf(value, med);
    lemma_q_ops_wf(max, med);
    lemma_q_ops_wf(med, value);
    lemma_q_ops_wf(med, min);
    assert(rden.n > 0);
    assert(bden.n > 0);
    lemma_q_ops_wf(rnum, rden);
    lemma_q_ops_wf(bnum, bden);
    if q_le(value, min) {
        lemma_q_order_trans(value, min, med);
        assert(rnum.n < 0);
        assert(red_raw(value, min, max).n < 0) by (nonlinear_arith)
            requires
                red_raw(value, min, max).n == rnum.n * rden.d,
                rnum.n < 0,
                rden.d > 0,
        ;
        assert(q_lt(red_raw(value, min, max), q_zero()));
        assert(q_eq(red_channel(value, min, max), q_zero()));
        lemma_q_sub_mono(med, value, min);
        assert(q_le(q_one(), blue_raw(value, min, max))) by (nonlinear_arith)
            requires
                blue_raw(value, min, max).n == bnum.n * bden.d,
                blue_raw(value, min, max).d == bnum.d * bden.n,
                q_le(bden, bnum),
                bnum.d > 0,
                bden.n > 0,
                bden.d > 0,
        ;
        assert(q_eq(blue_channel(value, min, max), q_one()));
    }
    if q_le(max, value) {
        lemma_q_order_trans(med, max, value);
        assert(bnum.n < 0);
        assert(blue_raw(value, min, max).n < 0) by (nonlinear_arith)
            requires
                blue_raw(value, min, max).n == bnum.n * bden.d,
                bnum.n < 0,
                bden.d > 0,
        ;
        assert(q_lt(blue_raw(value, min, max), q_zero()));
        assert(q_eq(blue_channel(value, min, max), q_zero()));
        lemma_q_sub_mono_left(max, value, med);
        assert(q_le(q_one(), red_raw(value, min, max))) by (nonlinear_arith)
            requires
                red_raw(value, min, max).n == rnum.n * rden.d,
                red_raw(value, min, max).d == rnum.d * rden.n,
                q_le(rden, rnum),
                rnum.d > 0,
                rden.n > 0,
                rden.d > 0,
        ;
        assert(q_eq(red_channel(value, min, max), q_one()));
    }
}

} // verus!
