//! Inverse-distance aggregation: reducing a window of neighboring samples
//! to one scalar, and coloring the probe from it.

use vstd::prelude::*;
use crate::rat::{
    Rat, Q, q_wf, q_eq, q_le, q_lt, q_zero, q_one, q_add, q_div, abs_i, lemma_q_eq_trans,
    lemma_q_add_congr, lemma_q_div_congr, lemma_q_ops_wf, lemma_q_add_zero, lemma_q_add_pos,
    lemma_raw_fits, lemma_norm_bounds, lemma_q_eq_sign,
};
use crate::coordinate::{GameCoor, GridCoor, GridStep, clamp_idx, compute_distance, coord_ok};
use crate::grid::{Grid, node_dist_ok, field_modest};
use crate::color::{ColorWeights, compute_color, red_channel, blue_channel, lemma_channels_wf,
    lemma_channels_congr};

verus! {

/// The coincidence threshold: a sample closer than one tenth of a world
/// unit short-circuits the aggregation.
pub open spec fn q_tenth() -> Q {
    Q { n: 1, d: 10 }
}

/// Sum of `value / distance` over the samples, left to right.
pub open spec fn idw_num(s: Seq<(Rat, Rat)>) -> Q
    decreases s.len(),
{
    if s.len() == 0 {
        q_zero()
    } else {
        q_add(idw_num(s.drop_last()), q_div(s.last().0@, s.last().1@))
    }
}

/// Sum of `1 / distance` over the samples, left to right.
pub open spec fn idw_den(s: Seq<(Rat, Rat)>) -> Q
    decreases s.len(),
{
    if s.len() == 0 {
        q_zero()
    } else {
        q_add(idw_den(s.drop_last()), q_div(q_one(), s.last().1@))
    }
}

/// The inverse-distance weighted mean of the samples:
/// `sum(v_i / d_i) / sum(1 / d_i)`.
pub open spec fn idw_mean(s: Seq<(Rat, Rat)>) -> Q {
    q_div(idw_num(s), idw_den(s))
}

/// Index of the first sample closer than the threshold, scanning from
/// `k`; the length when there is none.
pub open spec fn first_close_from(s: Seq<(Rat, Rat)>, k: int) -> int
    decreases s.len() - k,
{
    if k < 0 || k >= s.len() {
        s.len() as int
    } else if q_lt(s[k].1@, q_tenth()) {
        k
    } else {
        first_close_from(s, k + 1)
    }
}

pub open spec fn samples_wf(s: Seq<(Rat, Rat)>) -> bool {
    forall|i: int| 0 <= i < s.len() ==> (#[trigger] s[i]).0.wf() && s[i].1.wf()
}

/// Samples inside the guaranteed aggregation domain: values with
/// numerators within `10^5` over at most hundredths, distances with
/// numerators within `1000` over at most hundredths.
pub open spec fn samples_modest(s: Seq<(Rat, Rat)>) -> bool {
    forall|i: int|
        0 <= i < s.len() ==> abs_i((#[trigger] s[i]).0@.n) <= 100000 && s[i].0@.d <= 100
            && abs_i(s[i].1@.n) <= 1000 && s[i].1@.d <= 100
}

/// Samples small enough that the aggregated mean itself stays a modest
/// color input: values with numerators within `10^4` over at most tenths,
/// distances held as whole units between `1` and `10`.
pub open spec fn samples_tiny(s: Seq<(Rat, Rat)>) -> bool {
    forall|i: int|
        0 <= i < s.len() ==> abs_i((#[trigger] s[i]).0@.n) <= 10000 && s[i].0@.d <= 10 && s[i].1@.d
            == 1 && 1 <= s[i].1@.n <= 10
}

/// Scanning past a stretch without close samples does not change the
/// first close index.
proof fn lemma_first_close_skip(s: Seq<(Rat, Rat)>, k: int, i: int)
    requires
        0 <= k <= i <= s.len(),
        forall|j: int| k <= j < i ==> !q_lt((#[trigger] s[j]).1@, q_tenth()),
    ensures
        first_close_from(s, k) == first_close_from(s, i),
    decreases i - k,
{
    if k < i {
        lemma_first_close_skip(s, k + 1, i);
    }
}

/// Well-formedness and positivity of the weighted sums when every
/// distance is at or above the threshold.
proof fn lemma_idw_props(s: Seq<(Rat, Rat)>)
    requires
        samples_wf(s),
        forall|i: int| 0 <= i < s.len() ==> q_le(q_tenth(), (#[trigger] s[i]).1@),
    ensures
        q_wf(idw_num(s)),
        q_wf(idw_den(s)),
        q_le(q_zero(), idw_den(s)),
        s.len() > 0 ==> q_lt(q_zero(), idw_den(s)),
    decreases s.len(),
{
    if s.len() > 0 {
        let pre = s.drop_last();
        assert forall|i: int| 0 <= i < pre.len() implies (#[trigger] pre[i]).0.wf()
            && pre[i].1.wf() && q_le(q_tenth(), pre[i].1@) by {
            assert(pre[i] == s[i]);
        }
        lemma_idw_props(pre);
        let v = s.last().0;
        let d = s.last().1;
        assert(d@.n >= 1);
        lemma_q_ops_wf(v@, d@);
        lemma_q_ops_wf(q_one(), d@);
        lemma_q_ops_wf(idw_num(pre), q_div(v@, d@));
        lemma_q_ops_wf(idw_den(pre), q_div(q_one(), d@));
        assert(q_lt(q_zero(), q_div(q_one(), d@)));
        lemma_q_add_pos(idw_den(pre), q_div(q_one(), d@));
    }
}

/// Reduces a non-empty window of `(value, distance)` samples to one
/// scalar.  The first sample closer than one tenth of a unit
/// short-circuits, whatever the other entries hold: its value is returned
/// as is (the query point is standing on that sample).  Otherwise the
/// result is the inverse-distance weighted mean; `None` can arise only on
/// that path, when an intermediate rational leaves the `i64` range.  Up
/// to two modest samples (see [`samples_modest`]) always aggregate; a
/// wider window of samples with unrelated denominators can have a mean
/// with no `i64` representation at all, so no general guarantee exists.
pub fn aggregate_neighbors(samples: &Vec<(Rat, Rat)>) -> (r: Option<Rat>)
    requires
        samples@.len() >= 1,
        samples_wf(samples@),
    ensures
        ({
            let fc = first_close_from(samples@, 0);
            &&& fc < samples@.len() ==> (r matches Some(v) && v == samples@[fc].0)
            &&& fc == samples@.len() ==> (r matches Some(v) ==> v.wf() && q_eq(
                v@,
                idw_mean(samples@),
            ))
        }),
        (samples_modest(samples@) && samples@.len() <= 2) ==> r is Some,
        (samples_tiny(samples@) && samples@.len() == 1) ==> (r matches Some(v) ==> abs_i(v@.n)
            <= 100000 && v@.d <= 100),
{
    let n = samples.len();
    let tenth = Rat::new(1, 10);
    let mut i: usize = 0;
    while i < n
        invariant
            i <= n,
            n == samples@.len(),
            samples_wf(samples@),
            tenth@ == q_tenth(),
            forall|j: int| 0 <= j < i ==> !q_lt((#[trigger] samples@[j]).1@, q_tenth()),
        decreases n - i,
    {
        let d = samples[i].1;
        if d.lt(tenth) {
            proof {
                lemma_first_close_skip(samples@, 0, i as int);
            }
            return Some(samples[i].0);
        }
        i = i + 1;
    }
    proof {
        lemma_first_close_skip(samples@, 0, n as int);
    }
    let mut num_acc = Rat::zero();
    let mut den_acc = Rat::zero();
    let mut k: usize = 0;
    proof {
        assert(samples@.take(0) =~= Seq::<(Rat, Rat)>::empty());
    }
    while k < n
        invariant
            k <= n,
            n == samples@.len(),
            samples_wf(samples@),
            forall|j: int| 0 <= j < n ==> q_le(q_tenth(), (#[trigger] samples@[j]).1@),
            num_acc.wf(),
            den_acc.wf(),
            q_eq(num_acc@, idw_num(samples@.take(k as int))),
            q_eq(den_acc@, idw_den(samples@.take(k as int))),
            first_close_from(samples@, 0) == samples@.len(),
            samples_modest(samples@) && n <= 2 ==> {
                &&& k == 0 ==> num_acc@ == q_zero() && den_acc@ == q_zero()
                &&& k == 1 ==> abs_i(num_acc@.n) <= 10000000 && num_acc@.d <= 100000 && abs_i(
                    den_acc@.n,
                ) <= 100 && den_acc@.d <= 1000
                &&& k == 2 ==> abs_i(num_acc@.n) <= 2000000000000 && num_acc@.d <= 10000000000
                    && abs_i(den_acc@.n) <= 200000 && den_acc@.d <= 1000000
            },
            samples_tiny(samples@) && n == 1 && k == 1 ==> abs_i(num_acc@.n) <= 10000
                && num_acc@.d <= 100 && abs_i(den_acc@.n) <= 1 && den_acc@.d <= 10,
        decreases n - k,
    {
        let (v, d) = samples[k];
        let ghost pre = samples@.take(k as int);
        let ghost post = samples@.take(k as int + 1);
        proof {
            assert forall|j: int| 0 <= j < pre.len() implies (#[trigger] pre[j]).0.wf()
                && pre[j].1.wf() && q_le(q_tenth(), pre[j].1@) by {
                assert(pre[j] == samples@[j]);
            }
            lemma_idw_props(pre);
            assert(d@.n >= 1);
            lemma_q_ops_wf(v@, d@);
            lemma_q_ops_wf(q_one(), d@);
            if samples_modest(samples@) && n <= 2 {
                assert(abs_i(v@.n) <= 100000 && v@.d <= 100 && abs_i(d@.n) <= 1000 && d@.d
                    <= 100);
                assert(crate::rat::q_inv(d@) == (Q { n: d@.d, d: d@.n }));
                assert(q_div(v@, d@) == (Q { n: v@.n * d@.d, d: v@.d * d@.n }));
                assert(q_div(q_one(), d@) == (Q { n: 1 * d@.d, d: 1 * d@.n }));
                assert(abs_i(q_div(v@, d@).n) <= 10000000 && 1 <= q_div(v@, d@).d <= 100000)
                    by (nonlinear_arith)
                    requires
                        q_div(v@, d@) == (Q { n: v@.n * d@.d, d: v@.d * d@.n }),
                        abs_i(v@.n) <= 100000,
                        1 <= v@.d <= 100,
                        1 <= d@.n <= 1000,
                        1 <= d@.d <= 100,
                ;
                assert(abs_i(q_div(q_one(), d@).n) <= 100 && 1 <= q_div(q_one(), d@).d <= 1000);
                lemma_raw_fits(q_div(v@, d@).n, q_div(v@, d@).d);
                lemma_raw_fits(q_div(q_one(), d@).n, q_div(q_one(), d@).d);
            }
        }
        let vd = match v.div(d) {
            Some(x) => x,
            None => {
                return None;
            },
        };
        let od = match Rat::one().div(d) {
            Some(x) => x,
            None => {
                return None;
            },
        };
        proof {
            if samples_modest(samples@) && n <= 2 {
                lemma_norm_bounds(q_div(v@, d@).n, q_div(v@, d@).d);
                lemma_norm_bounds(q_div(q_one(), d@).n, q_div(q_one(), d@).d);
                assert(abs_i(vd@.n) <= 10000000 && 1 <= vd@.d <= 100000);
                assert(abs_i(od@.n) <= 100 && 1 <= od@.d <= 1000);
                assert(abs_i(num_acc@.n) <= 10000000 && 1 <= num_acc@.d <= 100000);
                assert(abs_i(den_acc@.n) <= 100 && 1 <= den_acc@.d <= 1000);
                assert(abs_i(q_add(num_acc@, vd@).n) <= 2000000000000 && 1 <= q_add(
                    num_acc@,
                    vd@,
                ).d <= 10000000000) by (nonlinear_arith)
                    requires
                        abs_i(num_acc@.n) <= 10000000,
                        1 <= num_acc@.d <= 100000,
                        abs_i(vd@.n) <= 10000000,
                        1 <= vd@.d <= 100000,
                ;
                assert(abs_i(q_add(den_acc@, od@).n) <= 200000 && 1 <= q_add(den_acc@, od@).d
                    <= 1000000) by (nonlinear_arith)
                    requires
                        abs_i(den_acc@.n) <= 100,
                        1 <= den_acc@.d <= 1000,
                        abs_i(od@.n) <= 100,
                        1 <= od@.d <= 1000,
                ;
                lemma_raw_fits(q_add(num_acc@, vd@).n, q_add(num_acc@, vd@).d);
                lemma_raw_fits(q_add(den_acc@, od@).n, q_add(den_acc@, od@).d);
            }
        }
        let new_num = match num_acc.add(vd) {
            Some(x) => x,
            None => {
                return None;
            },
        };
        let new_den = match den_acc.add(od) {
            Some(x) => x,
            None => {
                return None;
            },
        };
        proof {
            assert(post.drop_last() =~= pre);
            assert(post.last() == samples@[k as int]);
            lemma_q_add_congr(num_acc@, vd@, idw_num(pre), q_div(v@, d@));
            lemma_q_add_congr(den_acc@, od@, idw_den(pre), q_div(q_one(), d@));
            lemma_q_ops_wf(num_acc@, vd@);
            lemma_q_ops_wf(idw_num(pre), q_div(v@, d@));
            lemma_q_ops_wf(den_acc@, od@);
            lemma_q_ops_wf(idw_den(pre), q_div(q_one(), d@));
            lemma_q_eq_trans(new_num@, q_add(num_acc@, vd@), idw_num(post));
            lemma_q_eq_trans(new_den@, q_add(den_acc@, od@), idw_den(post));
            if samples_modest(samples@) && n <= 2 {
                lemma_norm_bounds(q_add(num_acc@, vd@).n, q_add(num_acc@, vd@).d);
                lemma_norm_bounds(q_add(den_acc@, od@).n, q_add(den_acc@, od@).d);
                if k == 0 {
                    assert(abs_i(q_add(num_acc@, vd@).n) <= 10000000 && q_add(num_acc@, vd@).d
                        <= 100000) by (nonlinear_arith)
                        requires
                            num_acc@.n == 0,
                            num_acc@.d == 1,
                            abs_i(vd@.n) <= 10000000,
                            1 <= vd@.d <= 100000,
                    ;
                    assert(abs_i(q_add(den_acc@, od@).n) <= 100 && q_add(den_acc@, od@).d
                        <= 1000) by (nonlinear_arith)
                        requires
                            den_acc@.n == 0,
                            den_acc@.d == 1,
                            abs_i(od@.n) <= 100,
                            1 <= od@.d <= 1000,
                    ;
                    assert(abs_i(new_num@.n) <= 10000000 && new_num@.d <= 100000);
                    assert(abs_i(new_den@.n) <= 100 && new_den@.d <= 1000);
                } else {
                    assert(abs_i(new_num@.n) <= 2000000000000 && new_num@.d <= 10000000000);
                    assert(abs_i(new_den@.n) <= 200000 && new_den@.d <= 1000000);
                }
            }
            if samples_tiny(samples@) && n == 1 {
                assert(abs_i(v@.n) <= 10000 && v@.d <= 10 && d@.d == 1 && 1 <= d@.n <= 10);
                assert(abs_i(q_div(v@, d@).n) <= 10000 && 1 <= q_div(v@, d@).d <= 100)
                    by (nonlinear_arith)
                    requires
                        q_div(v@, d@) == (Q { n: v@.n * d@.d, d: v@.d * d@.n }),
                        abs_i(v@.n) <= 10000,
                        1 <= v@.d <= 10,
                        d@.d == 1,
                        1 <= d@.n <= 10,
                ;
                assert(q_div(q_one(), d@) == (Q { n: 1, d: d@.n }));
                lemma_norm_bounds(q_div(v@, d@).n, q_div(v@, d@).d);
                lemma_norm_bounds(q_div(q_one(), d@).n, q_div(q_one(), d@).d);
                assert(abs_i(vd@.n) <= 10000 && 1 <= vd@.d <= 100);
                assert(abs_i(od@.n) <= 1 && 1 <= od@.d <= 10);
                assert(abs_i(q_add(num_acc@, vd@).n) <= 10000 && q_add(num_acc@, vd@).d <= 100)
                    by (nonlinear_arith)
                    requires
                        num_acc@.n == 0,
                        num_acc@.d == 1,
                        abs_i(vd@.n) <= 10000,
                        1 <= vd@.d <= 100,
                ;
                assert(abs_i(q_add(den_acc@, od@).n) <= 1 && q_add(den_acc@, od@).d <= 10)
                    by (nonlinear_arith)
                    requires
                        den_acc@.n == 0,
                        den_acc@.d == 1,
                        abs_i(od@.n) <= 1,
                        1 <= od@.d <= 10,
                ;
                lemma_norm_bounds(q_add(num_acc@, vd@).n, q_add(num_acc@, vd@).d);
                lemma_norm_bounds(q_add(den_acc@, od@).n, q_add(den_acc@, od@).d);
                assert(abs_i(new_num@.n) <= 10000 && new_num@.d <= 100);
                assert(abs_i(new_den@.n) <= 1 && new_den@.d <= 10);
            }
        }
        num_acc = new_num;
        den_acc = new_den;
        k = k + 1;
    }
    proof {
        assert(samples@.take(n as int) =~= samples@);
        lemma_idw_props(samples@);
        assert(den_acc@.n != 0) by (nonlinear_arith)
            requires
                q_eq(den_acc@, idw_den(samples@)),
                den_acc@.d >= 1,
                q_wf(idw_den(samples@)),
                q_lt(q_zero(), idw_den(samples@)),
        ;
        if samples_modest(samples@) && n <= 2 {
            lemma_q_eq_sign(den_acc@, idw_den(samples@));
            assert(den_acc@.n >= 1);
            assert(abs_i(num_acc@.n) <= 2000000000000 && 1 <= num_acc@.d <= 10000000000);
            assert(abs_i(den_acc@.n) <= 200000 && 1 <= den_acc@.d <= 1000000);
            assert(crate::rat::q_inv(den_acc@) == (Q { n: den_acc@.d, d: den_acc@.n }));
            assert(q_div(num_acc@, den_acc@) == (Q {
                n: num_acc@.n * den_acc@.d,
                d: num_acc@.d * den_acc@.n,
            }));
            assert(abs_i(q_div(num_acc@, den_acc@).n) <= 2000000000000000000 && 1 <= q_div(
                num_acc@,
                den_acc@,
            ).d <= 2000000000000000) by (nonlinear_arith)
                requires
                    q_div(num_acc@, den_acc@) == (Q {
                        n: num_acc@.n * den_acc@.d,
                        d: num_acc@.d * den_acc@.n,
                    }),
                    abs_i(num_acc@.n) <= 2000000000000,
                    1 <= num_acc@.d <= 10000000000,
                    1 <= den_acc@.n <= 200000,
                    1 <= den_acc@.d <= 1000000,
            ;
            lemma_raw_fits(q_div(num_acc@, den_acc@).n, q_div(num_acc@, den_acc@).d);
        }
        if samples_tiny(samples@) && n == 1 {
            assert(abs_i(num_acc@.n) <= 10000 && 1 <= num_acc@.d <= 100);
            assert(abs_i(den_acc@.n) <= 1 && 1 <= den_acc@.d <= 10);
            assert(abs_i(q_div(num_acc@, den_acc@).n) <= 100000 && 1 <= q_div(
                num_acc@,
                den_acc@,
            ).d <= 100) by (nonlinear_arith)
                requires
                    q_div(num_acc@, den_acc@) == (Q {
                        n: num_acc@.n * den_acc@.d,
                        d: num_acc@.d * den_acc@.n,
                    }),
                    abs_i(num_acc@.n) <= 10000,
                    1 <= num_acc@.d <= 100,
                    1 <= den_acc@.n <= 1,
                    1 <= den_acc@.d <= 10,
            ;
        }
    }
    let out = match num_acc.div(den_acc) {
        Some(x) => x,
        None => {
            return None;
        },
    };
    proof {
        lemma_q_div_congr(num_acc@, den_acc@, idw_num(samples@), idw_den(samples@));
        lemma_q_ops_wf(num_acc@, den_acc@);
        lemma_q_ops_wf(idw_num(samples@), idw_den(samples@));
        lemma_q_eq_trans(out@, q_div(num_acc@, den_acc@), idw_mean(samples@));
        if samples_tiny(samples@) && n == 1 {
            lemma_norm_bounds(q_div(num_acc@, den_acc@).n, q_div(num_acc@, den_acc@).d);
            assert(abs_i(out@.n) <= 100000 && out@.d <= 100);
        }
    }
    Some(out)
}

/// A single sample at or beyond the threshold aggregates to exactly its
/// own value: `(v/d) / (1/d) == v`.
pub proof fn lemma_single_sample_mean(v: Rat, d: Rat)
    requires
        v.wf(),
        d.wf(),
        q_le(q_tenth(), d@),
    ensures
        q_eq(idw_mean(seq![(v, d)]), v@),
{
    let s = seq![(v, d)];
    assert(s.len() == 1);
    assert(s.last() == (v, d));
    assert(s.drop_last().len() == 0);
    assert(idw_num(s.drop_last()) == q_zero());
    assert(idw_den(s.drop_last()) == q_zero());
    assert(d@.n >= 1);
    lemma_q_ops_wf(v@, d@);
    lemma_q_ops_wf(q_one(), d@);
    let a = q_div(v@, d@);
    let b = q_div(q_one(), d@);
    assert(idw_num(s) == q_add(q_zero(), a));
    assert(idw_den(s) == q_add(q_zero(), b));
    lemma_q_add_zero(a, q_zero());
    lemma_q_add_zero(b, q_zero());
    assert(q_eq(idw_num(s), a));
    assert(q_eq(idw_den(s), b));
    assert(idw_den(s).n == b.n * 1 + 0 * b.d);
    assert(b.n == 1 * d@.d);
    assert(idw_den(s).n != 0);
    lemma_q_div_congr(idw_num(s), idw_den(s), a, b);
    lemma_q_ops_wf(idw_num(s), idw_den(s));
    lemma_q_ops_wf(a, b);
    assert(q_eq(q_div(a, b), v@)) by (nonlinear_arith)
        requires
            q_wf(v@),
            q_wf(d@),
            d@.n >= 1,
            a == q_div(v@, d@),
            b == q_div(q_one(), d@),
    ;
    lemma_q_eq_trans(idw_mean(s), q_div(a, b), v@);
}

/// One sampled neighbor of the probe: its precomputed node color, its
/// distance from the probe, and its temperature.
#[derive(Clone, Copy, Debug)]
pub struct NearCube {
    pub color: ColorWeights,
    pub distance: Rat,
    pub temperature: Rat,
}

impl NearCube {
    pub open spec fn wf(self) -> bool {
        &&& self.color.wf()
        &&& self.distance.wf()
        &&& self.temperature.wf()
    }

    pub fn new(color: ColorWeights, distance: Rat, temperature: Rat) -> (r: NearCube)
        requires
            color.wf(),
            distance.wf(),
            temperature.wf(),
        ensures
            r.wf(),
            r == (NearCube { color, distance, temperature }),
    {
        NearCube { color, distance, temperature }
    }
}

/// The `(temperature, distance)` pairs of a neighbor list.
pub open spec fn cube_pairs(s: Seq<NearCube>) -> Seq<(Rat, Rat)> {
    Seq::new(s.len(), |i: int| (s[i].temperature, s[i].distance))
}

/// Exactly one neighbor, small enough that its aggregated mean stays a
/// modest color input: temperature within `10^4` over at most tenths,
/// distance held as a whole unit between `1` and `10`.
pub open spec fn single_tiny_neighbor(s: Seq<NearCube>) -> bool {
    &&& s.len() == 1
    &&& abs_i(s[0].temperature@.n) <= 10000
    &&& s[0].temperature@.d <= 10
    &&& s[0].distance@.d == 1
    &&& 1 <= s[0].distance@.n <= 10
}

/// Colors the probe from its sampled neighbors.  A neighbor closer than
/// one tenth of a unit wins outright and hands over its stored color;
/// otherwise the neighbors' temperatures are reduced to their
/// inverse-distance weighted mean and that mean is colored for the given
/// range.  `None` can arise only on the mean path, when an intermediate
/// rational leaves the `i64` range; a single tiny neighbor at unit
/// distance (see [`samples_tiny`]) is always colored.
pub fn cube_color(min_max: (Rat, Rat), near_cubes: &Vec<NearCube>) -> (r: Option<ColorWeights>)
    requires
        min_max.0.wf(),
        min_max.1.wf(),
        q_lt(min_max.0@, min_max.1@),
        near_cubes@.len() >= 1,
        forall|i: int| 0 <= i < near_cubes@.len() ==> (#[trigger] near_cubes@[i]).wf(),
    ensures
        ({
            let pairs = cube_pairs(near_cubes@);
            let fc = first_close_from(pairs, 0);
            &&& fc < pairs.len() ==> (r matches Some(c) && c == near_cubes@[fc].color)
            &&& fc == pairs.len() ==> (r matches Some(c) ==> c.wf() && q_eq(
                c.red@,
                red_channel(idw_mean(pairs), min_max.0@, min_max.1@),
            ) && q_eq(c.blue@, blue_channel(idw_mean(pairs), min_max.0@, min_max.1@)))
        }),
        (single_tiny_neighbor(near_cubes@) && crate::color::color_input_modest(min_max.0@)
            && crate::color::color_input_modest(min_max.1@)) ==> r is Some,
{
    let ghost pairs = cube_pairs(near_cubes@);
    let n = near_cubes.len();
    let tenth = Rat::new(1, 10);
    let mut i: usize = 0;
    while i < n
        invariant
            i <= n,
            n == near_cubes@.len(),
            pairs == cube_pairs(near_cubes@),
            tenth@ == q_tenth(),
            forall|j: int| 0 <= j < near_cubes@.len() ==> (#[trigger] near_cubes@[j]).wf(),
            forall|j: int| 0 <= j < i ==> !q_lt((#[trigger] pairs[j]).1@, q_tenth()),
        decreases n - i,
    {
        let d = near_cubes[i].distance;
        if d.lt(tenth) {
            proof {
                lemma_first_close_skip(pairs, 0, i as int);
                assert(pairs[i as int].1 == d);
            }
            return Some(near_cubes[i].color);
        }
        proof {
            assert(pairs[i as int].1 == d);
        }
        i = i + 1;
    }
    proof {
        lemma_first_close_skip(pairs, 0, n as int);
    }
    let mut pv: Vec<(Rat, Rat)> = Vec::new();
    let mut k: usize = 0;
    while k < n
        invariant
            k <= n,
            n == near_cubes@.len(),
            pv@.len() == k,
            forall|j: int|
                0 <= j < k ==> (#[trigger] pv@[j]) == (
                    near_cubes@[j].temperature,
                    near_cubes@[j].distance,
                ),
        decreases n - k,
    {
        let c = near_cubes[k];
        pv.push((c.temperature, c.distance));
        k = k + 1;
    }
    proof {
        assert(pv@ =~= pairs);
        if single_tiny_neighbor(near_cubes@) {
            assert forall|j: int|
                0 <= j < pv@.len() implies abs_i((#[trigger] pv@[j]).0@.n) <= 10000 && pv@[j].0@.d
                    <= 10 && pv@[j].1@.d == 1 && 1 <= pv@[j].1@.n <= 10 by {
                assert(pv@[j] == (near_cubes@[j].temperature, near_cubes@[j].distance));
            }
            assert(samples_tiny(pv@));
            assert forall|j: int|
                0 <= j < pv@.len() implies abs_i((#[trigger] pv@[j]).0@.n) <= 100000
                    && pv@[j].0@.d <= 100 && abs_i(pv@[j].1@.n) <= 1000 && pv@[j].1@.d <= 100 by {
            }
            assert(samples_modest(pv@));
        }
    }
    let mean = match aggregate_neighbors(&pv) {
        Some(m) => m,
        None => {
            return None;
        },
    };
    proof {
        if single_tiny_neighbor(near_cubes@) {
            assert(crate::color::color_input_modest(mean@));
        }
    }
    let col = match compute_color(min_max, mean) {
        Some(c) => c,
        None => {
            return None;
        },
    };
    proof {
        assert forall|j: int| 0 <= j < pairs.len() implies (#[trigger] pairs[j]).0.wf()
            && pairs[j].1.wf() && q_le(q_tenth(), pairs[j].1@) by {
            assert(near_cubes@[j].wf());
        }
        lemma_idw_props(pairs);
        lemma_q_ops_wf(idw_num(pairs), idw_den(pairs));
        assert(idw_den(pairs).n != 0) by (nonlinear_arith)
            requires
                q_lt(q_zero(), idw_den(pairs)),
        ;
        lemma_channels_congr(mean@, idw_mean(pairs), min_max.0@, min_max.1@);
        lemma_channels_wf(mean@, min_max.0@, min_max.1@);
        lemma_channels_wf(idw_mean(pairs), min_max.0@, min_max.1@);
        lemma_q_eq_trans(
            col.red@,
            red_channel(mean@, min_max.0@, min_max.1@),
            red_channel(idw_mean(pairs), min_max.0@, min_max.1@),
        );
        lemma_q_eq_trans(
            col.blue@,
            blue_channel(mean@, min_max.0@, min_max.1@),
            blue_channel(idw_mean(pairs), min_max.0@, min_max.1@),
        );
    }
    Some(col)
}

/// Which neighbor window to gather around the reference node.
#[derive(Clone, Copy, Debug, PartialEq, Eq, Structural)]
pub enum AdjacentCubeQuantity {
    ThreeByThree,
    FourByFour,
}

/// The lattice node that entry `k` of the gathered window refers to: the
/// reference node offset by `(k / 5 - 2, k % 5 - 2)`, clamped per axis to
/// the lattice bounds.
pub open spec fn window_coor(grid: Grid, x: int, y: int, k: int) -> GridCoor {
    GridCoor {
        x: clamp_idx(x + (k / 5 - 2), grid.width as int) as usize,
        y: clamp_idx(y + (k % 5 - 2), grid.height as int) as usize,
    }
}

/// Entry `k` of a gathered window carries the sample stored at its
/// (clamped) lattice node, a bracketed distance from the query point to
/// that node's world position, and the node's own color.
pub open spec fn near_cube_ok(
    grid: Grid,
    x: int,
    y: int,
    coor: GameCoor,
    k: int,
    c: NearCube,
) -> bool {
    let w = window_coor(grid, x, y, k);
    &&& c.wf()
    &&& c.temperature == grid.value_at(w.x as int, w.y as int)
    &&& node_dist_ok(grid, coor, w, c.distance)
    &&& q_eq(c.color.red@, red_channel(c.temperature@, grid.min@, grid.max@))
    &&& q_eq(c.color.blue@, blue_channel(c.temperature@, grid.min@, grid.max@))
}

impl Grid {
    /// Gathers the 5x5 window of lattice nodes centered on `(x, y)`:
    /// each entry holds the node's sample, its color, and the distance
    /// from `cube_coor` to the node's world position.  Offsets that leave
    /// the lattice collapse to the boundary node, so near an edge the
    /// window over-represents boundary nodes on purpose.  `None` can
    /// arise only when an intermediate rational leaves the `i64` range.
    pub fn get_near_cubes(
        &self,
        x: usize,
        y: usize,
        quantity: AdjacentCubeQuantity,
        cube_coor: &GameCoor,
    ) -> (r: Option<Vec<NearCube>>)
        requires
            self.wf(),
            cube_coor.wf(),
            x < self.width,
            y < self.height,
            quantity is ThreeByThree,
            coord_ok(cube_coor.x),
            coord_ok(cube_coor.y),
        ensures
            r matches Some(v) ==> {
                &&& v@.len() == 25
                &&& forall|k: int|
                    0 <= k < 25 ==> near_cube_ok(
                        *self,
                        x as int,
                        y as int,
                        *cube_coor,
                        k,
                        (#[trigger] v@[k]),
                    )
            },
            field_modest(*self) ==> r is Some,
    {
        let mut out: Vec<NearCube> = Vec::new();
        let mut k: usize = 0;
        while k < 25
            invariant
                k <= 25,
                out@.len() == k,
                self.wf(),
                cube_coor.wf(),
                x < self.width,
                y < self.height,
                coord_ok(cube_coor.x),
                coord_ok(cube_coor.y),
                forall|j: int|
                    0 <= j < k ==> near_cube_ok(
                        *self,
                        x as int,
                        y as int,
                        *cube_coor,
                        j,
                        (#[trigger] out@[j]),
                    ),
            decreases 25 - k,
        {
            let xr: isize = (k / 5) as isize - 2;
            let yr: isize = (k % 5) as isize - 2;
            let w = GridCoor { x, y }.step_clamped(
                GridStep { x: xr, y: yr },
                self.width,
                self.height,
            );
            proof {
                assert(w == window_coor(*self, x as int, y as int, k as int));
            }
            let temp = self.get_value(w.x, w.y).unwrap();
            let node = self.node_world(w);
            proof {
                if field_modest(*self) {
                    assert(w.x * self.height + w.y < self.values.len()) by (nonlinear_arith)
                        requires
                            w.x < self.width,
                            w.y < self.height,
                            self.values.len() == self.width * self.height,
                    ;
                    assert(crate::color::color_input_modest(
                        self.values[w.x as int * self.height + w.y]@,
                    ));
                }
            }
            let dist = compute_distance(cube_coor, &node);
            let col = match compute_color((self.min, self.max), temp) {
                Some(c) => c,
                None => {
                    return None;
                },
            };
            out.push(NearCube { color: col, distance: dist, temperature: temp });
            k = k + 1;
        }
        Some(out)
    }
}

} // verus!
