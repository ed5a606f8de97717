//! Standardized effect size (the NTI): observed statistic versus the null
//! ensemble.
//!
//! For each sample, the trials' statistics give a mean and a Bessel-corrected
//! sample variance (divisor `trials - 1`). The effect size is the z-score
//! `(observed - mean) / sqrt(variance)`; since a square root is in general
//! irrational, the result carries the exact numerator `observed - mean` and
//! the exact `variance`, and the caller finishes with one square root.
//! A zero variance is reported as `DegenerateNullVariance`, never divided by.
use vstd::prelude::*;

use crate::error::Error;
use crate::rat::{
    Q, Rat, c_add, c_div, c_from_count, c_mul, c_norm, c_sub, lemma_c_add_value,
    lemma_c_div_value, lemma_norm_zero, lemma_q_eq_trans, q_add, q_div, q_eq, q_wf, q_zero,
    rat_add, rat_div, rat_from_count, rat_mul, rat_sub,
};

verus! {

/// The two exact components of one sample's effect size:
/// `z = num / sqrt(variance)`.
#[derive(Debug)]
pub struct EffectSize {
    /// The exact numerator `observed - mean(null)`.
    pub num: Rat,
    /// The exact Bessel-corrected variance of the null ensemble; positive.
    pub variance: Rat,
}

/// The ensemble's statistics for sample `i`, summed over the first `k`
/// trials.
pub open spec fn trial_sum_upto(ens: Seq<Seq<Rat>>, i: int, k: int) -> Option<Q>
    decreases k,
{
    if k <= 0 {
        Some(q_zero())
    } else {
        match trial_sum_upto(ens, i, k - 1) {
            None => None,
            Some(acc) => c_add(acc, ens[k - 1][i]@),
        }
    }
}

pub proof fn lemma_trial_sum_none_sticks(ens: Seq<Seq<Rat>>, i: int, k: int, k2: int)
    requires
        trial_sum_upto(ens, i, k) is None,
        k <= k2,
    ensures
        trial_sum_upto(ens, i, k2) is None,
    decreases k2 - k,
{
    if k < k2 {
        lemma_trial_sum_none_sticks(ens, i, k, k2 - 1);
    }
}

/// Sum of squared deviations from `mean` for sample `i` over the first `k`
/// trials.
pub open spec fn sq_dev_sum_upto(ens: Seq<Seq<Rat>>, i: int, mean: Q, k: int) -> Option<Q>
    decreases k,
{
    if k <= 0 {
        Some(q_zero())
    } else {
        match sq_dev_sum_upto(ens, i, mean, k - 1) {
            None => None,
            Some(acc) => match c_sub(ens[k - 1][i]@, mean) {
                None => None,
                Some(d) => match c_mul(d, d) {
                    None => None,
                    Some(dd) => c_add(acc, dd),
                },
            },
        }
    }
}

pub proof fn lemma_sq_dev_none_sticks(ens: Seq<Seq<Rat>>, i: int, mean: Q, k: int, k2: int)
    requires
        sq_dev_sum_upto(ens, i, mean, k) is None,
        k <= k2,
    ensures
        sq_dev_sum_upto(ens, i, mean, k2) is None,
    decreases k2 - k,
{
    if k < k2 {
        lemma_sq_dev_none_sticks(ens, i, mean, k, k2 - 1);
    }
}

/// One sample's exact effect-size components, or the failure that stops it.
pub open spec fn nti_sample(obs: Seq<Rat>, ens: Seq<Seq<Rat>>, i: int) -> Result<(Q, Q), Error> {
    let rr = ens.len() as int;
    match trial_sum_upto(ens, i, rr) {
        None => Err(Error::ArithmeticOverflow),
        Some(s) => match c_from_count(rr) {
            None => Err(Error::ArithmeticOverflow),
            Some(cr) => match c_div(s, cr) {
                None => Err(Error::ArithmeticOverflow),
                Some(mean) => match sq_dev_sum_upto(ens, i, mean, rr) {
                    None => Err(Error::ArithmeticOverflow),
                    Some(ss) => match c_from_count(rr - 1) {
                        None => Err(Error::ArithmeticOverflow),
                        Some(cr1) => match c_div(ss, cr1) {
                            None => Err(Error::ArithmeticOverflow),
                            Some(var) => if var.n == 0 {
                                Err(Error::DegenerateNullVariance)
                            } else {
                                match c_sub(obs[i]@, mean) {
                                    None => Err(Error::ArithmeticOverflow),
                                    Some(num) => Ok((num, var)),
                                }
                            },
                        },
                    },
                },
            },
        },
    }
}

/// The effect sizes of the first `i` samples; the first failing sample
/// decides the error.
pub open spec fn nti_upto(obs: Seq<Rat>, ens: Seq<Seq<Rat>>, i: int) -> Result<
    Seq<(Q, Q)>,
    Error,
>
    decreases i,
{
    if i <= 0 {
        Ok(Seq::empty())
    } else {
        match nti_upto(obs, ens, i - 1) {
            Err(e) => Err(e),
            Ok(v) => match nti_sample(obs, ens, i - 1) {
                Err(e) => Err(e),
                Ok(p) => Ok(v.push(p)),
            },
        }
    }
}

pub proof fn lemma_nti_err_sticks(obs: Seq<Rat>, ens: Seq<Seq<Rat>>, i: int, i2: int)
    requires
        nti_upto(obs, ens, i) is Err,
        i <= i2,
    ensures
        nti_upto(obs, ens, i2) == nti_upto(obs, ens, i),
    decreases i2 - i,
{
    if i < i2 {
        lemma_nti_err_sticks(obs, ens, i, i2 - 1);
    }
}

/// The exact effect sizes of all samples.
pub open spec fn nti_spec(obs: Seq<Rat>, ens: Seq<Seq<Rat>>) -> Result<Seq<(Q, Q)>, Error> {
    nti_upto(obs, ens, obs.len() as int)
}

pub open spec fn ens_view(s: Seq<Vec<Rat>>) -> Seq<Seq<Rat>> {
    s.map_values(|v: Vec<Rat>| v@)
}

/// A prefix that evaluated cleanly had every one of its samples evaluate
/// cleanly.
pub proof fn lemma_nti_ok_sample(obs: Seq<Rat>, ens: Seq<Seq<Rat>>, i: int, k: int)
    requires
        nti_upto(obs, ens, k) is Ok,
        0 <= i < k,
    ensures
        nti_sample(obs, ens, i) is Ok,
    decreases k,
{
    if i < k - 1 {
        lemma_nti_ok_sample(obs, ens, i, k - 1);
    }
}

/// Summing `k` copies of one value gives `k` times that value.
proof fn lemma_constant_trial_sum(ens: Seq<Seq<Rat>>, i: int, v: Q, k: int)
    requires
        q_wf(v),
        forall|t: int| 0 <= t < ens.len() ==> (#[trigger] ens[t])[i]@ == v,
        0 <= k <= ens.len(),
        trial_sum_upto(ens, i, k) is Some,
    ensures
        q_wf(trial_sum_upto(ens, i, k)->Some_0),
        q_eq(trial_sum_upto(ens, i, k)->Some_0, Q { n: k * v.n, d: v.d }),
    decreases k,
{
    if k <= 0 {
        assert(q_eq(q_zero(), Q { n: 0 * v.n, d: v.d })) by (nonlinear_arith)
            requires
                v.d >= 1,
        ;
    } else {
        lemma_constant_trial_sum(ens, i, v, k - 1);
        let prev = trial_sum_upto(ens, i, k - 1)->Some_0;
        assert(ens[k - 1][i]@ == v);
        lemma_c_add_value(prev, v);
        let t = trial_sum_upto(ens, i, k)->Some_0;
        assert(q_eq(t, q_add(prev, v)));
        assert(q_eq(q_add(prev, v), Q { n: k * v.n, d: v.d })) by (nonlinear_arith)
            requires
                prev.n * v.d == (k - 1) * v.n * prev.d,
                prev.d >= 1,
                v.d >= 1,
        ;
        assert(q_wf(q_add(prev, v))) by (nonlinear_arith)
            requires
                prev.d >= 1,
                v.d >= 1,
                q_add(prev, v).d == prev.d * v.d,
        ;
        lemma_q_eq_trans(t, q_add(prev, v), Q { n: k * v.n, d: v.d });
        assert(q_wf(Q { n: k * v.n, d: v.d }));
    }
}

/// A null ensemble that is constant at some sample has zero variance there:
/// unless the arithmetic range is left first, standardization reports
/// `DegenerateNullVariance` rather than dividing by zero.
pub proof fn lemma_constant_null_degenerate(obs: Seq<Rat>, ens: Seq<Seq<Rat>>, i: int)
    requires
        ens.len() >= 2,
        0 <= i < obs.len(),
        forall|t: int| 0 <= t < ens.len() ==> (#[trigger] ens[t]).len() == obs.len(),
        forall|t: int, u: int|
            0 <= t < ens.len() && 0 <= u < ens[t].len() ==> (#[trigger] ens[t][u]).wf(),
        forall|t: int| 0 <= t < ens.len() ==> (#[trigger] ens[t])[i] == ens[0][i],
        nti_spec(obs, ens) != Result::<Seq<(Q, Q)>, Error>::Err(Error::ArithmeticOverflow),
    ensures
        nti_spec(obs, ens) == Result::<Seq<(Q, Q)>, Error>::Err(Error::DegenerateNullVariance),
{
    if nti_spec(obs, ens) is Ok {
        lemma_nti_ok_sample(obs, ens, i, obs.len() as int);
        let rr = ens.len() as int;
        let v = ens[0][i]@;
        assert(q_wf(v));
        assert(forall|t: int| 0 <= t < ens.len() ==> (#[trigger] ens[t])[i]@ == v);
        let sum = trial_sum_upto(ens, i, rr)->Some_0;
        lemma_constant_trial_sum(ens, i, v, rr);
        let cr = Q { n: rr, d: 1 };
        let mean = c_div(sum, cr)->Some_0;
        lemma_c_div_value(sum, cr);
        assert(q_eq(mean, q_div(sum, cr)));
        assert(q_eq(q_div(sum, cr), v)) by (nonlinear_arith)
            requires
                sum.n * v.d == rr * v.n * sum.d,
                sum.d >= 1,
                v.d >= 1,
                rr >= 2,
                q_div(sum, cr) == (Q { n: sum.n * 1, d: sum.d * rr }),
        ;
        assert(q_wf(q_div(sum, cr))) by (nonlinear_arith)
            requires
                sum.d >= 1,
                rr >= 2,
                q_div(sum, cr) == (Q { n: sum.n * 1, d: sum.d * rr }),
        ;
        lemma_q_eq_trans(mean, q_div(sum, cr), v);
        // every deviation from the mean is exactly zero
        assert forall|k: int| 0 <= k <= rr implies sq_dev_sum_upto(ens, i, mean, k) == Some(
            q_zero(),
        ) by {
            lemma_constant_sq_dev(ens, i, v, mean, k);
        }
        let cr1 = Q { n: rr - 1, d: 1 };
        assert(0int * 1 == 0 && 1int * (rr - 1) == rr - 1) by (nonlinear_arith);
        assert(c_div(q_zero(), cr1) == c_norm(0int * 1, 1int * (rr - 1)));
        lemma_norm_zero(rr - 1);
        assert(c_div(q_zero(), cr1) == Some(q_zero()));
        assert(nti_sample(obs, ens, i) == Result::<(Q, Q), Error>::Err(
            Error::DegenerateNullVariance,
        ));
        assert(false);
    }
    lemma_nti_err_kind(obs, ens, obs.len() as int);
}

/// Standardization can only fail for want of range or of variance once the
/// trial and shape checks are past.
pub proof fn lemma_nti_err_kind(obs: Seq<Rat>, ens: Seq<Seq<Rat>>, k: int)
    requires
        nti_upto(obs, ens, k) is Err,
    ensures
        nti_upto(obs, ens, k)->Err_0 == Error::ArithmeticOverflow || nti_upto(obs, ens, k)->Err_0
            == Error::DegenerateNullVariance,
    decreases k,
{
    if k > 0 && nti_upto(obs, ens, k - 1) is Err {
        lemma_nti_err_kind(obs, ens, k - 1);
    }
}

/// With a constant column and a mean equal to it, every partial sum of
/// squared deviations is exactly zero.
proof fn lemma_constant_sq_dev(ens: Seq<Seq<Rat>>, i: int, v: Q, mean: Q, k: int)
    requires
        q_wf(v),
        q_wf(mean),
        forall|t: int| 0 <= t < ens.len() ==> (#[trigger] ens[t])[i]@ == v,
        q_eq(mean, v),
        0 <= k <= ens.len(),
    ensures
        sq_dev_sum_upto(ens, i, mean, k) == Some(q_zero()),
    decreases k,
{
    if k > 0 {
        lemma_constant_sq_dev(ens, i, v, mean, k - 1);
        assert(ens[k - 1][i]@ == v);
        assert(v.n * mean.d - mean.n * v.d == 0);
        assert(v.d * mean.d >= 1) by (nonlinear_arith)
            requires
                v.d >= 1,
                mean.d >= 1,
        ;
        lemma_norm_zero(v.d * mean.d);
        assert(c_sub(v, mean) == Some(q_zero()));
        lemma_norm_zero(1);
        assert(0int * 0 == 0 && 1int * 1 == 1 && 0int * 1 + 0int * 1 == 0) by (nonlinear_arith);
        assert(c_mul(q_zero(), q_zero()) == c_norm(0int * 0, 1int * 1));
        assert(c_mul(q_zero(), q_zero()) == Some(q_zero()));
        assert(c_add(q_zero(), q_zero()) == c_norm(0int * 1 + 0int * 1, 1int * 1));
        assert(c_add(q_zero(), q_zero()) == Some(q_zero()));
    }
}

/// The NTI's exact components, one per sample: the numerator
/// `observed - mean(null)` and the positive variance of the null ensemble.
/// Fails with `InsufficientTrials` for fewer than two trials, with
/// `InputShapeMismatch` when some trial vector is not aligned with the
/// observed vector, with `DegenerateNullVariance` when a sample's null
/// ensemble has zero variance, and with `ArithmeticOverflow` exactly when
/// the mirrored checked arithmetic leaves the 64-bit rational range.
pub fn calculate_nti(mntd_obs: &Vec<Rat>, mntd_rand: &Vec<Vec<Rat>>) -> (r: Result<
    Vec<EffectSize>,
    Error,
>)
    requires
        forall|t: int| 0 <= t < mntd_obs@.len() ==> (#[trigger] mntd_obs@[t]).wf(),
        forall|k: int, t: int|
            0 <= k < mntd_rand@.len() && 0 <= t < mntd_rand@[k]@.len() ==> (
            #[trigger] mntd_rand@[k]@[t]).wf(),
    ensures
        mntd_rand@.len() < 2 ==> r == Result::<Vec<EffectSize>, Error>::Err(
            Error::InsufficientTrials,
        ),
        mntd_rand@.len() >= 2 && (exists|k: int|
            0 <= k < mntd_rand@.len() && (#[trigger] mntd_rand@[k])@.len()
                != mntd_obs@.len()) ==> r == Result::<Vec<EffectSize>, Error>::Err(
            Error::InputShapeMismatch,
        ),
        mntd_rand@.len() >= 2 && (forall|k: int|
            0 <= k < mntd_rand@.len() ==> (#[trigger] mntd_rand@[k])@.len()
                == mntd_obs@.len()) ==> match nti_spec(mntd_obs@, ens_view(mntd_rand@)) {
            Ok(pairs) => match r {
                Ok(v) => v@.len() == pairs.len() && forall|i: int|
                    0 <= i < pairs.len() ==> (#[trigger] v@[i]).num.wf() && v@[i].variance.wf()
                        && v@[i].num@ == pairs[i].0 && v@[i].variance@ == pairs[i].1,
                Err(_) => false,
            },
            Err(e) => r == Result::<Vec<EffectSize>, Error>::Err(e),
        },
{
    let rr = mntd_rand.len();
    if rr < 2 {
        return Err(Error::InsufficientTrials);
    }
    let s = mntd_obs.len();
    let mut k: usize = 0;
    while k < rr
        invariant
            rr == mntd_rand@.len(),
            rr >= 2,
            s == mntd_obs@.len(),
            k <= rr,
            forall|t: int|
                0 <= t < k as int ==> (#[trigger] mntd_rand@[t])@.len() == s as int,
        decreases rr - k,
    {
        if mntd_rand[k].len() != s {
            return Err(Error::InputShapeMismatch);
        }
        k += 1;
    }
    let ghost ens = ens_view(mntd_rand@);
    let ghost obs = mntd_obs@;
    proof {
        assert(forall|t: int| 0 <= t < ens.len() ==> (#[trigger] ens[t]).len() == s as int);
    }
    if s == 0 {
        let out: Vec<EffectSize> = Vec::new();
        proof {
            assert(out@.map_values(|e: EffectSize| (e.num@, e.variance@)) =~= Seq::<(
                Q,
                Q,
            )>::empty());
        }
        return Ok(out);
    }
    let cr = match rat_from_count(rr) {
        Some(c) => c,
        None => {
            proof {
                assert(ens.len() == mntd_rand@.len());
                assert(nti_upto(obs, ens, 0) == Ok::<Seq<(Q, Q)>, Error>(Seq::empty()));
                assert(nti_sample(obs, ens, 0) == Result::<(Q, Q), Error>::Err(
                    Error::ArithmeticOverflow,
                ));
                assert(nti_upto(obs, ens, 1) == Result::<Seq<(Q, Q)>, Error>::Err(
                    Error::ArithmeticOverflow,
                ));
                lemma_nti_err_sticks(obs, ens, 1, s as int);
                assert(nti_spec(obs, ens) == Result::<Seq<(Q, Q)>, Error>::Err(
                    Error::ArithmeticOverflow,
                ));
            }
            return Err(Error::ArithmeticOverflow);
        },
    };
    let cr1 = match rat_from_count(rr - 1) {
        Some(c) => c,
        None => {
            proof {
                assert(false);
            }
            return Err(Error::ArithmeticOverflow);
        },
    };
    let mut out: Vec<EffectSize> = Vec::new();
    proof {
        assert(out@.map_values(|e: EffectSize| (e.num@, e.variance@)) =~= Seq::<(Q, Q)>::empty());
    }
    let mut i: usize = 0;
    while i < s
        invariant
            rr == mntd_rand@.len(),
            s == mntd_obs@.len(),
            rr >= 2,
            ens == ens_view(mntd_rand@),
            obs == mntd_obs@,
            forall|t: int| 0 <= t < obs.len() ==> (#[trigger] obs[t]).wf(),
            forall|a: int, t: int|
                0 <= a < mntd_rand@.len() && 0 <= t < mntd_rand@[a]@.len() ==> (
                #[trigger] mntd_rand@[a]@[t]).wf(),
            forall|t: int| 0 <= t < ens.len() ==> (#[trigger] ens[t]).len() == s as int,
            forall|t: int|
                0 <= t < mntd_rand@.len() ==> (#[trigger] mntd_rand@[t])@.len() == s as int,
            cr.wf(),
            c_from_count(rr as int) == Some(cr@),
            cr1.wf(),
            c_from_count(rr as int - 1) == Some(cr1@),
            i <= s,
            nti_upto(obs, ens, i as int) == Ok::<Seq<(Q, Q)>, Error>(
                out@.map_values(|e: EffectSize| (e.num@, e.variance@)),
            ),
            out@.len() == i as int,
            forall|t: int|
                0 <= t < out@.len() ==> (#[trigger] out@[t]).num.wf() && out@[t].variance.wf(),
        decreases s - i,
    {
        // mean over the trials
        let mut sum = Rat::zero();
        let mut k2: usize = 0;
        while k2 < rr
            invariant
                rr == mntd_rand@.len(),
                rr >= 2,
                s == mntd_obs@.len(),
                i < s,
                ens == ens_view(mntd_rand@),
                obs == mntd_obs@,
                nti_upto(obs, ens, i as int) is Ok,
                forall|a: int, t: int|
                    0 <= a < mntd_rand@.len() && 0 <= t < mntd_rand@[a]@.len() ==> (
                    #[trigger] mntd_rand@[a]@[t]).wf(),
                forall|t: int| 0 <= t < ens.len() ==> (#[trigger] ens[t]).len() == s as int,
                forall|t: int|
                    0 <= t < mntd_rand@.len() ==> (#[trigger] mntd_rand@[t])@.len() == s as int,
                k2 <= rr,
                trial_sum_upto(ens, i as int, k2 as int) == Some(sum@),
                sum.wf(),
            decreases rr - k2,
        {
            let row = &mntd_rand[k2];
            let e = &row[i];
            proof {
                assert(ens[k2 as int] == mntd_rand@[k2 as int]@);
            }
            match rat_add(&sum, e) {
                Some(v) => {
                    sum = v;
                },
                None => {
                    proof {
                        lemma_trial_sum_none_sticks(ens, i as int, k2 as int + 1, rr as int);
                        lemma_nti_err_sticks(obs, ens, i as int + 1, s as int);
                    }
                    return Err(Error::ArithmeticOverflow);
                },
            }
            k2 += 1;
        }
        let mean = match rat_div(&sum, &cr) {
            Some(m) => m,
            None => {
                proof {
                    lemma_nti_err_sticks(obs, ens, i as int + 1, s as int);
                }
                return Err(Error::ArithmeticOverflow);
            },
        };
        // Bessel-corrected variance over the trials
        let mut ss = Rat::zero();
        let mut k3: usize = 0;
        while k3 < rr
            invariant
                rr == mntd_rand@.len(),
                rr >= 2,
                s == mntd_obs@.len(),
                i < s,
                ens == ens_view(mntd_rand@),
                obs == mntd_obs@,
                nti_upto(obs, ens, i as int) is Ok,
                trial_sum_upto(ens, i as int, rr as int) == Some(sum@),
                c_from_count(rr as int) == Some(cr@),
                c_div(sum@, cr@) == Some(mean@),
                forall|a: int, t: int|
                    0 <= a < mntd_rand@.len() && 0 <= t < mntd_rand@[a]@.len() ==> (
                    #[trigger] mntd_rand@[a]@[t]).wf(),
                forall|t: int| 0 <= t < ens.len() ==> (#[trigger] ens[t]).len() == s as int,
                forall|t: int|
                    0 <= t < mntd_rand@.len() ==> (#[trigger] mntd_rand@[t])@.len() == s as int,
                k3 <= rr,
                mean.wf(),
                sq_dev_sum_upto(ens, i as int, mean@, k3 as int) == Some(ss@),
                ss.wf(),
            decreases rr - k3,
        {
            let row = &mntd_rand[k3];
            let e = &row[i];
            proof {
                assert(ens[k3 as int] == mntd_rand@[k3 as int]@);
            }
            let step = match rat_sub(e, &mean) {
                Some(d) => match rat_mul(&d, &d) {
                    Some(dd) => rat_add(&ss, &dd),
                    None => None,
                },
                None => None,
            };
            match step {
                Some(v) => {
                    ss = v;
                },
                None => {
                    proof {
                        lemma_sq_dev_none_sticks(ens, i as int, mean@, k3 as int + 1, rr as int);
                        lemma_nti_err_sticks(obs, ens, i as int + 1, s as int);
                    }
                    return Err(Error::ArithmeticOverflow);
                },
            }
            k3 += 1;
        }
        let var = match rat_div(&ss, &cr1) {
            Some(v) => v,
            None => {
                proof {
                    lemma_nti_err_sticks(obs, ens, i as int + 1, s as int);
                }
                return Err(Error::ArithmeticOverflow);
            },
        };
        if var.num == 0 {
            proof {
                lemma_nti_err_sticks(obs, ens, i as int + 1, s as int);
            }
            return Err(Error::DegenerateNullVariance);
        }
        let num = match rat_sub(&mntd_obs[i], &mean) {
            Some(v) => v,
            None => {
                proof {
                    lemma_nti_err_sticks(obs, ens, i as int + 1, s as int);
                }
                return Err(Error::ArithmeticOverflow);
            },
        };
        let ghost old_out = out@;
        out.push(EffectSize { num, variance: var });
        proof {
            assert(out@.map_values(|e: EffectSize| (e.num@, e.variance@)) =~= old_out.map_values(
                |e: EffectSize| (e.num@, e.variance@),
            ).push((num@, var@)));
        }
        i += 1;
    }
    Ok(out)
}

} // verus!
