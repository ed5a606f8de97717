//! Evaluation of the MNTD across the null ensemble.
//!
//! Trials are independent: each permuted distance matrix is paired with the
//! unchanged abundance matrix. The sequential evaluator is verified; the
//! parallel one hands the same verified per-trial function to rayon, so both
//! are pinned to the same exact result and agree wherever both succeed. One
//! failing trial voids the whole ensemble.
use vstd::prelude::*;

use rayon::iter::{IntoParallelRefIterator, ParallelIterator};

use crate::error::Error;
use crate::matrix::{MatV, Matrix};
use crate::mntd::{calculate_mntd, mntd_shape_ok, mntd_spec};
use crate::rat::{Q, Rat};

verus! {

/// The exact null statistics of the first `k` trials; the first failing
/// trial decides the error.
pub open spec fn eval_upto(comm: MatV, perms: Seq<Matrix>, weighted: bool, k: int) -> Result<
    Seq<Seq<Q>>,
    Error,
>
    decreases k,
{
    if k <= 0 {
        Ok(Seq::empty())
    } else {
        match eval_upto(comm, perms, weighted, k - 1) {
            Err(e) => Err(e),
            Ok(vs) => if !mntd_shape_ok(comm, perms[k - 1]@) {
                Err(Error::InputShapeMismatch)
            } else {
                match mntd_spec(comm, perms[k - 1]@, weighted) {
                    None => Err(Error::ArithmeticOverflow),
                    Some(v) => Ok(vs.push(v)),
                }
            },
        }
    }
}

pub proof fn lemma_eval_err_sticks(comm: MatV, perms: Seq<Matrix>, weighted: bool, k: int, k2: int)
    requires
        eval_upto(comm, perms, weighted, k) is Err,
        k <= k2,
    ensures
        eval_upto(comm, perms, weighted, k2) == eval_upto(comm, perms, weighted, k),
    decreases k2 - k,
{
    if k < k2 {
        lemma_eval_err_sticks(comm, perms, weighted, k, k2 - 1);
    }
}

/// The exact null statistics of the whole ensemble, one vector per trial.
pub open spec fn eval_spec(comm: MatV, perms: Seq<Matrix>, weighted: bool) -> Result<
    Seq<Seq<Q>>,
    Error,
> {
    eval_upto(comm, perms, weighted, perms.len() as int)
}

/// What stops trial `k`, if anything does.
pub open spec fn trial_err(comm: MatV, perms: Seq<Matrix>, weighted: bool, k: int) -> Option<
    Error,
> {
    if !mntd_shape_ok(comm, perms[k]@) {
        Some(Error::InputShapeMismatch)
    } else if mntd_spec(comm, perms[k]@, weighted) is None {
        Some(Error::ArithmeticOverflow)
    } else {
        None
    }
}

pub open spec fn trials_view(s: Seq<Vec<Rat>>) -> Seq<Seq<Q>> {
    s.map_values(|v: Vec<Rat>| v@.map_values(|x: Rat| x@))
}

/// The null statistics of every trial, evaluated one after the other in
/// ensemble order: the sequential reference for the parallel evaluator.
pub fn serial_random_mntd(comm: &Matrix, permuted: &Vec<Matrix>, weighted: bool) -> (r: Result<
    Vec<Vec<Rat>>,
    Error,
>)
    requires
        comm.wf(),
        comm@.nonneg(),
        forall|k: int| 0 <= k < permuted@.len() ==> (#[trigger] permuted@[k]).wf(),
    ensures
        match eval_spec(comm@, permuted@, weighted) {
            Ok(vs) => match r {
                Ok(out) => trials_view(out@) == vs && forall|k: int, t: int|
                    0 <= k < out@.len() && 0 <= t < out@[k]@.len() ==> (
                    #[trigger] out@[k]@[t]).wf(),
                Err(_) => false,
            },
            Err(e) => r == Result::<Vec<Vec<Rat>>, Error>::Err(e),
        },
{
    let rr = permuted.len();
    let mut out: Vec<Vec<Rat>> = Vec::new();
    proof {
        assert(trials_view(out@) =~= Seq::<Seq<Q>>::empty());
    }
    let mut k: usize = 0;
    while k < rr
        invariant
            comm.wf(),
            comm@.nonneg(),
            forall|t: int| 0 <= t < permuted@.len() ==> (#[trigger] permuted@[t]).wf(),
            rr == permuted@.len(),
            k <= rr,
            out@.len() == k as int,
            eval_upto(comm@, permuted@, weighted, k as int) == Ok::<Seq<Seq<Q>>, Error>(
                trials_view(out@),
            ),
            forall|a: int, t: int|
                0 <= a < out@.len() && 0 <= t < out@[a]@.len() ==> (#[trigger] out@[a]@[t]).wf(),
        decreases rr - k,
    {
        match calculate_mntd(comm, &permuted[k], weighted) {
            Ok(v) => {
                let ghost old_out = out@;
                let ghost vv = v@;
                out.push(v);
                proof {
                    assert(trials_view(out@) =~= trials_view(old_out).push(
                        vv.map_values(|x: Rat| x@),
                    ));
                    assert(mntd_spec(comm@, permuted@[k as int]@, weighted) == Some(
                        vv.map_values(|x: Rat| x@),
                    )) by {
                        let vals = mntd_spec(comm@, permuted@[k as int]@, weighted)->Some_0;
                        assert(vv.map_values(|x: Rat| x@) =~= vals);
                    }
                }
            },
            Err(e) => {
                proof {
                    lemma_eval_err_sticks(
                        comm@,
                        permuted@,
                        weighted,
                        k as int + 1,
                        permuted@.len() as int,
                    );
                }
                return Err(e);
            },
        }
        k += 1;
    }
    Ok(out)
}

/// Relies on rayon's `par_iter().map(..).collect::<Result<Vec<_>, _>>()`:
/// the map applies the verified per-trial function to each permuted matrix,
/// and collecting into `Result` keeps the trials' order on success and
/// yields the error of some failing trial otherwise.
#[verifier::external_body]
pub fn parallel_random_mntd(comm: &Matrix, permuted: &Vec<Matrix>, weighted: bool) -> (r: Result<
    Vec<Vec<Rat>>,
    Error,
>)
    requires
        comm.wf(),
        comm@.nonneg(),
        forall|k: int| 0 <= k < permuted@.len() ==> (#[trigger] permuted@[k]).wf(),
    ensures
        match eval_spec(comm@, permuted@, weighted) {
            Ok(vs) => match r {
                Ok(out) => trials_view(out@) == vs && forall|k: int, t: int|
                    0 <= k < out@.len() && 0 <= t < out@[k]@.len() ==> (
                    #[trigger] out@[k]@[t]).wf(),
                Err(_) => false,
            },
            Err(_) => match r {
                Ok(_) => false,
                Err(e) => exists|k: int|
                    0 <= k < permuted@.len() && trial_err(comm@, permuted@, weighted, k) == Some(
                        e,
                    ),
            },
        },
{
    permuted.par_iter().map(|m| calculate_mntd(comm, m, weighted)).collect()
}

} // verus!
