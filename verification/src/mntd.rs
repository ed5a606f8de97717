//! Mean nearest taxon distance (MNTD).
//!
//! For each sample (row of the abundance matrix), the taxa with positive
//! abundance are collected; each present taxon contributes its smallest
//! distance to any *other* present taxon (the diagonal never competes, since
//! a taxon is not its own neighbor). The sample's statistic is the plain mean
//! of these minima, or, in weighted mode, the mean weighted by relative
//! abundance within the sample. A sample with fewer than two present taxa has
//! no neighbor pair; its statistic is zero in both modes, by a single uniform
//! no-neighbor policy.
//!
//! The `*_upto` spec functions mirror the checked exec computation step for
//! step, so the contract pins the exact result, including exactly when the
//! 64-bit rational range is left.
use vstd::prelude::*;

use crate::error::Error;
use crate::matrix::{MatV, Matrix, lemma_index_bound};
use crate::rat::{
    Q, Rat, c_add, c_div, c_from_count, c_mul, q_add, q_eq, q_lt, q_nonneg, q_pos, q_wf, q_zero,
    lemma_c_add_value, rat_add, rat_div, rat_from_count, rat_is_pos, rat_lt, rat_mul,
};

verus! {

/// Indices of the first `j` taxa present (positive abundance) in sample `i`.
pub open spec fn present_upto(comm: MatV, i: int, j: int) -> Seq<int>
    decreases j,
{
    if j <= 0 {
        Seq::empty()
    } else {
        let p = present_upto(comm, i, j - 1);
        if q_pos(comm.at(i, j - 1)) {
            p.push(j - 1)
        } else {
            p
        }
    }
}

/// All taxa present in sample `i`, in ascending order.
pub open spec fn present_of(comm: MatV, i: int) -> Seq<int> {
    present_upto(comm, i, comm.cols)
}

/// Present indices are in range, ascending, and name positive entries.
pub proof fn lemma_present_props(comm: MatV, i: int, j: int)
    ensures
        forall|t: int|
            0 <= t < present_upto(comm, i, j).len() ==> 0 <= #[trigger] present_upto(
                comm,
                i,
                j,
            )[t] < j,
        forall|t1: int, t2: int|
            0 <= t1 < t2 < present_upto(comm, i, j).len() ==> #[trigger] present_upto(
                comm,
                i,
                j,
            )[t1] < #[trigger] present_upto(comm, i, j)[t2],
        forall|t: int|
            0 <= t < present_upto(comm, i, j).len() ==> q_pos(
                comm.at(i, #[trigger] present_upto(comm, i, j)[t]),
            ),
    decreases j,
{
    if j > 0 {
        lemma_present_props(comm, i, j - 1);
        let p0 = present_upto(comm, i, j - 1);
        let p = present_upto(comm, i, j);
        if q_pos(comm.at(i, j - 1)) {
            assert(p == p0.push(j - 1));
            assert forall|t: int| 0 <= t < p.len() implies 0 <= #[trigger] p[t] < j && q_pos(
                comm.at(i, p[t]),
            ) by {
                if t < p0.len() {
                    assert(p[t] == p0[t]);
                } else {
                    assert(p[t] == j - 1);
                }
            }
            assert forall|t1: int, t2: int| 0 <= t1 < t2 < p.len() implies #[trigger] p[t1]
                < #[trigger] p[t2] by {
                if t2 < p0.len() {
                    assert(p[t1] == p0[t1] && p[t2] == p0[t2]);
                } else {
                    assert(p[t2] == j - 1 && p[t1] == p0[t1] && p0[t1] < j - 1);
                }
            }
        } else {
            assert(p == p0);
        }
    }
}

/// Running minimum of the distances from taxon `sp` to the first `j` present
/// taxa other than itself; `None` until a first candidate is seen.
pub open spec fn min_upto(dis: MatV, pres: Seq<int>, sp: int, j: int) -> Option<Rat>
    decreases j,
{
    if j <= 0 {
        None
    } else {
        let prev = min_upto(dis, pres, sp, j - 1);
        let o = pres[j - 1];
        if o == sp {
            prev
        } else {
            let cand = dis.entries[sp * dis.cols + o];
            match prev {
                None => Some(cand),
                Some(m) => if q_lt(cand@, m@) {
                    Some(cand)
                } else {
                    Some(m)
                },
            }
        }
    }
}

/// The running minimum exists as soon as some other present taxon was seen,
/// and is a well-formed entry of the distance matrix.
pub proof fn lemma_min_upto_props(dis: MatV, pres: Seq<int>, sp: int, j: int)
    requires
        dis.wf(),
        0 <= sp < dis.rows,
        forall|t: int| 0 <= t < pres.len() ==> 0 <= #[trigger] pres[t] < dis.cols,
        j <= pres.len(),
    ensures
        (exists|t: int| 0 <= t < j && #[trigger] pres[t] != sp) <==> min_upto(
            dis,
            pres,
            sp,
            j,
        ) is Some,
        min_upto(dis, pres, sp, j) is Some ==> min_upto(dis, pres, sp, j)->Some_0.wf(),
    decreases j,
{
    if j > 0 {
        lemma_min_upto_props(dis, pres, sp, j - 1);
        if pres[j - 1] != sp {
            lemma_index_bound(sp, pres[j - 1], dis.rows, dis.cols);
        }
        if min_upto(dis, pres, sp, j) is Some {
            if pres[j - 1] != sp {
                assert(0 <= j - 1 < j && pres[j - 1] != sp);
            }
        }
    }
}

/// Checked sum of the nearest-neighbor minima of the first `k` present taxa.
pub open spec fn usum_upto(dis: MatV, pres: Seq<int>, k: int) -> Option<Q>
    decreases k,
{
    if k <= 0 {
        Some(q_zero())
    } else {
        match usum_upto(dis, pres, k - 1) {
            None => None,
            Some(acc) => match min_upto(dis, pres, pres[k - 1], pres.len() as int) {
                None => None,
                Some(m) => c_add(acc, m@),
            },
        }
    }
}

pub proof fn lemma_usum_none_sticks(dis: MatV, pres: Seq<int>, k: int, k2: int)
    requires
        usum_upto(dis, pres, k) is None,
        k <= k2,
    ensures
        usum_upto(dis, pres, k2) is None,
    decreases k2 - k,
{
    if k < k2 {
        lemma_usum_none_sticks(dis, pres, k, k2 - 1);
    }
}

/// Checked sum of the first `j` abundances in sample `i` (the weighting
/// denominator).
pub open spec fn row_sum_upto(comm: MatV, i: int, j: int) -> Option<Q>
    decreases j,
{
    if j <= 0 {
        Some(q_zero())
    } else {
        match row_sum_upto(comm, i, j - 1) {
            None => None,
            Some(acc) => c_add(acc, comm.at(i, j - 1)),
        }
    }
}

pub proof fn lemma_row_sum_none_sticks(comm: MatV, i: int, j: int, j2: int)
    requires
        row_sum_upto(comm, i, j) is None,
        j <= j2,
    ensures
        row_sum_upto(comm, i, j2) is None,
    decreases j2 - j,
{
    if j < j2 {
        lemma_row_sum_none_sticks(comm, i, j, j2 - 1);
    }
}

/// A sum of non-negative abundances is non-negative, and positive once some
/// summand is positive.
pub proof fn lemma_row_sum_sign(comm: MatV, i: int, j: int)
    requires
        comm.wf(),
        comm.nonneg(),
        0 <= i < comm.rows,
        j <= comm.cols,
        row_sum_upto(comm, i, j) is Some,
    ensures
        q_wf(row_sum_upto(comm, i, j)->Some_0),
        q_nonneg(row_sum_upto(comm, i, j)->Some_0),
        (exists|c: int| 0 <= c < j && q_pos(#[trigger] comm.at(i, c))) ==> q_pos(
            row_sum_upto(comm, i, j)->Some_0,
        ),
    decreases j,
{
    if j <= 0 {
    } else {
        lemma_row_sum_sign(comm, i, j - 1);
        let acc = row_sum_upto(comm, i, j - 1)->Some_0;
        let e = comm.at(i, j - 1);
        lemma_index_bound(i, j - 1, comm.rows, comm.cols);
        assert(q_wf(e) && q_nonneg(e));
        lemma_c_add_value(acc, e);
        let t = row_sum_upto(comm, i, j)->Some_0;
        assert(q_eq(t, q_add(acc, e)));
        assert(q_nonneg(t) && (q_pos(acc) || q_pos(e) ==> q_pos(t))) by (nonlinear_arith)
            requires
                t.n * (acc.d * e.d) == (acc.n * e.d + e.n * acc.d) * t.d,
                acc.d >= 1,
                e.d >= 1,
                t.d >= 1,
                acc.n >= 0,
                e.n >= 0,
        ;
        if exists|c: int| 0 <= c < j && q_pos(#[trigger] comm.at(i, c)) {
            let c = choose|c: int| 0 <= c < j && q_pos(#[trigger] comm.at(i, c));
            if c < j - 1 {
                assert(q_pos(acc));
            }
        }
    }
}

/// Checked abundance-weighted sum of the minima of the first `k` present
/// taxa: each term is `(abundance / total) * minimum`.
pub open spec fn wsum_upto(comm: MatV, dis: MatV, i: int, pres: Seq<int>, total: Q, k: int) -> Option<
    Q,
>
    decreases k,
{
    if k <= 0 {
        Some(q_zero())
    } else {
        match wsum_upto(comm, dis, i, pres, total, k - 1) {
            None => None,
            Some(acc) => {
                let sp = pres[k - 1];
                match c_div(comm.at(i, sp), total) {
                    None => None,
                    Some(w) => match min_upto(dis, pres, sp, pres.len() as int) {
                        None => None,
                        Some(m) => match c_mul(w, m@) {
                            None => None,
                            Some(t) => c_add(acc, t),
                        },
                    },
                }
            },
        }
    }
}

pub proof fn lemma_wsum_none_sticks(
    comm: MatV,
    dis: MatV,
    i: int,
    pres: Seq<int>,
    total: Q,
    k: int,
    k2: int,
)
    requires
        wsum_upto(comm, dis, i, pres, total, k) is None,
        k <= k2,
    ensures
        wsum_upto(comm, dis, i, pres, total, k2) is None,
    decreases k2 - k,
{
    if k < k2 {
        lemma_wsum_none_sticks(comm, dis, i, pres, total, k, k2 - 1);
    }
}

/// The exact MNTD of sample `i`, or `None` when the checked arithmetic left
/// the 64-bit range. A sample with fewer than two present taxa yields zero in
/// both modes.
pub open spec fn sample_mntd(comm: MatV, dis: MatV, i: int, weighted: bool) -> Option<Q> {
    let pres = present_of(comm, i);
    if pres.len() < 2 {
        Some(q_zero())
    } else if weighted {
        match row_sum_upto(comm, i, comm.cols) {
            None => None,
            Some(total) => wsum_upto(comm, dis, i, pres, total, pres.len() as int),
        }
    } else {
        match usum_upto(dis, pres, pres.len() as int) {
            None => None,
            Some(s) => match c_from_count(pres.len() as int) {
                None => None,
                Some(c) => c_div(s, c),
            },
        }
    }
}

/// A sample with fewer than two present taxa yields the no-neighbor value
/// zero, in the weighted and the unweighted mode alike, never a failure.
pub proof fn lemma_no_neighbor_yields_zero(comm: MatV, dis: MatV, i: int, weighted: bool)
    requires
        present_of(comm, i).len() < 2,
    ensures
        sample_mntd(comm, dis, i, weighted) == Some(q_zero()),
{
}

/// The MNTD vector over the first `i` samples.
pub open spec fn mntd_upto(comm: MatV, dis: MatV, weighted: bool, i: int) -> Option<Seq<Q>>
    decreases i,
{
    if i <= 0 {
        Some(Seq::empty())
    } else {
        match mntd_upto(comm, dis, weighted, i - 1) {
            None => None,
            Some(v) => match sample_mntd(comm, dis, i - 1, weighted) {
                None => None,
                Some(q) => Some(v.push(q)),
            },
        }
    }
}

pub proof fn lemma_mntd_none_sticks(comm: MatV, dis: MatV, weighted: bool, i: int, i2: int)
    requires
        mntd_upto(comm, dis, weighted, i) is None,
        i <= i2,
    ensures
        mntd_upto(comm, dis, weighted, i2) is None,
    decreases i2 - i,
{
    if i < i2 {
        lemma_mntd_none_sticks(comm, dis, weighted, i, i2 - 1);
    }
}

/// The exact MNTD vector of the whole community, one entry per sample.
pub open spec fn mntd_spec(comm: MatV, dis: MatV, weighted: bool) -> Option<Seq<Q>> {
    mntd_upto(comm, dis, weighted, comm.rows)
}

/// Whether the distance matrix is square over the community's taxa.
pub open spec fn mntd_shape_ok(comm: MatV, dis: MatV) -> bool {
    dis.rows == comm.cols && dis.cols == comm.cols
}

/// What `calculate_mntd` returns: shape mismatch is reported, and otherwise
/// the result is exactly the mirrored computation.
pub open spec fn mntd_post(comm: MatV, dis: MatV, weighted: bool, r: Result<Seq<Rat>, Error>) -> bool {
    if !mntd_shape_ok(comm, dis) {
        r == Result::<Seq<Rat>, Error>::Err(Error::InputShapeMismatch)
    } else {
        match mntd_spec(comm, dis, weighted) {
            Some(vals) => match r {
                Ok(v) => v.len() == vals.len() && forall|k: int|
                    0 <= k < vals.len() ==> (#[trigger] v[k]).wf() && v[k]@ == vals[k],
                Err(_) => false,
            },
            None => r == Result::<Seq<Rat>, Error>::Err(Error::ArithmeticOverflow),
        }
    }
}

pub open spec fn seq_usize_to_int(s: Seq<usize>) -> Seq<int> {
    s.map_values(|x: usize| x as int)
}

/// The taxa present in sample `i`, ascending.
fn present_row(comm: &Matrix, i: usize) -> (p: Vec<usize>)
    requires
        comm.wf(),
        i < comm@.rows,
    ensures
        seq_usize_to_int(p@) == present_of(comm@, i as int),
        forall|t: int| 0 <= t < p@.len() ==> (#[trigger] p@[t]) < comm@.cols,
{
    let cols = comm.cols;
    let mut p: Vec<usize> = Vec::new();
    let mut j: usize = 0;
    while j < cols
        invariant
            comm.wf(),
            i < comm@.rows,
            cols == comm@.cols,
            j <= cols,
            seq_usize_to_int(p@) == present_upto(comm@, i as int, j as int),
            forall|t: int| 0 <= t < p@.len() ==> (#[trigger] p@[t]) < cols,
        decreases cols - j,
    {
        let v = comm.get(i, j);
        if rat_is_pos(&v) {
            let ghost old_p = p@;
            p.push(j);
            proof {
                assert(seq_usize_to_int(p@) =~= seq_usize_to_int(old_p).push(j as int));
            }
        }
        j += 1;
    }
    p
}

/// The smallest distance from `sp` to another present taxon.
fn min_for(dis: &Matrix, pres: &Vec<usize>, sp: usize) -> (r: Rat)
    requires
        dis.wf(),
        (sp as int) < dis@.rows,
        forall|t: int|
            0 <= t < pres@.len() ==> 0 <= (#[trigger] pres@[t] as int) < dis@.cols,
        exists|t: int| 0 <= t < pres@.len() && (#[trigger] pres@[t] as int) != sp as int,
    ensures
        Some(r) == min_upto(dis@, seq_usize_to_int(pres@), sp as int, pres@.len() as int),
        r.wf(),
{
    let ghost presv = seq_usize_to_int(pres@);
    let n = pres.len();
    let mut macc: Option<Rat> = None;
    let mut t: usize = 0;
    while t < n
        invariant
            dis.wf(),
            (sp as int) < dis@.rows,
            forall|u: int| 0 <= u < pres@.len() ==> 0 <= (#[trigger] pres@[u] as int) < dis@.cols,
            n == pres@.len(),
            t <= n,
            presv == seq_usize_to_int(pres@),
            macc == min_upto(dis@, presv, sp as int, t as int),
            match macc {
                Some(m) => m.wf(),
                None => true,
            },
        decreases n - t,
    {
        proof {
            lemma_min_upto_props(dis@, presv, sp as int, t as int + 1);
            lemma_min_upto_props(dis@, presv, sp as int, t as int);
        }
        let o = pres[t];
        if o != sp {
            let cand = dis.get(sp, o);
            macc = match macc {
                None => Some(cand),
                Some(m) => if rat_lt(&cand, &m) {
                    Some(cand)
                } else {
                    Some(m)
                },
            };
        }
        t += 1;
    }
    match macc {
        Some(m) => m,
        None => {
            proof {
                let w = choose|t: int|
                    0 <= t < pres@.len() && (#[trigger] pres@[t] as int) != sp as int;
                assert(presv[w] == pres@[w] as int);
                assert(0 <= w < presv.len() && presv[w] != sp as int);
                lemma_min_upto_props(dis@, presv, sp as int, n as int);
                assert(false);
            }
            Rat::zero()
        },
    }
}

/// One sample's MNTD; `None` is an arithmetic range failure.
fn mntd_sample(comm: &Matrix, dis: &Matrix, i: usize, weighted: bool) -> (r: Option<Rat>)
    requires
        comm.wf(),
        dis.wf(),
        comm@.nonneg(),
        mntd_shape_ok(comm@, dis@),
        i < comm@.rows,
    ensures
        match sample_mntd(comm@, dis@, i as int, weighted) {
            Some(q) => match r {
                Some(v) => v.wf() && v@ == q,
                None => false,
            },
            None => r is None,
        },
{
    let pres = present_row(comm, i);
    let ghost presv = seq_usize_to_int(pres@);
    proof {
        lemma_present_props(comm@, i as int, comm@.cols);
        assert(presv == present_of(comm@, i as int));
    }
    let np = pres.len();
    if np < 2 {
        return Some(Rat::zero());
    }
    // With two or more present taxa every one of them has another present
    // taxon: the first two present indices differ.
    proof {
        assert(present_of(comm@, i as int)[0] < present_of(comm@, i as int)[1]);
        assert(presv[0] != presv[1]);
        assert(0 <= presv[0] < comm@.cols);
        assert(q_pos(comm@.at(i as int, present_of(comm@, i as int)[0])));
    }
    if weighted {
        // total abundance of the sample
        let cols = comm.cols;
        let mut total = Rat::zero();
        let mut j: usize = 0;
        while j < cols
            invariant
                comm.wf(),
                weighted,
                i < comm@.rows,
                cols == comm@.cols,
                j <= cols,
                presv == present_of(comm@, i as int),
                presv.len() >= 2,
                row_sum_upto(comm@, i as int, j as int) == Some(total@),
                total.wf(),
            decreases cols - j,
        {
            let e = comm.get(i, j);
            match rat_add(&total, &e) {
                Some(s) => {
                    total = s;
                },
                None => {
                    proof {
                        lemma_row_sum_none_sticks(comm@, i as int, j as int + 1, comm@.cols);
                        lemma_wsum_nothing(comm@, dis@, i as int, weighted);
                    }
                    return None;
                },
            }
            j += 1;
        }
        proof {
            assert(0 <= presv[0] < comm@.cols && q_pos(comm@.at(i as int, presv[0])));
            lemma_row_sum_sign(comm@, i as int, comm@.cols);
            assert(q_pos(total@));
        }
        let mut acc = Rat::zero();
        let mut k: usize = 0;
        while k < np
            invariant
                comm.wf(),
                dis.wf(),
                comm@.nonneg(),
                mntd_shape_ok(comm@, dis@),
                i < comm@.rows,
                np == pres@.len(),
                2 <= np,
                k <= np,
                weighted,
                presv == seq_usize_to_int(pres@),
                presv == present_of(comm@, i as int),
                forall|t: int|
                    0 <= t < pres@.len() ==> 0 <= (#[trigger] pres@[t] as int) < dis@.cols,
                presv[0] != presv[1],
                total.wf(),
                total@.n != 0,
                row_sum_upto(comm@, i as int, comm@.cols) == Some(total@),
                wsum_upto(comm@, dis@, i as int, presv, total@, k as int) == Some(acc@),
                acc.wf(),
            decreases np - k,
        {
            let sp = pres[k];
            proof {
                if presv[0] != sp as int {
                    assert(0 <= 0 < presv.len() && presv[0] != sp as int);
                } else {
                    assert(0 <= 1 < presv.len() && presv[1] != sp as int);
                }
                assert(exists|t: int|
                    0 <= t < pres@.len() && (#[trigger] pres@[t] as int) != sp as int);
            }
            let m = min_for(dis, &pres, sp);
            let a = comm.get(i, sp);
            let wo = rat_div(&a, &total);
            let term = match wo {
                Some(w) => rat_mul(&w, &m),
                None => None,
            };
            let next = match term {
                Some(tm) => rat_add(&acc, &tm),
                None => None,
            };
            match next {
                Some(s) => {
                    acc = s;
                },
                None => {
                    proof {
                        lemma_wsum_none_sticks(
                            comm@,
                            dis@,
                            i as int,
                            presv,
                            total@,
                            k as int + 1,
                            presv.len() as int,
                        );
                    }
                    return None;
                },
            }
            k += 1;
        }
        Some(acc)
    } else {
        let mut acc = Rat::zero();
        let mut k: usize = 0;
        while k < np
            invariant
                comm.wf(),
                dis.wf(),
                mntd_shape_ok(comm@, dis@),
                i < comm@.rows,
                np == pres@.len(),
                2 <= np,
                k <= np,
                !weighted,
                presv == seq_usize_to_int(pres@),
                presv == present_of(comm@, i as int),
                forall|t: int|
                    0 <= t < pres@.len() ==> 0 <= (#[trigger] pres@[t] as int) < dis@.cols,
                presv[0] != presv[1],
                usum_upto(dis@, presv, k as int) == Some(acc@),
                acc.wf(),
            decreases np - k,
        {
            let sp = pres[k];
            proof {
                if presv[0] != sp as int {
                    assert(0 <= 0 < presv.len() && presv[0] != sp as int);
                } else {
                    assert(0 <= 1 < presv.len() && presv[1] != sp as int);
                }
                assert(exists|t: int|
                    0 <= t < pres@.len() && (#[trigger] pres@[t] as int) != sp as int);
            }
            let m = min_for(dis, &pres, sp);
            match rat_add(&acc, &m) {
                Some(s) => {
                    acc = s;
                },
                None => {
                    proof {
                        lemma_usum_none_sticks(dis@, presv, k as int + 1, presv.len() as int);
                    }
                    return None;
                },
            }
            k += 1;
        }
        match rat_from_count(np) {
            None => None,
            Some(c) => rat_div(&acc, &c),
        }
    }
}

/// In weighted mode an overflow of the total abundance fails the sample.
proof fn lemma_wsum_nothing(comm: MatV, dis: MatV, i: int, weighted: bool)
    requires
        weighted,
        present_of(comm, i).len() >= 2,
        row_sum_upto(comm, i, comm.cols) is None,
    ensures
        sample_mntd(comm, dis, i, weighted) is None,
{
}

/// The MNTD vector: one exact statistic per sample (row of `comm`), plain or
/// abundance-weighted. Fails with `InputShapeMismatch` when `dis` is not
/// square over `comm`'s taxa, and with `ArithmeticOverflow` exactly when the
/// mirrored checked arithmetic leaves the 64-bit rational range.
pub fn calculate_mntd(comm: &Matrix, dis: &Matrix, weighted: bool) -> (r: Result<Vec<Rat>, Error>)
    requires
        comm.wf(),
        dis.wf(),
        comm@.nonneg(),
    ensures
        match r {
            Ok(v) => mntd_post(comm@, dis@, weighted, Ok(v@)),
            Err(e) => mntd_post(comm@, dis@, weighted, Err(e)),
        },
{
    if !(dis.rows == comm.cols && dis.cols == comm.cols) {
        return Err(Error::InputShapeMismatch);
    }
    let rows = comm.rows;
    let mut out: Vec<Rat> = Vec::new();
    let mut i: usize = 0;
    while i < rows
        invariant
            comm.wf(),
            dis.wf(),
            comm@.nonneg(),
            mntd_shape_ok(comm@, dis@),
            rows == comm@.rows,
            i <= rows,
            mntd_upto(comm@, dis@, weighted, i as int) == Some(
                out@.map_values(|x: Rat| x@),
            ),
            forall|k: int| 0 <= k < out@.len() ==> (#[trigger] out@[k]).wf(),
            out@.len() == i as int,
        decreases rows - i,
    {
        match mntd_sample(comm, dis, i, weighted) {
            Some(v) => {
                let ghost old_out = out@;
                out.push(v);
                proof {
                    assert(out@.map_values(|x: Rat| x@) =~= old_out.map_values(|x: Rat| x@).push(
                        v@,
                    ));
                }
            },
            None => {
                proof {
                    lemma_mntd_none_sticks(comm@, dis@, weighted, i as int + 1, comm@.rows);
                }
                return Err(Error::ArithmeticOverflow);
            },
        }
        i += 1;
    }
    Ok(out)
}

} // verus!
