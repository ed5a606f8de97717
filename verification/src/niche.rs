//! The niche density-difference index.
//!
//! For one gradient column `x` of the environment matrix (`n` samples,
//! minimum `mn`, maximum `mx`) a value `v` falls in range when its bin index
//! `(v - mn) / ((mx - mn) / sqrt(n))`, clamped below at zero, lies under `n`;
//! exactly: when `v <= mn` or `(v - mn)^2 < n * (mx - mn)^2`. A species'
//! density over the column is its in-range sample count divided by
//! `sqrt(n)`; the pooled density of all species is the mean of the species
//! densities, so that identical species coincide with the pool. The reported
//! index for species `i` is
//! `(pooled density - density_i) / max_species density`; every `sqrt(n)`
//! cancels, leaving the exact rational
//! `(total_count - s * count_i) / (s * max_count)`.
//! A column whose maximum species count is zero is reported as
//! `ZeroMaxDensity`, never divided by.
use vstd::prelude::*;

use crate::error::Error;
use crate::matrix::{MatV, Matrix, lemma_index_bound};
use crate::rat::{
    Q, Rat, c_from_count, c_mul, c_norm, c_sub, normalize, q_le, q_lt, q_zero, rat_from_count,
    rat_le, rat_lt, rat_mul, rat_sub,
};

verus! {

/// Minimum of the first `k` entries (`k >= 1`) of gradient column `j`,
/// keeping the earlier entry on ties.
pub open spec fn col_min_upto(env: MatV, j: int, k: int) -> Rat
    decreases k,
{
    if k <= 1 {
        env.entries[j]
    } else {
        let prev = col_min_upto(env, j, k - 1);
        let cand = env.entries[(k - 1) * env.cols + j];
        if q_lt(cand@, prev@) {
            cand
        } else {
            prev
        }
    }
}

/// Maximum of the first `k` entries (`k >= 1`) of gradient column `j`.
pub open spec fn col_max_upto(env: MatV, j: int, k: int) -> Rat
    decreases k,
{
    if k <= 1 {
        env.entries[j]
    } else {
        let prev = col_max_upto(env, j, k - 1);
        let cand = env.entries[(k - 1) * env.cols + j];
        if q_lt(prev@, cand@) {
            cand
        } else {
            prev
        }
    }
}

/// The column's minimum together with `n * (mx - mn)^2`, the squared
/// in-range cutoff; `None` when that arithmetic leaves the 64-bit range.
pub open spec fn col_cutoff(env: MatV, j: int, n: int) -> Option<(Rat, Q)> {
    let mn = col_min_upto(env, j, n);
    let mx = col_max_upto(env, j, n);
    match c_sub(mx@, mn@) {
        None => None,
        Some(w) => match c_mul(w, w) {
            None => None,
            Some(w2) => match c_from_count(n) {
                None => None,
                Some(cn) => match c_mul(w2, cn) {
                    None => None,
                    Some(nw2) => Some((mn, nw2)),
                },
            },
        },
    }
}

/// Whether the value in cell `(i, k)` of the community matrix is in range
/// for a column with minimum `mn` and squared cutoff `nw2`.
pub open spec fn cell_counted(com: MatV, i: int, k: int, mn: Q, nw2: Q) -> Option<bool> {
    let val = com.entries[i * com.cols + k];
    if q_le(val@, mn) {
        Some(true)
    } else {
        match c_sub(val@, mn) {
            None => None,
            Some(d) => match c_mul(d, d) {
                None => None,
                Some(d2) => Some(q_lt(d2, nw2)),
            },
        }
    }
}

/// How many of species `i`'s first `k` sample values are in range.
pub open spec fn count_upto(com: MatV, i: int, mn: Q, nw2: Q, k: int) -> Option<int>
    decreases k,
{
    if k <= 0 {
        Some(0)
    } else {
        match count_upto(com, i, mn, nw2, k - 1) {
            None => None,
            Some(c) => match cell_counted(com, i, k - 1, mn, nw2) {
                None => None,
                Some(b) => Some(
                    c + if b {
                        1int
                    } else {
                        0int
                    },
                ),
            },
        }
    }
}

pub proof fn lemma_count_none_sticks(com: MatV, i: int, mn: Q, nw2: Q, k: int, k2: int)
    requires
        count_upto(com, i, mn, nw2, k) is None,
        k <= k2,
    ensures
        count_upto(com, i, mn, nw2, k2) is None,
    decreases k2 - k,
{
    if k < k2 {
        lemma_count_none_sticks(com, i, mn, nw2, k, k2 - 1);
    }
}

/// Counts are between zero and `k`.
pub proof fn lemma_count_bounds(com: MatV, i: int, mn: Q, nw2: Q, k: int)
    requires
        k >= 0,
        count_upto(com, i, mn, nw2, k) is Some,
    ensures
        0 <= count_upto(com, i, mn, nw2, k)->Some_0 <= k,
    decreases k,
{
    if k > 0 {
        lemma_count_bounds(com, i, mn, nw2, k - 1);
    }
}

/// The in-range counts of the first `i` species.
pub open spec fn counts_upto(com: MatV, mn: Q, nw2: Q, n: int, i: int) -> Option<Seq<int>>
    decreases i,
{
    if i <= 0 {
        Some(Seq::empty())
    } else {
        match counts_upto(com, mn, nw2, n, i - 1) {
            None => None,
            Some(v) => match count_upto(com, i - 1, mn, nw2, n) {
                None => None,
                Some(c) => Some(v.push(c)),
            },
        }
    }
}

pub proof fn lemma_counts_none_sticks(com: MatV, mn: Q, nw2: Q, n: int, i: int, i2: int)
    requires
        counts_upto(com, mn, nw2, n, i) is None,
        i <= i2,
    ensures
        counts_upto(com, mn, nw2, n, i2) is None,
    decreases i2 - i,
{
    if i < i2 {
        lemma_counts_none_sticks(com, mn, nw2, n, i, i2 - 1);
    }
}

pub open spec fn seq_sum(s: Seq<int>) -> int
    decreases s.len(),
{
    if s.len() == 0 {
        0
    } else {
        seq_sum(s.drop_last()) + s.last()
    }
}

pub open spec fn seq_max(s: Seq<int>) -> int
    decreases s.len(),
{
    if s.len() == 0 {
        0
    } else if s.last() >= seq_max(s.drop_last()) {
        s.last()
    } else {
        seq_max(s.drop_last())
    }
}

/// The exact index entries of one column, from the species counts: entry
/// `i` is the reduced form of `(total - s * counts[i]) / (s * max)`.
pub open spec fn entries_from_counts(cs: Seq<int>, total: int, mc: int, i: int) -> Option<Seq<Q>>
    decreases i,
{
    if i <= 0 {
        Some(Seq::empty())
    } else {
        match entries_from_counts(cs, total, mc, i - 1) {
            None => None,
            Some(v) => match c_norm(total - cs.len() * cs[i - 1], cs.len() * mc) {
                None => None,
                Some(q) => Some(v.push(q)),
            },
        }
    }
}

pub proof fn lemma_entries_none_sticks(cs: Seq<int>, total: int, mc: int, i: int, i2: int)
    requires
        entries_from_counts(cs, total, mc, i) is None,
        i <= i2,
    ensures
        entries_from_counts(cs, total, mc, i2) is None,
    decreases i2 - i,
{
    if i < i2 {
        lemma_entries_none_sticks(cs, total, mc, i, i2 - 1);
    }
}

/// One gradient column's exact index entries, or the failure that stops it.
pub open spec fn col_result(env: MatV, com: MatV, j: int) -> Result<Seq<Q>, Error> {
    let n = com.cols;
    let s = com.rows;
    match col_cutoff(env, j, n) {
        None => Err(Error::ArithmeticOverflow),
        Some((mn, nw2)) => match counts_upto(com, mn@, nw2, n, s) {
            None => Err(Error::ArithmeticOverflow),
            Some(cs) => {
                let total = seq_sum(cs);
                let mc = seq_max(cs);
                if mc == 0 {
                    Err(Error::ZeroMaxDensity)
                } else {
                    match entries_from_counts(cs, total, mc, s) {
                        None => Err(Error::ArithmeticOverflow),
                        Some(es) => Ok(es),
                    }
                }
            },
        },
    }
}

/// The index entries of the first `j` columns; the first failing column
/// decides the error.
pub open spec fn niche_upto(env: MatV, com: MatV, j: int) -> Result<Seq<Seq<Q>>, Error>
    decreases j,
{
    if j <= 0 {
        Ok(Seq::empty())
    } else {
        match niche_upto(env, com, j - 1) {
            Err(e) => Err(e),
            Ok(v) => match col_result(env, com, j - 1) {
                Err(e) => Err(e),
                Ok(es) => Ok(v.push(es)),
            },
        }
    }
}

pub proof fn lemma_niche_err_sticks(env: MatV, com: MatV, j: int, j2: int)
    requires
        niche_upto(env, com, j) is Err,
        j <= j2,
    ensures
        niche_upto(env, com, j2) == niche_upto(env, com, j),
    decreases j2 - j,
{
    if j < j2 {
        lemma_niche_err_sticks(env, com, j, j2 - 1);
    }
}

/// The whole exact index grid, one sequence per gradient column. A
/// community with no species yields an empty grid of columns.
pub open spec fn niche_spec(env: MatV, com: MatV) -> Result<Seq<Seq<Q>>, Error> {
    if com.rows == 0 {
        Ok(Seq::new(env.cols as nat, |j: int| Seq::<Q>::empty()))
    } else {
        niche_upto(env, com, env.cols)
    }
}

pub open spec fn counts_view(s: Seq<usize>) -> Seq<int> {
    s.map_values(|x: usize| x as int)
}

/// Two species with the same sample values have the same in-range count.
proof fn lemma_equal_rows_count(com: MatV, i: int, mn: Q, nw2: Q, k: int)
    requires
        forall|t: int|
            0 <= t < com.cols ==> #[trigger] com.entries[i * com.cols + t] == com.entries[0
                * com.cols + t],
        0 <= k <= com.cols,
    ensures
        count_upto(com, i, mn, nw2, k) == count_upto(com, 0, mn, nw2, k),
    decreases k,
{
    if k > 0 {
        lemma_equal_rows_count(com, i, mn, nw2, k - 1);
        assert(com.entries[i * com.cols + (k - 1)] == com.entries[0 * com.cols + (k - 1)]);
    }
}

/// The count sequence holds, in order, every species' own count.
proof fn lemma_counts_char(com: MatV, mn: Q, nw2: Q, n: int, i: int)
    requires
        counts_upto(com, mn, nw2, n, i) is Some,
    ensures
        counts_upto(com, mn, nw2, n, i)->Some_0.len() == if i >= 0 {
            i
        } else {
            0
        },
        forall|t: int|
            0 <= t < i ==> Some(#[trigger] counts_upto(com, mn, nw2, n, i)->Some_0[t])
                == count_upto(com, t, mn, nw2, n),
    decreases i,
{
    if i > 0 {
        lemma_counts_char(com, mn, nw2, n, i - 1);
    }
}

/// Sum and maximum of a constant sequence.
proof fn lemma_seq_sum_const(cs: Seq<int>, c: int)
    requires
        c >= 0,
        forall|t: int| 0 <= t < cs.len() ==> #[trigger] cs[t] == c,
    ensures
        seq_sum(cs) == cs.len() * c,
        cs.len() >= 1 ==> seq_max(cs) == c,
    decreases cs.len(),
{
    if cs.len() > 0 {
        assert(forall|t: int|
            0 <= t < cs.drop_last().len() ==> #[trigger] cs.drop_last()[t] == c);
        lemma_seq_sum_const(cs.drop_last(), c);
        assert(cs[cs.len() - 1] == c);
        assert(cs.last() == c);
        assert(seq_sum(cs) == (cs.len() - 1) * c + c);
        assert((cs.len() - 1) * c + c == cs.len() * c) by (nonlinear_arith)
        ;
        if cs.len() == 1 {
            assert(seq_max(cs.drop_last()) == 0);
            assert(seq_max(cs) == c);
        } else {
            assert(seq_max(cs.drop_last()) == c);
            assert(seq_max(cs) == c);
        }
    } else {
        assert(seq_sum(cs) == 0 && cs.len() * c == 0) by (nonlinear_arith)
            requires
                cs.len() == 0,
                seq_sum(cs) == 0,
        ;
    }
}

/// An index grid that evaluated cleanly came from clean columns.
proof fn lemma_niche_ok_col(env: MatV, com: MatV, j: int, k: int)
    requires
        niche_upto(env, com, k) is Ok,
        0 <= j < k,
    ensures
        col_result(env, com, j) == Ok::<Seq<Q>, Error>(niche_upto(env, com, k)->Ok_0[j]),
        niche_upto(env, com, k)->Ok_0.len() == k,
    decreases k,
{
    if k > 0 {
        if j < k - 1 {
            lemma_niche_ok_col(env, com, j, k - 1);
        } else {
        }
        if niche_upto(env, com, k - 1) is Ok {
            lemma_niche_len(env, com, k - 1);
        }
    }
}

proof fn lemma_niche_len(env: MatV, com: MatV, k: int)
    requires
        niche_upto(env, com, k) is Ok,
    ensures
        niche_upto(env, com, k)->Ok_0.len() == if k >= 0 {
            k
        } else {
            0
        },
    decreases k,
{
    if k > 0 {
        lemma_niche_len(env, com, k - 1);
    }
}

/// The column entries hold, in order, every species' own quotient.
proof fn lemma_entries_char(cs: Seq<int>, total: int, mc: int, i: int)
    requires
        entries_from_counts(cs, total, mc, i) is Some,
    ensures
        entries_from_counts(cs, total, mc, i)->Some_0.len() == if i >= 0 {
            i
        } else {
            0
        },
        forall|t: int|
            0 <= t < i ==> Some(#[trigger] entries_from_counts(cs, total, mc, i)->Some_0[t])
                == c_norm(total - cs.len() * cs[t], cs.len() * mc),
    decreases i,
{
    if i > 0 {
        lemma_entries_char(cs, total, mc, i - 1);
    }
}

/// With every species identical across all samples, each species' density
/// equals the pooled density, so every entry the index does compute is
/// exactly zero.
pub proof fn lemma_identical_species_zero(env: MatV, com: MatV)
    requires
        com.wf(),
        com.rows >= 1,
        forall|i: int, t: int|
            0 <= i < com.rows && 0 <= t < com.cols ==> #[trigger] com.entries[i * com.cols + t]
                == com.entries[0 * com.cols + t],
    ensures
        match niche_spec(env, com) {
            Ok(grid) => forall|j: int, t: int|
                0 <= j < grid.len() && 0 <= t < grid[j].len() ==> #[trigger] grid[j][t]
                    == q_zero(),
            Err(_) => true,
        },
{
    if niche_spec(env, com) is Ok {
        let grid = niche_spec(env, com)->Ok_0;
        assert forall|j: int, t: int|
            0 <= j < grid.len() && 0 <= t < grid[j].len() implies #[trigger] grid[j][t]
            == q_zero() by {
            lemma_niche_len(env, com, env.cols);
            lemma_niche_ok_col(env, com, j, env.cols);
            let n = com.cols;
            let s = com.rows;
            let cut = col_cutoff(env, j, n)->Some_0;
            let mn = cut.0;
            let nw2 = cut.1;
            let cs = counts_upto(com, mn@, nw2, n, s)->Some_0;
            lemma_counts_char(com, mn@, nw2, n, s);
            assert forall|u: int| 0 <= u < cs.len() implies #[trigger] cs[u] == cs[0] by {
                lemma_equal_rows_count(com, u, mn@, nw2, n);
                lemma_equal_rows_count(com, 0, mn@, nw2, n);
            }
            let c = cs[0];
            lemma_count_bounds(com, 0, mn@, nw2, n);
            assert(c >= 0);
            lemma_seq_sum_const(cs, c);
            let total = seq_sum(cs);
            let mc = seq_max(cs);
            assert(total == s * c && mc == c);
            let es = entries_from_counts(cs, total, mc, s)->Some_0;
            lemma_entries_char(cs, total, mc, s);
            assert(Some(es[t]) == c_norm(total - cs.len() * cs[t], cs.len() * mc));
            assert(total - cs.len() * cs[t] == 0 && cs.len() * mc >= 1) by (nonlinear_arith)
                requires
                    total == s * c,
                    mc == c,
                    cs.len() == s,
                    cs[t] == c,
                    mc != 0,
                    mc >= 0,
                    s >= 1,
            ;
            crate::rat::lemma_norm_zero(cs.len() * mc);
            assert(es[t] == q_zero());
            assert(grid[j][t] == es[t]);
        }
    }
}

/// The niche index grid: one exact entry per species and gradient column.
/// Fails with `EmptyInput` when the community has no samples, with
/// `InputShapeMismatch` when the environment's sample count differs from the
/// community's, with `ZeroMaxDensity` when every species' in-range count is
/// zero for some column, and with `ArithmeticOverflow` exactly when the
/// mirrored checked arithmetic leaves the 64-bit rational range.
pub fn calculate_niche(env: &Matrix, com: &Matrix) -> (r: Result<Matrix, Error>)
    requires
        env.wf(),
        com.wf(),
    ensures
        com@.cols == 0 ==> r == Result::<Matrix, Error>::Err(Error::EmptyInput),
        com@.cols > 0 && env@.rows != com@.cols ==> r == Result::<Matrix, Error>::Err(
            Error::InputShapeMismatch,
        ),
        com@.cols > 0 && env@.rows == com@.cols ==> match niche_spec(env@, com@) {
            Ok(grid) => match r {
                Ok(m) => {
                    &&& m.wf()
                    &&& m@.rows == com@.rows
                    &&& m@.cols == env@.cols
                    &&& grid.len() == env@.cols
                    &&& forall|i: int, j: int|
                        0 <= i < m@.rows && 0 <= j < m@.cols ==> #[trigger] m@.entries[i * m@.cols
                            + j]@ == grid[j][i]
                },
                Err(_) => false,
            },
            Err(e) => r == Result::<Matrix, Error>::Err(e),
        },
{
    if com.cols == 0 {
        return Err(Error::EmptyInput);
    }
    if env.rows != com.cols {
        return Err(Error::InputShapeMismatch);
    }
    let s = com.rows;
    let ncols = env.cols;
    let n = env.rows;
    if s == 0 {
        let data: Vec<Rat> = Vec::new();
        let m = Matrix { rows: 0, cols: ncols, data };
        proof {
            assert(m@.entries.len() == m@.rows * m@.cols) by (nonlinear_arith)
                requires
                    m@.entries.len() == 0,
                    m@.rows == 0,
            ;
        }
        return Ok(m);
    }
    let ghost ev = env@;
    let ghost cv = com@;
    let cells = com.data.len();
    proof {
        assert(cells as int == s as int * n as int);
    }
    let mut colvals: Vec<Vec<Rat>> = Vec::new();
    proof {
        assert(colvals@.map_values(|v: Vec<Rat>| v@.map_values(|x: Rat| x@)) =~= Seq::<
            Seq<Q>,
        >::empty());
    }
    let mut j: usize = 0;
    while j < ncols
        invariant
            env.wf(),
            com.wf(),
            ev == env@,
            cv == com@,
            s == cv.rows,
            ncols == ev.cols,
            n == ev.rows,
            n == cv.cols,
            s >= 1,
            n >= 1,
            cells as int == s as int * n as int,
            j <= ncols,
            colvals@.len() == j as int,
            niche_upto(ev, cv, j as int) == Ok::<Seq<Seq<Q>>, Error>(
                colvals@.map_values(|v: Vec<Rat>| v@.map_values(|x: Rat| x@)),
            ),
            forall|t: int|
                0 <= t < colvals@.len() ==> (#[trigger] colvals@[t])@.len() == s as int,
            forall|t: int, u: int|
                0 <= t < colvals@.len() && 0 <= u < s as int ==> (#[trigger] colvals@[t]@[u]).wf(),
        decreases ncols - j,
    {
        let mut mn = env.get(0, j);
        let mut mx = env.get(0, j);
        let mut k: usize = 1;
        while k < n
            invariant
                env.wf(),
                ev == env@,
                n == ev.rows,
                j < ev.cols,
                1 <= k <= n,
                mn == col_min_upto(ev, j as int, k as int),
                mx == col_max_upto(ev, j as int, k as int),
                mn.wf(),
                mx.wf(),
            decreases n - k,
        {
            let c = env.get(k, j);
            if rat_lt(&c, &mn) {
                mn = c;
            }
            if rat_lt(&mx, &c) {
                mx = c;
            }
            k += 1;
        }
        let cut = match rat_sub(&mx, &mn) {
            None => None,
            Some(w) => match rat_mul(&w, &w) {
                None => None,
                Some(w2) => match rat_from_count(n) {
                    None => None,
                    Some(cn) => rat_mul(&w2, &cn),
                },
            },
        };
        let nw2 = match cut {
            Some(v) => v,
            None => {
                proof {
                    assert(col_cutoff(ev, j as int, cv.cols) is None);
                    assert(col_result(ev, cv, j as int) == Result::<Seq<Q>, Error>::Err(
                        Error::ArithmeticOverflow,
                    ));
                    lemma_niche_err_sticks(ev, cv, j as int + 1, ev.cols);
                }
                return Err(Error::ArithmeticOverflow);
            },
        };
        proof {
            assert(col_cutoff(ev, j as int, cv.cols) == Some((mn, nw2@)));
        }
        // species in-range counts for this column
        let mut counts: Vec<usize> = Vec::new();
        let mut i: usize = 0;
        while i < s
            invariant
                env.wf(),
                com.wf(),
                ev == env@,
                cv == com@,
                s == cv.rows,
                ncols == ev.cols,
                n == ev.rows,
                n == cv.cols,
                s >= 1,
                n >= 1,
                j < ncols,
                i <= s,
                niche_upto(ev, cv, j as int) is Ok,
                col_cutoff(ev, j as int, cv.cols) == Some((mn, nw2@)),
                mn.wf(),
                nw2.wf(),
                counts@.len() == i as int,
                counts_upto(cv, mn@, nw2@, n as int, i as int) == Some(counts_view(counts@)),
                forall|t: int| 0 <= t < counts@.len() ==> (#[trigger] counts@[t]) <= n,
            decreases s - i,
        {
            let mut c: usize = 0;
            let mut k2: usize = 0;
            while k2 < n
                invariant
                    env.wf(),
                    com.wf(),
                    ev == env@,
                    cv == com@,
                    s == cv.rows,
                    ncols == ev.cols,
                    n == ev.rows,
                    n == cv.cols,
                    s >= 1,
                    n >= 1,
                    j < ncols,
                    i < s,
                    k2 <= n,
                    c <= k2,
                    niche_upto(ev, cv, j as int) is Ok,
                    col_cutoff(ev, j as int, cv.cols) == Some((mn, nw2@)),
                    mn.wf(),
                    nw2.wf(),
                    counts_upto(cv, mn@, nw2@, n as int, i as int) is Some,
                    count_upto(cv, i as int, mn@, nw2@, k2 as int) == Some(c as int),
                decreases n - k2,
            {
                let val = com.get(i, k2);
                let counted_opt: Option<bool> = if rat_le(&val, &mn) {
                    Some(true)
                } else {
                    match rat_sub(&val, &mn) {
                        None => None,
                        Some(d) => match rat_mul(&d, &d) {
                            None => None,
                            Some(d2) => Some(rat_lt(&d2, &nw2)),
                        },
                    }
                };
                match counted_opt {
                    Some(b) => {
                        if b {
                            c += 1;
                        }
                    },
                    None => {
                        proof {
                            lemma_count_none_sticks(
                                cv,
                                i as int,
                                mn@,
                                nw2@,
                                k2 as int + 1,
                                cv.cols,
                            );
                            lemma_counts_none_sticks(
                                cv,
                                mn@,
                                nw2@,
                                n as int,
                                i as int + 1,
                                cv.rows,
                            );
                            assert(col_result(ev, cv, j as int) == Result::<Seq<Q>, Error>::Err(
                                Error::ArithmeticOverflow,
                            ));
                            lemma_niche_err_sticks(ev, cv, j as int + 1, ev.cols);
                        }
                        return Err(Error::ArithmeticOverflow);
                    },
                }
                k2 += 1;
            }
            let ghost old_counts = counts@;
            counts.push(c);
            proof {
                assert(counts_view(counts@) =~= counts_view(old_counts).push(c as int));
            }
            i += 1;
        }
        let ghost csv = counts_view(counts@);
        // pooled count and maximum count
        let mut total: usize = 0;
        let mut mc: usize = 0;
        let mut t: usize = 0;
        proof {
            assert(csv.take(0) =~= Seq::<int>::empty());
        }
        while t < s
            invariant
                com.wf(),
                cv == com@,
                s == cv.rows,
                n == cv.cols,
                s >= 1,
                n >= 1,
                t <= s,
                counts@.len() == s as int,
                csv == counts_view(counts@),
                forall|u: int| 0 <= u < counts@.len() ==> (#[trigger] counts@[u]) <= n,
                total as int == seq_sum(csv.take(t as int)),
                mc as int == seq_max(csv.take(t as int)),
                total as int <= t as int * n as int,
                mc <= n,
                cells as int == s as int * n as int,
            decreases s - t,
        {
            let ct = counts[t];
            proof {
                assert(csv.take(t as int + 1).drop_last() =~= csv.take(t as int));
                assert(csv.take(t as int + 1).last() == ct as int);
                assert(total as int + ct as int <= (t as int + 1) * n as int) by (nonlinear_arith)
                    requires
                        total as int <= t as int * n as int,
                        ct as int <= n as int,
                ;
                assert((t as int + 1) * n as int <= s as int * n as int) by (nonlinear_arith)
                    requires
                        t as int + 1 <= s as int,
                        n as int >= 1,
                ;
                assert(total as int + ct as int <= cells as int);
            }
            total = total + ct;
            if ct > mc {
                mc = ct;
            }
            t += 1;
        }
        proof {
            assert(csv.take(s as int) =~= csv);
        }
        if mc == 0 {
            proof {
                assert(col_result(ev, cv, j as int) == Result::<Seq<Q>, Error>::Err(
                    Error::ZeroMaxDensity,
                ));
                lemma_niche_err_sticks(ev, cv, j as int + 1, ev.cols);
            }
            return Err(Error::ZeroMaxDensity);
        }
        // the exact entries of this column
        let mut col: Vec<Rat> = Vec::new();
        let mut i2: usize = 0;
        proof {
            assert(col@.map_values(|x: Rat| x@) =~= Seq::<Q>::empty());
        }
        while i2 < s
            invariant
                com.wf(),
                env.wf(),
                ev == env@,
                cv == com@,
                s == cv.rows,
                ncols == ev.cols,
                n == ev.rows,
                n == cv.cols,
                s >= 1,
                n >= 1,
                j < ncols,
                i2 <= s,
                niche_upto(ev, cv, j as int) is Ok,
                col_cutoff(ev, j as int, cv.cols) == Some((mn, nw2@)),
                counts@.len() == s as int,
                csv == counts_view(counts@),
                counts_upto(cv, mn@, nw2@, n as int, cv.rows) == Some(csv),
                forall|u: int| 0 <= u < counts@.len() ==> (#[trigger] counts@[u]) <= n,
                total as int == seq_sum(csv),
                mc as int == seq_max(csv),
                1 <= mc <= n,
                total as int <= s as int * n as int,
                cells as int == s as int * n as int,
                col@.len() == i2 as int,
                entries_from_counts(csv, total as int, mc as int, i2 as int) == Some(
                    col@.map_values(|x: Rat| x@),
                ),
                forall|u: int| 0 <= u < col@.len() ==> (#[trigger] col@[u]).wf(),
            decreases s - i2,
        {
            let ci = counts[i2];
            proof {
                assert(s as int * ci as int <= s as int * n as int && s as int * mc as int
                    <= s as int * n as int && s as int * mc as int >= 1) by (nonlinear_arith)
                    requires
                        ci as int <= n as int,
                        mc as int <= n as int,
                        1 <= mc as int,
                        s as int >= 1,
                        n as int >= 1,
                ;
                assert(s as int * ci as int <= cells as int && s as int * mc as int
                    <= cells as int);
            }
            let num: i128 = total as i128 - (s as i128) * (ci as i128);
            let den: i128 = (s as i128) * (mc as i128);
            match normalize(num, den) {
                Some(rt) => {
                    let ghost old_col = col@;
                    col.push(rt);
                    proof {
                        assert(csv[i2 as int] == ci as int);
                        assert(csv.len() == s as int);
                        assert(col@.map_values(|x: Rat| x@) =~= old_col.map_values(
                            |x: Rat| x@,
                        ).push(rt@));
                    }
                },
                None => {
                    proof {
                        assert(csv[i2 as int] == ci as int);
                        assert(csv.len() == s as int);
                        lemma_entries_none_sticks(
                            csv,
                            total as int,
                            mc as int,
                            i2 as int + 1,
                            cv.rows,
                        );
                        assert(col_result(ev, cv, j as int) == Result::<Seq<Q>, Error>::Err(
                            Error::ArithmeticOverflow,
                        ));
                        lemma_niche_err_sticks(ev, cv, j as int + 1, ev.cols);
                    }
                    return Err(Error::ArithmeticOverflow);
                },
            }
            i2 += 1;
        }
        proof {
            assert(col_result(ev, cv, j as int) == Ok::<Seq<Q>, Error>(
                col@.map_values(|x: Rat| x@),
            ));
        }
        let ghost old_cols = colvals@;
        colvals.push(col);
        proof {
            assert(colvals@.map_values(|v: Vec<Rat>| v@.map_values(|x: Rat| x@)) =~= old_cols
                .map_values(|v: Vec<Rat>| v@.map_values(|x: Rat| x@)).push(
                col@.map_values(|x: Rat| x@),
            ));
        }
        j += 1;
    }
    // assemble the grid row-major: species by gradient columns
    let ghost grid = colvals@.map_values(|v: Vec<Rat>| v@.map_values(|x: Rat| x@));
    let mut data: Vec<Rat> = Vec::new();
    let mut a: usize = 0;
    while a < s
        invariant
            s >= 1,
            ncols == colvals@.len(),
            forall|t: int|
                0 <= t < colvals@.len() ==> (#[trigger] colvals@[t])@.len() == s as int,
            forall|t: int, u: int|
                0 <= t < colvals@.len() && 0 <= u < s as int ==> (#[trigger] colvals@[t]@[u]).wf(),
            grid == colvals@.map_values(|v: Vec<Rat>| v@.map_values(|x: Rat| x@)),
            a <= s,
            data@.len() == a as int * ncols as int,
            forall|x: int, y: int|
                0 <= x < a as int && 0 <= y < ncols as int ==> #[trigger] data@[x * ncols as int
                    + y] == colvals@[y]@[x],
            forall|k: int| 0 <= k < data@.len() ==> (#[trigger] data@[k]).wf(),
        decreases s - a,
    {
        let mut b: usize = 0;
        while b < ncols
            invariant
                s >= 1,
                ncols == colvals@.len(),
                forall|t: int|
                    0 <= t < colvals@.len() ==> (#[trigger] colvals@[t])@.len() == s as int,
                forall|t: int, u: int|
                    0 <= t < colvals@.len() && 0 <= u < s as int ==> (
                    #[trigger] colvals@[t]@[u]).wf(),
                a < s,
                b <= ncols,
                data@.len() == a as int * ncols as int + b as int,
                forall|x: int, y: int|
                    0 <= x < a as int && 0 <= y < ncols as int ==> #[trigger] data@[x * ncols as int
                        + y] == colvals@[y]@[x],
                forall|y: int|
                    0 <= y < b as int ==> #[trigger] data@[a as int * ncols as int + y]
                        == colvals@[y]@[a as int],
                forall|k: int| 0 <= k < data@.len() ==> (#[trigger] data@[k]).wf(),
            decreases ncols - b,
        {
            let cvcol = &colvals[b];
            let e = cvcol[a];
            data.push(e);
            proof {
                assert forall|x: int, y: int|
                    0 <= x < a as int && 0 <= y < ncols as int implies #[trigger] data@[x
                    * ncols as int + y] == colvals@[y]@[x] by {
                    assert(x * ncols as int + y < data@.len() - 1) by (nonlinear_arith)
                        requires
                            0 <= x < a as int,
                            0 <= y < ncols as int,
                            data@.len() == a as int * ncols as int + b as int + 1,
                    ;
                }
            }
            b += 1;
        }
        proof {
            assert(a as int * ncols as int + ncols as int == (a as int + 1) * ncols as int)
                by (nonlinear_arith)
            ;
        }
        a += 1;
    }
    let m = Matrix { rows: s, cols: ncols, data };
    proof {
        assert(m@.entries.len() == m@.rows * m@.cols);
        assert(m.wf());
        assert(niche_spec(ev, cv) == Ok::<Seq<Seq<Q>>, Error>(grid));
        assert forall|i: int, jj: int|
            0 <= i < m@.rows && 0 <= jj < m@.cols implies #[trigger] m@.entries[i * m@.cols + jj]@
            == grid[jj][i] by {
            assert(m@.entries[i * m@.cols + jj] == colvals@[jj]@[i]);
        }
    }
    Ok(m)
}

} // verus!
