//! The null-model generator: row-and-column permuted copies of a distance
//! matrix.
//!
//! Each trial draws one uniformly random permutation of the taxon indices and
//! reindexes both axes with it, so a permuted copy is a relabeling of the
//! taxa: symmetry is preserved and diagonal cells move to diagonal cells.
use vstd::prelude::*;

use rand::seq::SliceRandom;

use crate::error::Error;
use crate::matrix::{MatV, Matrix, lemma_index_bound};
use crate::mntd::{mntd_spec, seq_usize_to_int};
use crate::rat::Rat;

verus! {

/// `p` is a permutation of `0 .. n`.
pub open spec fn is_perm(p: Seq<int>, n: int) -> bool {
    &&& p.len() == n
    &&& forall|i: int| 0 <= i < n ==> 0 <= #[trigger] p[i] < n
    &&& forall|i: int, j: int| 0 <= i < j < n ==> p[i] != p[j]
}

pub open spec fn identity_perm(n: int) -> Seq<int> {
    Seq::new(n as nat, |i: int| i)
}

/// `out` is `src` with both axes reindexed by `p`.
pub open spec fn permuted_rel(out: MatV, src: MatV, p: Seq<int>) -> bool {
    &&& out.rows == src.rows
    &&& out.cols == src.cols
    &&& out.entries.len() == out.rows * out.cols
    &&& forall|i: int, j: int|
        0 <= i < out.rows && 0 <= j < out.cols ==> #[trigger] out.entries[i * out.cols + j]
            == src.entries[p[i] * src.cols + p[j]]
}

/// Relies on rand's `SliceRandom::shuffle`: an in-place Fisher-Yates
/// reordering of the slice, drawn uniformly over all permutations, so the
/// vector afterwards holds exactly the elements it held before.
#[verifier::external_body]
fn shuffle_indices(v: &mut Vec<usize>)
    ensures
        final(v)@.to_multiset() == old(v)@.to_multiset(),
{
    let mut rng = rand::rng();
    v.shuffle(&mut rng);
}

/// True only if `p` really is a permutation of `0 .. n`; the verified caller
/// does not lean on the shuffle's behavior.
fn validate_perm(p: &Vec<usize>, n: usize) -> (r: bool)
    ensures
        r ==> is_perm(seq_usize_to_int(p@), n as int),
{
    if p.len() != n {
        return false;
    }
    let mut seen: Vec<bool> = Vec::new();
    let mut k: usize = 0;
    while k < n
        invariant
            k <= n,
            seen@.len() == k as int,
            forall|t: int| 0 <= t < k as int ==> !(#[trigger] seen@[t]),
        decreases n - k,
    {
        seen.push(false);
        k += 1;
    }
    let mut t: usize = 0;
    while t < n
        invariant
            t <= n,
            n == p@.len(),
            seen@.len() == n as int,
            forall|u: int| 0 <= u < t as int ==> (#[trigger] p@[u] as int) < n as int,
            forall|u1: int, u2: int|
                0 <= u1 < u2 < t as int ==> (#[trigger] p@[u1]) != (#[trigger] p@[u2]),
            forall|v: int|
                0 <= v < n as int ==> (#[trigger] seen@[v] <==> exists|u: int|
                    0 <= u < t as int && #[trigger] p@[u] as int == v),
        decreases n - t,
    {
        let v = p[t];
        if v >= n {
            return false;
        }
        if seen[v] {
            return false;
        }
        seen.set(v, true);
        proof {
            assert forall|u1: int, u2: int|
                0 <= u1 < u2 < t as int + 1 implies (#[trigger] p@[u1]) != (#[trigger] p@[u2]) by {
                if u2 == t as int && p@[u1] == p@[u2] {
                    assert(0 <= u1 < t as int && p@[u1] as int == v as int);
                }
            }
            assert forall|w: int| 0 <= w < n as int implies (#[trigger] seen@[w] <==> exists|u: int|
                0 <= u < t as int + 1 && #[trigger] p@[u] as int == w) by {
                if w == v as int {
                    assert(p@[t as int] as int == w);
                } else {
                    if seen@[w] {
                        let u0 = choose|u: int| 0 <= u < t as int && #[trigger] p@[u] as int == w;
                        assert(0 <= u0 < t as int + 1 && p@[u0] as int == w);
                    }
                }
            }
        }
        t += 1;
    }
    proof {
        let pv = seq_usize_to_int(p@);
        assert forall|i: int| 0 <= i < n as int implies 0 <= #[trigger] pv[i] < n as int by {
            assert((p@[i] as int) < n as int);
        }
        assert forall|i: int, j: int| 0 <= i < j < n as int implies pv[i] != pv[j] by {
            assert(p@[i] != p@[j]);
        }
    }
    true
}

/// Both axes of `src` reindexed by the permutation `perm`.
fn apply_permutation(src: &Matrix, perm: &Vec<usize>) -> (out: Matrix)
    requires
        src.wf(),
        src@.rows == src@.cols,
        is_perm(seq_usize_to_int(perm@), src@.rows),
    ensures
        out.wf(),
        permuted_rel(out@, src@, seq_usize_to_int(perm@)),
{
    let n = src.rows;
    let ghost pv = seq_usize_to_int(perm@);
    let mut data: Vec<Rat> = Vec::new();
    let mut i: usize = 0;
    while i < n
        invariant
            src.wf(),
            src@.rows == n as int,
            src@.cols == n as int,
            is_perm(pv, n as int),
            pv == seq_usize_to_int(perm@),
            n == perm@.len(),
            i <= n,
            data@.len() == i as int * n as int,
            forall|a: int, b: int|
                0 <= a < i as int && 0 <= b < n as int ==> #[trigger] data@[a * n as int + b]
                    == src@.entries[pv[a] * n as int + pv[b]],
            forall|k: int| 0 <= k < data@.len() ==> (#[trigger] data@[k]).wf(),
        decreases n - i,
    {
        let mut j: usize = 0;
        while j < n
            invariant
                src.wf(),
                src@.rows == n as int,
                src@.cols == n as int,
                is_perm(pv, n as int),
                pv == seq_usize_to_int(perm@),
                n == perm@.len(),
                i < n,
                j <= n,
                data@.len() == i as int * n as int + j as int,
                forall|a: int, b: int|
                    0 <= a < i as int && 0 <= b < n as int ==> #[trigger] data@[a * n as int + b]
                        == src@.entries[pv[a] * n as int + pv[b]],
                forall|b: int|
                    0 <= b < j as int ==> #[trigger] data@[i as int * n as int + b]
                        == src@.entries[pv[i as int] * n as int + pv[b]],
                forall|k: int| 0 <= k < data@.len() ==> (#[trigger] data@[k]).wf(),
            decreases n - j,
        {
            proof {
                assert(0 <= pv[i as int] < n as int && 0 <= pv[j as int] < n as int);
                assert(perm@[i as int] as int == pv[i as int]);
                assert(perm@[j as int] as int == pv[j as int]);
            }
            let e = src.get(perm[i], perm[j]);
            data.push(e);
            proof {
                assert forall|a: int, b: int|
                    0 <= a < i as int && 0 <= b < n as int implies #[trigger] data@[a * n as int
                    + b] == src@.entries[pv[a] * n as int + pv[b]] by {
                    assert(a * n as int + b < data@.len() - 1) by (nonlinear_arith)
                        requires
                            0 <= a < i as int,
                            0 <= b < n as int,
                            data@.len() == i as int * n as int + j as int + 1,
                    ;
                }
            }
            j += 1;
        }
        proof {
            assert(i as int * n as int + n as int == (i as int + 1) * n as int) by (nonlinear_arith)
            ;
        }
        i += 1;
    }
    let out = Matrix { rows: n, cols: n, data };
    proof {
        assert(out@.entries.len() == out@.rows * out@.cols);
        assert(out.wf());
    }
    out
}

/// The identity reindexing of `0 .. n`.
fn identity_indices(n: usize) -> (p: Vec<usize>)
    ensures
        p@.len() == n as int,
        seq_usize_to_int(p@) == identity_perm(n as int),
        is_perm(seq_usize_to_int(p@), n as int),
{
    let mut p: Vec<usize> = Vec::new();
    let mut k: usize = 0;
    while k < n
        invariant
            k <= n,
            p@.len() == k as int,
            forall|t: int| 0 <= t < k as int ==> #[trigger] p@[t] as int == t,
        decreases n - k,
    {
        p.push(k);
        k += 1;
    }
    proof {
        assert(seq_usize_to_int(p@) =~= identity_perm(n as int));
    }
    p
}

/// The null ensemble: `rand_times` copies of `dis`, each with rows and the
/// matching columns reindexed by one fresh uniformly random permutation.
/// Fails with `InputShapeMismatch` when `dis` is not square and with
/// `EmptyInput` when it has size zero; a zero trial count yields an empty
/// ensemble.
pub fn randomize_matrix(dis: &Matrix, rand_times: usize) -> (r: Result<Vec<Matrix>, Error>)
    requires
        dis.wf(),
    ensures
        dis@.rows != dis@.cols ==> r == Result::<Vec<Matrix>, Error>::Err(
            Error::InputShapeMismatch,
        ),
        dis@.rows == dis@.cols && dis@.rows == 0 ==> r == Result::<Vec<Matrix>, Error>::Err(
            Error::EmptyInput,
        ),
        dis@.rows == dis@.cols && dis@.rows > 0 ==> match r {
            Ok(ms) => ms.len() == rand_times && forall|k: int|
                0 <= k < ms.len() ==> (#[trigger] ms[k]).wf() && exists|p: Seq<int>|
                    is_perm(p, dis@.rows) && permuted_rel(ms[k]@, dis@, p),
            Err(_) => false,
        },
{
    if dis.rows != dis.cols {
        return Err(Error::InputShapeMismatch);
    }
    if dis.rows == 0 {
        return Err(Error::EmptyInput);
    }
    let n = dis.rows;
    let mut out: Vec<Matrix> = Vec::new();
    let mut k: usize = 0;
    while k < rand_times
        invariant
            dis.wf(),
            dis@.rows == n as int,
            dis@.cols == n as int,
            n > 0,
            k <= rand_times,
            out@.len() == k as int,
            forall|t: int|
                0 <= t < out@.len() ==> (#[trigger] out@[t]).wf() && exists|p: Seq<int>|
                    is_perm(p, dis@.rows) && permuted_rel(out@[t]@, dis@, p),
        decreases rand_times - k,
    {
        let mut idx = identity_indices(n);
        shuffle_indices(&mut idx);
        // The shuffle is revalidated here, so the proof does not rest on it;
        // an invalid reordering would fall back to the identity relabeling.
        if !validate_perm(&idx, n) {
            idx = identity_indices(n);
        }
        let m = apply_permutation(dis, &idx);
        proof {
            let pv = seq_usize_to_int(idx@);
            assert(is_perm(pv, dis@.rows) && permuted_rel(m@, dis@, pv));
        }
        out.push(m);
        k += 1;
    }
    Ok(out)
}

/// A permuted copy is a relabeling: it stays symmetric, its diagonal cells
/// are the source's diagonal cells under the relabeling, and every
/// off-diagonal cell is an off-diagonal cell of the source.
pub proof fn lemma_relabeling_structure(src: MatV, out: MatV, p: Seq<int>)
    requires
        src.wf(),
        src.rows == src.cols,
        src.symmetric(),
        is_perm(p, src.rows),
        permuted_rel(out, src, p),
    ensures
        out.symmetric(),
        forall|i: int| 0 <= i < out.rows ==> #[trigger] out.at(i, i) == src.at(p[i], p[i]),
        forall|i: int, j: int|
            0 <= i < out.rows && 0 <= j < out.rows && i != j ==> #[trigger] out.at(i, j) == src.at(
                p[i],
                p[j],
            ) && p[i] != p[j],
{
    assert forall|i: int, j: int| 0 <= i < out.rows && 0 <= j < out.rows implies #[trigger] out.at(
        i,
        j,
    ) == src.at(p[i], p[j]) by {
        lemma_index_bound(i, j, out.rows, out.cols);
        lemma_index_bound(p[i], p[j], src.rows, src.cols);
        assert(out.entries[i * out.cols + j] == src.entries[p[i] * src.cols + p[j]]);
    }
    assert forall|i: int, j: int|
        0 <= i < out.rows && 0 <= j < out.rows && i != j implies p[i] != p[j] by {
        if i < j {
        } else {
            assert(0 <= j < i < src.rows);
        }
    }
    assert forall|i: int, j: int| 0 <= i < out.rows && 0 <= j < out.rows implies #[trigger] out.at(
        i,
        j,
    ) == out.at(j, i) by {
        assert(out.at(i, j) == src.at(p[i], p[j]));
        assert(out.at(j, i) == src.at(p[j], p[i]));
        assert(src.at(p[i], p[j]) == src.at(p[j], p[i]));
    }
}

/// Reindexing by the identity permutation changes nothing, so the MNTD of
/// the trivially permuted distance matrix is exactly the observed MNTD.
pub proof fn lemma_identity_round_trip(comm: MatV, src: MatV, out: MatV, weighted: bool)
    requires
        src.wf(),
        src.rows == src.cols,
        permuted_rel(out, src, identity_perm(src.rows)),
    ensures
        out == src,
        mntd_spec(comm, out, weighted) == mntd_spec(comm, src, weighted),
{
    assert forall|k: int| 0 <= k < src.entries.len() implies out.entries[k] == src.entries[k] by {
        lemma_cell_coords(k, src.rows, src.cols);
        let i = k / src.cols;
        let j = k % src.cols;
        assert(out.entries[i * out.cols + j] == src.entries[identity_perm(src.rows)[i] * src.cols
            + identity_perm(src.rows)[j]]);
    }
    assert(out.entries =~= src.entries);
    assert(out =~= src);
}

/// Every flat index of a matrix splits into row and column coordinates.
proof fn lemma_cell_coords(k: int, rows: int, cols: int)
    requires
        0 <= k < rows * cols,
        0 < cols,
    ensures
        0 <= k / cols < rows,
        0 <= k % cols < cols,
        k == (k / cols) * cols + k % cols,
{
    vstd::arithmetic::div_mod::lemma_fundamental_div_mod(k, cols);
    assert(k == (k / cols) * cols + k % cols) by (nonlinear_arith)
        requires
            k == cols * (k / cols) + k % cols,
    ;
    assert(k / cols < rows) by (nonlinear_arith)
        requires
            k < rows * cols,
            0 < cols,
            k == cols * (k / cols) + k % cols,
            0 <= k % cols < cols,
            0 <= k / cols,
    ;
}

} // verus!
