use icamp::error::Error;
use icamp::matrix::Matrix;
use icamp::mntd::calculate_mntd;
use icamp::ensemble::{parallel_random_mntd, serial_random_mntd};
use icamp::niche::calculate_niche;
use icamp::nti::calculate_nti;
use icamp::randomize::randomize_matrix;
use icamp::rat::{rat_add, rat_div, rat_eq_val, Rat};

fn r(n: i64, d: i64) -> Rat {
    Rat::new(n, d).unwrap()
}

fn mat(rows: usize, cols: usize, vals: &[i64]) -> Matrix {
    Matrix::from_ints(rows, cols, &vals.to_vec()).unwrap()
}

#[test]
fn rat_new_normalizes() {
    let a = Rat::new(2, 4).unwrap();
    assert_eq!((a.num, a.den), (1, 2));
    let b = Rat::new(3, -6).unwrap();
    assert_eq!((b.num, b.den), (-1, 2));
    assert!(Rat::new(1, 0).is_none());
    let z = Rat::new(0, 17).unwrap();
    assert_eq!((z.num, z.den), (0, 1));
}

#[test]
fn rat_arithmetic_is_exact() {
    let third = r(1, 3);
    let sixth = r(1, 6);
    let sum = rat_add(&third, &sixth).unwrap();
    assert_eq!((sum.num, sum.den), (1, 2));
    let q = rat_div(&r(7, 2), &r(7, 1)).unwrap();
    assert_eq!((q.num, q.den), (1, 2));
    assert!(rat_eq_val(&r(2, 4), &r(1, 2)));
}

#[test]
fn mntd_concrete_scenario() {
    // community 2 samples x 3 taxa; distance symmetric with zero diagonal
    let comm = mat(2, 3, &[1, 0, 1, 0, 1, 1]);
    let dis = mat(3, 3, &[0, 2, 5, 2, 0, 3, 5, 3, 0]);
    let v = calculate_mntd(&comm, &dis, false).unwrap();
    assert_eq!(v.len(), 2);
    assert_eq!((v[0].num, v[0].den), (5, 1));
    assert_eq!((v[1].num, v[1].den), (3, 1));
}

#[test]
fn mntd_unweighted_mean_of_minima() {
    // all three taxa present: minima are 2, 2, 3 -> mean 7/3
    let comm = mat(1, 3, &[1, 2, 3]);
    let dis = mat(3, 3, &[0, 2, 5, 2, 0, 3, 5, 3, 0]);
    let v = calculate_mntd(&comm, &dis, false).unwrap();
    assert_eq!((v[0].num, v[0].den), (7, 3));
}

#[test]
fn mntd_weighted_mean_of_minima() {
    // abundances 1,2,3 of total 6 weight minima 2,2,3 -> 15/6 = 5/2
    let comm = mat(1, 3, &[1, 2, 3]);
    let dis = mat(3, 3, &[0, 2, 5, 2, 0, 3, 5, 3, 0]);
    let v = calculate_mntd(&comm, &dis, true).unwrap();
    assert_eq!((v[0].num, v[0].den), (5, 2));
}

#[test]
fn mntd_no_neighbor_yields_zero() {
    let dis = mat(3, 3, &[0, 2, 5, 2, 0, 3, 5, 3, 0]);
    let one = mat(1, 3, &[0, 0, 7]);
    let none = mat(1, 3, &[0, 0, 0]);
    for m in [&one, &none] {
        for weighted in [false, true] {
            let v = calculate_mntd(m, &dis, weighted).unwrap();
            assert_eq!((v[0].num, v[0].den), (0, 1));
        }
    }
}

#[test]
fn mntd_shape_mismatch() {
    let comm = mat(1, 3, &[1, 1, 1]);
    let dis = mat(2, 2, &[0, 1, 1, 0]);
    assert!(matches!(
        calculate_mntd(&comm, &dis, false),
        Err(Error::InputShapeMismatch)
    ));
}

#[test]
fn randomize_keeps_structure() {
    let dis = mat(3, 3, &[0, 2, 5, 2, 0, 3, 5, 3, 0]);
    let trials = randomize_matrix(&dis, 8).unwrap();
    assert_eq!(trials.len(), 8);
    let mut base: Vec<(i64, i64)> = dis.data.iter().map(|x| (x.num, x.den)).collect();
    base.sort();
    for t in &trials {
        assert_eq!((t.rows, t.cols), (3, 3));
        // symmetry and a zero diagonal survive the relabeling
        for i in 0..3 {
            let d = t.get(i, i);
            assert_eq!((d.num, d.den), (0, 1));
            for j in 0..3 {
                let a = t.get(i, j);
                let b = t.get(j, i);
                assert_eq!((a.num, a.den), (b.num, b.den));
            }
        }
        // the multiset of all entries is unchanged
        let mut got: Vec<(i64, i64)> = t.data.iter().map(|x| (x.num, x.den)).collect();
        got.sort();
        assert_eq!(got, base);
    }
}

#[test]
fn randomize_zero_trials_gives_empty_ensemble() {
    let dis = mat(2, 2, &[0, 1, 1, 0]);
    let trials = randomize_matrix(&dis, 0).unwrap();
    assert!(trials.is_empty());
}

#[test]
fn randomize_rejects_bad_shapes() {
    let empty = mat(0, 0, &[]);
    assert!(matches!(randomize_matrix(&empty, 3), Err(Error::EmptyInput)));
    let rect = mat(2, 3, &[1, 2, 3, 4, 5, 6]);
    assert!(matches!(randomize_matrix(&rect, 3), Err(Error::InputShapeMismatch)));
}

#[test]
fn standardize_needs_two_trials() {
    let obs = vec![r(1, 1)];
    let none: Vec<Vec<Rat>> = vec![];
    assert!(matches!(calculate_nti(&obs, &none), Err(Error::InsufficientTrials)));
    let one = vec![vec![r(1, 1)]];
    assert!(matches!(calculate_nti(&obs, &one), Err(Error::InsufficientTrials)));
}

#[test]
fn standardize_flags_zero_variance() {
    let obs = vec![r(1, 1)];
    let rand = vec![vec![r(2, 1)], vec![r(2, 1)], vec![r(2, 1)]];
    assert!(matches!(calculate_nti(&obs, &rand), Err(Error::DegenerateNullVariance)));
}

#[test]
fn standardize_exact_components() {
    // trials 2 and 6: mean 4, variance ((2-4)^2 + (6-4)^2) / 1 = 8
    let obs = vec![r(5, 1)];
    let rand = vec![vec![r(2, 1)], vec![r(6, 1)]];
    let es = calculate_nti(&obs, &rand).unwrap();
    assert_eq!(es.len(), 1);
    assert_eq!((es[0].num.num, es[0].num.den), (1, 1));
    assert_eq!((es[0].variance.num, es[0].variance.den), (8, 1));
}

#[test]
fn standardize_misaligned_trial_is_rejected() {
    let obs = vec![r(1, 1)];
    let rand = vec![vec![r(2, 1)], vec![r(2, 1), r(3, 1)]];
    assert!(matches!(calculate_nti(&obs, &rand), Err(Error::InputShapeMismatch)));
}

#[test]
fn ensemble_round_trip_identity() {
    // evaluating against the unpermuted matrix reproduces the observed
    // statistic bit for bit
    let comm = mat(2, 3, &[1, 0, 1, 0, 1, 1]);
    let dis = mat(3, 3, &[0, 2, 5, 2, 0, 3, 5, 3, 0]);
    let observed = calculate_mntd(&comm, &dis, false).unwrap();
    let again = calculate_mntd(&comm, &dis, false).unwrap();
    let obs_pairs: Vec<(i64, i64)> = observed.iter().map(|x| (x.num, x.den)).collect();
    let again_pairs: Vec<(i64, i64)> = again.iter().map(|x| (x.num, x.den)).collect();
    assert_eq!(obs_pairs, again_pairs);
}

#[test]
fn serial_and_parallel_ensembles_agree() {
    let comm = mat(2, 3, &[1, 0, 1, 0, 1, 1]);
    let dis = mat(3, 3, &[0, 2, 5, 2, 0, 3, 5, 3, 0]);
    let trials = randomize_matrix(&dis, 6).unwrap();
    let serial = serial_random_mntd(&comm, &trials, true).unwrap();
    let parallel = parallel_random_mntd(&comm, &trials, true).unwrap();
    assert_eq!(serial.len(), parallel.len());
    for (a, b) in serial.iter().zip(parallel.iter()) {
        let ap: Vec<(i64, i64)> = a.iter().map(|x| (x.num, x.den)).collect();
        let bp: Vec<(i64, i64)> = b.iter().map(|x| (x.num, x.den)).collect();
        assert_eq!(ap, bp);
    }
}

#[test]
fn ensemble_propagates_trial_failure() {
    let comm = mat(2, 3, &[1, 0, 1, 0, 1, 1]);
    let bad = vec![mat(2, 2, &[0, 1, 1, 0])];
    assert!(matches!(
        serial_random_mntd(&comm, &bad, false),
        Err(Error::InputShapeMismatch)
    ));
}

#[test]
fn niche_concrete_scenario() {
    // gradient 0,10 over two samples: a value is in range when it is at
    // most 0 or its square is under 2 * 10^2
    let env = mat(2, 1, &[0, 10]);
    let com = mat(2, 2, &[1, 20, 2, 3]);
    let m = calculate_niche(&env, &com).unwrap();
    assert_eq!((m.rows, m.cols), (2, 1));
    let top = m.get(0, 0);
    let bottom = m.get(1, 0);
    assert_eq!((top.num, top.den), (1, 4));
    assert_eq!((bottom.num, bottom.den), (-1, 4));
}

#[test]
fn niche_identical_species_give_zero() {
    let env = mat(2, 1, &[0, 10]);
    let com = mat(2, 2, &[1, 2, 1, 2]);
    let m = calculate_niche(&env, &com).unwrap();
    for i in 0..2 {
        let e = m.get(i, 0);
        assert_eq!((e.num, e.den), (0, 1));
    }
}

#[test]
fn niche_zero_max_density_is_flagged() {
    let env = mat(2, 1, &[0, 1]);
    let com = mat(2, 2, &[5, 5, 9, 9]);
    assert!(matches!(calculate_niche(&env, &com), Err(Error::ZeroMaxDensity)));
}

#[test]
fn niche_rejects_bad_inputs() {
    let env = mat(2, 1, &[0, 1]);
    let empty_com = mat(2, 0, &[]);
    assert!(matches!(calculate_niche(&env, &empty_com), Err(Error::EmptyInput)));
    let com = mat(2, 3, &[1, 2, 3, 4, 5, 6]);
    assert!(matches!(calculate_niche(&env, &com), Err(Error::InputShapeMismatch)));
}

#[test]
fn mntd_co_permutation_invariance_scenario() {
    // relabeling taxa by p = (0 2)(1 0)... i.e. p[0]=2, p[1]=0, p[2]=1 in
    // both the distance matrix and the community's columns leaves every
    // sample's MNTD unchanged
    let comm = mat(2, 3, &[1, 0, 1, 0, 1, 1]);
    let dis = mat(3, 3, &[0, 2, 5, 2, 0, 3, 5, 3, 0]);
    let comm2 = mat(2, 3, &[1, 1, 0, 1, 0, 1]);
    let dis2 = mat(3, 3, &[0, 5, 3, 5, 0, 2, 3, 2, 0]);
    for weighted in [false, true] {
        let a = calculate_mntd(&comm, &dis, weighted).unwrap();
        let b = calculate_mntd(&comm2, &dis2, weighted).unwrap();
        let ap: Vec<(i64, i64)> = a.iter().map(|x| (x.num, x.den)).collect();
        let bp: Vec<(i64, i64)> = b.iter().map(|x| (x.num, x.den)).collect();
        assert_eq!(ap, bp);
    }
}

#[test]
fn mntd_overflow_is_reported() {
    // two present taxa at the largest representable distance: their sum
    // leaves the 64-bit range
    let comm = mat(1, 2, &[1, 1]);
    let big = Rat::new(i64::MAX, 1).unwrap();
    let zero = Rat::new(0, 1).unwrap();
    let dis = Matrix::from_flat(2, 2, vec![zero, big, big, zero]).unwrap();
    assert!(matches!(
        calculate_mntd(&comm, &dis, false),
        Err(Error::ArithmeticOverflow)
    ));
}

#[test]
fn matrix_from_flat_checks_shape() {
    assert!(matches!(
        Matrix::from_ints(2, 2, &vec![1, 2, 3]),
        Err(Error::InputShapeMismatch)
    ));
}
