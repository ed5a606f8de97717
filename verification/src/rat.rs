//! Exact rational numbers with a 64-bit numerator and denominator.
//!
//! A [`Rat`] always keeps a positive denominator and is produced in reduced
//! form by the checked operations below. Each operation computes the exact
//! mathematical result in 128-bit intermediates, divides out the greatest
//! common divisor, and returns `None` when the reduced numerator or
//! denominator does not fit in 64 bits. The ghost model is [`Q`], a pair of
//! unbounded integers; `q_*` functions give the ideal arithmetic and `c_*`
//! functions mirror the checked operations exactly.
use vstd::prelude::*;
use vstd::arithmetic::div_mod::*;

verus! {

/// Ghost fraction: the mathematical value `n / d`, with `d > 0` intended.
#[verifier::ext_equal]
pub ghost struct Q {
    pub n: int,
    pub d: int,
}

pub open spec fn q_wf(a: Q) -> bool {
    a.d >= 1
}

pub open spec fn q_zero() -> Q {
    Q { n: 0, d: 1 }
}

/// Value equality of fractions, by cross multiplication.
pub open spec fn q_eq(a: Q, b: Q) -> bool
    recommends
        q_wf(a),
        q_wf(b),
{
    a.n * b.d == b.n * a.d
}

pub open spec fn q_le(a: Q, b: Q) -> bool
    recommends
        q_wf(a),
        q_wf(b),
{
    a.n * b.d <= b.n * a.d
}

pub open spec fn q_lt(a: Q, b: Q) -> bool
    recommends
        q_wf(a),
        q_wf(b),
{
    a.n * b.d < b.n * a.d
}

pub open spec fn q_pos(a: Q) -> bool
    recommends
        q_wf(a),
{
    a.n > 0
}

pub open spec fn q_nonneg(a: Q) -> bool
    recommends
        q_wf(a),
{
    a.n >= 0
}

pub open spec fn q_add(a: Q, b: Q) -> Q {
    Q { n: a.n * b.d + b.n * a.d, d: a.d * b.d }
}

pub open spec fn q_sub(a: Q, b: Q) -> Q {
    Q { n: a.n * b.d - b.n * a.d, d: a.d * b.d }
}

pub open spec fn q_mul(a: Q, b: Q) -> Q {
    Q { n: a.n * b.n, d: a.d * b.d }
}

/// Ideal division, with the sign moved into the numerator.
pub open spec fn q_div(a: Q, b: Q) -> Q
    recommends
        q_wf(a),
        q_wf(b),
        b.n != 0,
{
    if b.n >= 0 {
        Q { n: a.n * b.d, d: a.d * b.n }
    } else {
        Q { n: -(a.n * b.d), d: -(a.d * b.n) }
    }
}

pub open spec fn abs_int(n: int) -> int {
    if n >= 0 {
        n
    } else {
        -n
    }
}

pub open spec fn gcd_nat(a: nat, b: nat) -> nat
    decreases b,
{
    if b == 0 {
        a
    } else {
        gcd_nat(b, a % b)
    }
}

/// The Euclidean gcd divides both arguments and is positive unless both are
/// zero.
pub proof fn lemma_gcd_divides(a: nat, b: nat)
    ensures
        a > 0 || b > 0 ==> gcd_nat(a, b) > 0,
        gcd_nat(a, b) > 0 ==> a % gcd_nat(a, b) == 0 && b % gcd_nat(a, b) == 0,
    decreases b,
{
    if b == 0 {
        if a > 0 {
            lemma_mod_self_0(a as int);
            lemma_small_mod(0, a);
        }
    } else {
        lemma_gcd_divides(b, a % b);
        let g = gcd_nat(b, a % b);
        assert(gcd_nat(a, b) == g);
        assert(g > 0);
        assert(b % g == 0 && (a % b) % g == 0);
        let ai = a as int;
        let bi = b as int;
        let gi = g as int;
        lemma_fundamental_div_mod(ai, bi);
        lemma_fundamental_div_mod(bi, gi);
        lemma_fundamental_div_mod(ai % bi, gi);
        let qb = bi / gi;
        let qr = (ai % bi) / gi;
        assert(ai == ((ai / bi) * qb + qr) * gi) by (nonlinear_arith)
            requires
                ai == bi * (ai / bi) + ai % bi,
                bi == gi * qb,
                ai % bi == gi * qr,
        ;
        lemma_mod_multiples_basic((ai / bi) * qb + qr, gi);
    }
}

/// The gcd of `a` and a positive `b` is at most `b`.
pub proof fn lemma_gcd_le(a: nat, b: nat)
    requires
        b > 0,
    ensures
        1 <= gcd_nat(a, b) <= b,
{
    lemma_gcd_divides(a, b);
    let g = gcd_nat(a, b);
    lemma_fundamental_div_mod(b as int, g as int);
    let q = b as int / g as int;
    assert(b as int == q * g);
    assert(q >= 1) by (nonlinear_arith)
        requires
            b as int == q * g,
            b > 0,
            g > 0,
    ;
    assert(b as int >= g) by (nonlinear_arith)
        requires
            b as int == q * g,
            q >= 1,
            g > 0,
    ;
}

/// Reduced form of `n / d`: both components divided by their gcd.
pub open spec fn norm_frac(n: int, d: int) -> Q
    recommends
        d >= 1,
{
    let g = gcd_nat(abs_int(n) as nat, d as nat) as int;
    Q { n: n / g, d: d / g }
}

/// Whether a fraction's components fit the 64-bit representation.
pub open spec fn q_fits(q: Q) -> bool {
    abs_int(q.n) <= i64::MAX && q.d <= i64::MAX
}

/// Checked normalization: the reduced form when it fits, `None` otherwise.
pub open spec fn c_norm(n: int, d: int) -> Option<Q>
    recommends
        d >= 1,
{
    let q = norm_frac(n, d);
    if q_fits(q) {
        Some(q)
    } else {
        None
    }
}

pub open spec fn c_add(a: Q, b: Q) -> Option<Q> {
    c_norm(a.n * b.d + b.n * a.d, a.d * b.d)
}

pub open spec fn c_sub(a: Q, b: Q) -> Option<Q> {
    c_norm(a.n * b.d - b.n * a.d, a.d * b.d)
}

pub open spec fn c_mul(a: Q, b: Q) -> Option<Q> {
    c_norm(a.n * b.n, a.d * b.d)
}

pub open spec fn c_div(a: Q, b: Q) -> Option<Q>
    recommends
        b.n != 0,
{
    if b.n > 0 {
        c_norm(a.n * b.d, a.d * b.n)
    } else {
        c_norm(-(a.n * b.d), -(a.d * b.n))
    }
}

/// A sample or trial count as a checked fraction.
pub open spec fn c_from_count(k: int) -> Option<Q> {
    if 0 <= k <= i64::MAX {
        Some(Q { n: k, d: 1 })
    } else {
        None
    }
}

/// Normalization keeps the value: the reduced form equals `n / d`.
pub proof fn lemma_norm_value(n: int, d: int)
    requires
        d >= 1,
    ensures
        q_wf(norm_frac(n, d)),
        q_eq(norm_frac(n, d), Q { n: n, d: d }),
{
    let na = abs_int(n) as nat;
    lemma_gcd_le(na, d as nat);
    lemma_gcd_divides(na, d as nat);
    let g = gcd_nat(na, d as nat) as int;
    assert(na % (g as nat) == 0 && (d as nat) % (g as nat) == 0);
    lemma_fundamental_div_mod(na as int, g);
    lemma_fundamental_div_mod(d, g);
    let p = na as int / g;
    let s = d / g;
    assert(na as int == g * p);
    assert(d == g * s);
    assert(s >= 1) by (nonlinear_arith)
        requires
            d == g * s,
            d >= 1,
            g >= 1,
    ;
    // n / g is exact with the sign of n.
    if n >= 0 {
        assert(n == g * p);
        lemma_div_multiples_vanish(p, g);
        assert(n / g == p);
        assert((n / g) * d == n * (d / g)) by (nonlinear_arith)
            requires
                n == g * p,
                d == g * s,
                n / g == p,
                d / g == s,
        ;
    } else {
        assert(-n == g * p);
        lemma_div_multiples_vanish(-p, g);
        assert(g * (-p) == n) by (nonlinear_arith)
            requires
                -n == g * p,
        ;
        assert(n / g == -p);
        assert((n / g) * d == n * (d / g)) by (nonlinear_arith)
            requires
                -n == g * p,
                d == g * s,
                n / g == -p,
                d / g == s,
        ;
    }
}

/// Bounds of products of 64-bit components, used to justify the 128-bit
/// intermediates.
pub proof fn lemma_prod_bound(x: int, y: int)
    requires
        -0x8000_0000_0000_0000 <= x <= 0x7fff_ffff_ffff_ffff,
        -0x8000_0000_0000_0000 <= y <= 0x7fff_ffff_ffff_ffff,
    ensures
        -0x4000_0000_0000_0000_0000_0000_0000_0000 <= x * y
            <= 0x4000_0000_0000_0000_0000_0000_0000_0000,
{
    assert(-0x4000_0000_0000_0000_0000_0000_0000_0000 <= x * y
        <= 0x4000_0000_0000_0000_0000_0000_0000_0000) by (nonlinear_arith)
        requires
            -0x8000_0000_0000_0000 <= x <= 0x7fff_ffff_ffff_ffff,
            -0x8000_0000_0000_0000 <= y <= 0x7fff_ffff_ffff_ffff,
    ;
}

/// Tighter bound for a numerator-denominator product: the denominator is at
/// most `i64::MAX`, so two such products can be added within 128 bits.
pub proof fn lemma_num_den_bound(x: int, y: int)
    requires
        -0x8000_0000_0000_0000 <= x <= 0x7fff_ffff_ffff_ffff,
        1 <= y <= 0x7fff_ffff_ffff_ffff,
    ensures
        -(0x8000_0000_0000_0000 * 0x7fff_ffff_ffff_ffff) <= x * y
            <= 0x8000_0000_0000_0000 * 0x7fff_ffff_ffff_ffff,
{
    assert(-(0x8000_0000_0000_0000 * 0x7fff_ffff_ffff_ffff) <= x * y
        <= 0x8000_0000_0000_0000 * 0x7fff_ffff_ffff_ffff) by (nonlinear_arith)
        requires
            -0x8000_0000_0000_0000 <= x <= 0x7fff_ffff_ffff_ffff,
            1 <= y <= 0x7fff_ffff_ffff_ffff,
    ;
}

fn gcd_u128(a: u128, b: u128) -> (g: u128)
    ensures
        g as nat == gcd_nat(a as nat, b as nat),
    decreases b,
{
    if b == 0 {
        a
    } else {
        gcd_u128(b, a % b)
    }
}

/// An exact rational number. Invariant ([`Rat::wf`]): the denominator is
/// positive. Values built by this module's operations are in reduced form.
#[derive(Clone, Copy, Debug)]
pub struct Rat {
    pub num: i64,
    pub den: i64,
}

impl View for Rat {
    type V = Q;

    open spec fn view(&self) -> Q {
        Q { n: self.num as int, d: self.den as int }
    }
}

impl Rat {
    pub open spec fn wf(self) -> bool {
        self.den >= 1
    }
}

/// Shared tail of every checked operation: reduce a 128-bit fraction and
/// check that it fits in 64 bits.
pub(crate) fn normalize(n: i128, d: i128) -> (r: Option<Rat>)
    requires
        1 <= d,
        -i128::MAX <= n,
    ensures
        match r {
            Some(c) => c.wf() && c_norm(n as int, d as int) == Some(c@),
            None => c_norm(n as int, d as int) is None,
        },
{
    let neg = n < 0;
    let na: u128 = if neg {
        (-n) as u128
    } else {
        n as u128
    };
    let da: u128 = d as u128;
    assert(na as int == abs_int(n as int));
    let g = gcd_u128(na, da);
    proof {
        lemma_gcd_le(na as nat, da as nat);
        lemma_gcd_divides(na as nat, da as nat);
        lemma_fundamental_div_mod(na as int, g as int);
        lemma_fundamental_div_mod(da as int, g as int);
    }
    let nr = na / g;
    let dr = da / g;
    proof {
        let gi = g as int;
        assert(na as int == (na as int / gi) * gi);
        assert(da as int == (da as int / gi) * gi);
        assert(dr >= 1) by (nonlinear_arith)
            requires
                da as int == dr as int * g as int,
                da >= 1,
                1 <= g as int <= da as int,
        ;
        // The spec's signed division agrees with the unsigned one here.
        if neg {
            assert(n as int == (-(nr as int)) * gi) by (nonlinear_arith)
                requires
                    na as int == nr as int * gi,
                    n as int == -(na as int),
            ;
            lemma_div_multiples_vanish(-(nr as int), gi);
            assert(n as int / gi == -(nr as int));
        } else {
            lemma_div_multiples_vanish(nr as int, gi);
            assert(n as int / gi == nr as int);
        }
        assert(norm_frac(n as int, d as int).d == dr as int);
        assert(abs_int(norm_frac(n as int, d as int).n) == nr as int);
    }
    if nr <= 0x7fff_ffff_ffff_ffff && dr <= 0x7fff_ffff_ffff_ffff {
        let num: i64 = if neg {
            -(nr as i64)
        } else {
            nr as i64
        };
        Some(Rat { num, den: dr as i64 })
    } else {
        None
    }
}

impl Rat {
    /// The rational `num / den`, in reduced form; `None` when `den` is zero
    /// or the reduced form leaves the 64-bit range.
    pub fn new(num: i64, den: i64) -> (r: Option<Rat>)
        ensures
            match r {
                Some(c) => c.wf() && den != 0 && new_spec(num as int, den as int) == Some(c@),
                None => new_spec(num as int, den as int) is None,
            },
    {
        if den == 0 {
            None
        } else if den > 0 {
            normalize(num as i128, den as i128)
        } else {
            normalize(-(num as i128), -(den as i128))
        }
    }

    /// A whole number as a rational.
    pub fn from_int(v: i64) -> (r: Rat)
        ensures
            r.wf(),
            r@ == (Q { n: v as int, d: 1 }),
    {
        Rat { num: v, den: 1 }
    }

    pub fn zero() -> (r: Rat)
        ensures
            r.wf(),
            r@ == q_zero(),
    {
        Rat { num: 0, den: 1 }
    }
}

/// What [`Rat::new`] returns, as a spec.
pub open spec fn new_spec(num: int, den: int) -> Option<Q> {
    if den == 0 {
        None
    } else if den > 0 {
        c_norm(num, den)
    } else {
        c_norm(-num, -den)
    }
}

pub fn rat_add(a: &Rat, b: &Rat) -> (r: Option<Rat>)
    requires
        a.wf(),
        b.wf(),
    ensures
        match r {
            Some(c) => c.wf() && c_add(a@, b@) == Some(c@),
            None => c_add(a@, b@) is None,
        },
{
    proof {
        lemma_num_den_bound(a.num as int, b.den as int);
        lemma_num_den_bound(b.num as int, a.den as int);
        lemma_prod_bound(a.den as int, b.den as int);
        assert(a.den as int * b.den as int >= 1) by (nonlinear_arith)
            requires
                a.den as int >= 1,
                b.den as int >= 1,
        ;
    }
    let n = (a.num as i128) * (b.den as i128) + (b.num as i128) * (a.den as i128);
    let d = (a.den as i128) * (b.den as i128);
    normalize(n, d)
}

pub fn rat_sub(a: &Rat, b: &Rat) -> (r: Option<Rat>)
    requires
        a.wf(),
        b.wf(),
    ensures
        match r {
            Some(c) => c.wf() && c_sub(a@, b@) == Some(c@),
            None => c_sub(a@, b@) is None,
        },
{
    proof {
        lemma_num_den_bound(a.num as int, b.den as int);
        lemma_num_den_bound(b.num as int, a.den as int);
        lemma_prod_bound(a.den as int, b.den as int);
        assert(a.den as int * b.den as int >= 1) by (nonlinear_arith)
            requires
                a.den as int >= 1,
                b.den as int >= 1,
        ;
    }
    let n = (a.num as i128) * (b.den as i128) - (b.num as i128) * (a.den as i128);
    let d = (a.den as i128) * (b.den as i128);
    normalize(n, d)
}

pub fn rat_mul(a: &Rat, b: &Rat) -> (r: Option<Rat>)
    requires
        a.wf(),
        b.wf(),
    ensures
        match r {
            Some(c) => c.wf() && c_mul(a@, b@) == Some(c@),
            None => c_mul(a@, b@) is None,
        },
{
    proof {
        lemma_prod_bound(a.num as int, b.num as int);
        lemma_prod_bound(a.den as int, b.den as int);
        assert(a.den as int * b.den as int >= 1) by (nonlinear_arith)
            requires
                a.den as int >= 1,
                b.den as int >= 1,
        ;
    }
    let n = (a.num as i128) * (b.num as i128);
    let d = (a.den as i128) * (b.den as i128);
    normalize(n, d)
}

pub fn rat_div(a: &Rat, b: &Rat) -> (r: Option<Rat>)
    requires
        a.wf(),
        b.wf(),
        b@.n != 0,
    ensures
        match r {
            Some(c) => c.wf() && c_div(a@, b@) == Some(c@),
            None => c_div(a@, b@) is None,
        },
{
    proof {
        lemma_prod_bound(a.num as int, b.den as int);
        lemma_prod_bound(a.den as int, b.num as int);
    }
    let n = (a.num as i128) * (b.den as i128);
    let d = (a.den as i128) * (b.num as i128);
    if b.num > 0 {
        proof {
            assert(d >= 1) by (nonlinear_arith)
                requires
                    d == a.den as int * b.num as int,
                    a.den as int >= 1,
                    b.num as int >= 1,
            ;
        }
        normalize(n, d)
    } else {
        proof {
            assert(-d >= 1) by (nonlinear_arith)
                requires
                    d == a.den as int * b.num as int,
                    a.den as int >= 1,
                    b.num as int <= -1,
            ;
        }
        normalize(-n, -d)
    }
}

pub fn rat_le(a: &Rat, b: &Rat) -> (r: bool)
    requires
        a.wf(),
        b.wf(),
    ensures
        r == q_le(a@, b@),
{
    proof {
        lemma_prod_bound(a.num as int, b.den as int);
        lemma_prod_bound(b.num as int, a.den as int);
    }
    (a.num as i128) * (b.den as i128) <= (b.num as i128) * (a.den as i128)
}

pub fn rat_lt(a: &Rat, b: &Rat) -> (r: bool)
    requires
        a.wf(),
        b.wf(),
    ensures
        r == q_lt(a@, b@),
{
    proof {
        lemma_prod_bound(a.num as int, b.den as int);
        lemma_prod_bound(b.num as int, a.den as int);
    }
    (a.num as i128) * (b.den as i128) < (b.num as i128) * (a.den as i128)
}

/// Value equality (the reduced forms of equal values may still be compared
/// across differently built inputs).
pub fn rat_eq_val(a: &Rat, b: &Rat) -> (r: bool)
    requires
        a.wf(),
        b.wf(),
    ensures
        r == q_eq(a@, b@),
{
    proof {
        lemma_prod_bound(a.num as int, b.den as int);
        lemma_prod_bound(b.num as int, a.den as int);
    }
    (a.num as i128) * (b.den as i128) == (b.num as i128) * (a.den as i128)
}

pub fn rat_is_pos(a: &Rat) -> (r: bool)
    requires
        a.wf(),
    ensures
        r == q_pos(a@),
{
    a.num > 0
}

/// A count as a rational; `None` for counts above `i64::MAX`.
pub fn rat_from_count(k: usize) -> (r: Option<Rat>)
    ensures
        match r {
            Some(c) => c.wf() && c_from_count(k as int) == Some(c@),
            None => c_from_count(k as int) is None,
        },
{
    if k as u64 <= 0x7fff_ffff_ffff_ffffu64 {
        Some(Rat { num: k as i64, den: 1 })
    } else {
        None
    }
}

// Value facts about the checked operations, for the laws below: each checked
// result, when present, is value-equal to the ideal operation.
pub proof fn lemma_c_add_value(a: Q, b: Q)
    requires
        q_wf(a),
        q_wf(b),
        c_add(a, b) is Some,
    ensures
        q_wf(c_add(a, b)->Some_0),
        q_eq(c_add(a, b)->Some_0, q_add(a, b)),
{
    assert(a.d * b.d >= 1) by (nonlinear_arith)
        requires
            a.d >= 1,
            b.d >= 1,
    ;
    lemma_norm_value(a.n * b.d + b.n * a.d, a.d * b.d);
}

pub proof fn lemma_c_sub_value(a: Q, b: Q)
    requires
        q_wf(a),
        q_wf(b),
        c_sub(a, b) is Some,
    ensures
        q_wf(c_sub(a, b)->Some_0),
        q_eq(c_sub(a, b)->Some_0, q_sub(a, b)),
{
    assert(a.d * b.d >= 1) by (nonlinear_arith)
        requires
            a.d >= 1,
            b.d >= 1,
    ;
    lemma_norm_value(a.n * b.d - b.n * a.d, a.d * b.d);
}

pub proof fn lemma_c_mul_value(a: Q, b: Q)
    requires
        q_wf(a),
        q_wf(b),
        c_mul(a, b) is Some,
    ensures
        q_wf(c_mul(a, b)->Some_0),
        q_eq(c_mul(a, b)->Some_0, q_mul(a, b)),
{
    assert(a.d * b.d >= 1) by (nonlinear_arith)
        requires
            a.d >= 1,
            b.d >= 1,
    ;
    lemma_norm_value(a.n * b.n, a.d * b.d);
}

pub proof fn lemma_c_div_value(a: Q, b: Q)
    requires
        q_wf(a),
        q_wf(b),
        b.n != 0,
        c_div(a, b) is Some,
    ensures
        q_wf(c_div(a, b)->Some_0),
        q_eq(c_div(a, b)->Some_0, q_div(a, b)),
{
    if b.n > 0 {
        assert(a.d * b.n >= 1) by (nonlinear_arith)
            requires
                a.d >= 1,
                b.n >= 1,
        ;
        lemma_norm_value(a.n * b.d, a.d * b.n);
    } else {
        assert(-(a.d * b.n) >= 1) by (nonlinear_arith)
            requires
                a.d >= 1,
                b.n <= -1,
        ;
        lemma_norm_value(-(a.n * b.d), -(a.d * b.n));
    }
}

/// Normalizing a zero numerator gives exactly the canonical zero.
pub proof fn lemma_norm_zero(d: int)
    requires
        d >= 1,
    ensures
        c_norm(0, d) == Some(q_zero()),
{
    assert(gcd_nat(0, d as nat) == gcd_nat(d as nat, 0nat));
    assert(gcd_nat(d as nat, 0nat) == d as nat);
    lemma_div_of0(d);
    lemma_div_by_self(d);
    assert(norm_frac(0, d) == q_zero());
}

/// Value equality of fractions is transitive.
pub proof fn lemma_q_eq_trans(a: Q, b: Q, c: Q)
    requires
        q_wf(a),
        q_wf(b),
        q_wf(c),
        q_eq(a, b),
        q_eq(b, c),
    ensures
        q_eq(a, c),
{
    assert(a.n * c.d == c.n * a.d) by (nonlinear_arith)
        requires
            a.n * b.d == b.n * a.d,
            b.n * c.d == c.n * b.d,
            a.d >= 1,
            b.d >= 1,
            c.d >= 1,
    ;
}

} // verus!
