//! Centred-coefficient arithmetic over `R_q` used by the SAAP credential.
//!
//! `Polynomial` stores each coefficient as its centred representative in
//! `[-(q-1)/2, (q-1)/2]`; every operation here returns centred coefficients.

use vstd::prelude::*;

use crate::ring::{
    all_in, centered, congruent_seqs, conv, conv_upto, i32s_to_ints, lemma_conv_upto_bounds, lemma_nega_congruent,
    lemma_nega_is_pmul, nega_coeff, pmul, pmul_seq, q_int, seq_add, seq_sub,
};
use crate::xof::{challenge_coeffs, sample_challenge, XofStream};

verus! {

/// Ring degree.
pub const RING_N: usize = 256;

/// Module rank k.
pub const MODULE_K: usize = 4;

/// Prime modulus q.
pub const PARAM_Q: i32 = 8_380_417;

/// Masking bound γ₁ = 2^17.
pub const PARAM_GAMMA1: i32 = 131_072;

/// Rejection parameter β.
pub const PARAM_BETA: i32 = 78;

/// Rejection bound γ₁ − β.
pub const REJECTION_BOUND: i32 = 130_994;

/// Number of ±1 coefficients in a SAAP challenge (β = 2 × 39).
pub const CHALLENGE_WEIGHT: usize = 39;

/// A polynomial in `R_q` with centred coefficients.
#[derive(Clone, Copy)]
pub struct Polynomial {
    /// Coefficients, centred in `[-(q-1)/2, (q-1)/2]`.
    pub coeffs: [i32; RING_N],
}

/// A vector of `MODULE_K` polynomials.
#[derive(Clone, Copy)]
pub struct VectorK {
    /// The entries.
    pub vec: [Polynomial; MODULE_K],
}

/// Reasons the single-response SAAP verifier rejects a proof.
#[derive(Debug, Clone, Copy, PartialEq, Eq, Structural)]
pub enum SaapValidationError {
    /// A response's infinity norm exceeded the rejection bound.
    NormBoundViolation,
    /// The recomputed challenge did not match.
    ChallengeMismatch,
    /// A disclosed attribute did not match its commitment.
    InvalidAttributeCommitment,
}

/// The coefficients as integers.
pub open spec fn poly_ints(p: Polynomial) -> Seq<int> {
    i32s_to_ints(p.coeffs@)
}

/// Coefficient-wise `a + b`, centred.
pub open spec fn cadd(a: Seq<int>, b: Seq<int>) -> Seq<int> {
    Seq::new(256, |i: int| centered(a[i] + b[i]))
}

/// Coefficient-wise `a - b`, centred.
pub open spec fn csub(a: Seq<int>, b: Seq<int>) -> Seq<int> {
    Seq::new(256, |i: int| centered(a[i] - b[i]))
}

/// `a * b` in `R_q`, centred.
pub open spec fn cmul(a: Seq<int>, b: Seq<int>) -> Seq<int> {
    Seq::new(256, |k: int| centered(nega_coeff(a, b, k)))
}

/// The zero polynomial.
pub open spec fn zero_poly() -> Seq<int> {
    Seq::new(256, |i: int| 0int)
}

impl Polynomial {
    /// The zero polynomial.
    pub fn zero() -> (r: Self)
        ensures
            forall|i: int| 0 <= i < 256 ==> #[trigger] r.coeffs@[i] == 0,
    {
        Polynomial { coeffs: [0i32; RING_N] }
    }
}

impl VectorK {
    /// The zero vector.
    pub fn zero() -> (r: Self)
        ensures
            forall|k: int, i: int| 0 <= k < 4 && 0 <= i < 256 ==> #[trigger] r.vec@[k].coeffs@[i] == 0,
    {
        VectorK { vec: [Polynomial::zero(); MODULE_K] }
    }
}

/// Reduce `x` to its centred representative modulo q.
pub fn mod_q(x: i64) -> (r: i32)
    ensures
        r as int == centered(x as int),
{
    let q = PARAM_Q as i64;
    let v = match x.checked_rem_euclid(q) {
        Some(v) => v,
        None => 0,
    };
    if v > q / 2 {
        (v - q) as i32
    } else {
        v as i32
    }
}

/// Coefficient-wise addition in `R_q`.
pub fn poly_add(a: &Polynomial, b: &Polynomial) -> (r: Polynomial)
    ensures
        forall|i: int| 0 <= i < 256 ==> #[trigger] r.coeffs@[i] as int == centered(a.coeffs@[i] + b.coeffs@[i]),
        poly_ints(r) == cadd(poly_ints(*a), poly_ints(*b)),
{
    let mut out = Polynomial::zero();
    let mut i: usize = 0;
    while i < RING_N
        invariant
            i <= RING_N,
            forall|j: int| 0 <= j < i ==> #[trigger] out.coeffs@[j] as int == centered(a.coeffs@[j] + b.coeffs@[j]),
        decreases RING_N - i,
    {
        out.coeffs[i] = mod_q(a.coeffs[i] as i64 + b.coeffs[i] as i64);
        i += 1;
    }
    assert(poly_ints(out) =~= cadd(poly_ints(*a), poly_ints(*b)));
    out
}

/// Coefficient-wise subtraction in `R_q`.
pub fn poly_sub(a: &Polynomial, b: &Polynomial) -> (r: Polynomial)
    ensures
        forall|i: int| 0 <= i < 256 ==> #[trigger] r.coeffs@[i] as int == centered(a.coeffs@[i] - b.coeffs@[i]),
        poly_ints(r) == csub(poly_ints(*a), poly_ints(*b)),
{
    let mut out = Polynomial::zero();
    let mut i: usize = 0;
    while i < RING_N
        invariant
            i <= RING_N,
            forall|j: int| 0 <= j < i ==> #[trigger] out.coeffs@[j] as int == centered(a.coeffs@[j] - b.coeffs@[j]),
        decreases RING_N - i,
    {
        out.coeffs[i] = mod_q(a.coeffs[i] as i64 - b.coeffs[i] as i64);
        i += 1;
    }
    assert(poly_ints(out) =~= csub(poly_ints(*a), poly_ints(*b)));
    out
}

/// `a * b` in `R_q = Z_q[X]/(X^256 + 1)`.
///
/// Operands are reduced to centred form first, so any `i32` coefficients are
/// accepted and the accumulation cannot overflow.
pub fn poly_mul_negacyclic(a: &Polynomial, b: &Polynomial) -> (r: Polynomial)
    ensures
        forall|k: int| 0 <= k < 256 ==> #[trigger] r.coeffs@[k] as int == centered(nega_coeff(poly_ints(*a), poly_ints(*b), k)),
        poly_ints(r) == cmul(poly_ints(*a), poly_ints(*b)),
{
    let mut ra = [0i32; RING_N];
    let mut rb = [0i32; RING_N];
    let mut i: usize = 0;
    while i < RING_N
        invariant
            i <= RING_N,
            forall|j: int| 0 <= j < i ==> #[trigger] ra@[j] as int == centered(a.coeffs@[j] as int),
            forall|j: int| 0 <= j < i ==> #[trigger] rb@[j] as int == centered(b.coeffs@[j] as int),
        decreases RING_N - i,
    {
        ra[i] = mod_q(a.coeffs[i] as i64);
        rb[i] = mod_q(b.coeffs[i] as i64);
        i += 1;
    }
    let ghost x = i32s_to_ints(ra@);
    let ghost y = i32s_to_ints(rb@);
    let ghost bound: int = 4190208;
    proof {
        assert forall|j: int| 0 <= j < 256 implies -bound <= #[trigger] x[j] <= bound by {
            lemma_centered_range(a.coeffs@[j] as int);
        }
        assert forall|j: int| 0 <= j < 256 implies -bound <= #[trigger] y[j] <= bound by {
            lemma_centered_range(b.coeffs@[j] as int);
        }
        assert forall|j: int| 0 <= j < 256 implies #[trigger] (poly_ints(*a)[j] % q_int()) == x[j] % q_int() by {
            lemma_centered_congruent(a.coeffs@[j] as int);
        }
        assert forall|j: int| 0 <= j < 256 implies #[trigger] (poly_ints(*b)[j] % q_int()) == y[j] % q_int() by {
            lemma_centered_congruent(b.coeffs@[j] as int);
        }
    }
    let mut tmp = [0i64; 512];
    let mut i: usize = 0;
    while i < RING_N
        invariant
            i <= RING_N,
            x == i32s_to_ints(ra@),
            y == i32s_to_ints(rb@),
            x.len() == 256,
            y.len() == 256,
            bound == 4190208,
            forall|j: int| 0 <= j < 256 ==> -bound <= #[trigger] x[j] <= bound,
            forall|j: int| 0 <= j < 256 ==> -bound <= #[trigger] y[j] <= bound,
            forall|m: int| 0 <= m < 512 ==> #[trigger] tmp[m] as int == conv_upto(x, y, m, i as int),
        decreases RING_N - i,
    {
        let mut j: usize = 0;
        while j < RING_N
            invariant
                i < RING_N,
                j <= RING_N,
                x == i32s_to_ints(ra@),
                y == i32s_to_ints(rb@),
                x.len() == 256,
                y.len() == 256,
                bound == 4190208,
                forall|t: int| 0 <= t < 256 ==> -bound <= #[trigger] x[t] <= bound,
                forall|t: int| 0 <= t < 256 ==> -bound <= #[trigger] y[t] <= bound,
                forall|m: int|
                    0 <= m < 512 ==> #[trigger] tmp[m] as int == conv_upto(x, y, m, i as int) + (if i <= m < i + j {
                        x[i as int] * y[m - i]
                    } else {
                        0
                    }),
            decreases RING_N - j,
        {
            let m = i + j;
            let u = ra[i] as i64;
            let v = rb[j] as i64;
            proof {
                lemma_conv_upto_abs_bound(x, y, m as int, i as int, bound);
                assert(x[i as int] == u && y[j as int] == v);
                assert(-(bound * bound) <= u * v <= bound * bound) by (nonlinear_arith)
                    requires
                        -bound <= u <= bound,
                        -bound <= v <= bound,
                ;
                assert(i * (bound * bound) <= 255 * (bound * bound)) by (nonlinear_arith)
                    requires
                        i < 256,
                        bound > 0,
                ;
            }
            tmp[m] = tmp[m] + u * v;
            j += 1;
        }
        proof {
            assert forall|m: int| 0 <= m < 512 implies #[trigger] tmp[m] as int == conv_upto(x, y, m, i + 1) by {
                assert(conv_upto(x, y, m, i + 1) == conv_upto(x, y, m, i as int) + (if 0 <= m - i < 256 {
                    x[i as int] * y[m - i]
                } else {
                    0
                }));
            }
        }
        i += 1;
    }
    let mut out = Polynomial::zero();
    let mut k: usize = 0;
    while k < RING_N
        invariant
            k <= RING_N,
            x == i32s_to_ints(ra@),
            y == i32s_to_ints(rb@),
            x.len() == 256,
            y.len() == 256,
            bound == 4190208,
            forall|j: int| 0 <= j < 256 ==> -bound <= #[trigger] x[j] <= bound,
            forall|j: int| 0 <= j < 256 ==> -bound <= #[trigger] y[j] <= bound,
            congruent_seqs(poly_ints(*a), x),
            congruent_seqs(poly_ints(*b), y),
            forall|m: int| 0 <= m < 512 ==> #[trigger] tmp[m] as int == conv(x, y, m),
            forall|j: int|
                0 <= j < k ==> #[trigger] out.coeffs@[j] as int == centered(nega_coeff(poly_ints(*a), poly_ints(*b), j)),
        decreases RING_N - k,
    {
        proof {
            lemma_conv_upto_abs_bound(x, y, k as int, 256, bound);
            lemma_conv_upto_abs_bound(x, y, k + 256, 256, bound);
            lemma_nega_congruent(poly_ints(*a), x, poly_ints(*b), y, k as int);
            lemma_centered_mod(conv(x, y, k as int) - conv(x, y, k + 256));
        }
        out.coeffs[k] = mod_q(tmp[k] - tmp[k + 256]);
        k += 1;
    }
    assert(poly_ints(out) =~= cmul(poly_ints(*a), poly_ints(*b)));
    out
}

/// Sample a sparse ternary challenge with [`CHALLENGE_WEIGHT`] coefficients `±1`.
pub(crate) fn hash_to_challenge_from_xof(xof: &mut XofStream) -> (r: Polynomial)
    requires
        old(xof).wf(),
    ensures
        poly_ints(r) == challenge_coeffs(old(xof).source(), CHALLENGE_WEIGHT as nat),
{
    let ghost input = xof.source();
    let c = sample_challenge(xof, CHALLENGE_WEIGHT);
    let r = Polynomial { coeffs: c };
    proof {
        crate::xof::lemma_challenge_values(input, CHALLENGE_WEIGHT as nat, 0);
        assert(poly_ints(r) =~= challenge_coeffs(input, CHALLENGE_WEIGHT as nat));
    }
    r
}

pub proof fn lemma_centered_range(x: int)
    ensures
        -4190208 <= centered(x) <= 4190208,
{
}

pub proof fn lemma_centered_congruent(x: int)
    ensures
        centered(x) % q_int() == x % q_int(),
{
    let r = x % q_int();
    assert(r % q_int() == r);
    if r > q_int() / 2 {
        assert((r - q_int()) % q_int() == r % q_int());
    }
}

pub proof fn lemma_centered_mod(x: int)
    ensures
        centered(x % q_int()) == centered(x),
{
    assert((x % q_int()) % q_int() == x % q_int());
}

proof fn lemma_conv_upto_abs_bound(x: Seq<int>, y: Seq<int>, m: int, lim: int, bound: int)
    requires
        0 <= lim <= 256,
        x.len() == 256,
        y.len() == 256,
        bound >= 0,
        forall|j: int| 0 <= j < 256 ==> -bound <= #[trigger] x[j] <= bound,
        forall|j: int| 0 <= j < 256 ==> -bound <= #[trigger] y[j] <= bound,
    ensures
        -lim * (bound * bound) <= conv_upto(x, y, m, lim) <= lim * (bound * bound),
    decreases lim,
{
    if lim > 0 {
        lemma_conv_upto_abs_bound(x, y, m, lim - 1, bound);
        if 0 <= m - (lim - 1) < 256 {
            let u = x[lim - 1];
            let v = y[m - (lim - 1)];
            assert(-(bound * bound) <= u * v <= bound * bound) by (nonlinear_arith)
                requires
                    -bound <= u <= bound,
                    -bound <= v <= bound,
            ;
        }
        assert(-lim * (bound * bound) == -(lim - 1) * (bound * bound) - bound * bound) by (nonlinear_arith);
        assert(lim * (bound * bound) == (lim - 1) * (bound * bound) + bound * bound) by (nonlinear_arith);
    }
}

/// Every entry is its own centred representative.
pub open spec fn centred_seq(p: Seq<int>) -> bool {
    &&& p.len() == 256
    &&& forall|i: int| 0 <= i < 256 ==> #[trigger] centered(p[i]) == p[i]
}

/// Congruent integers have the same centred representative.
pub proof fn lemma_centered_cong(x: int, y: int)
    requires
        x % q_int() == y % q_int(),
    ensures
        centered(x) == centered(y),
{
    lemma_centered_mod(x);
    lemma_centered_mod(y);
}

/// Congruent centred sequences are equal.
pub proof fn lemma_centred_cong_eq(a: Seq<int>, b: Seq<int>)
    requires
        centred_seq(a),
        centred_seq(b),
        congruent_seqs(a, b),
    ensures
        a == b,
{
    assert forall|i: int| 0 <= i < 256 implies #[trigger] a[i] == b[i] by {
        lemma_centered_cong(a[i], b[i]);
    }
    assert(a =~= b);
}

/// Centring is idempotent.
pub proof fn lemma_centered_idem(x: int)
    ensures
        centered(centered(x)) == centered(x),
{
    lemma_centered_congruent(x);
    lemma_centered_cong(centered(x), x);
}

pub proof fn lemma_cadd_facts(a: Seq<int>, b: Seq<int>)
    ensures
        centred_seq(cadd(a, b)),
        congruent_seqs(cadd(a, b), seq_add(a, b)),
{
    assert forall|i: int| 0 <= i < 256 implies #[trigger] centered(cadd(a, b)[i]) == cadd(a, b)[i] by {
        lemma_centered_idem(a[i] + b[i]);
    }
    assert forall|i: int| 0 <= i < 256 implies #[trigger] (cadd(a, b)[i] % q_int()) == seq_add(a, b)[i] % q_int() by {
        lemma_centered_congruent(a[i] + b[i]);
    }
}

pub proof fn lemma_csub_facts(a: Seq<int>, b: Seq<int>)
    ensures
        centred_seq(csub(a, b)),
        congruent_seqs(csub(a, b), seq_sub(a, b)),
{
    assert forall|i: int| 0 <= i < 256 implies #[trigger] centered(csub(a, b)[i]) == csub(a, b)[i] by {
        lemma_centered_idem(a[i] - b[i]);
    }
    assert forall|i: int| 0 <= i < 256 implies #[trigger] (csub(a, b)[i] % q_int()) == seq_sub(a, b)[i] % q_int() by {
        lemma_centered_congruent(a[i] - b[i]);
    }
}

pub proof fn lemma_cmul_facts(a: Seq<int>, b: Seq<int>)
    ensures
        centred_seq(cmul(a, b)),
        congruent_seqs(cmul(a, b), pmul_seq(a, b)),
{
    assert forall|k: int| 0 <= k < 256 implies #[trigger] centered(cmul(a, b)[k]) == cmul(a, b)[k] by {
        lemma_centered_idem(nega_coeff(a, b, k));
    }
    assert forall|k: int| 0 <= k < 256 implies #[trigger] (cmul(a, b)[k] % q_int()) == pmul_seq(a, b)[k] % q_int() by {
        lemma_centered_congruent(nega_coeff(a, b, k));
        lemma_nega_is_pmul(a, b, k);
        vstd::arithmetic::div_mod::lemma_mod_twice(pmul(a, b, k), q_int());
    }
}

} // verus!
