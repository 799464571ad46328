//! # Polymorphic Lattice Projection (PLP)
//!
//! Each interaction context τ produces a public projection
//! `b_τ = A · s + e_τ (mod q)` of a master secret `s` over
//! `R_q = Z_q[X]/(X^256 + 1)`, and a holder proves knowledge of `s` for a
//! projection with a Fiat-Shamir sigma protocol `(W, c, z)`.
//!
//! Parameters: N=256, Q=8380417, ETA=2, GAMMA1=2^17, BETA=78.

use vstd::arithmetic::power::pow;
use vstd::arithmetic::power2::pow2;
use vstd::prelude::*;

use crate::identity_error::IdentityError;
use crate::ring::{
    abs_terms, all_in, centered, congruent_seqs, conv, conv_upto, lemma_conv_upto_bounds, lemma_nega_congruent,
    lemma_nega_is_pmul, lemma_pmul_add, lemma_pmul_left_comm, lemma_pmul_small_bound, lemma_sum_ext, nega_coeff, pmul,
    pmul_seq, q_int, range_sum, seq_add, u32s_to_ints,
};
use crate::ntt::{
    dft, half_turn, intt_spec, lemma_butterfly_step, lemma_inverse_half_turn, lemma_omega_half_turn, lemma_pow_succ,
    lemma_ntt_multiplication, lemma_rev8_half, lemma_rev_bits_8, lemma_stage_len, lemma_stage_one, n_inv_val, ntt_spec,
    pointwise, omega_inv_val, omega_val,
    psi_inv_val, psi_val, psi_weighted, rev8_bv, stage_len, stage_val,
};
use crate::xof::{
    challenge_byte_cap, challenge_coeffs, challenge_positions, lemma_challenge_weight, lemma_positions_nonempty, nonzero_terms, le_u32,
    push_bytes, push_u32_le, rejection_sample, sample_challenge, sample_rejection,
    shake256, shake256_output, u32_from_le, wipe_u32s, xof_byte, XofStream,
};

verus! {

// --- PARAMETERS (Module-LWE over R_q) ---
/// Ring degree N for X^N + 1.
pub const N: usize = 256;

/// Prime modulus q = 8_380_417 ≡ 1 (mod 512), NTT-compatible.
pub const Q: u32 = 8_380_417;

/// Secret key bound η = 2 (CBD).
pub const ETA: i32 = 2;

/// Masking vector bound γ₁ = 2^17.
pub const GAMMA1: i32 = 131_072;

/// Rejection sampling bound β = 78.
pub const BETA: i32 = 78;

/// Rejection threshold γ₁ - β.
pub const REJECTION_THRESHOLD: i32 = 130_994;

const N2: usize = 512;

// ── Polynomial type ───────────────────────────────────────────────────────────

/// Polynomial in R_q = Z_q[X]/(X^N + 1), coefficients stored as u32 in [0, Q).
///
/// The field is crate-private: code outside the crate reads coefficients only
/// through [`Poly::coeffs`] and never builds one directly, and every `Poly`
/// keeps its coefficients below `Q`.
#[derive(Clone, Copy)]
pub struct Poly {
    pub(crate) coeffs: [u32; N],
}

impl View for Poly {
    type V = Seq<u32>;

    closed spec fn view(&self) -> Seq<u32> {
        self.coeffs@
    }
}

/// 256 coefficients, each below `Q`.
pub open spec fn poly_bounded(s: Seq<u32>) -> bool {
    s.len() == 256 && forall|i: int| 0 <= i < 256 ==> #[trigger] s[i] < Q
}

/// Absolute value of the centred representative of a coefficient in `[0, Q)`.
pub open spec fn coeff_abs(c: u32) -> int {
    if c > Q / 2 {
        Q - c
    } else {
        c as int
    }
}

/// The largest [`coeff_abs`] among the first `n` coefficients (0 if none).
pub open spec fn norm_upto(s: Seq<u32>, n: int) -> int
    decreases n,
{
    if n <= 0 {
        0
    } else {
        let r = norm_upto(s, n - 1);
        let c = coeff_abs(s[n - 1]);
        if c > r {
            c
        } else {
            r
        }
    }
}

/// [`norm_upto`] is the largest [`coeff_abs`] among the first `n`
/// coefficients, or 0 when there are none; it is at most `(q − 1)/2` when the
/// coefficients are below `q`.
pub proof fn lemma_norm_upto_is_max(s: Seq<u32>, n: int)
    requires
        0 <= n <= s.len(),
    ensures
        forall|i: int| 0 <= i < n ==> #[trigger] coeff_abs(s[i]) <= norm_upto(s, n),
        norm_upto(s, n) == 0 || exists|i: int| 0 <= i < n && #[trigger] coeff_abs(s[i]) == norm_upto(s, n),
        norm_upto(s, n) >= 0,
        (forall|i: int| 0 <= i < n ==> #[trigger] s[i] < Q) ==> norm_upto(s, n) <= 4190208,
    decreases n,
{
    if n > 0 {
        lemma_norm_upto_is_max(s, n - 1);
        if coeff_abs(s[n - 1]) > norm_upto(s, n - 1) {
            assert(coeff_abs(s[n - 1]) == norm_upto(s, n));
        }
    }
}

/// Infinity norm of the centred coefficients.
pub open spec fn poly_inf_norm(s: Seq<u32>) -> int {
    norm_upto(s, 256)
}

/// Coefficient-wise `(a + b) mod q`.
pub open spec fn poly_add_spec(a: Seq<u32>, b: Seq<u32>) -> Seq<u32> {
    Seq::new(256, |i: int| ((a[i] + b[i]) % q_int()) as u32)
}

/// Coefficient-wise `(a - b) mod q`.
pub open spec fn poly_sub_spec(a: Seq<u32>, b: Seq<u32>) -> Seq<u32> {
    Seq::new(256, |i: int| ((a[i] - b[i]) % q_int()) as u32)
}

/// `a * b` in `R_q`.
pub open spec fn poly_mul_spec(a: Seq<u32>, b: Seq<u32>) -> Seq<u32> {
    Seq::new(256, |k: int| nega_coeff(u32s_to_ints(a), u32s_to_ints(b), k) as u32)
}

/// All-zero coefficients.
pub open spec fn zero_coeffs() -> Seq<u32> {
    Seq::new(256, |i: int| 0u32)
}

impl Poly {
    /// Every coefficient is below `Q`.
    #[verifier::type_invariant]
    closed spec fn wf(self) -> bool {
        forall|i: int| 0 <= i < N ==> #[trigger] self.coeffs[i] < Q
    }

    /// Build from coefficients already in `[0, Q)`.
    pub(crate) fn from_array(coeffs: [u32; N]) -> (r: Self)
        requires
            forall|i: int| 0 <= i < N ==> #[trigger] coeffs[i] < Q,
        ensures
            r@ == coeffs@,
    {
        Poly { coeffs }
    }

    /// Zero polynomial.
    pub fn zero() -> (r: Self)
        ensures
            r@ == zero_coeffs(),
    {
        let r = Poly { coeffs: [0u32; N] };
        assert(r.coeffs@ =~= zero_coeffs());
        r
    }

    /// Read-only view of the coefficients.
    pub fn coeffs(&self) -> (r: &[u32; N])
        ensures
            r@ == self@,
            poly_bounded(self@),
    {
        proof {
            use_type_invariant(self);
        }
        &self.coeffs
    }

    /// Polynomial addition mod q.
    pub fn add(&self, other: &Self) -> (r: Self)
        ensures
            r@ == poly_add_spec(self@, other@),
    {
        proof {
            use_type_invariant(self);
            use_type_invariant(other);
        }
        let mut res = Self::zero();
        let mut i: usize = 0;
        while i < N
            invariant
                i <= N,
                forall|j: int| 0 <= j < N ==> self.coeffs[j] < Q,
                forall|j: int| 0 <= j < N ==> other.coeffs[j] < Q,
                forall|j: int| 0 <= j < N ==> res.coeffs[j] < Q,
                forall|j: int| 0 <= j < i ==> #[trigger] res.coeffs[j] == poly_add_spec(self@, other@)[j],
            decreases N - i,
        {
            res.coeffs[i] = add_mod(self.coeffs[i], other.coeffs[i]);
            i += 1;
        }
        assert(res@ =~= poly_add_spec(self@, other@));
        res
    }

    /// Polynomial subtraction mod q.
    pub fn sub(&self, other: &Self) -> (r: Self)
        ensures
            r@ == poly_sub_spec(self@, other@),
    {
        proof {
            use_type_invariant(self);
            use_type_invariant(other);
        }
        let mut res = Self::zero();
        let mut i: usize = 0;
        while i < N
            invariant
                i <= N,
                forall|j: int| 0 <= j < N ==> self.coeffs[j] < Q,
                forall|j: int| 0 <= j < N ==> other.coeffs[j] < Q,
                forall|j: int| 0 <= j < N ==> res.coeffs[j] < Q,
                forall|j: int| 0 <= j < i ==> #[trigger] res.coeffs[j] == poly_sub_spec(self@, other@)[j],
            decreases N - i,
        {
            res.coeffs[i] = sub_mod(self.coeffs[i], other.coeffs[i]);
            i += 1;
        }
        assert(res@ =~= poly_sub_spec(self@, other@));
        res
    }

    /// Schoolbook polynomial multiplication in R_q = Z_q[X]/(X^N + 1).
    pub fn mul_schoolbook(&self, other: &Self) -> (r: Self)
        ensures
            r@ == poly_mul_spec(self@, other@),
    {
        proof {
            use_type_invariant(self);
            use_type_invariant(other);
        }
        let ghost a = u32s_to_ints(self@);
        let ghost b = u32s_to_ints(other@);
        let ghost bound: int = 8380416;
        proof {
            assert(all_in(a, 0, bound));
            assert(all_in(b, -bound, bound));
        }
        let mut tmp = [0i64; N2];
        let mut i: usize = 0;
        while i < N
            invariant
                i <= N,
                a == u32s_to_ints(self@),
                b == u32s_to_ints(other@),
                a.len() == 256,
                b.len() == 256,
                bound == 8380416,
                all_in(a, 0, bound),
                all_in(b, -bound, bound),
                forall|m: int| 0 <= m < 512 ==> #[trigger] tmp[m] as int == conv_upto(a, b, m, i as int),
            decreases N - i,
        {
            let mut j: usize = 0;
            while j < N
                invariant
                    i < N,
                    j <= N,
                    a == u32s_to_ints(self@),
                    b == u32s_to_ints(other@),
                    a.len() == 256,
                    b.len() == 256,
                    bound == 8380416,
                    all_in(a, 0, bound),
                    all_in(b, -bound, bound),
                    forall|m: int|
                        0 <= m < 512 ==> #[trigger] tmp[m] as int == conv_upto(a, b, m, i as int) + (if i <= m
                            < i + j {
                            a[i as int] * b[m - i]
                        } else {
                            0
                        }),
                decreases N - j,
            {
                let m = i + j;
                let x = self.coeffs[i] as i64;
                let y = other.coeffs[j] as i64;
                proof {
                    lemma_conv_upto_bounds(a, b, m as int, i as int, bound, bound);
                    assert(a[i as int] == x && b[j as int] == y);
                    assert(0 <= x * y <= bound * bound) by (nonlinear_arith)
                        requires
                            0 <= x <= bound,
                            0 <= y <= bound,
                    ;
                    assert(i * (bound * bound) <= 255 * (bound * bound)) by (nonlinear_arith)
                        requires
                            i < 256,
                            bound > 0,
                    ;
                }
                tmp[m] = tmp[m] + x * y;
                j += 1;
            }
            proof {
                assert forall|m: int| 0 <= m < 512 implies #[trigger] tmp[m] as int == conv_upto(
                    a,
                    b,
                    m,
                    i + 1,
                ) by {
                    assert(conv_upto(a, b, m, i + 1) == conv_upto(a, b, m, i as int) + (if 0 <= m - i < 256 {
                        a[i as int] * b[m - i]
                    } else {
                        0
                    }));
                }
            }
            i += 1;
        }
        let mut res = Self::zero();
        let mut k: usize = 0;
        while k < N
            invariant
                k <= N,
                a == u32s_to_ints(self@),
                b == u32s_to_ints(other@),
                a.len() == 256,
                b.len() == 256,
                bound == 8380416,
                all_in(a, 0, bound),
                all_in(b, -bound, bound),
                forall|m: int| 0 <= m < 512 ==> #[trigger] tmp[m] as int == conv(a, b, m),
                forall|j: int| 0 <= j < N ==> res.coeffs[j] < Q,
                forall|j: int| 0 <= j < k ==> #[trigger] res.coeffs[j] == poly_mul_spec(self@, other@)[j],
            decreases N - k,
        {
            proof {
                lemma_conv_upto_bounds(a, b, k as int, 256, bound, bound);
                lemma_conv_upto_bounds(a, b, k + 256, 256, bound, bound);
            }
            let d = tmp[k] - tmp[k + N];
            let v = match d.checked_rem_euclid(Q as i64) {
                Some(v) => v,
                None => 0,
            };
            res.coeffs[k] = v as u32;
            k += 1;
        }
        assert(res@ =~= poly_mul_spec(self@, other@));
        res
    }

    /// Wipe every coefficient with volatile writes.
    pub(crate) fn wipe(&mut self)
        ensures
            final(self)@ == zero_coeffs(),
    {
        wipe_u32s(&mut self.coeffs);
        proof {
            assert(self.coeffs@ =~= zero_coeffs());
        }
    }

    /// Infinity norm (max absolute centered coefficient).
    pub fn infinity_norm(&self) -> (r: i64)
        ensures
            r == poly_inf_norm(self@),
            forall|i: int| 0 <= i < N ==> #[trigger] coeff_abs(self@[i]) <= r,
            r == 0 || exists|i: int| 0 <= i < N && #[trigger] coeff_abs(self@[i]) == r,
            0 <= r <= 4190208,
    {
        proof {
            use_type_invariant(self);
            lemma_norm_upto_is_max(self@, 256);
        }
        let mut max_val = 0i64;
        let mut i: usize = 0;
        while i < N
            invariant
                i <= N,
                forall|j: int| 0 <= j < N ==> self.coeffs[j] < Q,
                max_val == norm_upto(self@, i as int),
                0 <= max_val < Q,
            decreases N - i,
        {
            let c = self.coeffs[i];
            let centered = if c > Q / 2 { Q as i64 - c as i64 } else { c as i64 };
            if centered > max_val {
                max_val = centered;
            }
            i += 1;
        }
        max_val
    }

    /// Center coefficients to [-q/2, q/2].
    pub fn center(&self) -> (r: [i32; N])
        ensures
            forall|i: int| 0 <= i < N ==> #[trigger] r@[i] as int == centered(self@[i] as int),
    {
        proof {
            use_type_invariant(self);
        }
        let mut out = [0i32; N];
        let mut i: usize = 0;
        while i < N
            invariant
                i <= N,
                forall|j: int| 0 <= j < N ==> self.coeffs[j] < Q,
                forall|j: int| 0 <= j < i ==> #[trigger] out@[j] as int == centered(self@[j] as int),
            decreases N - i,
        {
            let c = self.coeffs[i];
            out[i] = if c > Q / 2 { c as i32 - Q as i32 } else { c as i32 };
            i += 1;
        }
        out
    }
}

impl Poly {
    /// Build from arbitrary coefficients, each reduced into `[0, Q)`.
    pub fn from_coeffs(coeffs: [u32; N]) -> (r: Self)
        ensures
            forall|i: int| 0 <= i < N ==> #[trigger] r@[i] == coeffs@[i] % Q,
    {
        let mut c = coeffs;
        let mut i: usize = 0;
        while i < N
            invariant
                i <= N,
                forall|j: int| 0 <= j < i ==> #[trigger] c@[j] == coeffs@[j] % Q,
                forall|j: int| i <= j < N ==> #[trigger] c@[j] == coeffs@[j],
            decreases N - i,
        {
            c[i] = c[i] % Q;
            i += 1;
        }
        Poly::from_array(c)
    }
}

// ── NTT ───────────────────────────────────────────────────────────────────────

/// `ψ = 1753`, a primitive 512th root of unity mod q: `ψ^256 ≡ −1`.
pub const PSI: u64 = 1753;

proof fn lemma_pow_step(result: int, b: int, e: nat, m: int)
    requires
        m > 0,
    ensures
        e % 2 == 1 ==> ((result * b % m) * pow((b * b) % m, e / 2)) % m == (result * pow(b, e)) % m,
        e % 2 == 0 ==> (result * pow((b * b) % m, e / 2)) % m == (result * pow(b, e)) % m,
{
    let k = e / 2;
    vstd::arithmetic::power::lemma_pow_multiplies(b, 2, k);
    assert(pow(b, 2) == b * b) by {
        reveal_with_fuel(pow, 3);
    }
    vstd::arithmetic::power::lemma_pow_mod_noop(b * b, k, m);
    let p1 = pow((b * b) % m, k);
    let p2 = pow(b * b, k);
    vstd::arithmetic::div_mod::lemma_mul_mod_noop_right(result, p1, m);
    vstd::arithmetic::div_mod::lemma_mul_mod_noop_right(result, p2, m);
    if e % 2 == 1 {
        assert(pow(b, e) == b * pow(b, (e - 1) as nat)) by {
            reveal(pow);
        }
        assert((e - 1) as nat == 2 * k);
        vstd::arithmetic::div_mod::lemma_mul_mod_noop_left(result * b, p1, m);
        vstd::arithmetic::div_mod::lemma_mul_mod_noop_right(result * b, p1, m);
        vstd::arithmetic::div_mod::lemma_mul_mod_noop_right(result * b, p2, m);
        assert(result * b * p2 == result * (b * p2)) by (nonlinear_arith);
    } else {
        assert(e == 2 * k);
    }
}

/// `base^exp mod modulus` by repeated squaring.
fn pow_mod(base: u64, exp: u64, modulus: u64) -> (r: u64)
    requires
        1 < modulus <= 0x1_0000_0000,
    ensures
        r as int == pow(base as int, exp as nat) % (modulus as int),
        r < modulus,
{
    let ghost m = modulus as int;
    let mut result: u64 = 1;
    let mut b = base % modulus;
    let mut e = exp;
    proof {
        vstd::arithmetic::power::lemma_pow_mod_noop(base as int, exp as nat, m);
        vstd::arithmetic::div_mod::lemma_small_mod(1, m as nat);
    }
    while e > 0
        invariant
            1 < modulus <= 0x1_0000_0000,
            m == modulus,
            result < modulus,
            b < modulus,
            (result * pow(b as int, e as nat)) % m == pow(base as int, exp as nat) % m,
        decreases e,
    {
        proof {
            lemma_pow_step(result as int, b as int, e as nat, m);
        }
        assert(result * b <= 0xffff_ffff * 0xffff_ffff) by (nonlinear_arith)
            requires
                result < 0x1_0000_0000,
                b < 0x1_0000_0000,
        ;
        assert(((e & 1) == 1) == (e % 2 == 1) && (e >> 1) == e / 2) by (bit_vector);
        assert(b * b <= 0xffff_ffff * 0xffff_ffff) by (nonlinear_arith)
            requires
                b < 0x1_0000_0000,
        ;
        if e & 1 == 1 {
            result = result * b % modulus;
        }
        e = e >> 1;
        b = b * b % modulus;
    }
    proof {
        assert(pow(b as int, 0) == 1) by {
            reveal(pow);
        }
        vstd::arithmetic::div_mod::lemma_small_mod(result as nat, m as nat);
    }
    result
}

/// The low `bits` bits of `x` in reverse order.
pub open spec fn rev_bits(x: nat, bits: nat) -> nat
    decreases bits,
{
    if bits == 0 {
        0
    } else {
        (x % 2) * pow2((bits - 1) as nat) + rev_bits(x / 2, (bits - 1) as nat)
    }
}

/// Reverse the low `bits` bits of `x`.
fn bit_reverse(x: usize, bits: usize) -> (r: usize)
    requires
        bits <= 16,
    ensures
        r == rev_bits(x as nat, bits as nat),
{
    let ghost x0 = x as nat;
    let mut result: usize = 0;
    let mut x = x;
    let mut i: usize = 0;
    proof {
        vstd::arithmetic::power2::lemma2_to64();
    }
    while i < bits
        invariant
            i <= bits <= 16,
            result < pow2(i as nat),
            pow2(i as nat) <= 0x10000,
            result * pow2((bits - i) as nat) + rev_bits(x as nat, (bits - i) as nat) == rev_bits(x0, bits as nat),
        decreases bits - i,
    {
        proof {
            vstd::arithmetic::power2::lemma2_to64();
            vstd::arithmetic::power2::lemma_pow2_adds(i as nat, 1);
            vstd::arithmetic::power2::lemma_pow2_adds((bits - i - 1) as nat, 1);
            assert(((bits - i - 1) + 1) as nat == (bits - i) as nat);
            vstd::arithmetic::power2::lemma_pow2_pos((bits - i - 1) as nat);
            if i + 1 < 16 {
                vstd::arithmetic::power2::lemma_pow2_strictly_increases((i + 1) as nat, 16);
            }
        }
        assert(result < 0x10000 ==> ((result << 1usize) | (x & 1usize)) == 2 * result + x % 2 && (x >> 1usize) == x
            / 2) by (bit_vector);
        let bit = x & 1usize;
        let next = (result << 1usize) | bit;
        proof {
            let r = result as int;
            let p = pow2((bits - i - 1) as nat) as int;
            assert((2 * r + x % 2) * p == r * (2 * p) + (x % 2) * p) by (nonlinear_arith);
        }
        result = next;
        x = x >> 1usize;
        i += 1;
    }
    proof {
        vstd::arithmetic::power2::lemma2_to64();
        assert(rev_bits(x as nat, 0) == 0);
        assert(i == bits);
        assert(pow2(0) == 1);
        assert(result * pow2(0) == result);
        assert(result == rev_bits(x0, bits as nat));
    }
    result
}

/// The bit reversal of an index below 256.
pub open spec fn rev8(p: int) -> int {
    rev8_bv(p as u32) as int
}

/// A coefficient array as integers.
pub open spec fn u64s_to_ints(a: Seq<u64>) -> Seq<int> {
    Seq::new(a.len(), |i: int| a[i] as int)
}

/// Cyclic radix-2 NTT in place: bit-reverse, then decimation-in-time
/// butterflies with twiddles `root^(N/(2·len))`. For a root of order 256
/// (`root^128 ≡ −1`) the result is the DFT `Σ_u a[u]·root^(u·k)`.
fn cyclic_ntt(a: &mut [u64; N], root: u64, q: u64)
    requires
        q == Q,
        root < q,
        half_turn(root as int),
        forall|i: int| 0 <= i < N ==> #[trigger] old(a)@[i] < q,
    ensures
        forall|i: int| 0 <= i < N ==> #[trigger] final(a)@[i] < q,
        forall|k: int| 0 <= k < N ==> #[trigger] final(a)@[k] as int == dft(u64s_to_ints(old(a)@), root as int, 256, 0, k)
            % q_int(),
{
    let ghost x = u64s_to_ints(a@);
    proof {
        assert forall|p: int| 0 <= p < 256 implies 0 <= #[trigger] rev8(p) < 256 && rev8(rev8(p)) == p by {
            lemma_rev_bits_8(p as nat);
        }
    }
    let mut i: usize = 0;
    while i < N
        invariant
            i <= N,
            q == Q,
            x.len() == 256,
            forall|k: int| 0 <= k < 256 ==> 0 <= #[trigger] x[k] < q,
            forall|p: int| 0 <= p < 256 ==> 0 <= #[trigger] rev8(p) < 256 && rev8(rev8(p)) == p,
            forall|k: int| 0 <= k < N ==> #[trigger] a@[k] < q,
            forall|p: int|
                0 <= p < 256 ==> #[trigger] a@[p] as int == (if p < i || rev8(p) < i {
                    x[rev8(p)]
                } else {
                    x[p]
                }),
        decreases N - i,
    {
        let j = bit_reverse(i, 8);
        proof {
            lemma_rev_bits_8(i as nat);
            assert(j as int == rev8(i as int));
        }
        if i < j && j < N {
            let t = a[i];
            a[i] = a[j];
            a[j] = t;
        }
        proof {
            assert forall|p: int|
                0 <= p < 256 implies #[trigger] a@[p] as int == (if p < i + 1 || rev8(p) < i + 1 {
                x[rev8(p)]
            } else {
                x[p]
            }) by {
                if p == i as int {
                } else if p == j as int {
                    assert(rev8(p) == i as int);
                } else if rev8(p) == i as int {
                    assert(rev8(rev8(p)) == p);
                }
            }
        }
        i += 1;
    }
    proof {
        assert forall|p: int| 0 <= p < 256 implies #[trigger] a@[p] as int == stage_val(x, root as int, 1, p) by {
            assert(0 <= rev8(p) < 256);
            assert(0 <= x[rev8(p)] < q);
            lemma_stage_one(x, root as int, p);
        }
    }
    let mut len: usize = 1;
    while len < N
        invariant
            stage_len(len as int) || len == 256,
            q == Q,
            root < q,
            half_turn(root as int),
            x.len() == 256,
            forall|k: int| 0 <= k < N ==> #[trigger] a@[k] < q,
            forall|p: int| 0 <= p < 256 ==> #[trigger] a@[p] as int == stage_val(x, root as int, len as int, p),
        decreases N - len,
    {
        proof {
            lemma_stage_len(len as int);
            assert(256int / (2 * len as int) == 128int / (len as int)) by (nonlinear_arith)
                requires
                    (256int / (2 * len as int)) * len == 128,
                    stage_len(len as int),
            ;
            assert(2 * len <= 256);
        }
        let w_len = pow_mod(root, (N / (2 * len)) as u64, q);
        let mut base: usize = 0;
        while base < N
            invariant
                stage_len(len as int),
                base <= N,
                (base as int) % (2 * len as int) == 0,
                q == Q,
                half_turn(root as int),
                w_len < q,
                w_len as int == pow(root as int, (128int / len as int) as nat) % q_int(),
                x.len() == 256,
                forall|k: int| 0 <= k < N ==> #[trigger] a@[k] < q,
                forall|p: int|
                    0 <= p < 256 ==> #[trigger] a@[p] as int == (if p < base {
                        stage_val(x, root as int, 2 * len as int, p)
                    } else {
                        stage_val(x, root as int, len as int, p)
                    }),
            decreases N - base,
        {
            assert(base + 2 * len <= N) by (nonlinear_arith)
                requires
                    base < N,
                    (base as int) % (2 * len as int) == 0,
                    N == 256,
                    stage_len(len as int),
            ;
            let mut w: u64 = 1;
            proof {
                vstd::arithmetic::power::lemma_pow0(w_len as int);
            }
            let mut j: usize = 0;
            while j < len
                invariant
                    stage_len(len as int),
                    j <= len,
                    base + 2 * len <= N,
                    (base as int) % (2 * len as int) == 0,
                    q == Q,
                    half_turn(root as int),
                    w_len < q,
                    w_len as int == pow(root as int, (128int / len as int) as nat) % q_int(),
                    w < q,
                    w as int == pow(w_len as int, j as nat) % q_int(),
                    x.len() == 256,
                    forall|k: int| 0 <= k < N ==> #[trigger] a@[k] < q,
                    forall|p: int|
                        0 <= p < 256 ==> #[trigger] a@[p] as int == (if p < base || (base <= p < base + len && p
                            < base + j) || (base + len <= p < base + 2 * len && p < base + len + j) {
                            stage_val(x, root as int, 2 * len as int, p)
                        } else {
                            stage_val(x, root as int, len as int, p)
                        }),
                decreases len - j,
            {
                let ghost a0 = a@;
                let u = a[base + j];
                assert(a[base + j + len] * w < 0x1_0000_0000_0000_0000) by (nonlinear_arith)
                    requires
                        a[base + j + len] < 8380417,
                        w < 8380417,
                ;
                let v = a[base + j + len] * w % q;
                proof {
                    lemma_butterfly_step(
                        x,
                        root as int,
                        len as int,
                        base as int,
                        j as int,
                        u as int,
                        a0[base + j + len] as int,
                        w as int,
                        w_len as int,
                    );
                }
                a[base + j] = (u + v) % q;
                a[base + j + len] = (u + q - v) % q;
                assert(w * w_len < 0x1_0000_0000_0000_0000) by (nonlinear_arith)
                    requires
                        w < 8380417,
                        w_len < 8380417,
                ;
                proof {
                    vstd::arithmetic::power::lemma_pow_adds(w_len as int, j as nat, 1);
                    vstd::arithmetic::power::lemma_pow1(w_len as int);
                    vstd::arithmetic::div_mod::lemma_mul_mod_noop_left(pow(w_len as int, j as nat), w_len as int, q_int());
                }
                w = w * w_len % q;
                j += 1;
            }
            proof {
                vstd::arithmetic::div_mod::lemma_mod_add_multiples_vanish(base as int, 2 * len as int);
            }
            base = base + 2 * len;
        }
        len = len * 2;
    }
    proof {
        lemma_rev8_half(0, 1, 2);
        assert forall|k: int| 0 <= k < N implies #[trigger] a@[k] as int == dft(x, root as int, 256, 0, k) % q_int() by {
            assert(k % 256 == k);
            assert(k - k % 256 == 0);
        }
    }
}

/// Forward negacyclic NTT over `R_q`: weight coefficient `i` by `ψ^i`, then
/// run the cyclic NTT with `ω = ψ²`.
pub fn ntt_forward(poly: &mut Poly)
    ensures
        final(poly)@ == ntt_spec(old(poly)@),
{
    let ghost p0 = poly@;
    let q = Q as u64;
    let omega = PSI * PSI % q;
    proof {
        lemma_omega_half_turn();
        vstd::arithmetic::power::lemma_pow0(psi_val());
    }
    let mut a = [0u64; N];
    let mut psi_pow: u64 = 1;
    let mut i: usize = 0;
    while i < N
        invariant
            i <= N,
            q == Q,
            p0 == poly@,
            psi_pow < q,
            psi_pow as int == pow(psi_val(), i as nat) % q_int(),
            forall|k: int| 0 <= k < N ==> #[trigger] a@[k] < q,
            forall|k: int| 0 <= k < i ==> #[trigger] a@[k] as int == psi_weighted(p0)[k],
        decreases N - i,
    {
        proof {
            use_type_invariant(&*poly);
        }
        let c = poly.coeffs[i] as u64;
        assert(c * psi_pow < 0x1_0000_0000_0000_0000) by (nonlinear_arith)
            requires
                c < 8380417,
                psi_pow < 8380417,
        ;
        a[i] = c * psi_pow % q;
        proof {
            vstd::arithmetic::div_mod::lemma_mul_mod_noop_right(c as int, pow(psi_val(), i as nat), q_int());
            lemma_pow_succ(psi_val(), i as nat, psi_pow as int);
            vstd::arithmetic::div_mod::lemma_mul_mod_noop_left(pow(psi_val(), i as nat), psi_val(), q_int());
        }
        psi_pow = psi_pow * PSI % q;
        i += 1;
    }
    proof {
        assert(u64s_to_ints(a@) =~= psi_weighted(p0));
    }
    cyclic_ntt(&mut a, omega, q);
    let mut out = [0u32; N];
    let mut i: usize = 0;
    while i < N
        invariant
            i <= N,
            q == Q,
            forall|k: int| 0 <= k < N ==> #[trigger] a@[k] < q,
            forall|k: int| 0 <= k < N ==> #[trigger] a@[k] as int == dft(psi_weighted(p0), omega_val(), 256, 0, k) % q_int(),
            forall|k: int| 0 <= k < i ==> #[trigger] out@[k] < Q,
            forall|k: int| 0 <= k < i ==> #[trigger] out@[k] == ntt_spec(p0)[k],
        decreases N - i,
    {
        out[i] = a[i] as u32;
        i += 1;
    }
    *poly = Poly::from_array(out);
    proof {
        assert(poly@ =~= ntt_spec(p0));
    }
}

/// Inverse negacyclic NTT over `R_q`: the cyclic NTT with `ω⁻¹`, then scale
/// by `n⁻¹` and remove the `ψ^i` weighting.
pub fn ntt_inverse(poly: &mut Poly)
    ensures
        final(poly)@ == intt_spec(old(poly)@),
{
    let ghost p0 = poly@;
    let q = Q as u64;
    let omega = PSI * PSI % q;
    let omega_inv = pow_mod(omega, q - 2, q);
    let psi_inv = pow_mod(PSI, q - 2, q);
    let n_inv = pow_mod(N as u64, q - 2, q);
    proof {
        lemma_omega_half_turn();
        lemma_inverse_half_turn(omega_val());
        vstd::arithmetic::power::lemma_pow0(psi_inv as int);
    }
    let mut a = [0u64; N];
    let mut i: usize = 0;
    while i < N
        invariant
            i <= N,
            q == Q,
            p0 == poly@,
            forall|k: int| 0 <= k < N ==> #[trigger] a@[k] < q,
            forall|k: int| 0 <= k < i ==> #[trigger] a@[k] as int == p0[k] as int,
        decreases N - i,
    {
        proof {
            use_type_invariant(&*poly);
        }
        a[i] = poly.coeffs[i] as u64;
        i += 1;
    }
    proof {
        assert(u64s_to_ints(a@) =~= u32s_to_ints(p0));
    }
    cyclic_ntt(&mut a, omega_inv, q);
    let mut out = [0u32; N];
    let mut psi_inv_pow: u64 = 1;
    let mut i: usize = 0;
    while i < N
        invariant
            i <= N,
            q == Q,
            psi_inv < q,
            n_inv < q,
            psi_inv as int == psi_inv_val(),
            n_inv as int == n_inv_val(),
            psi_inv_pow < q,
            psi_inv_pow as int == pow(psi_inv_val(), i as nat) % q_int(),
            forall|k: int| 0 <= k < N ==> #[trigger] a@[k] < q,
            forall|k: int| 0 <= k < N ==> #[trigger] a@[k] as int == dft(u32s_to_ints(p0), omega_inv_val(), 256, 0, k) % q_int(),
            forall|k: int| 0 <= k < i ==> #[trigger] out@[k] < Q,
            forall|k: int| 0 <= k < i ==> #[trigger] out@[k] == intt_spec(p0)[k],
        decreases N - i,
    {
        assert(a[i as int] * n_inv < 0x1_0000_0000_0000_0000) by (nonlinear_arith)
            requires
                a[i as int] < 8380417,
                n_inv < 8380417,
        ;
        let t = a[i] * n_inv % q;
        assert(t * psi_inv_pow < 0x1_0000_0000_0000_0000) by (nonlinear_arith)
            requires
                t < 8380417,
                psi_inv_pow < 8380417,
        ;
        out[i] = (t * psi_inv_pow % q) as u32;
        assert(psi_inv_pow * psi_inv < 0x1_0000_0000_0000_0000) by (nonlinear_arith)
            requires
                psi_inv_pow < 8380417,
                psi_inv < 8380417,
        ;
        proof {
            lemma_pow_succ(psi_inv_val(), i as nat, psi_inv_pow as int);
        }
        psi_inv_pow = psi_inv_pow * psi_inv % q;
        i += 1;
    }
    *poly = Poly::from_array(out);
    proof {
        assert(poly@ =~= intt_spec(p0));
    }
}

/// Negacyclic multiplication through the NTT: transform both operands,
/// multiply pointwise, transform back. Equal to [`Poly::mul_schoolbook`].
pub fn poly_mul_ntt(a: &Poly, b: &Poly) -> (r: Poly)
    ensures
        r@ == poly_mul_spec(a@, b@),
{
    let q = Q as u64;
    let mut fa = *a;
    let mut fb = *b;
    ntt_forward(&mut fa);
    ntt_forward(&mut fb);
    let mut out = [0u32; N];
    let mut i: usize = 0;
    proof {
        use_type_invariant(&fa);
        use_type_invariant(&fb);
    }
    while i < N
        invariant
            i <= N,
            q == Q,
            forall|k: int| 0 <= k < N ==> fa.coeffs[k] < Q,
            forall|k: int| 0 <= k < N ==> fb.coeffs[k] < Q,
            forall|k: int| 0 <= k < i ==> #[trigger] out@[k] < Q,
            forall|k: int| 0 <= k < i ==> #[trigger] out@[k] == pointwise(fa@, fb@)[k],
        decreases N - i,
    {
        let x = fa.coeffs[i] as u64;
        let y = fb.coeffs[i] as u64;
        assert(x * y < 0x1_0000_0000_0000_0000) by (nonlinear_arith)
            requires
                x < 8380417,
                y < 8380417,
        ;
        out[i] = (x * y % q) as u32;
        i += 1;
    }
    let mut fc = Poly::from_array(out);
    proof {
        assert(fc@ =~= pointwise(fa@, fb@));
    }
    ntt_inverse(&mut fc);
    proof {
        use_type_invariant(a);
        use_type_invariant(b);
        lemma_ntt_multiplication(a@, b@);
    }
    fc
}

// ── Domain separators ─────────────────────────────────────────────────────────

/// `"AETHEL_PLP_CTX_V2"`: context matrix derivation.
pub const DOMAIN_CTX: [u8; 17] = [65, 69, 84, 72, 69, 76, 95, 80, 76, 80, 95, 67, 84, 88, 95, 86, 50];

/// `"AETHEL_ERROR_V2"`: projection error term.
pub const DOMAIN_ERROR: [u8; 15] = [65, 69, 84, 72, 69, 76, 95, 69, 82, 82, 79, 82, 95, 86, 50];

/// `"AETHEL_PLP_SALT_V1"`: per-projection salt.
pub const DOMAIN_SALT: [u8; 18] = [65, 69, 84, 72, 69, 76, 95, 80, 76, 80, 95, 83, 65, 76, 84, 95, 86, 49];

/// `"AETHEL_PLP_CHALLENGE_V2"`: Fiat-Shamir challenge.
pub const DOMAIN_CHALLENGE: [u8; 23] = [
    65, 69, 84, 72, 69, 76, 95, 80, 76, 80, 95, 67, 72, 65, 76, 76, 69, 78, 71, 69, 95, 86, 50,
];

/// `"AETHEL_MASTER_KEY_V1"`: master secret derivation.
pub const DOMAIN_MASTER: [u8; 20] = [65, 69, 84, 72, 69, 76, 95, 77, 65, 83, 84, 69, 82, 95, 75, 69, 89, 95, 86, 49];

/// `"AETHEL_MASK_V2"`: prover masking polynomial.
pub const DOMAIN_MASK: [u8; 14] = [65, 69, 84, 72, 69, 76, 95, 77, 65, 83, 75, 95, 86, 50];

/// Number of ±1 coefficients in a PLP challenge.
pub const CHALLENGE_WEIGHT: usize = 60;

/// Rejection-sampling attempts made by [`Prover::prove_identity`].
pub const PROVE_ITERATIONS: u8 = 16;

/// Width of the masking range `[-γ₁, γ₁]`.
pub const MASK_RANGE: u32 = 262_145;

// ── Specifications of the derivations ─────────────────────────────────────────

/// `tau` truncated or zero-padded to 32 bytes.
pub open spec fn pad_tau_spec(tau: Seq<u8>) -> Seq<u8> {
    Seq::new(32, |i: int| if i < tau.len() { tau[i] } else { 0u8 })
}

/// The little-endian bytes of the coefficients, in order.
pub open spec fn poly_bytes(s: Seq<u32>) -> Seq<u8>
    decreases s.len(),
{
    if s.len() == 0 {
        seq![]
    } else {
        poly_bytes(s.drop_last()) + le_u32(s.last())
    }
}

/// SHAKE-256 input for the salt.
pub open spec fn salt_input(rho: Seq<u8>, tau32: Seq<u8>) -> Seq<u8> {
    DOMAIN_SALT@ + le_u32(rho.len() as u32) + rho + tau32
}

/// The public per-projection salt.
pub open spec fn projection_salt(rho: Seq<u8>, tau32: Seq<u8>) -> Seq<u8> {
    shake256_output(salt_input(rho, tau32), 32)
}

/// SHAKE-256 input for the context matrix.
pub open spec fn ctx_input(tau32: Seq<u8>, salt: Seq<u8>) -> Seq<u8> {
    DOMAIN_CTX@ + tau32 + salt
}

/// The context matrix `A`: the first 256 stream values below `Q`, read as
/// 23-bit groups of 3 bytes. Coefficients the capped stream cannot fill are 0.
pub open spec fn context_matrix(tau32: Seq<u8>, salt: Seq<u8>) -> Seq<u32> {
    let vals = rejection_sample(ctx_input(tau32, salt), 3, Q as int, 256);
    Seq::new(256, |i: int| if i < vals.len() { vals[i] as u32 } else { 0u32 })
}

/// CBD η=2 coefficient from one byte: `(b0 + b1) - (b2 + b3)` over its low
/// four bits, reduced into `[0, q)`.
pub open spec fn cbd_coeff(b: u8) -> u32 {
    ((b as int % 2 + (b as int / 2) % 2 - (b as int / 4) % 2 - (b as int / 8) % 2) % q_int()) as u32
}

/// CBD η=2 polynomial from the first 256 stream bytes.
pub open spec fn cbd_poly(input: Seq<u8>) -> Seq<u32> {
    Seq::new(256, |i: int| cbd_coeff(xof_byte(input, i)))
}

/// The projection error term `e_τ`.
pub open spec fn error_poly(rho: Seq<u8>, tau: Seq<u8>) -> Seq<u32> {
    cbd_poly(DOMAIN_ERROR@ + rho + tau)
}

/// The master secret `s` derived from a seed.
pub open spec fn master_secret(seed: Seq<u8>) -> Seq<u32> {
    cbd_poly(DOMAIN_MASTER@ + seed)
}

/// Masking polynomial: the first 256 stream values below `2γ₁ + 1`, each
/// shifted down by `γ₁` and reduced into `[0, q)`.
pub open spec fn mask_poly(input: Seq<u8>) -> Seq<u32> {
    let vals = rejection_sample(input, 3, MASK_RANGE as int, 256);
    Seq::new(256, |i: int| if i < vals.len() { ((vals[i] - GAMMA1) % q_int()) as u32 } else { 0u32 })
}

/// SHAKE-256 input for the challenge.
pub open spec fn challenge_input(w: Seq<u32>, tau32: Seq<u8>, salt: Seq<u8>) -> Seq<u8> {
    DOMAIN_CHALLENGE@ + poly_bytes(w) + tau32 + salt
}

/// The sparse challenge: 60 coefficients `±1`, the rest 0.
pub open spec fn challenge_poly(w: Seq<u32>, tau32: Seq<u8>, salt: Seq<u8>) -> Seq<u32> {
    let c = challenge_coeffs(challenge_input(w, tau32, salt), CHALLENGE_WEIGHT as nat);
    Seq::new(256, |k: int| (c[k] % q_int()) as u32)
}

/// `1` for each nonzero coefficient of a `[0, q)` polynomial, `0` otherwise.
pub open spec fn nonzero_coeffs(s: Seq<u32>) -> spec_fn(int) -> int {
    |k: int| if s[k] != 0 { 1int } else { 0int }
}

/// A challenge is sparse ternary: every coefficient is `0`, `1` or `q − 1`,
/// and exactly as many are nonzero as distinct positions the stream offered,
/// which is [`CHALLENGE_WEIGHT`] once the capped stream holds that many.
pub proof fn lemma_challenge_poly_shape(w: Seq<u32>, tau32: Seq<u8>, salt: Seq<u8>)
    ensures
        forall|k: int|
            0 <= k < 256 ==> #[trigger] challenge_poly(w, tau32, salt)[k] == 0 || challenge_poly(w, tau32, salt)[k]
                == 1 || challenge_poly(w, tau32, salt)[k] == Q - 1,
        range_sum(nonzero_coeffs(challenge_poly(w, tau32, salt)), 0, 256) == challenge_positions(
            challenge_input(w, tau32, salt),
            CHALLENGE_WEIGHT as nat,
            challenge_byte_cap(),
        ).len(),
        challenge_positions(challenge_input(w, tau32, salt), CHALLENGE_WEIGHT as nat, challenge_byte_cap()).len()
            <= CHALLENGE_WEIGHT,
{
    let inp = challenge_input(w, tau32, salt);
    let c = challenge_coeffs(inp, CHALLENGE_WEIGHT as nat);
    let r = challenge_poly(w, tau32, salt);
    assert forall|k: int| 0 <= k < 256 implies (#[trigger] r[k] == 0 || r[k] == 1 || r[k] == Q - 1) && nonzero_coeffs(
        r,
    )(k) == nonzero_terms(c)(k) by {
        crate::xof::lemma_challenge_values(inp, CHALLENGE_WEIGHT as nat, k);
        if c[k] == -1 {
            assert((-1int) % 8380417 == 8380416);
        } else if c[k] == 1 {
            assert(1int % 8380417 == 1);
        } else {
            assert(0int % 8380417 == 0);
        }
    }
    lemma_sum_ext(nonzero_coeffs(r), nonzero_terms(c), 0, 256);
    lemma_challenge_weight(inp, CHALLENGE_WEIGHT as nat);
}

// ── Derivations ───────────────────────────────────────────────────────────────

/// Sample a small polynomial from CBD η=2: one stream byte per coefficient.
fn sample_cbd_eta2_from_xof(xof: &mut XofStream) -> (r: Poly)
    requires
        old(xof).wf(),
    ensures
        r@ == cbd_poly(old(xof).source()),
{
    let ghost input = xof.source();
    let mut coeffs = [0u32; N];
    let mut i: usize = 0;
    while i < N
        invariant
            i <= N,
            xof.wf(),
            xof.source() == input,
            forall|j: int| 0 <= j < N ==> coeffs[j] < Q,
            forall|j: int| 0 <= j < i ==> #[trigger] coeffs@[j] == cbd_poly(input)[j],
        decreases N - i,
    {
        let byte = xof.byte(i);
        let a0 = (byte & 0x01) as i32;
        let a1 = ((byte >> 1) & 0x01) as i32;
        let b0 = ((byte >> 2) & 0x01) as i32;
        let b1 = ((byte >> 3) & 0x01) as i32;
        assert(a0 == byte as int % 2 && a1 == (byte as int / 2) % 2 && b0 == (byte as int / 4) % 2 && b1 == (
        byte as int / 8) % 2) by (bit_vector)
            requires
                a0 == (byte & 0x01) as i32,
                a1 == ((byte >> 1) & 0x01) as i32,
                b0 == ((byte >> 2) & 0x01) as i32,
                b1 == ((byte >> 3) & 0x01) as i32,
        ;
        let coeff = (a0 + a1) - (b0 + b1);
        let v = if coeff < 0 { (coeff + Q as i32) as u32 } else { coeff as u32 };
        coeffs[i] = v;
        i += 1;
    }
    assert(coeffs@ =~= cbd_poly(input));
    Poly::from_array(coeffs)
}

/// Sample a masking polynomial from uniform [-γ₁, γ₁].
fn sample_mask_from_xof(xof: &mut XofStream) -> (r: Poly)
    requires
        old(xof).wf(),
    ensures
        r@ == mask_poly(old(xof).source()),
{
    let ghost input = xof.source();
    let vals = sample_rejection(xof, 3, MASK_RANGE, N);
    proof {
        crate::xof::lemma_accepted_bounds(input, 3, MASK_RANGE as int, 256, crate::xof::group_cap(3));
    }
    let mut coeffs = [0u32; N];
    let mut i: usize = 0;
    while i < vals.len()
        invariant
            i <= vals@.len(),
            vals@.len() <= N,
            vals@.len() == rejection_sample(input, 3, MASK_RANGE as int, 256).len(),
            forall|j: int| 0 <= j < vals@.len() ==> #[trigger] vals@[j] as int == rejection_sample(input, 3, MASK_RANGE as int, 256)[j],
            forall|j: int| 0 <= j < vals@.len() ==> #[trigger] vals@[j] < MASK_RANGE,
            forall|j: int| 0 <= j < N ==> coeffs[j] < Q,
            forall|j: int| 0 <= j < i ==> #[trigger] coeffs@[j] == mask_poly(input)[j],
            forall|j: int| i <= j < N ==> #[trigger] coeffs@[j] == 0,
        decreases vals@.len() - i,
    {
        let val = vals[i];
        let centered = val as i32 - GAMMA1;
        let v = if centered < 0 { (centered + Q as i32) as u32 } else { centered as u32 };
        coeffs[i] = v;
        i += 1;
    }
    assert(coeffs@ =~= mask_poly(input));
    Poly::from_array(coeffs)
}

/// Absorb the coefficients of `p` as little-endian bytes.
fn push_poly_bytes(v: &mut Vec<u8>, p: &Poly)
    ensures
        final(v)@ == old(v)@ + poly_bytes(p@),
{
    let coeffs = p.coeffs();
    let ghost start = v@;
    let mut i: usize = 0;
    while i < N
        invariant
            i <= N,
            coeffs@ == p@,
            coeffs@.len() == N,
            v@ == start + poly_bytes(p@.subrange(0, i as int)),
        decreases N - i,
    {
        push_u32_le(v, coeffs[i]);
        proof {
            let s = p@.subrange(0, i + 1);
            assert(s.drop_last() =~= p@.subrange(0, i as int));
            assert(s.last() == p@[i as int]);
            assert(v@ =~= start + poly_bytes(s));
        }
        i += 1;
    }
    assert(p@.subrange(0, N as int) =~= p@);
}

/// `tau` truncated or zero-padded to 32 bytes.
pub fn pad_tau(tau: &[u8]) -> (t: [u8; 32])
    ensures
        t@ == pad_tau_spec(tau@),
{
    let mut t = [0u8; 32];
    let len = if tau.len() < 32 { tau.len() } else { 32 };
    let mut i: usize = 0;
    while i < len
        invariant
            i <= len,
            len <= 32,
            len <= tau@.len(),
            len == 32 || len == tau@.len(),
            forall|j: int| 0 <= j < i ==> #[trigger] t@[j] == tau@[j],
            forall|j: int| i <= j < 32 ==> #[trigger] t@[j] == 0,
        decreases len - i,
    {
        t[i] = tau[i];
        i += 1;
    }
    assert(t@ =~= pad_tau_spec(tau@));
    t
}

/// Re-derive the ephemeral error `e_τ` from the projection randomness.
///
/// `e_τ` is a deterministic function of `(rho, tau)`, so a prover recovers it
/// without it ever being stored, and the projection and the proof witness
/// share this one definition.
pub fn derive_error_tau(rho: &[u8], tau: &[u8]) -> (r: Poly)
    ensures
        r@ == error_poly(rho@, tau@),
{
    let mut input: Vec<u8> = Vec::new();
    push_bytes(&mut input, &DOMAIN_ERROR);
    push_bytes(&mut input, rho);
    push_bytes(&mut input, tau);
    let mut xof = XofStream::new(input, N);
    sample_cbd_eta2_from_xof(&mut xof)
}

/// Derive the public per-projection salt from the caller's secret randomness.
///
/// One-way from `rho` and bound to `tau`, under its own domain separator.
pub(crate) fn derive_projection_salt(rho: &[u8], tau: &[u8; 32]) -> (salt: [u8; 32])
    ensures
        salt@ == projection_salt(rho@, tau@),
{
    let mut input: Vec<u8> = Vec::new();
    push_bytes(&mut input, &DOMAIN_SALT);
    push_u32_le(&mut input, rho.len() as u32);
    push_bytes(&mut input, rho);
    push_bytes(&mut input, tau);
    assert(input@ =~= salt_input(rho@, tau@));
    let out = shake256(&input, 32);
    let mut salt = [0u8; 32];
    let mut i: usize = 0;
    while i < 32
        invariant
            i <= 32,
            out@ == projection_salt(rho@, tau@),
            out@.len() == 32,
            forall|j: int| 0 <= j < i ==> #[trigger] salt@[j] == out@[j],
        decreases 32 - i,
    {
        salt[i] = out[i];
        i += 1;
    }
    assert(salt@ =~= out@);
    salt
}

/// Derive the context matrix `A` for a projection at `tau` with `salt`.
///
/// `A ← SHAKE-256("AETHEL_PLP_CTX_V2" ∥ τ ∥ salt)`, coefficients by rejection
/// sampling 23-bit values below `q`. Binding the per-projection salt means
/// two projections of one identity at one context do not share `A`, so their
/// samples cannot be averaged to strip the noise. `tau` is the padded 32-byte
/// tag, the only form a verifier holds.
pub fn derive_context_matrix(tau: &[u8; 32], salt: &[u8; 32]) -> (r: Poly)
    ensures
        r@ == context_matrix(tau@, salt@),
{
    let mut input: Vec<u8> = Vec::new();
    push_bytes(&mut input, &DOMAIN_CTX);
    push_bytes(&mut input, tau);
    push_bytes(&mut input, salt);
    let ghost inp = input@;
    assert(inp =~= ctx_input(tau@, salt@));
    let mut xof = XofStream::new(input, 1024);
    let vals = sample_rejection(&mut xof, 3, Q, N);
    proof {
        crate::xof::lemma_accepted_bounds(inp, 3, Q as int, 256, crate::xof::group_cap(3));
    }
    let mut coeffs = [0u32; N];
    let mut i: usize = 0;
    while i < vals.len()
        invariant
            inp == ctx_input(tau@, salt@),
            i <= vals@.len(),
            vals@.len() <= N,
            vals@.len() == rejection_sample(inp, 3, Q as int, 256).len(),
            forall|j: int| 0 <= j < vals@.len() ==> #[trigger] vals@[j] as int == rejection_sample(inp, 3, Q as int, 256)[j],
            forall|j: int| 0 <= j < vals@.len() ==> #[trigger] vals@[j] < Q,
            forall|j: int| 0 <= j < N ==> coeffs[j] < Q,
            forall|j: int| 0 <= j < i ==> #[trigger] coeffs@[j] == context_matrix(tau@, salt@)[j],
            forall|j: int| i <= j < N ==> #[trigger] coeffs@[j] == 0,
        decreases vals@.len() - i,
    {
        coeffs[i] = vals[i];
        i += 1;
    }
    assert(coeffs@ =~= context_matrix(tau@, salt@));
    Poly::from_array(coeffs)
}

/// Hash-to-challenge: a sparse ternary polynomial with exactly 60 ±1 coefficients.
///
/// `c = HashToPoly(SHAKE-256("AETHEL_PLP_CHALLENGE_V2" ∥ w ∥ tau ∥ salt))`:
/// stream bytes 0..8 give the signs, and each later byte names a position,
/// repeats skipped, until 60 distinct positions are chosen.
pub fn hash_to_challenge(w: &Poly, tau: &[u8; 32], salt: &[u8; 32]) -> (r: Poly)
    ensures
        r@ == challenge_poly(w@, tau@, salt@),
{
    let mut input: Vec<u8> = Vec::new();
    push_bytes(&mut input, &DOMAIN_CHALLENGE);
    push_poly_bytes(&mut input, w);
    push_bytes(&mut input, tau);
    push_bytes(&mut input, salt);
    let ghost inp = input@;
    assert(inp =~= challenge_input(w@, tau@, salt@));
    let mut xof = XofStream::new(input, 136);
    let c = sample_challenge(&mut xof, CHALLENGE_WEIGHT);
    let mut coeffs = [0u32; N];
    let mut k: usize = 0;
    while k < N
        invariant
            k <= N,
            inp == challenge_input(w@, tau@, salt@),
            forall|j: int| 0 <= j < N ==> #[trigger] c@[j] as int == challenge_coeffs(inp, CHALLENGE_WEIGHT as nat)[j],
            forall|j: int| 0 <= j < N ==> coeffs[j] < Q,
            forall|j: int| 0 <= j < k ==> #[trigger] coeffs@[j] == challenge_poly(w@, tau@, salt@)[j],
        decreases N - k,
    {
        let v = c[k];
        proof {
            crate::xof::lemma_challenge_values(inp, CHALLENGE_WEIGHT as nat, k as int);
        }
        coeffs[k] = if v < 0 { Q - 1 } else { v as u32 };
        k += 1;
    }
    assert(coeffs@ =~= challenge_poly(w@, tau@, salt@));
    Poly::from_array(coeffs)
}

// ── Master Identity ───────────────────────────────────────────────────────────

/// Holds the permanent master secret polynomial s.
///
/// `secret_key` is private with no public accessor; only this module and the
/// crate-internal [`MasterIdentity::secret`] reach it.
pub struct MasterIdentity {
    secret_key: Poly,
}

/// SHAKE-256 input for a prover mask at iteration `iter`.
pub open spec fn mask_input(seed: Seq<u8>, tau32: Seq<u8>, iter: int) -> Seq<u8> {
    DOMAIN_MASK@ + seed + tau32 + seq![iter as u8]
}

/// The public projection `b = A·s + e` for a secret `s`.
pub open spec fn projection_b(a: Seq<u32>, s: Seq<u32>, e: Seq<u32>) -> Seq<u32> {
    poly_add_spec(poly_mul_spec(a, s), e)
}

impl MasterIdentity {
    /// The master secret's coefficients.
    pub closed spec fn secret_coeffs(&self) -> Seq<u32> {
        self.secret_key@
    }

    /// The master secret. Secret material: callers must not publish it.
    pub fn secret(&self) -> (r: &Poly)
        ensures
            r@ == self.secret_coeffs(),
    {
        &self.secret_key
    }

    /// Create a new master identity from a 32-byte seed.
    ///
    /// Uses SHAKE-256("AETHEL_MASTER_KEY_V1" ∥ seed) to derive s via CBD η=2.
    pub fn from_seed(seed: &[u8; 32]) -> (r: Self)
        ensures
            r.secret_coeffs() == master_secret(seed@),
    {
        let mut input: Vec<u8> = Vec::new();
        push_bytes(&mut input, &DOMAIN_MASTER);
        push_bytes(&mut input, seed);
        let mut xof = XofStream::new(input, N);
        let secret_key = sample_cbd_eta2_from_xof(&mut xof);
        Self { secret_key }
    }

    /// Wipe the master secret with volatile writes.
    pub fn zeroize(&mut self)
        ensures
            final(self).secret_coeffs() == zero_coeffs(),
    {
        self.secret_key.wipe();
    }

    /// Derive a polymorphic public projection for context τ.
    ///
    /// `b_τ = A · s + e_τ (mod q)`, where
    /// `A ← SHAKE-256("AETHEL_PLP_CTX_V2" ∥ τ ∥ salt)`,
    /// `salt ← SHAKE-256("AETHEL_PLP_SALT_V1" ∥ rho ∥ τ)`,
    /// and `e_τ ← CBD η=2` sampled from the caller-supplied randomness `rho`.
    ///
    /// `rho` MUST be fresh, secret entropy of at least 32 bytes: it hides `s`
    /// through `e_τ`, and it makes `A` differ between two projections at one τ.
    pub fn project_at_context(&self, tau: &[u8], rho: &[u8]) -> (r: EphemeralProjection)
        ensures
            r.tau@ == pad_tau_spec(tau@),
            r.salt@ == projection_salt(rho@, pad_tau_spec(tau@)),
            r.matrix_a@ == context_matrix(r.tau@, r.salt@),
            r.public_b@ == projection_b(r.matrix_a@, self.secret_coeffs(), error_poly(rho@, tau@)),
    {
        let tau_padded = pad_tau(tau);
        let salt = derive_projection_salt(rho, &tau_padded);
        let matrix_a = derive_context_matrix(&tau_padded, &salt);
        let mut e_tau = derive_error_tau(rho, tau);
        let public_b = matrix_a.mul_schoolbook(&self.secret_key).add(&e_tau);
        e_tau.wipe();
        EphemeralProjection { tau: tau_padded, salt, matrix_a, public_b }
    }
}

/// Project a master identity at context τ from raw secret bytes, validating
/// the secret length first.
///
/// A secret of any length but 32 bytes, or `rho` shorter than 32 bytes, is
/// refused with `InvalidInputLength`.
pub fn checked_project_at_context(secret: &[u8], tau: &[u8], rho: &[u8]) -> (r: Result<
    EphemeralProjection,
    IdentityError,
>)
    ensures
        r is Err <==> (secret@.len() != 32 || rho@.len() < 32),
        r matches Err(e) ==> e == IdentityError::InvalidInputLength,
        r matches Ok(p) ==> {
            &&& p.tau@ == pad_tau_spec(tau@)
            &&& p.salt@ == projection_salt(rho@, pad_tau_spec(tau@))
            &&& p.matrix_a@ == context_matrix(p.tau@, p.salt@)
            &&& p.public_b@ == projection_b(p.matrix_a@, master_secret(secret@), error_poly(rho@, tau@))
        },
{
    if secret.len() != 32 {
        return Err(IdentityError::InvalidInputLength);
    }
    if rho.len() < 32 {
        return Err(IdentityError::InvalidInputLength);
    }
    let mut seed = [0u8; 32];
    let mut i: usize = 0;
    while i < 32
        invariant
            i <= 32,
            secret@.len() == 32,
            forall|j: int| 0 <= j < i ==> #[trigger] seed@[j] == secret@[j],
        decreases 32 - i,
    {
        seed[i] = secret[i];
        i += 1;
    }
    assert(seed@ =~= secret@);
    let identity = MasterIdentity::from_seed(&seed);
    Ok(identity.project_at_context(tau, rho))
}

// ── Ephemeral Projection ──────────────────────────────────────────────────────

/// Byte length of an [`EphemeralProjection`] as encoded by
/// [`EphemeralProjection::to_bytes`]: `tau(32) + salt(32) + public_b(N*4)`.
pub const EPHEMERAL_PROJECTION_BYTE_LEN: usize = 1088;

/// Public projection for a given context τ.
#[derive(Clone)]
pub struct EphemeralProjection {
    /// Context tag τ (truncated/padded to 32 bytes).
    pub tau: [u8; 32],
    /// Public per-projection salt.
    pub salt: [u8; 32],
    /// Context matrix `A = derive_context_matrix(tau, salt)`: a cache that
    /// decoding and verification recompute rather than trust.
    pub matrix_a: Poly,
    /// Public projection b_τ = A · s + e_τ.
    pub public_b: Poly,
}

/// The unsigned value of the four little-endian bytes at `off`.
pub open spec fn le_u32_at(bytes: Seq<u8>, off: int) -> int {
    bytes[off] as int + 256 * (bytes[off + 1] as int) + 65536 * (bytes[off + 2] as int) + 16777216 * (
    bytes[off + 3] as int)
}

/// The encoding `tau ++ salt ++ public_b` (coefficients little-endian).
pub open spec fn projection_bytes(tau: Seq<u8>, salt: Seq<u8>, b: Seq<u32>) -> Seq<u8> {
    tau + salt + poly_bytes(b)
}

/// Bytes that [`EphemeralProjection::from_bytes`] accepts: long enough, and
/// every encoded coefficient below `Q`.
pub open spec fn projection_bytes_valid(bytes: Seq<u8>) -> bool {
    &&& bytes.len() >= 1088
    &&& forall|i: int| 0 <= i < 256 ==> #[trigger] le_u32_at(bytes, 64 + 4 * i) < Q
}

impl EphemeralProjection {
    /// A projection carrying only `A` and `τ`, with `public_b` left zero, for
    /// the prover path, which reads only `matrix_a`, `tau` and `salt`.
    pub(crate) fn for_proving(tau: &[u8], rho: &[u8]) -> (r: Self)
        ensures
            r.tau@ == pad_tau_spec(tau@),
            r.salt@ == projection_salt(rho@, pad_tau_spec(tau@)),
            r.matrix_a@ == context_matrix(r.tau@, r.salt@),
            r.public_b@ == zero_coeffs(),
    {
        let tau_padded = pad_tau(tau);
        let salt = derive_projection_salt(rho, &tau_padded);
        let matrix_a = derive_context_matrix(&tau_padded, &salt);
        EphemeralProjection { tau: tau_padded, salt, matrix_a, public_b: Poly::zero() }
    }

    /// Encode as `tau(32) ++ salt(32) ++ public_b.coeffs(N*4, LE)`.
    ///
    /// `matrix_a` is not on the wire: it is a function of `tau` and `salt`.
    pub fn to_bytes(&self) -> (out: Vec<u8>)
        ensures
            out@ == projection_bytes(self.tau@, self.salt@, self.public_b@),
    {
        let mut out: Vec<u8> = Vec::new();
        push_bytes(&mut out, &self.tau);
        push_bytes(&mut out, &self.salt);
        push_poly_bytes(&mut out, &self.public_b);
        out
    }

    /// Decode from the layout produced by [`Self::to_bytes`].
    ///
    /// Returns `SerializationError` if `bytes` is shorter than
    /// [`EPHEMERAL_PROJECTION_BYTE_LEN`] or encodes a coefficient outside
    /// `[0, Q)`. `matrix_a` is derived from `tau` and `salt`, never read.
    pub fn from_bytes(bytes: &[u8]) -> (r: Result<Self, IdentityError>)
        ensures
            r is Ok <==> projection_bytes_valid(bytes@),
            r matches Err(e) ==> e == IdentityError::SerializationError,
            r matches Ok(p) ==> {
                &&& p.tau@ == bytes@.subrange(0, 32)
                &&& p.salt@ == bytes@.subrange(32, 64)
                &&& forall|i: int| 0 <= i < 256 ==> #[trigger] p.public_b@[i] as int == le_u32_at(bytes@, 64 + 4 * i)
                &&& p.matrix_a@ == context_matrix(p.tau@, p.salt@)
            },
    {
        if bytes.len() < EPHEMERAL_PROJECTION_BYTE_LEN {
            return Err(IdentityError::SerializationError);
        }
        let mut tau = [0u8; 32];
        let mut salt = [0u8; 32];
        let mut i: usize = 0;
        while i < 32
            invariant
                i <= 32,
                bytes@.len() >= 1088,
                forall|j: int| 0 <= j < i ==> #[trigger] tau@[j] == bytes@[j],
                forall|j: int| 0 <= j < i ==> #[trigger] salt@[j] == bytes@[32 + j],
            decreases 32 - i,
        {
            tau[i] = bytes[i];
            salt[i] = bytes[32 + i];
            i += 1;
        }
        assert(tau@ =~= bytes@.subrange(0, 32));
        assert(salt@ =~= bytes@.subrange(32, 64));
        let mut coeffs = [0u32; N];
        let mut k: usize = 0;
        while k < N
            invariant
                k <= N,
                bytes@.len() >= 1088,
                forall|j: int| 0 <= j < k ==> #[trigger] coeffs@[j] as int == le_u32_at(bytes@, 64 + 4 * j),
                forall|j: int| 0 <= j < k ==> #[trigger] le_u32_at(bytes@, 64 + 4 * j) < Q,
                forall|j: int| 0 <= j < N ==> coeffs[j] < Q,
            decreases N - k,
        {
            let off = 64 + 4 * k;
            let v = u32_from_le(bytes[off], bytes[off + 1], bytes[off + 2], bytes[off + 3]);
            if v >= Q {
                assert(le_u32_at(bytes@, 64 + 4 * (k as int)) >= Q);
                return Err(IdentityError::SerializationError);
            }
            coeffs[k] = v;
            k += 1;
        }
        let public_b = Poly::from_array(coeffs);
        let matrix_a = derive_context_matrix(&tau, &salt);
        Ok(Self { tau, salt, matrix_a, public_b })
    }
}

/// The little-endian bytes of `x` read back give `x`.
proof fn lemma_le_u32_value(x: u32)
    ensures
        le_u32(x)[0] as int + 256 * (le_u32(x)[1] as int) + 65536 * (le_u32(x)[2] as int) + 16777216 * (
        le_u32(x)[3] as int) == x,
{
    assert((x % 256) + 256 * ((x / 256) % 256) + 65536 * ((x / 65536) % 256) + 16777216 * ((x / 16777216) % 256) == x)
        by (bit_vector);
}

/// Byte `k` of [`poly_bytes`] is byte `k mod 4` of coefficient `k / 4`.
proof fn lemma_poly_bytes_index(s: Seq<u32>)
    ensures
        poly_bytes(s).len() == 4 * s.len(),
        forall|k: int| 0 <= k < 4 * s.len() ==> #[trigger] poly_bytes(s)[k] == le_u32(s[k / 4])[k % 4],
    decreases s.len(),
{
    if s.len() > 0 {
        let p = s.drop_last();
        lemma_poly_bytes_index(p);
        assert forall|k: int| 0 <= k < 4 * s.len() implies #[trigger] poly_bytes(s)[k] == le_u32(s[k / 4])[k % 4] by {
            if k < 4 * p.len() {
                assert(poly_bytes(p)[k] == le_u32(p[k / 4])[k % 4]);
            }
        }
    }
}

/// Decoding an encoding gives it back.
///
/// For 32-byte `tau` and `salt` and coefficients below `Q`, the bytes that
/// [`EphemeralProjection::to_bytes`] writes are accepted by
/// [`EphemeralProjection::from_bytes`], and decode to the same `tau`, `salt`
/// and coefficients (`matrix_a` is re-derived from `tau` and `salt`, as
/// [`MasterIdentity::project_at_context`] derived it).
pub proof fn lemma_projection_bytes_round_trip(tau: Seq<u8>, salt: Seq<u8>, b: Seq<u32>)
    requires
        tau.len() == 32,
        salt.len() == 32,
        poly_bounded(b),
    ensures
        projection_bytes_valid(projection_bytes(tau, salt, b)),
        projection_bytes(tau, salt, b).subrange(0, 32) == tau,
        projection_bytes(tau, salt, b).subrange(32, 64) == salt,
        forall|i: int| 0 <= i < 256 ==> #[trigger] le_u32_at(projection_bytes(tau, salt, b), 64 + 4 * i) == b[i],
{
    let bytes = projection_bytes(tau, salt, b);
    lemma_poly_bytes_index(b);
    assert(bytes.len() == 1088);
    assert forall|i: int| 0 <= i < 256 implies #[trigger] le_u32_at(bytes, 64 + 4 * i) == b[i] by {
        lemma_le_u32_value(b[i]);
        assert(bytes[64 + 4 * i] == poly_bytes(b)[4 * i]);
        assert(bytes[64 + 4 * i + 1] == poly_bytes(b)[4 * i + 1]);
        assert(bytes[64 + 4 * i + 2] == poly_bytes(b)[4 * i + 2]);
        assert(bytes[64 + 4 * i + 3] == poly_bytes(b)[4 * i + 3]);
        assert(bytes[64 + 4 * i] == le_u32(b[i])[0]);
        assert(bytes[64 + 4 * i + 1] == le_u32(b[i])[1]);
        assert(bytes[64 + 4 * i + 2] == le_u32(b[i])[2]);
        assert(bytes[64 + 4 * i + 3] == le_u32(b[i])[3]);
    }
    assert(bytes.subrange(0, 32) =~= tau);
    assert(bytes.subrange(32, 64) =~= salt);
}

// ── ZK Identity Proof ─────────────────────────────────────────────────────────

/// ZK sigma protocol proof (W, c, z).
#[derive(Clone)]
pub struct ZkIdentityProof {
    /// Commitment W = A_τ · y.
    pub commitment_w: Poly,
    /// Fiat-Shamir challenge c.
    pub challenge_c: Poly,
    /// Response z = y + c · s.
    pub response_z: Poly,
}

/// The masking polynomial `y` at iteration `iter`.
pub open spec fn attempt_y(seed: Seq<u8>, tau32: Seq<u8>, iter: int) -> Seq<u32> {
    mask_poly(mask_input(seed, tau32, iter))
}

/// The commitment `W = A·y` at iteration `iter`.
pub open spec fn attempt_w(a: Seq<u32>, seed: Seq<u8>, tau32: Seq<u8>, iter: int) -> Seq<u32> {
    poly_mul_spec(a, attempt_y(seed, tau32, iter))
}

/// The challenge `c = H(W, τ, salt)` at iteration `iter`.
pub open spec fn attempt_c(a: Seq<u32>, seed: Seq<u8>, tau32: Seq<u8>, salt: Seq<u8>, iter: int) -> Seq<u32> {
    challenge_poly(attempt_w(a, seed, tau32, iter), tau32, salt)
}

/// The response `z = y + c·s` at iteration `iter`.
pub open spec fn attempt_z(a: Seq<u32>, s: Seq<u32>, seed: Seq<u8>, tau32: Seq<u8>, salt: Seq<u8>, iter: int) -> Seq<
    u32,
> {
    poly_add_spec(attempt_y(seed, tau32, iter), poly_mul_spec(attempt_c(a, seed, tau32, salt, iter), s))
}

/// Iteration `iter`'s response passes `‖z‖∞ < γ₁ − β`.
pub open spec fn attempt_accepted(a: Seq<u32>, s: Seq<u32>, seed: Seq<u8>, tau32: Seq<u8>, salt: Seq<u8>, iter: int) -> bool {
    poly_inf_norm(attempt_z(a, s, seed, tau32, salt, iter)) < REJECTION_THRESHOLD
}

/// The first accepted iteration below `n`, if any.
pub open spec fn first_accepted(a: Seq<u32>, s: Seq<u32>, seed: Seq<u8>, tau32: Seq<u8>, salt: Seq<u8>, n: nat) -> Option<
    nat,
>
    decreases n,
{
    if n == 0 {
        None
    } else {
        match first_accepted(a, s, seed, tau32, salt, (n - 1) as nat) {
            Some(i) => Some(i),
            None => if attempt_accepted(a, s, seed, tau32, salt, n - 1) {
                Some((n - 1) as nat)
            } else {
                None
            },
        }
    }
}

proof fn lemma_first_accepted_stable(
    a: Seq<u32>,
    s: Seq<u32>,
    seed: Seq<u8>,
    tau32: Seq<u8>,
    salt: Seq<u8>,
    n1: nat,
    n2: nat,
)
    requires
        n1 <= n2,
        first_accepted(a, s, seed, tau32, salt, n1) is Some,
    ensures
        first_accepted(a, s, seed, tau32, salt, n2) == first_accepted(a, s, seed, tau32, salt, n1),
    decreases n2 - n1,
{
    if n2 > n1 {
        lemma_first_accepted_stable(a, s, seed, tau32, salt, n1, (n2 - 1) as nat);
    }
}

// ── Prover ────────────────────────────────────────────────────────────────────

/// Generates ZK identity proofs using rejection sampling.
pub struct Prover;

impl Prover {
    /// Prove knowledge of master secret `s` for a projection.
    ///
    /// Iteration `i < 16` masks with `y ← SHAKE-256("AETHEL_MASK_V2" ∥ seed ∥
    /// τ ∥ i)`, commits `W = A·y`, derives `c = H(W, τ, salt)` and answers
    /// `z = y + c·s`. The first response with `‖z‖∞ < γ₁ − β` is returned; if
    /// all 16 are rejected the result is `RejectionSamplingFailed`, with no
    /// fallback proof. Intermediates are wiped.
    pub fn prove_identity(identity: &MasterIdentity, proj: &EphemeralProjection, seed: &[u8; 32]) -> (r: Result<
        ZkIdentityProof,
        IdentityError,
    >)
        ensures
            ({
                let found = first_accepted(
                    proj.matrix_a@,
                    identity.secret_coeffs(),
                    seed@,
                    proj.tau@,
                    proj.salt@,
                    16,
                );
                &&& r is Ok <==> found is Some
                &&& r matches Err(e) ==> e == IdentityError::RejectionSamplingFailed
                &&& r matches Ok(p) ==> {
                    &&& p.commitment_w@ == attempt_w(proj.matrix_a@, seed@, proj.tau@, found->0 as int)
                    &&& p.challenge_c@ == attempt_c(proj.matrix_a@, seed@, proj.tau@, proj.salt@, found->0 as int)
                    &&& p.response_z@ == attempt_z(
                        proj.matrix_a@,
                        identity.secret_coeffs(),
                        seed@,
                        proj.tau@,
                        proj.salt@,
                        found->0 as int,
                    )
                }
            }),
    {
        let ghost a = proj.matrix_a@;
        let ghost s = identity.secret_coeffs();
        let mut iter: u8 = 0;
        while iter < PROVE_ITERATIONS
            invariant
                iter <= 16,
                a == proj.matrix_a@,
                s == identity.secret_coeffs(),
                first_accepted(a, s, seed@, proj.tau@, proj.salt@, iter as nat) is None,
            decreases 16 - iter,
        {
            let mut input: Vec<u8> = Vec::new();
            push_bytes(&mut input, &DOMAIN_MASK);
            push_bytes(&mut input, seed);
            push_bytes(&mut input, &proj.tau);
            let iter_byte = [iter];
            push_bytes(&mut input, &iter_byte);
            assert(input@ =~= mask_input(seed@, proj.tau@, iter as int));
            let mut xof = XofStream::new(input, 32768);
            let mut y = sample_mask_from_xof(&mut xof);
            let mut w = proj.matrix_a.mul_schoolbook(&y);
            let mut challenge_c = hash_to_challenge(&w, &proj.tau, &proj.salt);
            let mut cs = challenge_c.mul_schoolbook(identity.secret());
            let mut z = y.add(&cs);
            y.wipe();
            cs.wipe();
            if z.infinity_norm() < REJECTION_THRESHOLD as i64 {
                proof {
                    assert(attempt_accepted(a, s, seed@, proj.tau@, proj.salt@, iter as int));
                    assert(first_accepted(a, s, seed@, proj.tau@, proj.salt@, (iter + 1) as nat) == Some(iter as nat));
                    lemma_first_accepted_stable(a, s, seed@, proj.tau@, proj.salt@, (iter + 1) as nat, 16);
                }
                return Ok(ZkIdentityProof { commitment_w: w, challenge_c, response_z: z });
            }
            w.wipe();
            challenge_c.wipe();
            z.wipe();
            iter += 1;
        }
        Err(IdentityError::RejectionSamplingFailed)
    }
}

// ── Verifier ──────────────────────────────────────────────────────────────────

/// What [`Verifier::verify`] decides: the response is short, the challenge is
/// the hash of the commitment and the projection, and
/// `‖A·z − c·b − W‖∞ < 2β` with `A` re-derived from `(τ, salt)`.
pub open spec fn verify_spec(tau: Seq<u8>, salt: Seq<u8>, b: Seq<u32>, w: Seq<u32>, c: Seq<u32>, z: Seq<u32>) -> bool {
    &&& poly_inf_norm(z) < REJECTION_THRESHOLD
    &&& challenge_poly(w, tau, salt) == c
    &&& poly_inf_norm(
        poly_sub_spec(poly_sub_spec(poly_mul_spec(context_matrix(tau, salt), z), poly_mul_spec(c, b)), w),
    ) < 2 * BETA
}

/// Soundness of the challenge: a proof is accepted only if its challenge is
/// the hash of its commitment, context and salt, and its response is short.
pub proof fn lemma_accepted_challenge_is_the_hash(
    tau: Seq<u8>,
    salt: Seq<u8>,
    b: Seq<u32>,
    w: Seq<u32>,
    c: Seq<u32>,
    z: Seq<u32>,
)
    requires
        verify_spec(tau, salt, b, w, c, z),
    ensures
        c == challenge_poly(w, tau, salt),
        poly_inf_norm(z) < REJECTION_THRESHOLD,
{
}

/// Every challenge has a nonzero coefficient.
pub proof fn lemma_challenge_is_nonzero(w: Seq<u32>, tau: Seq<u8>, salt: Seq<u8>)
    ensures
        exists|k: int| 0 <= k < 256 && #[trigger] challenge_poly(w, tau, salt)[k] != 0,
{
    let r = challenge_poly(w, tau, salt);
    lemma_challenge_poly_shape(w, tau, salt);
    lemma_positions_nonempty(challenge_input(w, tau, salt), CHALLENGE_WEIGHT as nat, challenge_byte_cap());
    if forall|k: int| 0 <= k < 256 ==> #[trigger] r[k] == 0 {
        assert forall|k: int| 0 <= k < 256 implies #[trigger] nonzero_coeffs(r)(k) == 0 by {
            assert(r[k] == 0);
        }
        crate::ring::lemma_sum_zero(nonzero_coeffs(r), 0, 256);
        assert(false);
    }
}

/// A proof whose challenge is the zero polynomial (a proof made without any
/// commitment hash, such as the all-zero proof) is rejected, whatever the
/// projection, commitment and response.
pub proof fn lemma_zero_challenge_rejected(tau: Seq<u8>, salt: Seq<u8>, b: Seq<u32>, w: Seq<u32>, z: Seq<u32>)
    ensures
        !verify_spec(tau, salt, b, w, Seq::new(256, |k: int| 0u32), z),
{
    lemma_challenge_is_nonzero(w, tau, salt);
    let r = challenge_poly(w, tau, salt);
    let k = choose|k: int| 0 <= k < 256 && #[trigger] r[k] != 0;
    if verify_spec(tau, salt, b, w, Seq::new(256, |k: int| 0u32), z) {
        lemma_accepted_challenge_is_the_hash(tau, salt, b, w, Seq::new(256, |k: int| 0u32), z);
        assert(Seq::new(256, |k: int| 0u32)[k] == 0);
        assert(false);
    }
}

// ── Completeness ─────────────────────────────────────────────────────────────

/// Coefficient `k` of `a·b` as the integer product reduced mod `q`.
proof fn lemma_mul_spec_coeff(a: Seq<u32>, b: Seq<u32>, k: int)
    requires
        0 <= k < 256,
    ensures
        poly_mul_spec(a, b)[k] as int == pmul(u32s_to_ints(a), u32s_to_ints(b), k) % q_int(),
{
    lemma_nega_is_pmul(u32s_to_ints(a), u32s_to_ints(b), k);
}

/// `x + y·z` reduced mod `q` is congruent to the unreduced integer sum.
proof fn lemma_add_mul_congruent(x: Seq<u32>, y: Seq<u32>, z: Seq<u32>)
    requires
        x.len() == 256,
    ensures
        congruent_seqs(
            u32s_to_ints(poly_add_spec(x, poly_mul_spec(y, z))),
            seq_add(u32s_to_ints(x), pmul_seq(u32s_to_ints(y), u32s_to_ints(z))),
        ),
{
    let lhs = u32s_to_ints(poly_add_spec(x, poly_mul_spec(y, z)));
    let rhs = seq_add(u32s_to_ints(x), pmul_seq(u32s_to_ints(y), u32s_to_ints(z)));
    assert forall|i: int| 0 <= i < lhs.len() implies #[trigger] (lhs[i] % q_int()) == rhs[i] % q_int() by {
        lemma_mul_spec_coeff(y, z, i);
        let p = pmul(u32s_to_ints(y), u32s_to_ints(z), i);
        vstd::arithmetic::div_mod::lemma_add_mod_noop(x[i] as int, p, q_int());
        assert((x[i] as int % q_int()) == x[i] as int % q_int());
        vstd::arithmetic::div_mod::lemma_mod_twice(x[i] as int + p % q_int(), q_int());
        vstd::arithmetic::div_mod::lemma_add_mod_noop(x[i] as int, p % q_int(), q_int());
        vstd::arithmetic::div_mod::lemma_mod_twice(p, q_int());
    }
}

/// `y·z + x` reduced mod `q` is congruent to the unreduced integer sum.
pub proof fn lemma_mul_add_congruent(y: Seq<u32>, z: Seq<u32>, x: Seq<u32>)
    requires
        x.len() == 256,
    ensures
        congruent_seqs(
            u32s_to_ints(poly_add_spec(poly_mul_spec(y, z), x)),
            seq_add(pmul_seq(u32s_to_ints(y), u32s_to_ints(z)), u32s_to_ints(x)),
        ),
{
    let lhs = u32s_to_ints(poly_add_spec(poly_mul_spec(y, z), x));
    let rhs = seq_add(pmul_seq(u32s_to_ints(y), u32s_to_ints(z)), u32s_to_ints(x));
    assert forall|i: int| 0 <= i < lhs.len() implies #[trigger] (lhs[i] % q_int()) == rhs[i] % q_int() by {
        lemma_mul_spec_coeff(y, z, i);
        let p = pmul(u32s_to_ints(y), u32s_to_ints(z), i);
        vstd::arithmetic::div_mod::lemma_mod_twice(p % q_int() + x[i] as int, q_int());
        vstd::arithmetic::div_mod::lemma_add_mod_noop(p % q_int(), x[i] as int, q_int());
        vstd::arithmetic::div_mod::lemma_add_mod_noop(p, x[i] as int, q_int());
        vstd::arithmetic::div_mod::lemma_mod_twice(p, q_int());
    }
}

/// For an honest transcript `W = A·y`, `z = y + c·s`, `b = A·s + e`, the
/// verifier's residual `A·z − c·b − W` is `−c·e`.
proof fn lemma_residual(a: Seq<u32>, s: Seq<u32>, e: Seq<u32>, y: Seq<u32>, c: Seq<u32>, k: int)
    requires
        a.len() == 256,
        s.len() == 256,
        e.len() == 256,
        y.len() == 256,
        c.len() == 256,
        0 <= k < 256,
    ensures
        poly_sub_spec(
            poly_sub_spec(
                poly_mul_spec(a, poly_add_spec(y, poly_mul_spec(c, s))),
                poly_mul_spec(c, poly_add_spec(poly_mul_spec(a, s), e)),
            ),
            poly_mul_spec(a, y),
        )[k] as int == (-pmul(u32s_to_ints(c), u32s_to_ints(e), k)) % q_int(),
{
    let ai = u32s_to_ints(a);
    let si = u32s_to_ints(s);
    let ei = u32s_to_ints(e);
    let yi = u32s_to_ints(y);
    let ci = u32s_to_ints(c);
    let z = poly_add_spec(y, poly_mul_spec(c, s));
    let b = poly_add_spec(poly_mul_spec(a, s), e);
    let cs = pmul_seq(ci, si);
    let as_ = pmul_seq(ai, si);
    // A·z ≡ A·y + A·(c·s)
    lemma_add_mul_congruent(y, c, s);
    assert(congruent_seqs(ai, ai));
    lemma_nega_congruent(ai, ai, u32s_to_ints(z), seq_add(yi, cs), k);
    lemma_mul_spec_coeff(a, z, k);
    lemma_nega_is_pmul(ai, u32s_to_ints(z), k);
    lemma_nega_is_pmul(ai, seq_add(yi, cs), k);
    lemma_pmul_add(ai, yi, cs, k);
    // c·b ≡ c·(A·s) + c·e
    lemma_mul_add_congruent(a, s, e);
    assert(congruent_seqs(ci, ci));
    lemma_nega_congruent(ci, ci, u32s_to_ints(b), seq_add(as_, ei), k);
    lemma_mul_spec_coeff(c, b, k);
    lemma_nega_is_pmul(ci, u32s_to_ints(b), k);
    lemma_nega_is_pmul(ci, seq_add(as_, ei), k);
    lemma_pmul_add(ci, as_, ei, k);
    // W = A·y
    lemma_mul_spec_coeff(a, y, k);
    // A·(c·s) = c·(A·s)
    lemma_pmul_left_comm(ai, ci, si, k);
    let p = pmul(ai, yi, k);
    let m = pmul(ai, cs, k);
    let r = pmul(ci, ei, k);
    assert(poly_mul_spec(a, z)[k] as int == (p + m) % q_int());
    assert(poly_mul_spec(c, b)[k] as int == (m + r) % q_int());
    vstd::arithmetic::div_mod::lemma_sub_mod_noop(p + m, m + r, q_int());
    vstd::arithmetic::div_mod::lemma_sub_mod_noop(p - r, p, q_int());
    assert(p + m - (m + r) == p - r);
    assert(p - r - p == -r);
}

/// A CBD η=2 coefficient before reduction, in `[-2, 2]`.
pub open spec fn cbd_small(b: u8) -> int {
    b as int % 2 + (b as int / 2) % 2 - (b as int / 4) % 2 - (b as int / 8) % 2
}

/// The first `n` coefficients have centred absolute value at most `bound`.
proof fn lemma_norm_upto_bound(x: Seq<u32>, n: int, bound: int)
    requires
        bound >= 0,
        n <= x.len(),
        forall|i: int| 0 <= i < n ==> #[trigger] coeff_abs(x[i]) <= bound,
    ensures
        norm_upto(x, n) <= bound,
    decreases n,
{
    if n > 0 {
        lemma_norm_upto_bound(x, n - 1, bound);
    }
}

/// The first accepted attempt is below the limit and was accepted.
proof fn lemma_first_accepted_is_accepted(
    a: Seq<u32>,
    s: Seq<u32>,
    seed: Seq<u8>,
    tau32: Seq<u8>,
    salt: Seq<u8>,
    n: nat,
)
    requires
        first_accepted(a, s, seed, tau32, salt, n) is Some,
    ensures
        first_accepted(a, s, seed, tau32, salt, n)->0 < n,
        attempt_accepted(a, s, seed, tau32, salt, first_accepted(a, s, seed, tau32, salt, n)->0 as int),
    decreases n,
{
    if first_accepted(a, s, seed, tau32, salt, (n - 1) as nat) is Some {
        lemma_first_accepted_is_accepted(a, s, seed, tau32, salt, (n - 1) as nat);
    }
}

/// `‖c·e‖∞ ≤ 120` for a challenge and a projection error term.
proof fn lemma_challenge_error_residual(w: Seq<u32>, tau32: Seq<u8>, salt: Seq<u8>, rho: Seq<u8>, tau: Seq<u8>, k: int)
    requires
        0 <= k < 256,
    ensures
        coeff_abs(
            ((-pmul(u32s_to_ints(challenge_poly(w, tau32, salt)), u32s_to_ints(error_poly(rho, tau)), k)) % q_int()) as u32,
        ) <= 120,
{
    let input = challenge_input(w, tau32, salt);
    let cc = challenge_coeffs(input, CHALLENGE_WEIGHT as nat);
    let ein = DOMAIN_ERROR@ + rho + tau;
    let es = Seq::new(256, |i: int| cbd_small(xof_byte(ein, i)));
    let ci = u32s_to_ints(challenge_poly(w, tau32, salt));
    let ei = u32s_to_ints(error_poly(rho, tau));
    crate::xof::lemma_challenge_values(input, CHALLENGE_WEIGHT as nat, 0);
    assert forall|i: int| 0 <= i < 256 implies #[trigger] (ci[i] % q_int()) == cc[i] % q_int() by {
        crate::xof::lemma_challenge_values(input, CHALLENGE_WEIGHT as nat, i);
        vstd::arithmetic::div_mod::lemma_mod_twice(cc[i], q_int());
    }
    assert(congruent_seqs(ci, cc));
    assert forall|i: int| 0 <= i < 256 implies #[trigger] (ei[i] % q_int()) == es[i] % q_int() by {
        vstd::arithmetic::div_mod::lemma_mod_twice(es[i], q_int());
    }
    assert(congruent_seqs(ei, es));
    lemma_nega_congruent(ci, cc, ei, es, k);
    lemma_nega_is_pmul(ci, ei, k);
    lemma_nega_is_pmul(cc, es, k);
    crate::xof::lemma_challenge_l1(input, CHALLENGE_WEIGHT as nat);
    lemma_pmul_small_bound(cc, es, k, 60, 2);
    let u = pmul(ci, ei, k);
    let v = pmul(cc, es, k);
    vstd::arithmetic::div_mod::lemma_sub_mod_noop(0, u, q_int());
    vstd::arithmetic::div_mod::lemma_sub_mod_noop(0, v, q_int());
    assert((-u) % q_int() == (-v) % q_int());
    assert(-120 <= v <= 120);
    if v <= 0 {
        assert((-v) % q_int() == -v);
    } else {
        assert((-v) % q_int() == q_int() - v);
    }
}

/// Completeness of the identity proof.
///
/// Let the projection be what [`MasterIdentity::project_at_context`] makes of
/// a secret `s` at context `tau` with randomness `rho`, and let the proof be
/// what [`Prover::prove_identity`] returns for that secret and projection
/// (iteration `it`, the first accepted one). Then [`Verifier::verify`] accepts
/// the proof: its residual `A·z − c·b − W` equals `−c·e_τ`, whose coefficients
/// are at most `60·2 = 120 < 2β`.
pub proof fn lemma_honest_proof_verifies(s: Seq<u32>, seed: Seq<u8>, tau: Seq<u8>, rho: Seq<u8>)
    requires
        s.len() == 256,
        first_accepted(
            context_matrix(pad_tau_spec(tau), projection_salt(rho, pad_tau_spec(tau))),
            s,
            seed,
            pad_tau_spec(tau),
            projection_salt(rho, pad_tau_spec(tau)),
            16,
        ) is Some,
    ensures
        ({
            let tau32 = pad_tau_spec(tau);
            let salt = projection_salt(rho, tau32);
            let a = context_matrix(tau32, salt);
            let it = first_accepted(a, s, seed, tau32, salt, 16)->0 as int;
            verify_spec(
                tau32,
                salt,
                projection_b(a, s, error_poly(rho, tau)),
                attempt_w(a, seed, tau32, it),
                attempt_c(a, seed, tau32, salt, it),
                attempt_z(a, s, seed, tau32, salt, it),
            )
        }),
{
    let tau32 = pad_tau_spec(tau);
    let salt = projection_salt(rho, tau32);
    let a = context_matrix(tau32, salt);
    lemma_first_accepted_is_accepted(a, s, seed, tau32, salt, 16);
    let it = first_accepted(a, s, seed, tau32, salt, 16)->0 as int;
    let y = attempt_y(seed, tau32, it);
    let w = attempt_w(a, seed, tau32, it);
    let c = attempt_c(a, seed, tau32, salt, it);
    let e = error_poly(rho, tau);
    let b = projection_b(a, s, e);
    let z = attempt_z(a, s, seed, tau32, salt, it);
    let x = poly_sub_spec(poly_sub_spec(poly_mul_spec(a, z), poly_mul_spec(c, b)), w);
    assert forall|k: int| 0 <= k < 256 implies #[trigger] coeff_abs(x[k]) <= 120 by {
        lemma_residual(a, s, e, y, c, k);
        lemma_challenge_error_residual(w, tau32, salt, rho, tau, k);
    }
    lemma_norm_upto_bound(x, 256, 120);
}

/// Verifies ZK proofs against ephemeral projections.
pub struct Verifier;

impl Verifier {
    /// Verify the ZK proof against the ephemeral public projection.
    ///
    /// Checks `‖z‖∞ < γ₁ − β`, that `c` is the hash of `(W, τ, salt)`, and
    /// `‖A·z − c·b − W‖∞ < 2β`. `A` is re-derived from the projection's `tau`
    /// and `salt`; the projection's `matrix_a` field is not trusted.
    pub fn verify(proj: &EphemeralProjection, proof: &ZkIdentityProof) -> (r: bool)
        ensures
            r == verify_spec(
                proj.tau@,
                proj.salt@,
                proj.public_b@,
                proof.commitment_w@,
                proof.challenge_c@,
                proof.response_z@,
            ),
            r ==> proof.challenge_c@ == challenge_poly(proof.commitment_w@, proj.tau@, proj.salt@),
            r ==> poly_inf_norm(proof.response_z@) < REJECTION_THRESHOLD,
            r ==> exists|k: int| 0 <= k < 256 && #[trigger] proof.challenge_c@[k] != 0,
    {
        proof {
            lemma_challenge_is_nonzero(proof.commitment_w@, proj.tau@, proj.salt@);
        }
        if proof.response_z.infinity_norm() >= REJECTION_THRESHOLD as i64 {
            return false;
        }
        let recomputed_c = hash_to_challenge(&proof.commitment_w, &proj.tau, &proj.salt);
        let rc = recomputed_c.coeffs();
        let pc = proof.challenge_c.coeffs();
        let mut mismatch = 0u32;
        let mut i: usize = 0;
        while i < N
            invariant
                i <= N,
                rc@.len() == N,
                pc@.len() == N,
                (mismatch == 0) <==> (forall|j: int| 0 <= j < i ==> #[trigger] rc@[j] == pc@[j]),
            decreases N - i,
        {
            let x = rc[i];
            let y = pc[i];
            let m0 = mismatch;
            mismatch = mismatch | (x ^ y);
            assert((mismatch == 0) <==> (m0 == 0 && x == y)) by (bit_vector)
                requires
                    mismatch == m0 | (x ^ y),
            ;
            i += 1;
        }
        if mismatch != 0 {
            assert(!(rc@ =~= pc@));
            return false;
        }
        assert(rc@ =~= pc@);
        let matrix_a = derive_context_matrix(&proj.tau, &proj.salt);
        let az = matrix_a.mul_schoolbook(&proof.response_z);
        let cb = proof.challenge_c.mul_schoolbook(&proj.public_b);
        let w_prime = az.sub(&cb);
        let diff = w_prime.sub(&proof.commitment_w);
        diff.infinity_norm() < (BETA as i64 * 2)
    }
}

// ── Modular arithmetic helpers ────────────────────────────────────────────────

fn add_mod(a: u32, b: u32) -> (r: u32)
    requires
        a < Q,
        b < Q,
    ensures
        r as int == (a + b) % q_int(),
{
    let s = a + b;
    if s >= Q { s - Q } else { s }
}

fn sub_mod(a: u32, b: u32) -> (r: u32)
    requires
        a < Q,
        b < Q,
    ensures
        r as int == (a - b) % q_int(),
{
    if a >= b { a - b } else { a + Q - b }
}

fn mul_mod(a: u32, b: u32) -> (r: u32)
    requires
        a < Q,
        b < Q,
    ensures
        r as int == (a * b) % q_int(),
{
    assert(a as u64 * b as u64 <= u64::MAX) by (nonlinear_arith)
        requires
            a < Q,
            b < Q,
    ;
    ((a as u64 * b as u64) % Q as u64) as u32
}

} // verus!
