//! Threshold secret sharing (Shamir 3-of-5 over `F_q`) and a local
//! simulation of routing the shares across a 5-dimensional hypercube.

use vstd::arithmetic::div_mod::{
    lemma_add_mod_noop, lemma_mod_twice, lemma_mul_mod_noop_left, lemma_mul_mod_noop_right, lemma_sub_mod_noop,
};
use vstd::arithmetic::power::pow;
use vstd::prelude::*;

use crate::identity_error::IdentityError;
use crate::ring::{lemma_sum_ext, range_sum};
use crate::xof::{lemma_shift_bit, sha3_256, sha3_256_digest, wipe_u64_vec};

verus! {

/// Dimension of the hypercube.
pub const HYPERCUBE_DIM: usize = 5;

/// Number of nodes, `2^HYPERCUBE_DIM`.
pub const NUM_NODES: usize = 32;

/// Shares needed to reconstruct.
pub const THRESHOLD_K: usize = 3;

/// The field modulus `q`.
pub const MODULUS_Q: u64 = 8380417;

/// `|x|`.
pub open spec fn iabs(x: int) -> int {
    if x < 0 {
        -x
    } else {
        x
    }
}

/// The multiplicative inverse of `a` modulo `m`, or 0 if there is none.
pub open spec fn inv_mod(a: int, m: int) -> int {
    if exists|x: int| 0 <= x < m && #[trigger] ((a * x) % m) == 1 {
        choose|x: int| 0 <= x < m && #[trigger] ((a * x) % m) == 1
    } else {
        0
    }
}

/// Inverses modulo `m` are unique in `[0, m)`.
proof fn lemma_inverse_unique(a: int, m: int, x: int, y: int)
    requires
        m > 1,
        0 <= x < m,
        0 <= y < m,
        (a * x) % m == 1,
        (a * y) % m == 1,
    ensures
        x == y,
{
    // x = x·(a·y) = (a·x)·y = y  (mod m)
    lemma_mul_mod_noop_right(x, a * y, m);
    lemma_mul_mod_noop_left(a * x, y, m);
    assert(x * (a * y) == (a * x) * y) by (nonlinear_arith);
    assert((x * 1) % m == (1 * y) % m);
    vstd::arithmetic::div_mod::lemma_small_mod(x as nat, m as nat);
    vstd::arithmetic::div_mod::lemma_small_mod(y as nat, m as nat);
}

/// `0 mod m = 0`.
proof fn lemma_zero_mod(m: int)
    requires
        m > 0,
    ensures
        0int % m == 0,
{
    vstd::arithmetic::div_mod::lemma_small_mod(0, m as nat);
}

/// `(x − k·y) ≡ 0` when `x ≡ 0` and `y ≡ 0`.
proof fn lemma_mod_lin(x: int, y: int, k: int, m: int)
    requires
        m > 0,
        x % m == 0,
        y % m == 0,
    ensures
        (x - k * y) % m == 0,
{
    lemma_mul_mod_noop_right(k, y, m);
    assert(k * 0 == 0);
    lemma_zero_mod(m);
    lemma_sub_mod_noop(x, k * y, m);
}

/// Multiplicative inverse modulo `m` by the extended Euclidean algorithm;
/// 0 when `a` has no inverse.
fn mod_inverse(a: i64, m: i64) -> (r: i64)
    requires
        0 <= a < m,
        2 <= m <= 0x8000_0000,
    ensures
        0 <= r < m,
        r == inv_mod(a as int, m as int),
        r != 0 ==> (a * r) % (m as int) == 1,
{
    let ghost ai = a as int;
    let ghost mi = m as int;
    let mut t: i64 = 0;
    let mut newt: i64 = 1;
    let mut r: i64 = m;
    let mut newr: i64 = a;
    proof {
        assert((0 * ai - mi) % mi == 0) by {
            assert(0 * ai - mi == -1 * mi) by (nonlinear_arith);
            vstd::arithmetic::div_mod::lemma_mod_multiples_basic(-1, mi);
        }
        lemma_zero_mod(mi);
        assert(iabs(1) == 1 && iabs(0) == 0);
        assert(mi * 1 + ai * 0 == mi);
        assert(1 * ai - ai == 0);
        assert((1 * ai - ai) % mi == 0);
        assert forall|d: int| d > 0 && #[trigger] (mi % d) == 0 && ai % d == 0 implies mi % d == 0 && ai % d == 0 by {}
    }
    while newr != 0
        invariant
            0 <= newr < r <= m,
            2 <= m <= 0x8000_0000,
            0 <= a < m,
            ai == a,
            mi == m,
            (t * ai - r) % mi == 0,
            (newt * ai - newr) % mi == 0,
            r * iabs(newt as int) + newr * iabs(t as int) == mi,
            t * newt <= 0,
            iabs(t as int) < mi,
            forall|d: int| d > 0 && #[trigger] ((r as int) % d) == 0 && (newr as int) % d == 0 ==> mi % d == 0 && ai % d == 0,
        decreases newr,
    {
        let quotient = r / newr;
        proof {
            assert(quotient * newr <= r) by (nonlinear_arith)
                requires
                    quotient == r / newr,
                    newr > 0,
                    r >= 0,
            ;
            assert(r * iabs(newt as int) <= mi) by (nonlinear_arith)
                requires
                    r * iabs(newt as int) + newr * iabs(t as int) == mi,
                    newr >= 0,
            ;
            assert(quotient * iabs(newt as int) <= mi) by (nonlinear_arith)
                requires
                    quotient * newr <= r,
                    newr >= 1,
                    r * iabs(newt as int) <= mi,
                    quotient >= 0,
            ;
            assert(iabs(quotient * newt) == quotient * iabs(newt as int)) by (nonlinear_arith)
                requires
                    quotient >= 0,
            ;
        }
        let temp_t = t - quotient * newt;
        let temp_r = r - quotient * newr;
        proof {
            assert(temp_r == r % newr) by (nonlinear_arith)
                requires
                    quotient == r / newr,
                    temp_r == r - quotient * newr,
                    newr > 0,
                    r >= 0,
            ;
            assert(0 <= temp_r < newr);
            // t·a ≡ r propagates to the new pair.
            assert((temp_t * ai - temp_r) == (t * ai - r) - quotient * (newt * ai - newr)) by (nonlinear_arith)
                requires
                    temp_t == t - quotient * newt,
                    temp_r == r - quotient * newr,
            ;
            lemma_mod_lin(t * ai - r, newt * ai - newr, quotient as int, mi);
            // The weighted identity, using that t and newt have opposite signs.
            assert(iabs(temp_t as int) == iabs(t as int) + quotient * iabs(newt as int)) by (nonlinear_arith)
                requires
                    temp_t == t - quotient * newt,
                    t * newt <= 0,
                    quotient >= 0,
            ;
            assert(newr * iabs(temp_t as int) + temp_r * iabs(newt as int) == mi) by (nonlinear_arith)
                requires
                    iabs(temp_t as int) == iabs(t as int) + quotient * iabs(newt as int),
                    temp_r == r - quotient * newr,
                    r * iabs(newt as int) + newr * iabs(t as int) == mi,
            ;
            assert(newt * temp_t <= 0) by (nonlinear_arith)
                requires
                    temp_t == t - quotient * newt,
                    t * newt <= 0,
                    quotient >= 0,
            ;
            assert(iabs(newt as int) < mi) by (nonlinear_arith)
                requires
                    r * iabs(newt as int) <= mi,
                    r >= 2,
                    mi >= 2,
            ;
            assert forall|d: int| d > 0 && #[trigger] ((newr as int) % d) == 0 && (temp_r as int) % d == 0 implies mi % d == 0 && ai % d
                == 0 by {
                lemma_mul_mod_noop_right(quotient as int, newr as int, d);
                lemma_zero_mod(d);
                assert(quotient * 0 == 0);
                lemma_add_mod_noop(temp_r as int, quotient * newr, d);
                assert(r == temp_r + quotient * newr);
                assert((r as int) % d == 0);
            }
        }
        t = newt;
        newt = temp_t;
        r = newr;
        newr = temp_r;
    }
    proof {
        assert((r as int) % (r as int) == 0);
        assert(0int % (r as int) == 0);
    }
    if r > 1 {
        proof {
            assert(mi % (r as int) == 0 && ai % (r as int) == 0);
            assert forall|x: int| 0 <= x < mi implies #[trigger] ((ai * x) % mi) != 1 by {
                lemma_no_inverse(ai, mi, r as int, x);
            }
        }
        return 0;
    }
    let res = if t < 0 { t + m } else { t };
    proof {
        assert(r == 1);
        assert((res * ai - 1) % mi == 0) by {
            if t < 0 {
                assert(res * ai - 1 == (t * ai - 1) + ai * mi) by (nonlinear_arith)
                    requires
                        res == t + mi,
                ;
                vstd::arithmetic::div_mod::lemma_mod_multiples_basic(ai, mi);
                lemma_add_mod_noop(t * ai - 1, ai * mi, mi);
                assert(ai * mi == mi * ai) by (nonlinear_arith);
            }
        }
        assert((res * ai) % mi == 1) by {
            lemma_add_mod_noop(res * ai - 1, 1, mi);
            vstd::arithmetic::div_mod::lemma_small_mod(1, mi as nat);
        }
        assert(ai * res == res * ai) by (nonlinear_arith);
        assert forall|x: int| 0 <= x < mi && #[trigger] ((ai * x) % mi) == 1 implies x == res by {
            lemma_inverse_unique(ai, mi, x, res as int);
        }
    }
    res
}

/// No multiple of `a` is 1 modulo `m` when `a` and `m` share a factor `d > 1`.
proof fn lemma_no_inverse(a: int, m: int, d: int, x: int)
    requires
        m > 0,
        d > 1,
        m % d == 0,
        a % d == 0,
    ensures
        (a * x) % m != 1,
{
    let k = (a * x) / m;
    assert(a * x == m * k + (a * x) % m) by {
        vstd::arithmetic::div_mod::lemma_fundamental_div_mod(a * x, m);
    }
    lemma_mul_mod_noop_left(a, x, d);
    lemma_zero_mod(d);
    assert(0 * x == 0);
    lemma_mul_mod_noop_left(m, k, d);
    assert(0 * k == 0);
    lemma_sub_mod_noop(a * x, m * k, d);
    assert(((a * x) % m) % d == 0);
    if (a * x) % m == 1 {
        vstd::arithmetic::div_mod::lemma_small_mod(1, d as nat);
    }
}

// ── Nodes, segments, packets ────────────────────────────────────────────────

/// A node of the hypercube, addressed by its 5-bit label.
#[derive(Clone, Copy, Debug, PartialEq, Eq, Hash, Structural)]
pub struct NodeAddress(pub u8);

/// The number of set bits among the low `n` bits of `x`.
pub open spec fn popcount_upto(x: u8, n: nat) -> nat
    decreases n,
{
    if n == 0 {
        0
    } else {
        popcount_upto(x, (n - 1) as nat) + ((x as int / crate::xof::pow2_small(n - 1)) % 2) as nat
    }
}

/// The number of set bits of `x`.
pub open spec fn popcount(x: u8) -> nat {
    popcount_upto(x, 8)
}

impl NodeAddress {
    /// The neighbour across dimension `dim`: the label with bit `dim` flipped.
    pub fn neighbor(&self, dim: usize) -> (r: Self)
        requires
            dim < 8,
        ensures
            r.0 == self.0 ^ (1u8 << (dim as u8)),
    {
        NodeAddress(self.0 ^ (1u8 << (dim as u8)))
    }

    /// The number of dimensions in which two labels differ.
    pub fn hamming_distance(&self, other: &Self) -> (r: usize)
        ensures
            r == popcount(self.0 ^ other.0),
    {
        let x = self.0 ^ other.0;
        let mut count: usize = 0;
        let mut b: u8 = 0;
        while b < 8
            invariant
                b <= 8,
                count == popcount_upto(x, b as nat),
                count <= b,
            decreases 8 - b,
        {
            proof {
                lemma_shift_bit(x, b);
            }
            count = count + ((x >> b) & 1) as usize;
            b += 1;
        }
        count
    }
}

/// One share in transit, with a tag binding it to its endpoints.
#[derive(Clone, Debug)]
pub struct ZkProofSegment {
    /// Evaluation index of the share.
    pub share_id: u8,
    /// Share value.
    pub share_val: u64,
    /// SHA3-256 of `(source, destination, share_id)`.
    pub path_tag: [u8; 32],
}

/// A share being routed through the hypercube.
#[derive(Clone, Debug)]
pub struct HypercubePacket {
    /// Source node.
    pub source: NodeAddress,
    /// Destination node.
    pub destination: NodeAddress,
    /// Where the packet is now.
    pub current_node: NodeAddress,
    /// The order in which dimensions are crossed.
    pub dimension_route: Vec<usize>,
    /// How many dimensions have been crossed.
    pub route_index: usize,
    /// The share carried.
    pub payload: ZkProofSegment,
}

// ── Shamir sharing over F_q ──────────────────────────────────────────────────

/// `x mod 2^64`.
pub open spec fn wrap64(x: int) -> u64 {
    (x % 0x1_0000_0000_0000_0000) as u64
}

/// The coefficient mixer: a SplitMix64-style finaliser of `seed + idx·φ`.
pub open spec fn mix_coeff(seed: u64, idx: u64) -> u64 {
    let v0 = wrap64(seed + wrap64(idx * 0x9e3779b97f4a7c15));
    let v1 = v0 ^ (v0 >> 30u64);
    let v2 = wrap64(v1 * 0xbf58476d1ce4e5b9);
    let v3 = v2 ^ (v2 >> 27u64);
    let v4 = wrap64(v3 * 0x94d049bb133111eb);
    v4 ^ (v4 >> 31u64)
}

/// The sharing polynomial's coefficients: the secret, then mixed seed values,
/// all reduced mod q; at least one coefficient.
pub open spec fn share_coeffs(secret: u64, k: nat, seed: u64) -> Seq<int> {
    Seq::new(
        if k == 0 { 1 } else { k },
        |j: int| if j == 0 { secret as int % 8380417 } else { mix_coeff(seed, j as u64) as int % 8380417 },
    )
}

/// `Σ_{j<m} c_j·x^j`.
pub open spec fn poly_eval(c: Seq<int>, x: int, m: nat) -> int
    decreases m,
{
    if m == 0 {
        0
    } else {
        poly_eval(c, x, (m - 1) as nat) + c[m - 1] * pow(x, (m - 1) as nat)
    }
}

/// The share value at evaluation point `x`.
pub open spec fn share_value(secret: u64, k: nat, seed: u64, x: int) -> int {
    let c = share_coeffs(secret, k, seed);
    poly_eval(c, x, c.len()) % 8380417
}

/// Term `j` of the sharing polynomial at `x`: the secret (mod `q`) for
/// `j = 0`, else the `j`-th mixed coefficient (mod `q`), times `x^j`.
pub open spec fn sharing_term(secret: u64, seed: u64, x: int) -> spec_fn(int) -> int {
    |j: int|
        (if j == 0 {
            secret as int % 8380417
        } else {
            mix_coeff(seed, j as u64) as int % 8380417
        }) * pow(x, j as nat)
}

/// `poly_eval` is the sum of its terms.
proof fn lemma_poly_eval_sum(c: Seq<int>, x: int, m: nat)
    requires
        m <= c.len(),
    ensures
        poly_eval(c, x, m) == range_sum(|j: int| c[j] * pow(x, j as nat), 0, m),
    decreases m,
{
    if m > 0 {
        lemma_poly_eval_sum(c, x, (m - 1) as nat);
    }
}

/// The sharing polynomial of a `k`-threshold split (`k ≥ 1`) has exactly `k`
/// coefficients, so degree `k − 1`: the secret mod `q`, then the mixed
/// coefficients `1 .. k − 1`. A share at `x` is its value there, mod `q`.
pub proof fn lemma_sharing_polynomial(secret: u64, k: nat, seed: u64, x: int)
    requires
        k >= 1,
    ensures
        share_coeffs(secret, k, seed).len() == k,
        share_value(secret, k, seed, x) == range_sum(sharing_term(secret, seed, x), 0, k) % 8380417,
{
    let c = share_coeffs(secret, k, seed);
    lemma_poly_eval_sum(c, x, k);
    lemma_sum_ext(|j: int| c[j] * pow(x, j as nat), sharing_term(secret, seed, x), 0, k);
}

/// `(P mod q + c·(X mod q)) mod q = (P + c·X) mod q`.
proof fn lemma_horner_step(p: int, c: int, x: int, q: int)
    requires
        q > 0,
    ensures
        ((p % q) + c * (x % q)) % q == (p + c * x) % q,
{
    lemma_mul_mod_noop_right(c, x, q);
    vstd::arithmetic::div_mod::lemma_add_mod_noop_right(p % q, c * (x % q), q);
    vstd::arithmetic::div_mod::lemma_add_mod_noop_right(p % q, c * x, q);
    vstd::arithmetic::div_mod::lemma_add_mod_noop(p, c * x, q);
    lemma_mod_twice(p, q);
}

/// Holder of the sharing operations.
pub struct SecretSharer;

impl SecretSharer {
    /// Split `secret` into `n` shares `(x, P(x))` for `x = 1..=n`, where `P`
    /// has degree `k − 1`, constant term `secret mod q`, and the other
    /// coefficients mixed from `seed`.
    ///
    /// `n` is taken modulo 256 (evaluation points are bytes).
    pub fn split_secret(secret: u64, k: usize, n: usize, seed: u64) -> (shares: Vec<(u8, u64)>)
        ensures
            shares@.len() == (n as u8) as nat,
            k >= 1 ==> forall|i: int|
                0 <= i < shares@.len() ==> #[trigger] shares@[i].1 as int == range_sum(
                    sharing_term(secret, seed, i + 1),
                    0,
                    k as nat,
                ) % 8380417,
            forall|i: int|
                0 <= i < shares@.len() ==> #[trigger] shares@[i] == ((i + 1) as u8, share_value(
                    secret,
                    k as nat,
                    seed,
                    i + 1,
                ) as u64),
    {
        let ghost c = share_coeffs(secret, k as nat, seed);
        let mut coefficients: Vec<u64> = Vec::new();
        coefficients.push(secret % MODULUS_Q);
        let mut i: usize = 1;
        while i < k
            invariant
                1 <= i,
                i <= k || k == 0,
                k == 0 ==> i == 1,
                c == share_coeffs(secret, k as nat, seed),
                coefficients@.len() == i,
                forall|j: int| 0 <= j < i ==> #[trigger] coefficients@[j] as int == c[j],
            decreases k - i,
        {
            let coeff = Self::derive_coeff(seed, i as u64) % MODULUS_Q;
            coefficients.push(coeff);
            i += 1;
        }
        assert(coefficients@.len() == c.len());
        let mut shares: Vec<(u8, u64)> = Vec::new();
        let nb = n as u8;
        let mut x: u16 = 1;
        while x <= nb as u16
            invariant
                1 <= x <= nb as u16 + 1,
                c == share_coeffs(secret, k as nat, seed),
                coefficients@.len() == c.len(),
                forall|j: int| 0 <= j < c.len() ==> #[trigger] coefficients@[j] as int == c[j],
                forall|j: int| 0 <= j < c.len() ==> 0 <= #[trigger] c[j] < 8380417,
                shares@.len() == x - 1,
                forall|t: int|
                    0 <= t < shares@.len() ==> #[trigger] shares@[t] == ((t + 1) as u8, share_value(
                        secret,
                        k as nat,
                        seed,
                        t + 1,
                    ) as u64),
            decreases nb as u16 + 1 - x,
        {
            let xb = x as u8;
            let mut y: u64 = 0;
            let mut x_pow: u64 = 1;
            let mut j: usize = 0;
            proof {
                vstd::arithmetic::div_mod::lemma_small_mod(0, 8380417);
                vstd::arithmetic::div_mod::lemma_small_mod(1, 8380417);
                assert(pow(xb as int, 0) == 1) by {
                    reveal(pow);
                }
            }
            while j < coefficients.len()
                invariant
                    j <= coefficients@.len(),
                    coefficients@.len() == c.len(),
                    forall|t: int| 0 <= t < c.len() ==> #[trigger] coefficients@[t] as int == c[t],
                    forall|t: int| 0 <= t < c.len() ==> 0 <= #[trigger] c[t] < 8380417,
                    y < MODULUS_Q,
                    x_pow < MODULUS_Q,
                    y as int == poly_eval(c, xb as int, j as nat) % 8380417,
                    x_pow as int == pow(xb as int, j as nat) % 8380417,
                decreases coefficients@.len() - j,
            {
                let coeff = coefficients[j];
                assert(coeff * x_pow <= 8380416 * 8380416) by (nonlinear_arith)
                    requires
                        coeff < 8380417,
                        x_pow < 8380417,
                ;
                let prod = coeff.wrapping_mul(x_pow);
                assert(prod == coeff * x_pow);
                proof {
                    lemma_horner_step(poly_eval(c, xb as int, j as nat), c[j as int], pow(xb as int, j as nat), 8380417);
                }
                y = (y + prod) % MODULUS_Q;
                assert(x_pow * (xb as u64) < 0x1_0000_0000_0000_0000) by (nonlinear_arith)
                    requires
                        x_pow < 8380417,
                        xb < 256,
                ;
                let next = x_pow.wrapping_mul(xb as u64);
                assert(next == x_pow * xb);
                proof {
                    lemma_mul_mod_noop_left(pow(xb as int, j as nat), xb as int, 8380417);
                    reveal(pow);
                    assert(pow(xb as int, (j + 1) as nat) == xb * pow(xb as int, j as nat));
                    assert(pow(xb as int, j as nat) * xb == xb * pow(xb as int, j as nat)) by (nonlinear_arith);
                }
                x_pow = next % MODULUS_Q;
                j += 1;
            }
            shares.push((xb, y));
            x += 1;
        }
        wipe_u64_vec(&mut coefficients);
        proof {
            if k >= 1 {
                assert forall|i: int| 0 <= i < shares@.len() implies #[trigger] shares@[i].1 as int == range_sum(
                    sharing_term(secret, seed, i + 1),
                    0,
                    k as nat,
                ) % 8380417 by {
                    lemma_sharing_polynomial(secret, k as nat, seed, i + 1);
                }
            }
        }
        shares
    }

    /// The coefficient mixer [`mix_coeff`].
    fn derive_coeff(seed: u64, idx: u64) -> (r: u64)
        ensures
            r == mix_coeff(seed, idx),
    {
        let mut v = seed.wrapping_add(idx.wrapping_mul(0x9e3779b97f4a7c15));
        v = v ^ (v >> 30u64);
        v = v.wrapping_mul(0xbf58476d1ce4e5b9);
        v = v ^ (v >> 27u64);
        v = v.wrapping_mul(0x94d049bb133111eb);
        v = v ^ (v >> 31u64);
        v
    }

    /// Reconstruct, refusing fewer than [`THRESHOLD_K`] shares with
    /// `ThresholdNotMet` and a repeated evaluation index with `InvalidShareSet`.
    pub fn reconstruct_secret_checked(shares: &[(u8, u64)]) -> (r: Result<u64, IdentityError>)
        ensures
            shares@.len() < 3 ==> r == Err::<u64, IdentityError>(IdentityError::ThresholdNotMet),
            shares@.len() >= 3 && !distinct_indices(shares@) ==> r == Err::<u64, IdentityError>(
                IdentityError::InvalidShareSet,
            ),
            r is Ok <==> shares@.len() >= 3 && distinct_indices(shares@),
            r matches Ok(v) ==> v as int == interpolate_at_zero(shares@),
    {
        if shares.len() < THRESHOLD_K {
            return Err(IdentityError::ThresholdNotMet);
        }
        Self::reconstruct_secret(shares)
    }

    /// Reconstruct the secret by Lagrange interpolation at zero; a share set
    /// with a repeated evaluation index cannot be interpolated and is
    /// `InvalidShareSet`.
    pub fn reconstruct_secret(shares: &[(u8, u64)]) -> (r: Result<u64, IdentityError>)
        ensures
            r is Ok <==> distinct_indices(shares@),
            r matches Err(e) ==> e == IdentityError::InvalidShareSet,
            r matches Ok(v) ==> v as int == interpolate_at_zero(shares@) && v < MODULUS_Q,
    {
        if !indices_distinct(shares) {
            return Err(IdentityError::InvalidShareSet);
        }
        Ok(Self::interpolate(shares))
    }

    /// Lagrange interpolation at zero over `F_q`:
    /// `Σ_i y_i · Π_{j≠i} (−x_j)/(x_i − x_j)`, reduced into `[0, q)`.
    ///
    /// Share values are read as signed 64-bit integers. A repeated evaluation
    /// point has no inverse and contributes a zero weight.
    fn interpolate(shares: &[(u8, u64)]) -> (r: u64)
        ensures
            r as int == interpolate_at_zero(shares@),
            r < MODULUS_Q,
    {
        let q: i64 = 8380417;
        let mut secret: i64 = 0;
        let mut i: usize = 0;
        proof {
            lemma_zero_mod(q as int);
        }
        while i < shares.len()
            invariant
                i <= shares@.len(),
                q == 8380417,
                0 <= secret < q,
                secret as int == lagrange_upto(shares@, i as nat) % 8380417,
            decreases shares@.len() - i,
        {
            let xi = shares[i].0 as i64;
            let yi = shares[i].1 as i64;
            let mut num: i64 = 1;
            let mut den: i64 = 1;
            let mut j: usize = 0;
            proof {
                vstd::arithmetic::div_mod::lemma_small_mod(1, 8380417);
            }
            while j < shares.len()
                invariant
                    j <= shares@.len(),
                    i < shares@.len(),
                    q == 8380417,
                    xi == shares@[i as int].0,
                    0 <= num < q,
                    0 <= den < q,
                    num as int == num_upto(shares@, i as int, j as nat) % 8380417,
                    den as int == den_upto(shares@, i as int, j as nat) % 8380417,
                decreases shares@.len() - j,
            {
                if i != j {
                    let xj = shares[j].0 as i64;
                    assert(-0x10000_0000_0000 < num * (0 - xj) <= 0) by (nonlinear_arith)
                        requires
                            0 <= num < 8380417,
                            0 <= xj < 256,
                    ;
                    assert(-0x10000_0000_0000 < den * (xi - xj) < 0x10000_0000_0000) by (nonlinear_arith)
                        requires
                            0 <= den < 8380417,
                            0 <= xj < 256,
                            0 <= xi < 256,
                    ;
                    proof {
                        lemma_mul_mod_noop_left(num_upto(shares@, i as int, j as nat), -xj, 8380417);
                        lemma_mul_mod_noop_left(den_upto(shares@, i as int, j as nat), xi - xj, 8380417);
                    }
                    num = emod(num * (0 - xj));
                    den = emod(den * (xi - xj));
                } else {
                    proof {
                        lemma_mod_twice(num_upto(shares@, i as int, j as nat), 8380417);
                        lemma_mod_twice(den_upto(shares@, i as int, j as nat), 8380417);
                    }
                }
                j += 1;
            }
            let den_inv = mod_inverse(den, q);
            assert(num * den_inv < 0x10000_0000_0000) by (nonlinear_arith)
                requires
                    0 <= num < 8380417,
                    0 <= den_inv < 8380417,
            ;
            let lagrange = emod(num * den_inv);
            let y = emod(yi);
            assert(y * lagrange < 0x10000_0000_0000) by (nonlinear_arith)
                requires
                    0 <= y < 8380417,
                    0 <= lagrange < 8380417,
            ;
            let term = emod(y * lagrange);
            proof {
                let w = lagrange_weight(shares@, i as int);
                assert(lagrange as int == w);
                lemma_mul_mod_noop_left(yi as int, w, 8380417);
                lemma_add_mod_noop(lagrange_upto(shares@, i as nat), (yi as int) * w, 8380417);
                lemma_mod_twice(lagrange_upto(shares@, i as nat), 8380417);
                lemma_mod_twice((yi as int) * w, 8380417);
            }
            secret = emod(secret + term);
            i += 1;
        }
        secret as u64
    }
}

/// No evaluation index occurs twice.
pub open spec fn distinct_indices(shares: Seq<(u8, u64)>) -> bool {
    forall|a: int, b: int| 0 <= a < b < shares.len() ==> #[trigger] shares[a].0 != #[trigger] shares[b].0
}

/// Whether every evaluation index of `shares` is distinct.
fn indices_distinct(shares: &[(u8, u64)]) -> (r: bool)
    ensures
        r == distinct_indices(shares@),
{
    let mut seen = [false; 256];
    let mut i: usize = 0;
    while i < shares.len()
        invariant
            i <= shares@.len(),
            forall|a: int, b: int| 0 <= a < b < i ==> #[trigger] shares@[a].0 != #[trigger] shares@[b].0,
            forall|v: int| 0 <= v < 256 ==> (#[trigger] seen@[v] <==> exists|t: int| 0 <= t < i && shares@[t].0 == v),
        decreases shares@.len() - i,
    {
        let x = shares[i].0;
        if seen[x as usize] {
            proof {
                let t = choose|t: int| 0 <= t < i && shares@[t].0 == x;
                assert(shares@[t].0 == shares@[i as int].0);
            }
            return false;
        }
        proof {
            assert forall|a: int| 0 <= a < i implies #[trigger] shares@[a].0 != shares@[i as int].0 by {
                if shares@[a].0 == x {
                    assert(seen@[x as int]);
                }
            }
        }
        seen[x as usize] = true;
        i += 1;
    }
    true
}

/// `x mod q`, in `[0, q)`.
fn emod(x: i64) -> (r: i64)
    ensures
        r as int == (x as int) % 8380417,
        0 <= r < 8380417,
{
    match x.checked_rem_euclid(8380417) {
        Some(v) => v,
        None => 0,
    }
}

/// Evaluation point `j` of a share list.
pub open spec fn share_x(shares: Seq<(u8, u64)>, j: int) -> int {
    shares[j].0 as int
}

/// `Π_{j<n, j≠i} (−x_j)`.
pub open spec fn num_upto(shares: Seq<(u8, u64)>, i: int, n: nat) -> int
    decreases n,
{
    if n == 0 {
        1
    } else {
        num_upto(shares, i, (n - 1) as nat) * (if n - 1 == i { 1 } else { -share_x(shares, n - 1) })
    }
}

/// `Π_{j<n, j≠i} (x_i − x_j)`.
pub open spec fn den_upto(shares: Seq<(u8, u64)>, i: int, n: nat) -> int
    decreases n,
{
    if n == 0 {
        1
    } else {
        den_upto(shares, i, (n - 1) as nat) * (if n - 1 == i { 1 } else { share_x(shares, i) - share_x(shares, n - 1) })
    }
}

/// The Lagrange weight of share `i` at zero, in `[0, q)`.
pub open spec fn lagrange_weight(shares: Seq<(u8, u64)>, i: int) -> int {
    let n = shares.len();
    ((num_upto(shares, i, n) % 8380417) * inv_mod(den_upto(shares, i, n) % 8380417, 8380417)) % 8380417
}

/// `Σ_{i<n} y_i·w_i`, with `y_i` the share value read as a signed 64-bit
/// integer.
pub open spec fn lagrange_upto(shares: Seq<(u8, u64)>, n: nat) -> int
    decreases n,
{
    if n == 0 {
        0
    } else {
        lagrange_upto(shares, (n - 1) as nat) + ((shares[n - 1].1 as i64) as int) * lagrange_weight(shares, n - 1)
    }
}

/// The interpolated value at zero, in `[0, q)`.
pub open spec fn interpolate_at_zero(shares: Seq<(u8, u64)>) -> int {
    lagrange_upto(shares, shares.len()) % 8380417
}

// ── Hypercube routing ────────────────────────────────────────────────────────

/// Route `d`: the dimensions `d, d+1, …` (mod 5), each crossed once.
pub open spec fn rotation(d: int) -> Seq<usize> {
    Seq::new(5, |i: int| ((d + i) % 5) as usize)
}

/// The node reached from `x` after crossing the first `l` dimensions of
/// route `d`.
pub open spec fn walk(x: u8, d: int, l: nat) -> u8
    decreases l,
{
    if l == 0 {
        x
    } else {
        walk(x, d, (l - 1) as nat) ^ (1u8 << (((d + l - 1) % 5) as u8))
    }
}

/// Route `d` from `src` passes through `dst`.
pub open spec fn reaches(src: u8, dst: u8, d: int) -> bool {
    exists|l: nat| l <= 5 && #[trigger] walk(src, d, l) == dst
}

/// The simulated network: every node of the 5-cube.
pub struct HypercubeNetwork {
    /// Node labels `0..32`.
    pub nodes: Vec<NodeAddress>,
}

impl HypercubeNetwork {
    /// All 32 nodes, in label order.
    pub fn new() -> (r: Self)
        ensures
            r.nodes@.len() == 32,
            forall|i: int| 0 <= i < 32 ==> #[trigger] r.nodes@[i].0 == i,
    {
        let mut nodes: Vec<NodeAddress> = Vec::new();
        let mut i: usize = 0;
        while i < NUM_NODES
            invariant
                i <= 32,
                nodes@.len() == i,
                forall|j: int| 0 <= j < i ==> #[trigger] nodes@[j].0 == j,
            decreases 32 - i,
        {
            nodes.push(NodeAddress(i as u8));
            i += 1;
        }
        Self { nodes }
    }

    /// The five dimension orders: route `d` starts at dimension `d` and
    /// continues cyclically. The endpoints do not change the routes.
    pub fn compute_orthogonal_paths(_src: NodeAddress, _dst: NodeAddress) -> (paths: Vec<Vec<usize>>)
        ensures
            paths@.len() == 5,
            forall|d: int| 0 <= d < 5 ==> #[trigger] paths@[d]@ == rotation(d),
    {
        let mut paths: Vec<Vec<usize>> = Vec::new();
        let mut d_start: usize = 0;
        while d_start < HYPERCUBE_DIM
            invariant
                d_start <= 5,
                paths@.len() == d_start,
                forall|d: int| 0 <= d < d_start ==> #[trigger] paths@[d]@ == rotation(d),
            decreases 5 - d_start,
        {
            let mut dim_order: Vec<usize> = Vec::new();
            let mut i: usize = 0;
            while i < HYPERCUBE_DIM
                invariant
                    i <= 5,
                    d_start < 5,
                    dim_order@.len() == i,
                    forall|j: int| 0 <= j < i ==> #[trigger] dim_order@[j] == ((d_start + j) % 5) as usize,
                decreases 5 - i,
            {
                dim_order.push((d_start + i) % HYPERCUBE_DIM);
                i += 1;
            }
            assert(dim_order@ =~= rotation(d_start as int));
            paths.push(dim_order);
            d_start += 1;
        }
        paths
    }

    /// Send each share from `src` to `dst`: share `i` follows route `i mod 5`
    /// until it reaches `dst`, tagged with SHA3-256 of
    /// `(src, dst, share index)`.
    ///
    /// Every share's route must pass through `dst` (the walk would otherwise
    /// run off the end of its route).
    pub fn route_payload_shares(&self, src: NodeAddress, dst: NodeAddress, shares: &[(u8, u64)]) -> (packets: Vec<
        HypercubePacket,
    >)
        requires
            forall|i: int| 0 <= i < shares@.len() ==> #[trigger] reaches(src.0, dst.0, i % 5),
        ensures
            packets@.len() == shares@.len(),
            forall|i: int|
                0 <= i < shares@.len() ==> {
                    let p = #[trigger] packets@[i];
                    &&& p.source == src
                    &&& p.destination == dst
                    &&& p.current_node == dst
                    &&& p.dimension_route@ == rotation(i % 5)
                    &&& walk(src.0, i % 5, p.route_index as nat) == dst.0
                    &&& forall|l: nat| l < p.route_index ==> #[trigger] walk(src.0, i % 5, l) != dst.0
                    &&& p.payload.share_id == shares@[i].0
                    &&& p.payload.share_val == shares@[i].1
                    &&& p.payload.path_tag@ == sha3_256_digest(seq![src.0, dst.0, shares@[i].0])
                },
    {
        let routes = Self::compute_orthogonal_paths(src, dst);
        let mut delivered: Vec<HypercubePacket> = Vec::new();
        let mut i: usize = 0;
        while i < shares.len()
            invariant
                i <= shares@.len(),
                routes@.len() == 5,
                forall|d: int| 0 <= d < 5 ==> #[trigger] routes@[d]@ == rotation(d),
                forall|t: int| 0 <= t < shares@.len() ==> #[trigger] reaches(src.0, dst.0, t % 5),
                delivered@.len() == i,
                forall|t: int|
                    0 <= t < i ==> {
                        let p = #[trigger] delivered@[t];
                        &&& p.source == src
                        &&& p.destination == dst
                        &&& p.current_node == dst
                        &&& p.dimension_route@ == rotation(t % 5)
                        &&& walk(src.0, t % 5, p.route_index as nat) == dst.0
                        &&& forall|l: nat| l < p.route_index ==> #[trigger] walk(src.0, t % 5, l) != dst.0
                        &&& p.payload.share_id == shares@[t].0
                        &&& p.payload.share_val == shares@[t].1
                        &&& p.payload.path_tag@ == sha3_256_digest(seq![src.0, dst.0, shares@[t].0])
                    },
            decreases shares@.len() - i,
        {
            let share = shares[i];
            let d = i % HYPERCUBE_DIM;
            let route = &routes[d];
            let mut route_dim_sequence: Vec<usize> = Vec::new();
            let mut k: usize = 0;
            while k < route.len()
                invariant
                    k <= route@.len(),
                    route_dim_sequence@ == route@.subrange(0, k as int),
                decreases route@.len() - k,
            {
                route_dim_sequence.push(route[k]);
                k += 1;
            }
            assert(route_dim_sequence@ =~= rotation(d as int));
            let tag_input = [src.0, dst.0, share.0];
            assert(tag_input@ =~= seq![src.0, dst.0, share.0]);
            let path_tag = sha3_256(&tag_input);
            let mut pkt = HypercubePacket {
                source: src,
                destination: dst,
                current_node: src,
                dimension_route: route_dim_sequence,
                route_index: 0,
                payload: ZkProofSegment { share_id: share.0, share_val: share.1, path_tag },
            };
            assert(reaches(src.0, dst.0, d as int));
            while pkt.current_node != pkt.destination
                invariant
                    pkt.source == src,
                    pkt.destination == dst,
                    pkt.dimension_route@ == rotation(d as int),
                    pkt.route_index <= 5,
                    d < 5,
                    reaches(src.0, dst.0, d as int),
                    pkt.current_node.0 == walk(src.0, d as int, pkt.route_index as nat),
                    forall|l: nat| l < pkt.route_index ==> #[trigger] walk(src.0, d as int, l) != dst.0,
                    pkt.payload.share_id == share.0,
                    pkt.payload.share_val == share.1,
                    pkt.payload.path_tag@ == sha3_256_digest(seq![src.0, dst.0, share.0]),
                decreases 5 - pkt.route_index,
            {
                proof {
                    if pkt.route_index >= 5 {
                        let l = choose|l: nat| l <= 5 && #[trigger] walk(src.0, d as int, l) == dst.0;
                        if l < pkt.route_index {
                        } else {
                            assert(l == 5);
                        }
                    }
                }
                let next_dim = pkt.dimension_route[pkt.route_index];
                let next_node = pkt.current_node.neighbor(next_dim);
                pkt.current_node = next_node;
                pkt.route_index += 1;
            }
            delivered.push(pkt);
            i += 1;
        }
        delivered
    }
}

impl Default for HypercubeNetwork {
    fn default() -> (r: Self)
        ensures
            r.nodes@.len() == 32,
            forall|i: int| 0 <= i < 32 ==> #[trigger] r.nodes@[i].0 == i,
    {
        Self::new()
    }
}

// ── Threshold reconstruction ─────────────────────────────────────────────────

/// The inverse modulo `q` of the denominators that points in `1..=5` produce
/// (`±1, ±2, ±3, ±4, ±6, ±8, ±12`), else 0.
pub open spec fn small_inv(d: int) -> int {
    if d == 1 {
        1
    } else if d == 2 {
        4190209
    } else if d == 3 {
        5586945
    } else if d == 4 {
        6285313
    } else if d == 6 {
        6983681
    } else if d == 8 {
        7332865
    } else if d == 12 {
        7682049
    } else if d == 8380416 {
        8380416
    } else if d == 8380415 {
        4190208
    } else if d == 8380414 {
        2793472
    } else if d == 8380413 {
        2095104
    } else if d == 8380411 {
        1396736
    } else if d == 8380409 {
        1047552
    } else if d == 8380405 {
        698368
    } else {
        0
    }
}

/// The Lagrange weight at zero of point `a` among `{a, b, c}`.
pub open spec fn weight3(a: int, b: int, c: int) -> int {
    let den = ((1 * (a - b)) * (a - c)) % 8380417;
    ((((1 * -b) * -c) % 8380417) * small_inv(den)) % 8380417
}

/// For three distinct points: each denominator is inverted by
/// [`small_inv`], and the weights reproduce `1, x, x²` at zero.
pub open spec fn lagrange_triple_ok(a: int, b: int, c: int) -> bool {
    let q = 8380417int;
    let d0 = ((1 * (a - b)) * (a - c)) % q;
    let d1 = ((1 * (b - a)) * (b - c)) % q;
    let d2 = ((1 * (c - a)) * (c - b)) % q;
    let w0 = weight3(a, b, c);
    let w1 = weight3(b, a, c);
    let w2 = weight3(c, a, b);
    &&& (d0 * small_inv(d0)) % q == 1
    &&& (d1 * small_inv(d1)) % q == 1
    &&& (d2 * small_inv(d2)) % q == 1
    &&& (w0 + w1 + w2) % q == 1
    &&& (a * w0 + b * w1 + c * w2) % q == 0
    &&& (a * a * w0 + b * b * w1 + c * c * w2) % q == 0
}

proof fn lemma_triple_123()
    ensures
        lagrange_triple_ok(1, 2, 3),
{
    assert(((1 * (1 - 2)) * (1 - 3)) % 8380417 == 2);
    assert(((1 * (2 - 1)) * (2 - 3)) % 8380417 == 8380416);
    assert(((1 * (3 - 1)) * (3 - 2)) % 8380417 == 2);
    assert(weight3(1, 2, 3) == 3);
    assert(weight3(2, 1, 3) == 8380414);
    assert(weight3(3, 1, 2) == 1);
}

proof fn lemma_triple_124()
    ensures
        lagrange_triple_ok(1, 2, 4),
{
    assert(((1 * (1 - 2)) * (1 - 4)) % 8380417 == 3);
    assert(((1 * (2 - 1)) * (2 - 4)) % 8380417 == 8380415);
    assert(((1 * (4 - 1)) * (4 - 2)) % 8380417 == 6);
    assert(weight3(1, 2, 4) == 2793475);
    assert(weight3(2, 1, 4) == 8380415);
    assert(weight3(4, 1, 2) == 5586945);
}

proof fn lemma_triple_125()
    ensures
        lagrange_triple_ok(1, 2, 5),
{
    assert(((1 * (1 - 2)) * (1 - 5)) % 8380417 == 4);
    assert(((1 * (2 - 1)) * (2 - 5)) % 8380417 == 8380414);
    assert(((1 * (5 - 1)) * (5 - 2)) % 8380417 == 12);
    assert(weight3(1, 2, 5) == 4190211);
    assert(weight3(2, 1, 5) == 5586943);
    assert(weight3(5, 1, 2) == 6983681);
}

proof fn lemma_triple_132()
    ensures
        lagrange_triple_ok(1, 3, 2),
{
    assert(((1 * (1 - 3)) * (1 - 2)) % 8380417 == 2);
    assert(((1 * (3 - 1)) * (3 - 2)) % 8380417 == 2);
    assert(((1 * (2 - 1)) * (2 - 3)) % 8380417 == 8380416);
    assert(weight3(1, 3, 2) == 3);
    assert(weight3(3, 1, 2) == 1);
    assert(weight3(2, 1, 3) == 8380414);
}

proof fn lemma_triple_134()
    ensures
        lagrange_triple_ok(1, 3, 4),
{
    assert(((1 * (1 - 3)) * (1 - 4)) % 8380417 == 6);
    assert(((1 * (3 - 1)) * (3 - 4)) % 8380417 == 8380415);
    assert(((1 * (4 - 1)) * (4 - 3)) % 8380417 == 3);
    assert(weight3(1, 3, 4) == 2);
    assert(weight3(3, 1, 4) == 8380415);
    assert(weight3(4, 1, 3) == 1);
}

proof fn lemma_triple_135()
    ensures
        lagrange_triple_ok(1, 3, 5),
{
    assert(((1 * (1 - 3)) * (1 - 5)) % 8380417 == 8);
    assert(((1 * (3 - 1)) * (3 - 5)) % 8380417 == 8380413);
    assert(((1 * (5 - 1)) * (5 - 3)) % 8380417 == 8);
    assert(weight3(1, 3, 5) == 1047554);
    assert(weight3(3, 1, 5) == 2095103);
    assert(weight3(5, 1, 3) == 5237761);
}

proof fn lemma_triple_142()
    ensures
        lagrange_triple_ok(1, 4, 2),
{
    assert(((1 * (1 - 4)) * (1 - 2)) % 8380417 == 3);
    assert(((1 * (4 - 1)) * (4 - 2)) % 8380417 == 6);
    assert(((1 * (2 - 1)) * (2 - 4)) % 8380417 == 8380415);
    assert(weight3(1, 4, 2) == 2793475);
    assert(weight3(4, 1, 2) == 5586945);
    assert(weight3(2, 1, 4) == 8380415);
}

proof fn lemma_triple_143()
    ensures
        lagrange_triple_ok(1, 4, 3),
{
    assert(((1 * (1 - 4)) * (1 - 3)) % 8380417 == 6);
    assert(((1 * (4 - 1)) * (4 - 3)) % 8380417 == 3);
    assert(((1 * (3 - 1)) * (3 - 4)) % 8380417 == 8380415);
    assert(weight3(1, 4, 3) == 2);
    assert(weight3(4, 1, 3) == 1);
    assert(weight3(3, 1, 4) == 8380415);
}

proof fn lemma_triple_145()
    ensures
        lagrange_triple_ok(1, 4, 5),
{
    assert(((1 * (1 - 4)) * (1 - 5)) % 8380417 == 12);
    assert(((1 * (4 - 1)) * (4 - 5)) % 8380417 == 8380414);
    assert(((1 * (5 - 1)) * (5 - 4)) % 8380417 == 4);
    assert(weight3(1, 4, 5) == 2793474);
    assert(weight3(4, 1, 5) == 5586943);
    assert(weight3(5, 1, 4) == 1);
}

proof fn lemma_triple_152()
    ensures
        lagrange_triple_ok(1, 5, 2),
{
    assert(((1 * (1 - 5)) * (1 - 2)) % 8380417 == 4);
    assert(((1 * (5 - 1)) * (5 - 2)) % 8380417 == 12);
    assert(((1 * (2 - 1)) * (2 - 5)) % 8380417 == 8380414);
    assert(weight3(1, 5, 2) == 4190211);
    assert(weight3(5, 1, 2) == 6983681);
    assert(weight3(2, 1, 5) == 5586943);
}

proof fn lemma_triple_153()
    ensures
        lagrange_triple_ok(1, 5, 3),
{
    assert(((1 * (1 - 5)) * (1 - 3)) % 8380417 == 8);
    assert(((1 * (5 - 1)) * (5 - 3)) % 8380417 == 8);
    assert(((1 * (3 - 1)) * (3 - 5)) % 8380417 == 8380413);
    assert(weight3(1, 5, 3) == 1047554);
    assert(weight3(5, 1, 3) == 5237761);
    assert(weight3(3, 1, 5) == 2095103);
}

proof fn lemma_triple_154()
    ensures
        lagrange_triple_ok(1, 5, 4),
{
    assert(((1 * (1 - 5)) * (1 - 4)) % 8380417 == 12);
    assert(((1 * (5 - 1)) * (5 - 4)) % 8380417 == 4);
    assert(((1 * (4 - 1)) * (4 - 5)) % 8380417 == 8380414);
    assert(weight3(1, 5, 4) == 2793474);
    assert(weight3(5, 1, 4) == 1);
    assert(weight3(4, 1, 5) == 5586943);
}

proof fn lemma_triple_213()
    ensures
        lagrange_triple_ok(2, 1, 3),
{
    assert(((1 * (2 - 1)) * (2 - 3)) % 8380417 == 8380416);
    assert(((1 * (1 - 2)) * (1 - 3)) % 8380417 == 2);
    assert(((1 * (3 - 2)) * (3 - 1)) % 8380417 == 2);
    assert(weight3(2, 1, 3) == 8380414);
    assert(weight3(1, 2, 3) == 3);
    assert(weight3(3, 2, 1) == 1);
}

proof fn lemma_triple_214()
    ensures
        lagrange_triple_ok(2, 1, 4),
{
    assert(((1 * (2 - 1)) * (2 - 4)) % 8380417 == 8380415);
    assert(((1 * (1 - 2)) * (1 - 4)) % 8380417 == 3);
    assert(((1 * (4 - 2)) * (4 - 1)) % 8380417 == 6);
    assert(weight3(2, 1, 4) == 8380415);
    assert(weight3(1, 2, 4) == 2793475);
    assert(weight3(4, 2, 1) == 5586945);
}

proof fn lemma_triple_215()
    ensures
        lagrange_triple_ok(2, 1, 5),
{
    assert(((1 * (2 - 1)) * (2 - 5)) % 8380417 == 8380414);
    assert(((1 * (1 - 2)) * (1 - 5)) % 8380417 == 4);
    assert(((1 * (5 - 2)) * (5 - 1)) % 8380417 == 12);
    assert(weight3(2, 1, 5) == 5586943);
    assert(weight3(1, 2, 5) == 4190211);
    assert(weight3(5, 2, 1) == 6983681);
}

proof fn lemma_triple_231()
    ensures
        lagrange_triple_ok(2, 3, 1),
{
    assert(((1 * (2 - 3)) * (2 - 1)) % 8380417 == 8380416);
    assert(((1 * (3 - 2)) * (3 - 1)) % 8380417 == 2);
    assert(((1 * (1 - 2)) * (1 - 3)) % 8380417 == 2);
    assert(weight3(2, 3, 1) == 8380414);
    assert(weight3(3, 2, 1) == 1);
    assert(weight3(1, 2, 3) == 3);
}

proof fn lemma_triple_234()
    ensures
        lagrange_triple_ok(2, 3, 4),
{
    assert(((1 * (2 - 3)) * (2 - 4)) % 8380417 == 2);
    assert(((1 * (3 - 2)) * (3 - 4)) % 8380417 == 8380416);
    assert(((1 * (4 - 2)) * (4 - 3)) % 8380417 == 2);
    assert(weight3(2, 3, 4) == 6);
    assert(weight3(3, 2, 4) == 8380409);
    assert(weight3(4, 2, 3) == 3);
}

proof fn lemma_triple_235()
    ensures
        lagrange_triple_ok(2, 3, 5),
{
    assert(((1 * (2 - 3)) * (2 - 5)) % 8380417 == 3);
    assert(((1 * (3 - 2)) * (3 - 5)) % 8380417 == 8380415);
    assert(((1 * (5 - 2)) * (5 - 3)) % 8380417 == 6);
    assert(weight3(2, 3, 5) == 5);
    assert(weight3(3, 2, 5) == 8380412);
    assert(weight3(5, 2, 3) == 1);
}

proof fn lemma_triple_241()
    ensures
        lagrange_triple_ok(2, 4, 1),
{
    assert(((1 * (2 - 4)) * (2 - 1)) % 8380417 == 8380415);
    assert(((1 * (4 - 2)) * (4 - 1)) % 8380417 == 6);
    assert(((1 * (1 - 2)) * (1 - 4)) % 8380417 == 3);
    assert(weight3(2, 4, 1) == 8380415);
    assert(weight3(4, 2, 1) == 5586945);
    assert(weight3(1, 2, 4) == 2793475);
}

proof fn lemma_triple_243()
    ensures
        lagrange_triple_ok(2, 4, 3),
{
    assert(((1 * (2 - 4)) * (2 - 3)) % 8380417 == 2);
    assert(((1 * (4 - 2)) * (4 - 3)) % 8380417 == 2);
    assert(((1 * (3 - 2)) * (3 - 4)) % 8380417 == 8380416);
    assert(weight3(2, 4, 3) == 6);
    assert(weight3(4, 2, 3) == 3);
    assert(weight3(3, 2, 4) == 8380409);
}

proof fn lemma_triple_245()
    ensures
        lagrange_triple_ok(2, 4, 5),
{
    assert(((1 * (2 - 4)) * (2 - 5)) % 8380417 == 6);
    assert(((1 * (4 - 2)) * (4 - 5)) % 8380417 == 8380415);
    assert(((1 * (5 - 2)) * (5 - 4)) % 8380417 == 3);
    assert(weight3(2, 4, 5) == 5586948);
    assert(weight3(4, 2, 5) == 8380412);
    assert(weight3(5, 2, 4) == 2793475);
}

proof fn lemma_triple_251()
    ensures
        lagrange_triple_ok(2, 5, 1),
{
    assert(((1 * (2 - 5)) * (2 - 1)) % 8380417 == 8380414);
    assert(((1 * (5 - 2)) * (5 - 1)) % 8380417 == 12);
    assert(((1 * (1 - 2)) * (1 - 5)) % 8380417 == 4);
    assert(weight3(2, 5, 1) == 5586943);
    assert(weight3(5, 2, 1) == 6983681);
    assert(weight3(1, 2, 5) == 4190211);
}

proof fn lemma_triple_253()
    ensures
        lagrange_triple_ok(2, 5, 3),
{
    assert(((1 * (2 - 5)) * (2 - 3)) % 8380417 == 3);
    assert(((1 * (5 - 2)) * (5 - 3)) % 8380417 == 6);
    assert(((1 * (3 - 2)) * (3 - 5)) % 8380417 == 8380415);
    assert(weight3(2, 5, 3) == 5);
    assert(weight3(5, 2, 3) == 1);
    assert(weight3(3, 2, 5) == 8380412);
}

proof fn lemma_triple_254()
    ensures
        lagrange_triple_ok(2, 5, 4),
{
    assert(((1 * (2 - 5)) * (2 - 4)) % 8380417 == 6);
    assert(((1 * (5 - 2)) * (5 - 4)) % 8380417 == 3);
    assert(((1 * (4 - 2)) * (4 - 5)) % 8380417 == 8380415);
    assert(weight3(2, 5, 4) == 5586948);
    assert(weight3(5, 2, 4) == 2793475);
    assert(weight3(4, 2, 5) == 8380412);
}

proof fn lemma_triple_312()
    ensures
        lagrange_triple_ok(3, 1, 2),
{
    assert(((1 * (3 - 1)) * (3 - 2)) % 8380417 == 2);
    assert(((1 * (1 - 3)) * (1 - 2)) % 8380417 == 2);
    assert(((1 * (2 - 3)) * (2 - 1)) % 8380417 == 8380416);
    assert(weight3(3, 1, 2) == 1);
    assert(weight3(1, 3, 2) == 3);
    assert(weight3(2, 3, 1) == 8380414);
}

proof fn lemma_triple_314()
    ensures
        lagrange_triple_ok(3, 1, 4),
{
    assert(((1 * (3 - 1)) * (3 - 4)) % 8380417 == 8380415);
    assert(((1 * (1 - 3)) * (1 - 4)) % 8380417 == 6);
    assert(((1 * (4 - 3)) * (4 - 1)) % 8380417 == 3);
    assert(weight3(3, 1, 4) == 8380415);
    assert(weight3(1, 3, 4) == 2);
    assert(weight3(4, 3, 1) == 1);
}

proof fn lemma_triple_315()
    ensures
        lagrange_triple_ok(3, 1, 5),
{
    assert(((1 * (3 - 1)) * (3 - 5)) % 8380417 == 8380413);
    assert(((1 * (1 - 3)) * (1 - 5)) % 8380417 == 8);
    assert(((1 * (5 - 3)) * (5 - 1)) % 8380417 == 8);
    assert(weight3(3, 1, 5) == 2095103);
    assert(weight3(1, 3, 5) == 1047554);
    assert(weight3(5, 3, 1) == 5237761);
}

proof fn lemma_triple_321()
    ensures
        lagrange_triple_ok(3, 2, 1),
{
    assert(((1 * (3 - 2)) * (3 - 1)) % 8380417 == 2);
    assert(((1 * (2 - 3)) * (2 - 1)) % 8380417 == 8380416);
    assert(((1 * (1 - 3)) * (1 - 2)) % 8380417 == 2);
    assert(weight3(3, 2, 1) == 1);
    assert(weight3(2, 3, 1) == 8380414);
    assert(weight3(1, 3, 2) == 3);
}

proof fn lemma_triple_324()
    ensures
        lagrange_triple_ok(3, 2, 4),
{
    assert(((1 * (3 - 2)) * (3 - 4)) % 8380417 == 8380416);
    assert(((1 * (2 - 3)) * (2 - 4)) % 8380417 == 2);
    assert(((1 * (4 - 3)) * (4 - 2)) % 8380417 == 2);
    assert(weight3(3, 2, 4) == 8380409);
    assert(weight3(2, 3, 4) == 6);
    assert(weight3(4, 3, 2) == 3);
}

proof fn lemma_triple_325()
    ensures
        lagrange_triple_ok(3, 2, 5),
{
    assert(((1 * (3 - 2)) * (3 - 5)) % 8380417 == 8380415);
    assert(((1 * (2 - 3)) * (2 - 5)) % 8380417 == 3);
    assert(((1 * (5 - 3)) * (5 - 2)) % 8380417 == 6);
    assert(weight3(3, 2, 5) == 8380412);
    assert(weight3(2, 3, 5) == 5);
    assert(weight3(5, 3, 2) == 1);
}

proof fn lemma_triple_341()
    ensures
        lagrange_triple_ok(3, 4, 1),
{
    assert(((1 * (3 - 4)) * (3 - 1)) % 8380417 == 8380415);
    assert(((1 * (4 - 3)) * (4 - 1)) % 8380417 == 3);
    assert(((1 * (1 - 3)) * (1 - 4)) % 8380417 == 6);
    assert(weight3(3, 4, 1) == 8380415);
    assert(weight3(4, 3, 1) == 1);
    assert(weight3(1, 3, 4) == 2);
}

proof fn lemma_triple_342()
    ensures
        lagrange_triple_ok(3, 4, 2),
{
    assert(((1 * (3 - 4)) * (3 - 2)) % 8380417 == 8380416);
    assert(((1 * (4 - 3)) * (4 - 2)) % 8380417 == 2);
    assert(((1 * (2 - 3)) * (2 - 4)) % 8380417 == 2);
    assert(weight3(3, 4, 2) == 8380409);
    assert(weight3(4, 3, 2) == 3);
    assert(weight3(2, 3, 4) == 6);
}

proof fn lemma_triple_345()
    ensures
        lagrange_triple_ok(3, 4, 5),
{
    assert(((1 * (3 - 4)) * (3 - 5)) % 8380417 == 2);
    assert(((1 * (4 - 3)) * (4 - 5)) % 8380417 == 8380416);
    assert(((1 * (5 - 3)) * (5 - 4)) % 8380417 == 2);
    assert(weight3(3, 4, 5) == 10);
    assert(weight3(4, 3, 5) == 8380402);
    assert(weight3(5, 3, 4) == 6);
}

proof fn lemma_triple_351()
    ensures
        lagrange_triple_ok(3, 5, 1),
{
    assert(((1 * (3 - 5)) * (3 - 1)) % 8380417 == 8380413);
    assert(((1 * (5 - 3)) * (5 - 1)) % 8380417 == 8);
    assert(((1 * (1 - 3)) * (1 - 5)) % 8380417 == 8);
    assert(weight3(3, 5, 1) == 2095103);
    assert(weight3(5, 3, 1) == 5237761);
    assert(weight3(1, 3, 5) == 1047554);
}

proof fn lemma_triple_352()
    ensures
        lagrange_triple_ok(3, 5, 2),
{
    assert(((1 * (3 - 5)) * (3 - 2)) % 8380417 == 8380415);
    assert(((1 * (5 - 3)) * (5 - 2)) % 8380417 == 6);
    assert(((1 * (2 - 3)) * (2 - 5)) % 8380417 == 3);
    assert(weight3(3, 5, 2) == 8380412);
    assert(weight3(5, 3, 2) == 1);
    assert(weight3(2, 3, 5) == 5);
}

proof fn lemma_triple_354()
    ensures
        lagrange_triple_ok(3, 5, 4),
{
    assert(((1 * (3 - 5)) * (3 - 4)) % 8380417 == 2);
    assert(((1 * (5 - 3)) * (5 - 4)) % 8380417 == 2);
    assert(((1 * (4 - 3)) * (4 - 5)) % 8380417 == 8380416);
    assert(weight3(3, 5, 4) == 10);
    assert(weight3(5, 3, 4) == 6);
    assert(weight3(4, 3, 5) == 8380402);
}

proof fn lemma_triple_412()
    ensures
        lagrange_triple_ok(4, 1, 2),
{
    assert(((1 * (4 - 1)) * (4 - 2)) % 8380417 == 6);
    assert(((1 * (1 - 4)) * (1 - 2)) % 8380417 == 3);
    assert(((1 * (2 - 4)) * (2 - 1)) % 8380417 == 8380415);
    assert(weight3(4, 1, 2) == 5586945);
    assert(weight3(1, 4, 2) == 2793475);
    assert(weight3(2, 4, 1) == 8380415);
}

proof fn lemma_triple_413()
    ensures
        lagrange_triple_ok(4, 1, 3),
{
    assert(((1 * (4 - 1)) * (4 - 3)) % 8380417 == 3);
    assert(((1 * (1 - 4)) * (1 - 3)) % 8380417 == 6);
    assert(((1 * (3 - 4)) * (3 - 1)) % 8380417 == 8380415);
    assert(weight3(4, 1, 3) == 1);
    assert(weight3(1, 4, 3) == 2);
    assert(weight3(3, 4, 1) == 8380415);
}

proof fn lemma_triple_415()
    ensures
        lagrange_triple_ok(4, 1, 5),
{
    assert(((1 * (4 - 1)) * (4 - 5)) % 8380417 == 8380414);
    assert(((1 * (1 - 4)) * (1 - 5)) % 8380417 == 12);
    assert(((1 * (5 - 4)) * (5 - 1)) % 8380417 == 4);
    assert(weight3(4, 1, 5) == 5586943);
    assert(weight3(1, 4, 5) == 2793474);
    assert(weight3(5, 4, 1) == 1);
}

proof fn lemma_triple_421()
    ensures
        lagrange_triple_ok(4, 2, 1),
{
    assert(((1 * (4 - 2)) * (4 - 1)) % 8380417 == 6);
    assert(((1 * (2 - 4)) * (2 - 1)) % 8380417 == 8380415);
    assert(((1 * (1 - 4)) * (1 - 2)) % 8380417 == 3);
    assert(weight3(4, 2, 1) == 5586945);
    assert(weight3(2, 4, 1) == 8380415);
    assert(weight3(1, 4, 2) == 2793475);
}

proof fn lemma_triple_423()
    ensures
        lagrange_triple_ok(4, 2, 3),
{
    assert(((1 * (4 - 2)) * (4 - 3)) % 8380417 == 2);
    assert(((1 * (2 - 4)) * (2 - 3)) % 8380417 == 2);
    assert(((1 * (3 - 4)) * (3 - 2)) % 8380417 == 8380416);
    assert(weight3(4, 2, 3) == 3);
    assert(weight3(2, 4, 3) == 6);
    assert(weight3(3, 4, 2) == 8380409);
}

proof fn lemma_triple_425()
    ensures
        lagrange_triple_ok(4, 2, 5),
{
    assert(((1 * (4 - 2)) * (4 - 5)) % 8380417 == 8380415);
    assert(((1 * (2 - 4)) * (2 - 5)) % 8380417 == 6);
    assert(((1 * (5 - 4)) * (5 - 2)) % 8380417 == 3);
    assert(weight3(4, 2, 5) == 8380412);
    assert(weight3(2, 4, 5) == 5586948);
    assert(weight3(5, 4, 2) == 2793475);
}

proof fn lemma_triple_431()
    ensures
        lagrange_triple_ok(4, 3, 1),
{
    assert(((1 * (4 - 3)) * (4 - 1)) % 8380417 == 3);
    assert(((1 * (3 - 4)) * (3 - 1)) % 8380417 == 8380415);
    assert(((1 * (1 - 4)) * (1 - 3)) % 8380417 == 6);
    assert(weight3(4, 3, 1) == 1);
    assert(weight3(3, 4, 1) == 8380415);
    assert(weight3(1, 4, 3) == 2);
}

proof fn lemma_triple_432()
    ensures
        lagrange_triple_ok(4, 3, 2),
{
    assert(((1 * (4 - 3)) * (4 - 2)) % 8380417 == 2);
    assert(((1 * (3 - 4)) * (3 - 2)) % 8380417 == 8380416);
    assert(((1 * (2 - 4)) * (2 - 3)) % 8380417 == 2);
    assert(weight3(4, 3, 2) == 3);
    assert(weight3(3, 4, 2) == 8380409);
    assert(weight3(2, 4, 3) == 6);
}

proof fn lemma_triple_435()
    ensures
        lagrange_triple_ok(4, 3, 5),
{
    assert(((1 * (4 - 3)) * (4 - 5)) % 8380417 == 8380416);
    assert(((1 * (3 - 4)) * (3 - 5)) % 8380417 == 2);
    assert(((1 * (5 - 4)) * (5 - 3)) % 8380417 == 2);
    assert(weight3(4, 3, 5) == 8380402);
    assert(weight3(3, 4, 5) == 10);
    assert(weight3(5, 4, 3) == 6);
}

proof fn lemma_triple_451()
    ensures
        lagrange_triple_ok(4, 5, 1),
{
    assert(((1 * (4 - 5)) * (4 - 1)) % 8380417 == 8380414);
    assert(((1 * (5 - 4)) * (5 - 1)) % 8380417 == 4);
    assert(((1 * (1 - 4)) * (1 - 5)) % 8380417 == 12);
    assert(weight3(4, 5, 1) == 5586943);
    assert(weight3(5, 4, 1) == 1);
    assert(weight3(1, 4, 5) == 2793474);
}

proof fn lemma_triple_452()
    ensures
        lagrange_triple_ok(4, 5, 2),
{
    assert(((1 * (4 - 5)) * (4 - 2)) % 8380417 == 8380415);
    assert(((1 * (5 - 4)) * (5 - 2)) % 8380417 == 3);
    assert(((1 * (2 - 4)) * (2 - 5)) % 8380417 == 6);
    assert(weight3(4, 5, 2) == 8380412);
    assert(weight3(5, 4, 2) == 2793475);
    assert(weight3(2, 4, 5) == 5586948);
}

proof fn lemma_triple_453()
    ensures
        lagrange_triple_ok(4, 5, 3),
{
    assert(((1 * (4 - 5)) * (4 - 3)) % 8380417 == 8380416);
    assert(((1 * (5 - 4)) * (5 - 3)) % 8380417 == 2);
    assert(((1 * (3 - 4)) * (3 - 5)) % 8380417 == 2);
    assert(weight3(4, 5, 3) == 8380402);
    assert(weight3(5, 4, 3) == 6);
    assert(weight3(3, 4, 5) == 10);
}

proof fn lemma_triple_512()
    ensures
        lagrange_triple_ok(5, 1, 2),
{
    assert(((1 * (5 - 1)) * (5 - 2)) % 8380417 == 12);
    assert(((1 * (1 - 5)) * (1 - 2)) % 8380417 == 4);
    assert(((1 * (2 - 5)) * (2 - 1)) % 8380417 == 8380414);
    assert(weight3(5, 1, 2) == 6983681);
    assert(weight3(1, 5, 2) == 4190211);
    assert(weight3(2, 5, 1) == 5586943);
}

proof fn lemma_triple_513()
    ensures
        lagrange_triple_ok(5, 1, 3),
{
    assert(((1 * (5 - 1)) * (5 - 3)) % 8380417 == 8);
    assert(((1 * (1 - 5)) * (1 - 3)) % 8380417 == 8);
    assert(((1 * (3 - 5)) * (3 - 1)) % 8380417 == 8380413);
    assert(weight3(5, 1, 3) == 5237761);
    assert(weight3(1, 5, 3) == 1047554);
    assert(weight3(3, 5, 1) == 2095103);
}

proof fn lemma_triple_514()
    ensures
        lagrange_triple_ok(5, 1, 4),
{
    assert(((1 * (5 - 1)) * (5 - 4)) % 8380417 == 4);
    assert(((1 * (1 - 5)) * (1 - 4)) % 8380417 == 12);
    assert(((1 * (4 - 5)) * (4 - 1)) % 8380417 == 8380414);
    assert(weight3(5, 1, 4) == 1);
    assert(weight3(1, 5, 4) == 2793474);
    assert(weight3(4, 5, 1) == 5586943);
}

proof fn lemma_triple_521()
    ensures
        lagrange_triple_ok(5, 2, 1),
{
    assert(((1 * (5 - 2)) * (5 - 1)) % 8380417 == 12);
    assert(((1 * (2 - 5)) * (2 - 1)) % 8380417 == 8380414);
    assert(((1 * (1 - 5)) * (1 - 2)) % 8380417 == 4);
    assert(weight3(5, 2, 1) == 6983681);
    assert(weight3(2, 5, 1) == 5586943);
    assert(weight3(1, 5, 2) == 4190211);
}

proof fn lemma_triple_523()
    ensures
        lagrange_triple_ok(5, 2, 3),
{
    assert(((1 * (5 - 2)) * (5 - 3)) % 8380417 == 6);
    assert(((1 * (2 - 5)) * (2 - 3)) % 8380417 == 3);
    assert(((1 * (3 - 5)) * (3 - 2)) % 8380417 == 8380415);
    assert(weight3(5, 2, 3) == 1);
    assert(weight3(2, 5, 3) == 5);
    assert(weight3(3, 5, 2) == 8380412);
}

proof fn lemma_triple_524()
    ensures
        lagrange_triple_ok(5, 2, 4),
{
    assert(((1 * (5 - 2)) * (5 - 4)) % 8380417 == 3);
    assert(((1 * (2 - 5)) * (2 - 4)) % 8380417 == 6);
    assert(((1 * (4 - 5)) * (4 - 2)) % 8380417 == 8380415);
    assert(weight3(5, 2, 4) == 2793475);
    assert(weight3(2, 5, 4) == 5586948);
    assert(weight3(4, 5, 2) == 8380412);
}

proof fn lemma_triple_531()
    ensures
        lagrange_triple_ok(5, 3, 1),
{
    assert(((1 * (5 - 3)) * (5 - 1)) % 8380417 == 8);
    assert(((1 * (3 - 5)) * (3 - 1)) % 8380417 == 8380413);
    assert(((1 * (1 - 5)) * (1 - 3)) % 8380417 == 8);
    assert(weight3(5, 3, 1) == 5237761);
    assert(weight3(3, 5, 1) == 2095103);
    assert(weight3(1, 5, 3) == 1047554);
}

proof fn lemma_triple_532()
    ensures
        lagrange_triple_ok(5, 3, 2),
{
    assert(((1 * (5 - 3)) * (5 - 2)) % 8380417 == 6);
    assert(((1 * (3 - 5)) * (3 - 2)) % 8380417 == 8380415);
    assert(((1 * (2 - 5)) * (2 - 3)) % 8380417 == 3);
    assert(weight3(5, 3, 2) == 1);
    assert(weight3(3, 5, 2) == 8380412);
    assert(weight3(2, 5, 3) == 5);
}

proof fn lemma_triple_534()
    ensures
        lagrange_triple_ok(5, 3, 4),
{
    assert(((1 * (5 - 3)) * (5 - 4)) % 8380417 == 2);
    assert(((1 * (3 - 5)) * (3 - 4)) % 8380417 == 2);
    assert(((1 * (4 - 5)) * (4 - 3)) % 8380417 == 8380416);
    assert(weight3(5, 3, 4) == 6);
    assert(weight3(3, 5, 4) == 10);
    assert(weight3(4, 5, 3) == 8380402);
}

proof fn lemma_triple_541()
    ensures
        lagrange_triple_ok(5, 4, 1),
{
    assert(((1 * (5 - 4)) * (5 - 1)) % 8380417 == 4);
    assert(((1 * (4 - 5)) * (4 - 1)) % 8380417 == 8380414);
    assert(((1 * (1 - 5)) * (1 - 4)) % 8380417 == 12);
    assert(weight3(5, 4, 1) == 1);
    assert(weight3(4, 5, 1) == 5586943);
    assert(weight3(1, 5, 4) == 2793474);
}

proof fn lemma_triple_542()
    ensures
        lagrange_triple_ok(5, 4, 2),
{
    assert(((1 * (5 - 4)) * (5 - 2)) % 8380417 == 3);
    assert(((1 * (4 - 5)) * (4 - 2)) % 8380417 == 8380415);
    assert(((1 * (2 - 5)) * (2 - 4)) % 8380417 == 6);
    assert(weight3(5, 4, 2) == 2793475);
    assert(weight3(4, 5, 2) == 8380412);
    assert(weight3(2, 5, 4) == 5586948);
}

proof fn lemma_triple_543()
    ensures
        lagrange_triple_ok(5, 4, 3),
{
    assert(((1 * (5 - 4)) * (5 - 3)) % 8380417 == 2);
    assert(((1 * (4 - 5)) * (4 - 3)) % 8380417 == 8380416);
    assert(((1 * (3 - 5)) * (3 - 4)) % 8380417 == 2);
    assert(weight3(5, 4, 3) == 6);
    assert(weight3(4, 5, 3) == 8380402);
    assert(weight3(3, 5, 4) == 10);
}

/// Every ordered triple of distinct points in `1..=5` satisfies
/// [`lagrange_triple_ok`].
proof fn lemma_lagrange_triple(a: int, b: int, c: int)
    requires
        1 <= a <= 5,
        1 <= b <= 5,
        1 <= c <= 5,
        a != b,
        a != c,
        b != c,
    ensures
        lagrange_triple_ok(a, b, c),
{
    if a == 1 && b == 2 && c == 3 {
        lemma_triple_123();
    } else if a == 1 && b == 2 && c == 4 {
        lemma_triple_124();
    } else if a == 1 && b == 2 && c == 5 {
        lemma_triple_125();
    } else if a == 1 && b == 3 && c == 2 {
        lemma_triple_132();
    } else if a == 1 && b == 3 && c == 4 {
        lemma_triple_134();
    } else if a == 1 && b == 3 && c == 5 {
        lemma_triple_135();
    } else if a == 1 && b == 4 && c == 2 {
        lemma_triple_142();
    } else if a == 1 && b == 4 && c == 3 {
        lemma_triple_143();
    } else if a == 1 && b == 4 && c == 5 {
        lemma_triple_145();
    } else if a == 1 && b == 5 && c == 2 {
        lemma_triple_152();
    } else if a == 1 && b == 5 && c == 3 {
        lemma_triple_153();
    } else if a == 1 && b == 5 && c == 4 {
        lemma_triple_154();
    } else if a == 2 && b == 1 && c == 3 {
        lemma_triple_213();
    } else if a == 2 && b == 1 && c == 4 {
        lemma_triple_214();
    } else if a == 2 && b == 1 && c == 5 {
        lemma_triple_215();
    } else if a == 2 && b == 3 && c == 1 {
        lemma_triple_231();
    } else if a == 2 && b == 3 && c == 4 {
        lemma_triple_234();
    } else if a == 2 && b == 3 && c == 5 {
        lemma_triple_235();
    } else if a == 2 && b == 4 && c == 1 {
        lemma_triple_241();
    } else if a == 2 && b == 4 && c == 3 {
        lemma_triple_243();
    } else if a == 2 && b == 4 && c == 5 {
        lemma_triple_245();
    } else if a == 2 && b == 5 && c == 1 {
        lemma_triple_251();
    } else if a == 2 && b == 5 && c == 3 {
        lemma_triple_253();
    } else if a == 2 && b == 5 && c == 4 {
        lemma_triple_254();
    } else if a == 3 && b == 1 && c == 2 {
        lemma_triple_312();
    } else if a == 3 && b == 1 && c == 4 {
        lemma_triple_314();
    } else if a == 3 && b == 1 && c == 5 {
        lemma_triple_315();
    } else if a == 3 && b == 2 && c == 1 {
        lemma_triple_321();
    } else if a == 3 && b == 2 && c == 4 {
        lemma_triple_324();
    } else if a == 3 && b == 2 && c == 5 {
        lemma_triple_325();
    } else if a == 3 && b == 4 && c == 1 {
        lemma_triple_341();
    } else if a == 3 && b == 4 && c == 2 {
        lemma_triple_342();
    } else if a == 3 && b == 4 && c == 5 {
        lemma_triple_345();
    } else if a == 3 && b == 5 && c == 1 {
        lemma_triple_351();
    } else if a == 3 && b == 5 && c == 2 {
        lemma_triple_352();
    } else if a == 3 && b == 5 && c == 4 {
        lemma_triple_354();
    } else if a == 4 && b == 1 && c == 2 {
        lemma_triple_412();
    } else if a == 4 && b == 1 && c == 3 {
        lemma_triple_413();
    } else if a == 4 && b == 1 && c == 5 {
        lemma_triple_415();
    } else if a == 4 && b == 2 && c == 1 {
        lemma_triple_421();
    } else if a == 4 && b == 2 && c == 3 {
        lemma_triple_423();
    } else if a == 4 && b == 2 && c == 5 {
        lemma_triple_425();
    } else if a == 4 && b == 3 && c == 1 {
        lemma_triple_431();
    } else if a == 4 && b == 3 && c == 2 {
        lemma_triple_432();
    } else if a == 4 && b == 3 && c == 5 {
        lemma_triple_435();
    } else if a == 4 && b == 5 && c == 1 {
        lemma_triple_451();
    } else if a == 4 && b == 5 && c == 2 {
        lemma_triple_452();
    } else if a == 4 && b == 5 && c == 3 {
        lemma_triple_453();
    } else if a == 5 && b == 1 && c == 2 {
        lemma_triple_512();
    } else if a == 5 && b == 1 && c == 3 {
        lemma_triple_513();
    } else if a == 5 && b == 1 && c == 4 {
        lemma_triple_514();
    } else if a == 5 && b == 2 && c == 1 {
        lemma_triple_521();
    } else if a == 5 && b == 2 && c == 3 {
        lemma_triple_523();
    } else if a == 5 && b == 2 && c == 4 {
        lemma_triple_524();
    } else if a == 5 && b == 3 && c == 1 {
        lemma_triple_531();
    } else if a == 5 && b == 3 && c == 2 {
        lemma_triple_532();
    } else if a == 5 && b == 3 && c == 4 {
        lemma_triple_534();
    } else if a == 5 && b == 4 && c == 1 {
        lemma_triple_541();
    } else if a == 5 && b == 4 && c == 2 {
        lemma_triple_542();
    } else if a == 5 && b == 4 && c == 3 {
        lemma_triple_543();
    }
}

/// `inv_mod` picks the inverse `v` when one is exhibited.
proof fn lemma_inv_mod_is(d: int, v: int)
    requires
        0 <= v < 8380417,
        (d * v) % 8380417 == 1,
    ensures
        inv_mod(d, 8380417) == v,
{
    assert(exists|x: int| 0 <= x < 8380417 && #[trigger] ((d * x) % 8380417) == 1);
    let w = choose|x: int| 0 <= x < 8380417 && #[trigger] ((d * x) % 8380417) == 1;
    lemma_inverse_unique(d, 8380417, w, v);
}

/// `(Σ c_k·W_k) mod q = (Σ c_k·(W_k mod q)) mod q` for three terms.
proof fn lemma_mod_linear3(c0: int, c1: int, c2: int, w0: int, w1: int, w2: int)
    ensures
        (c0 * w0 + c1 * w1 + c2 * w2) % 8380417 == (c0 * (w0 % 8380417) + c1 * (w1 % 8380417) + c2 * (w2
            % 8380417)) % 8380417,
{
    let q = 8380417int;
    lemma_mul_mod_noop_right(c0, w0, q);
    lemma_mul_mod_noop_right(c1, w1, q);
    lemma_mul_mod_noop_right(c2, w2, q);
    lemma_add_mod_noop(c0 * w0, c1 * w1, q);
    lemma_add_mod_noop(c0 * w0 + c1 * w1, c2 * w2, q);
    lemma_add_mod_noop(c0 * (w0 % q), c1 * (w1 % q), q);
    lemma_add_mod_noop(c0 * (w0 % q) + c1 * (w1 % q), c2 * (w2 % q), q);
    lemma_mod_twice(c0 * w0 + c1 * w1, q);
    lemma_mod_twice(c0 * (w0 % q) + c1 * (w1 % q), q);
}

/// `(Σ (P_k mod q)·w_k) mod q = (Σ P_k·w_k) mod q` for three terms.
proof fn lemma_mod_sum3(p0: int, p1: int, p2: int, w0: int, w1: int, w2: int)
    ensures
        ((p0 % 8380417) * w0 + (p1 % 8380417) * w1 + (p2 % 8380417) * w2) % 8380417 == (p0 * w0 + p1 * w1 + p2
            * w2) % 8380417,
{
    let q = 8380417int;
    lemma_mul_mod_noop_left(p0, w0, q);
    lemma_mul_mod_noop_left(p1, w1, q);
    lemma_mul_mod_noop_left(p2, w2, q);
    lemma_add_mod_noop(p0 * w0, p1 * w1, q);
    lemma_add_mod_noop(p0 * w0 + p1 * w1, p2 * w2, q);
    lemma_add_mod_noop((p0 % q) * w0, (p1 % q) * w1, q);
    lemma_add_mod_noop((p0 % q) * w0 + (p1 % q) * w1, (p2 % q) * w2, q);
    lemma_mod_twice(p0 * w0 + p1 * w1, q);
    lemma_mod_twice((p0 % q) * w0 + (p1 % q) * w1, q);
}

/// The Lagrange weights of three distinct points of `1..=5`.
proof fn lemma_weights3(shares: Seq<(u8, u64)>)
    requires
        shares.len() == 3,
        forall|t: int| 0 <= t < 3 ==> 1 <= #[trigger] shares[t].0 <= 5,
        shares[0].0 != shares[1].0,
        shares[0].0 != shares[2].0,
        shares[1].0 != shares[2].0,
    ensures
        lagrange_weight(shares, 0) == weight3(shares[0].0 as int, shares[1].0 as int, shares[2].0 as int),
        lagrange_weight(shares, 1) == weight3(shares[1].0 as int, shares[0].0 as int, shares[2].0 as int),
        lagrange_weight(shares, 2) == weight3(shares[2].0 as int, shares[0].0 as int, shares[1].0 as int),
        lagrange_triple_ok(shares[0].0 as int, shares[1].0 as int, shares[2].0 as int),
{
    let q = 8380417int;
    let a = shares[0].0 as int;
    let b = shares[1].0 as int;
    let c = shares[2].0 as int;
    assert(1 <= shares[0].0 <= 5 && 1 <= shares[1].0 <= 5 && 1 <= shares[2].0 <= 5);
    lemma_lagrange_triple(a, b, c);
    reveal_with_fuel(num_upto, 4);
    reveal_with_fuel(den_upto, 4);
    let d0 = ((1 * (a - b)) * (a - c)) % q;
    let d1 = ((1 * (b - a)) * (b - c)) % q;
    let d2 = ((1 * (c - a)) * (c - b)) % q;
    assert(num_upto(shares, 0, 3) == (1 * -b) * -c);
    assert(den_upto(shares, 0, 3) == (1 * (a - b)) * (a - c));
    assert(num_upto(shares, 1, 3) == (1 * -a) * -c);
    assert(den_upto(shares, 1, 3) == (1 * (b - a)) * (b - c));
    assert(num_upto(shares, 2, 3) == (1 * -a) * -b);
    assert(den_upto(shares, 2, 3) == (1 * (c - a)) * (c - b));
    assert(0 <= small_inv(d0) < q && 0 <= small_inv(d1) < q && 0 <= small_inv(d2) < q);
    lemma_inv_mod_is(d0, small_inv(d0));
    lemma_inv_mod_is(d1, small_inv(d1));
    lemma_inv_mod_is(d2, small_inv(d2));
}

/// The share at `x` of a degree-2 sharing: `(c0 + c1·x + c2·x²) mod q`.
proof fn lemma_share_value3(secret: u64, seed: u64, x: int)
    ensures
        share_coeffs(secret, 3, seed).len() == 3,
        share_value(secret, 3, seed, x) == (share_coeffs(secret, 3, seed)[0] + share_coeffs(secret, 3, seed)[1] * x
            + share_coeffs(secret, 3, seed)[2] * (x * x)) % 8380417,
{
    let co = share_coeffs(secret, 3, seed);
    reveal_with_fuel(pow, 3);
    reveal_with_fuel(poly_eval, 4);
    assert(pow(x, 0) == 1);
    assert(pow(x, 1) == x * pow(x, 0));
    assert(pow(x, 2) == x * pow(x, 1));
    assert(x * x == pow(x, 2));
}

/// `Σ (c0 + c1·x_k + c2·x_k²)·w_k = c0·Σw + c1·Σx·w + c2·Σx²·w`.
proof fn lemma_regroup3(c0: int, c1: int, c2: int, a: int, b: int, c: int, w0: int, w1: int, w2: int)
    ensures
        (c0 + c1 * a + c2 * (a * a)) * w0 + (c0 + c1 * b + c2 * (b * b)) * w1 + (c0 + c1 * c + c2 * (c * c)) * w2 == c0
            * (w0 + w1 + w2) + c1 * (a * w0 + b * w1 + c * w2) + c2 * (a * a * w0 + b * b * w1 + c * c * w2),
{
    assert((c0 + c1 * a + c2 * (a * a)) * w0 == c0 * w0 + c1 * (a * w0) + c2 * (a * a * w0)) by (nonlinear_arith);
    assert((c0 + c1 * b + c2 * (b * b)) * w1 == c0 * w1 + c1 * (b * w1) + c2 * (b * b * w1)) by (nonlinear_arith);
    assert((c0 + c1 * c + c2 * (c * c)) * w2 == c0 * w2 + c1 * (c * w2) + c2 * (c * c * w2)) by (nonlinear_arith);
    assert(c0 * (w0 + w1 + w2) == c0 * w0 + c0 * w1 + c0 * w2) by (nonlinear_arith);
    assert(c1 * (a * w0 + b * w1 + c * w2) == c1 * (a * w0) + c1 * (b * w1) + c1 * (c * w2)) by (nonlinear_arith);
    assert(c2 * (a * a * w0 + b * b * w1 + c * c * w2) == c2 * (a * a * w0) + c2 * (b * b * w1) + c2 * (c * c * w2))
        by (nonlinear_arith);
}

/// Three shares at distinct points of `1..=5`, valued by one degree-2 sharing
/// polynomial, interpolate to its constant term.
proof fn lemma_three_points_reconstruct(secret: u64, seed: u64, shares: Seq<(u8, u64)>)
    requires
        shares.len() == 3,
        forall|t: int|
            0 <= t < 3 ==> 1 <= #[trigger] shares[t].0 <= 5 && shares[t].1 == share_value(
                secret,
                3,
                seed,
                shares[t].0 as int,
            ) as u64,
        shares[0].0 != shares[1].0,
        shares[0].0 != shares[2].0,
        shares[1].0 != shares[2].0,
    ensures
        interpolate_at_zero(shares) == secret as int % 8380417,
{
    let q = 8380417int;
    let a = shares[0].0 as int;
    let b = shares[1].0 as int;
    let c = shares[2].0 as int;
    lemma_weights3(shares);
    let w0 = weight3(a, b, c);
    let w1 = weight3(b, a, c);
    let w2 = weight3(c, a, b);
    let co = share_coeffs(secret, 3, seed);
    lemma_share_value3(secret, seed, a);
    lemma_share_value3(secret, seed, b);
    lemma_share_value3(secret, seed, c);
    let c0 = co[0];
    let c1 = co[1];
    let c2 = co[2];
    let p0 = c0 + c1 * a + c2 * (a * a);
    let p1 = c0 + c1 * b + c2 * (b * b);
    let p2 = c0 + c1 * c + c2 * (c * c);
    assert(shares[0].1 == share_value(secret, 3, seed, a) as u64);
    assert(shares[1].1 == share_value(secret, 3, seed, b) as u64);
    assert(shares[2].1 == share_value(secret, 3, seed, c) as u64);
    assert(lagrange_upto(shares, 3) == (p0 % q) * w0 + (p1 % q) * w1 + (p2 % q) * w2) by {
        reveal_with_fuel(lagrange_upto, 4);
    }
    lemma_mod_sum3(p0, p1, p2, w0, w1, w2);
    lemma_regroup3(c0, c1, c2, a, b, c, w0, w1, w2);
    lemma_mod_linear3(c0, c1, c2, w0 + w1 + w2, a * w0 + b * w1 + c * w2, a * a * w0 + b * b * w1 + c * c * w2);
    assert(c0 * 1 + c1 * 0 + c2 * 0 == c0);
    vstd::arithmetic::div_mod::lemma_small_mod(c0 as nat, q as nat);
}

/// Threshold reconstruction of the 3-of-5 scheme: any three distinct shares
/// of `split_secret(secret, 3, n, seed)` with `n ≤ 5` reconstruct
/// `secret mod q`.
pub proof fn lemma_any_three_shares_reconstruct(
    secret: u64,
    seed: u64,
    n: usize,
    split: Seq<(u8, u64)>,
    i0: int,
    i1: int,
    i2: int,
)
    requires
        (n as u8) <= 5,
        split.len() == (n as u8) as nat,
        forall|t: int| 0 <= t < split.len() ==> #[trigger] split[t] == ((t + 1) as u8, share_value(secret, 3, seed, t + 1) as u64),
        0 <= i0 < split.len(),
        0 <= i1 < split.len(),
        0 <= i2 < split.len(),
        i0 != i1,
        i0 != i2,
        i1 != i2,
    ensures
        interpolate_at_zero(seq![split[i0], split[i1], split[i2]]) == secret as int % 8380417,
{
    let shares = seq![split[i0], split[i1], split[i2]];
    assert(shares[0] == split[i0] && shares[1] == split[i1] && shares[2] == split[i2]);
    lemma_three_points_reconstruct(secret, seed, shares);
}

} // verus!
