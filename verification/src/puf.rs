//! SRAM PUF key derivation: a helper-data fuzzy extractor, GF(2^10)
//! arithmetic, and the BCH(1023, 512, 55) building blocks.
//!
//! Field elements are 10-bit values; `α` is the root of the primitive
//! polynomial `x^10 + x^3 + 1`, and the exponent table lists `α^i` as the
//! successive states of the corresponding LFSR.

use vstd::prelude::*;

use crate::credential::cbd_val;
use crate::saap::{Polynomial, VectorK, MODULE_K, RING_N};
use crate::xof::{lemma_shift_bit, pow2_small, push_bytes, shake256, shake256_output, xof_byte, XofStream};

verus! {

/// Code length.
pub const BCH_N: usize = 1023;

/// Message length.
pub const BCH_K: usize = 512;

/// Correctable errors.
pub const BCH_T: usize = 55;

/// Field degree.
pub const BCH_M: usize = 10;

/// Field size `2^BCH_M`.
pub const GF_SIZE: usize = 1024;

/// The primitive polynomial `x^10 + x^3 + 1`.
pub const GF_POLY: u32 = 0x409;

/// `"AETHEL_PUF_SEED_V1"`: key derivation.
pub const DOMAIN_PUF_SEED: [u8; 18] = [65, 69, 84, 72, 69, 76, 95, 80, 85, 70, 95, 83, 69, 69, 68, 95, 86, 49];

/// `"AETHEL_PUF_HELPER_V1"`: helper mask derivation.
pub const DOMAIN_PUF_HELPER: [u8; 20] = [65, 69, 84, 72, 69, 76, 95, 80, 85, 70, 95, 72, 69, 76, 80, 69, 82, 95, 86, 49];

// ── GF(2^10) ──────────────────────────────────────────────────────────────────

/// One LFSR step: multiply by `α`, reducing by the primitive polynomial.
pub open spec fn gf_next(x: u32) -> u32 {
    let y = x << 1u32;
    if y & 1024u32 != 0 {
        y ^ 0x409u32
    } else {
        y
    }
}

/// `α^i`.
pub open spec fn gf_exp(i: nat) -> u32
    decreases i,
{
    if i == 0 {
        1
    } else {
        gf_next(gf_exp((i - 1) as nat))
    }
}

/// Entry `i` of the doubled exponent table: `α^i` for `i < 1023`, then
/// repeating with period 1023.
pub open spec fn exp_table(i: nat) -> u16
    decreases i,
{
    if i < 1023 {
        gf_exp(i) as u16
    } else if i == 1023 {
        1
    } else {
        exp_table((i - 1023) as nat)
    }
}

/// The last `i < n` with `α^i == v`, or 0 if there is none.
pub open spec fn log_upto(v: u16, n: nat) -> u16
    decreases n,
{
    if n == 0 {
        0
    } else if gf_exp((n - 1) as nat) as u16 == v {
        (n - 1) as u16
    } else {
        log_upto(v, (n - 1) as nat)
    }
}

/// The discrete logarithm table entry for `v`.
pub open spec fn gf_log(v: u16) -> u16 {
    log_upto(v, 1023)
}

/// Product of field elements by logarithms: 0 if either is 0.
pub open spec fn gf_mul(a: u16, b: u16) -> u16 {
    if a == 0 || b == 0 {
        0
    } else {
        exp_table(((gf_log(a) + gf_log(b)) % 1023) as nat)
    }
}

proof fn lemma_gf_next_bound(x: u32)
    requires
        0 < x < 1024,
    ensures
        0 < gf_next(x) < 1024,
{
    assert(0 < x < 1024 ==> 0 < (if (x << 1u32) & 1024u32 != 0 { (x << 1u32) ^ 0x409u32 } else { x << 1u32 }) < 1024)
        by (bit_vector);
}

proof fn lemma_gf_exp_bound(i: nat)
    ensures
        0 < gf_exp(i) < 1024,
    decreases i,
{
    if i > 0 {
        lemma_gf_exp_bound((i - 1) as nat);
        lemma_gf_next_bound(gf_exp((i - 1) as nat));
    }
}

proof fn lemma_exp_table_bound(i: nat)
    ensures
        exp_table(i) < 1024,
    decreases i,
{
    if i < 1023 {
        lemma_gf_exp_bound(i);
    } else if i > 1023 {
        lemma_exp_table_bound((i - 1023) as nat);
    }
}

proof fn lemma_log_bound(v: u16, n: nat)
    requires
        n <= 1023,
    ensures
        log_upto(v, n) < 1023,
    decreases n,
{
    if n > 0 {
        lemma_log_bound(v, (n - 1) as nat);
    }
}

proof fn lemma_gf_mul_bound(a: u16, b: u16)
    ensures
        gf_mul(a, b) < 1024,
{
    lemma_exp_table_bound(((gf_log(a) + gf_log(b)) % 1023) as nat);
}

/// XOR keeps 10-bit values 10-bit.
proof fn lemma_xor_bound(a: u16, b: u16)
    requires
        a < 1024,
        b < 1024,
    ensures
        a ^ b < 1024,
{
    assert(a < 1024 && b < 1024 ==> a ^ b < 1024) by (bit_vector);
}

/// GF(2^10) exponent and logarithm tables.
pub struct GfTables {
    /// `exp[i] = α^i`, doubled so that sums of two logarithms index directly.
    pub exp: [u16; 2048],
    /// `log[α^i] = i`; `log[0]` is 0.
    pub log: [u16; 1024],
}

impl GfTables {
    /// The tables hold the field's exponents and logarithms.
    pub open spec fn wf(&self) -> bool {
        &&& forall|i: int| 0 <= i < 2048 ==> #[trigger] self.exp@[i] == exp_table(i as nat)
        &&& forall|v: int| 0 <= v < 1024 ==> #[trigger] self.log@[v] == gf_log(v as u16)
    }

    /// Build the tables by running the LFSR through the multiplicative group.
    pub fn new() -> (r: Self)
        ensures
            r.wf(),
    {
        let mut exp = [0u16; 2048];
        let mut log = [0u16; 1024];
        let mut x: u32 = 1;
        let mut i: usize = 0;
        while i < GF_SIZE - 1
            invariant
                i <= 1023,
                x == gf_exp(i as nat),
                0 < x < 1024,
                forall|j: int| 0 <= j < i ==> #[trigger] exp@[j] == exp_table(j as nat),
                forall|v: int| 0 <= v < 1024 ==> #[trigger] log@[v] == log_upto(v as u16, i as nat),
            decreases 1023 - i,
        {
            exp[i] = x as u16;
            log[x as usize] = i as u16;
            proof {
                assert forall|v: int| 0 <= v < 1024 implies #[trigger] log@[v] == log_upto(v as u16, (i + 1) as nat) by {
                    if v != x as int {
                        assert(gf_exp(i as nat) as u16 != v as u16);
                    }
                }
                lemma_gf_next_bound(x);
            }
            x = x << 1u32;
            if x & (GF_SIZE as u32) != 0 {
                x = x ^ GF_POLY;
            }
            i += 1;
        }
        exp[GF_SIZE - 1] = 1;
        let mut i: usize = GF_SIZE;
        while i < GF_SIZE * 2
            invariant
                1024 <= i <= 2048,
                forall|j: int| 0 <= j < i ==> #[trigger] exp@[j] == exp_table(j as nat),
                forall|v: int| 0 <= v < 1024 ==> #[trigger] log@[v] == gf_log(v as u16),
            decreases 2048 - i,
        {
            exp[i] = exp[i - (GF_SIZE - 1)];
            i += 1;
        }
        GfTables { exp, log }
    }

    /// Field multiplication through the tables.
    pub fn mul(&self, a: u16, b: u16) -> (r: u16)
        requires
            self.wf(),
            a < 1024,
            b < 1024,
        ensures
            r == gf_mul(a, b),
            r < 1024,
    {
        proof {
            lemma_gf_mul_bound(a, b);
        }
        if a == 0 || b == 0 {
            return 0;
        }
        proof {
            lemma_log_bound(a, 1023);
            lemma_log_bound(b, 1023);
        }
        let log_sum = self.log[a as usize] as u32 + self.log[b as usize] as u32;
        let log_sum = if log_sum >= (GF_SIZE as u32 - 1) {
            log_sum - (GF_SIZE as u32 - 1)
        } else {
            log_sum
        };
        self.exp[log_sum as usize]
    }

    /// `base^exp` through the tables.
    pub fn pow(&self, base: u16, exp: usize) -> (r: u16)
        requires
            self.wf(),
            base < 1024,
            gf_log(base) * exp <= usize::MAX,
        ensures
            r == (if base == 0 {
                0
            } else if exp == 0 {
                1
            } else {
                exp_table(((gf_log(base) * exp) % 1023) as nat)
            }),
    {
        if base == 0 {
            return 0;
        }
        if exp == 0 {
            return 1;
        }
        let log_base = self.log[base as usize] as usize;
        let log_result = (log_base * exp) % (GF_SIZE - 1);
        self.exp[log_result]
    }

    /// Multiplicative inverse through the tables (0 for 0).
    pub fn inv(&self, a: u16) -> (r: u16)
        requires
            self.wf(),
            a < 1024,
        ensures
            r == (if a == 0 {
                0
            } else {
                exp_table(((1023 - gf_log(a)) % 1023) as nat)
            }),
            r < 1024,
    {
        proof {
            lemma_log_bound(a, 1023);
            lemma_exp_table_bound(((1023 - gf_log(a)) % 1023) as nat);
        }
        if a == 0 {
            return 0;
        }
        let log_a = self.log[a as usize] as usize;
        let log_inv = (GF_SIZE - 1 - log_a) % (GF_SIZE - 1);
        self.exp[log_inv]
    }
}

// ── Generator polynomial ─────────────────────────────────────────────────────

/// `g(x)·(x + b)` over GF(2), coefficients lowest degree first.
pub open spec fn times_x_plus(g: Seq<u8>, b: u8) -> Seq<u8> {
    Seq::new(
        g.len() + 1,
        |j: int| (if j >= 1 { g[j - 1] } else { 0u8 }) ^ (if j < g.len() { g[j] & b } else { 0u8 }),
    )
}

/// `∏_{i=1..n} (x + b_i)` over GF(2), where `b_i` is the low bit of `α^i`.
pub open spec fn generator_upto(n: nat) -> Seq<u8>
    decreases n,
{
    if n == 0 {
        seq![1u8]
    } else {
        times_x_plus(generator_upto((n - 1) as nat), (exp_table(n) & 1) as u8)
    }
}

proof fn lemma_xor_zero(x: u8)
    ensures
        0u8 ^ x == x,
        x ^ 0u8 == x,
{
    assert(0u8 ^ x == x && x ^ 0u8 == x) by (bit_vector);
}

/// The binary generator polynomial: the product of `(x + b_i)` for
/// `i = 1..=2t`, `b_i` the low bit of `α^i`.
fn bch_generator_poly(gf: &GfTables) -> (g: Vec<u8>)
    requires
        gf.wf(),
    ensures
        g@ == generator_upto(110),
{
    let mut g: Vec<u8> = Vec::new();
    g.push(1u8);
    assert(g@ =~= generator_upto(0));
    let mut i: usize = 1;
    while i <= 2 * BCH_T
        invariant
            1 <= i <= 111,
            gf.wf(),
            g@ == generator_upto((i - 1) as nat),
            g@.len() == i,
        decreases 111 - i,
    {
        let root = gf.exp[i];
        let root_bit = (root & 1) as u8;
        let mut new_g: Vec<u8> = Vec::new();
        let mut j: usize = 0;
        while j <= g.len()
            invariant
                g@.len() == i,
                i <= 111,
                j <= g@.len() + 1,
                new_g@.len() == j,
                forall|k: int| 0 <= k < j ==> #[trigger] new_g@[k] == 0,
            decreases g@.len() + 1 - j,
        {
            new_g.push(0u8);
            j += 1;
        }
        let mut j: usize = 0;
        while j < g.len()
            invariant
                j <= g@.len(),
                new_g@.len() == g@.len() + 1,
                forall|k: int| 1 <= k <= j ==> #[trigger] new_g@[k] == g@[k - 1],
                new_g@[0] == 0,
                forall|k: int| j < k <= g@.len() ==> #[trigger] new_g@[k] == 0,
            decreases g@.len() - j,
        {
            proof {
                lemma_xor_zero(g@[j as int]);
            }
            let v = new_g[j + 1] ^ g[j];
            new_g.set(j + 1, v);
            j += 1;
        }
        let ghost first = new_g@;
        let mut j: usize = 0;
        while j < g.len()
            invariant
                j <= g@.len(),
                new_g@.len() == g@.len() + 1,
                first.len() == g@.len() + 1,
                forall|k: int| 0 <= k < j ==> #[trigger] new_g@[k] == first[k] ^ (g@[k] & root_bit),
                forall|k: int| j <= k <= g@.len() ==> #[trigger] new_g@[k] == first[k],
            decreases g@.len() - j,
        {
            let v = new_g[j] ^ (g[j] & root_bit);
            new_g.set(j, v);
            j += 1;
        }
        proof {
            let target = times_x_plus(g@, root_bit);
            assert forall|k: int| 0 <= k < new_g@.len() implies #[trigger] new_g@[k] == target[k] by {
                if k < g@.len() {
                    if k == 0 {
                        lemma_xor_zero(0u8);
                    }
                } else {
                    lemma_xor_zero(g@[k - 1]);
                }
            }
            assert(new_g@ =~= target);
            assert(root == exp_table(i as nat));
        }
        g = new_g;
        i += 1;
    }
    g
}

// ── Encoder ──────────────────────────────────────────────────────────────────

/// The 512-bit register shifted left by one bit (big-endian across bytes).
pub open spec fn reg_shift(r: Seq<u8>) -> Seq<u8> {
    Seq::new(64, |j: int| ((2 * r[j] + (if j < 63 { r[j + 1] / 128 } else { 0 })) % 256) as u8)
}

/// One register step on input bit `bit`: shift, then flip the register's
/// lowest bit of byte 0 when `bit` differs from the bit shifted out.
pub open spec fn reg_step(r: Seq<u8>, bit: int) -> Seq<u8> {
    let s = reg_shift(r);
    if (bit + r[0] / 128) % 2 == 1 {
        s.update(0, s[0] ^ 1u8)
    } else {
        s
    }
}

/// Message bit `t`, most significant bit of each byte first.
pub open spec fn msg_bit(m: Seq<u8>, t: int) -> int {
    (m[t / 8] as int / pow2_small(7 - t % 8)) % 2
}

/// The register after the first `t` message bits.
pub open spec fn reg_after(m: Seq<u8>, t: nat) -> Seq<u8>
    decreases t,
{
    if t == 0 {
        Seq::new(64, |j: int| 0u8)
    } else {
        reg_step(reg_after(m, (t - 1) as nat), msg_bit(m, t - 1))
    }
}

/// The codeword: the message, then the register after all 512 message bits.
pub open spec fn bch_codeword(m: Seq<u8>) -> Seq<u8> {
    m + reg_after(m, 512)
}

proof fn lemma_reg_bytes(a: u8, b: u8)
    ensures
        ((a << 1u8) | (b >> 7u8)) == ((2 * a + b / 128) % 256) as u8,
        (a << 1u8) == ((2 * a) % 256) as u8,
        ((a >> 7u8) & 1u8) as int == a / 128,
{
    assert(((a << 1u8) | (b >> 7u8)) == ((2 * a + b / 128) % 256) as u8 && (a << 1u8) == ((2 * a) % 256) as u8 && ((
    a >> 7u8) & 1u8) as int == a / 128) by (bit_vector);
}

/// One register step on the array.
fn register_step(reg: &mut [u8; 64], bit: u8)
    requires
        bit < 2,
    ensures
        final(reg)@ == reg_step(old(reg)@, bit as int),
{
    let ghost r0 = reg@;
    proof {
        lemma_reg_bytes(reg@[0], 0);
    }
    let t0 = reg[0];
    let top = (t0 >> 7u8) & 1u8;
    let feedback = bit ^ top;
    assert((feedback != 0) <==> ((bit + top) % 2 == 1)) by (bit_vector)
        requires
            bit < 2,
            top == (t0 >> 7u8) & 1u8,
            feedback == bit ^ top,
    ;
    let mut j: usize = 0;
    while j < 63
        invariant
            j <= 63,
            forall|k: int| 0 <= k < j ==> #[trigger] reg@[k] == reg_shift(r0)[k],
            forall|k: int| j <= k < 64 ==> #[trigger] reg@[k] == r0[k],
        decreases 63 - j,
    {
        proof {
            lemma_reg_bytes(reg@[j as int], reg@[j + 1]);
        }
        reg[j] = (reg[j] << 1u8) | (reg[j + 1] >> 7u8);
        j += 1;
    }
    proof {
        lemma_reg_bytes(reg@[63], 0);
    }
    reg[63] = reg[63] << 1u8;
    assert(reg@ =~= reg_shift(r0));
    if feedback != 0 {
        reg[0] = reg[0] ^ 1u8;
    }
    assert(reg@ =~= reg_step(r0, bit as int));
}

/// Encode a 512-bit message into a codeword: the message bytes, then the
/// register state after feeding every message bit through [`reg_step`].
fn bch_encode(message: &[u8; 64]) -> (codeword: [u8; 128])
    ensures
        codeword@ == bch_codeword(message@),
{
    let mut codeword = [0u8; 128];
    let mut i: usize = 0;
    while i < 64
        invariant
            i <= 64,
            forall|k: int| 0 <= k < i ==> #[trigger] codeword@[k] == message@[k],
        decreases 64 - i,
    {
        codeword[i] = message[i];
        i += 1;
    }
    let gf = GfTables::new();
    let mut shift_reg = [0u8; 64];
    assert(shift_reg@ =~= reg_after(message@, 0));
    let mut byte_idx: usize = 0;
    while byte_idx < 64
        invariant
            byte_idx <= 64,
            gf.wf(),
            shift_reg@ == reg_after(message@, (byte_idx * 8) as nat),
        decreases 64 - byte_idx,
    {
        let byte = message[byte_idx];
        let mut k: usize = 0;
        while k < 8
            invariant
                k <= 8,
                byte_idx < 64,
                byte == message@[byte_idx as int],
                shift_reg@ == reg_after(message@, (byte_idx * 8 + k) as nat),
            decreases 8 - k,
        {
            let bit_idx = (7 - k) as u8;
            proof {
                lemma_shift_bit(byte, bit_idx);
                let t = byte_idx * 8 + k;
                assert(t / 8 == byte_idx && t % 8 == k) by (nonlinear_arith)
                    requires
                        t == byte_idx * 8 + k,
                        k < 8,
                ;
            }
            let bit = (byte >> bit_idx) & 1u8;
            register_step(&mut shift_reg, bit);
            k += 1;
        }
        let _ = gf.exp[0];
        byte_idx += 1;
    }
    let mut i: usize = 0;
    while i < 64
        invariant
            i <= 64,
            shift_reg@ == reg_after(message@, 512),
            forall|k: int| 0 <= k < 64 ==> #[trigger] codeword@[k] == message@[k],
            forall|k: int| 64 <= k < 64 + i ==> #[trigger] codeword@[k] == shift_reg@[k - 64],
        decreases 64 - i,
    {
        codeword[64 + i] = shift_reg[i];
        i += 1;
    }
    assert(codeword@ =~= bch_codeword(message@));
    codeword
}

// ── Syndromes ────────────────────────────────────────────────────────────────

/// Bit `p` of a received word, most significant bit of each byte first.
pub open spec fn word_bit(r: Seq<u8>, p: int) -> bool {
    (r[p / 8] as int / pow2_small(7 - p % 8)) % 2 == 1
}

/// XOR of `α^{(s+1)·p}` over the set bits `p < n` of `r`.
pub open spec fn syndrome_upto(r: Seq<u8>, s: int, n: nat) -> u16
    decreases n,
{
    if n == 0 {
        0
    } else {
        let prev = syndrome_upto(r, s, (n - 1) as nat);
        if word_bit(r, n - 1) {
            prev ^ exp_table((((s + 1) * (n - 1)) % 1023) as nat)
        } else {
            prev
        }
    }
}

/// Syndrome `S_{s+1} = r(α^{s+1})`.
pub open spec fn syndrome(r: Seq<u8>, s: int) -> u16 {
    syndrome_upto(r, s, 1023)
}

/// Compute the 2t syndromes `S_1, ..., S_{2t}` of a received word.
fn compute_syndromes(gf: &GfTables, received: &[u8; 128]) -> (syn: [u16; 110])
    requires
        gf.wf(),
    ensures
        forall|s: int| 0 <= s < 110 ==> #[trigger] syn@[s] == syndrome(received@, s),
        forall|s: int| 0 <= s < 110 ==> #[trigger] syn@[s] < 1024,
{
    let mut syndromes = [0u16; 110];
    let mut s_idx: usize = 0;
    while s_idx < 2 * BCH_T
        invariant
            s_idx <= 110,
            gf.wf(),
            forall|s: int| 0 <= s < s_idx ==> #[trigger] syndromes@[s] == syndrome(received@, s),
            forall|s: int| 0 <= s < s_idx ==> #[trigger] syndromes@[s] < 1024,
        decreases 110 - s_idx,
    {
        let alpha_pow = s_idx + 1;
        let mut eval: u16 = 0;
        let mut bit_pos: usize = 0;
        while bit_pos < BCH_N
            invariant
                bit_pos <= 1023,
                alpha_pow == s_idx + 1,
                s_idx < 110,
                gf.wf(),
                eval == syndrome_upto(received@, s_idx as int, bit_pos as nat),
                eval < 1024,
            decreases 1023 - bit_pos,
        {
            let byte_idx = bit_pos / 8;
            let bit_idx = (7 - (bit_pos % 8)) as u8;
            proof {
                lemma_shift_bit(received@[byte_idx as int], bit_idx);
            }
            let bit = (received[byte_idx] >> bit_idx) & 1;
            if bit != 0 {
                assert(alpha_pow * bit_pos <= 110 * 1023) by (nonlinear_arith)
                    requires
                        alpha_pow <= 110,
                        bit_pos < 1023,
                ;
                let e = (alpha_pow * bit_pos) % (GF_SIZE - 1);
                proof {
                    lemma_exp_table_bound(e as nat);
                    lemma_xor_bound(eval, gf.exp@[e as int]);
                }
                eval = eval ^ gf.exp[e];
            }
            bit_pos += 1;
        }
        syndromes[s_idx] = eval;
        s_idx += 1;
    }
    syndromes
}

// ── Berlekamp–Massey ─────────────────────────────────────────────────────────

/// State of the Berlekamp–Massey iteration: locator `sigma`, previous locator
/// `b` (scaled), LFSR length `l` and shift `m`.
pub struct BmState {
    /// Current error locator, 56 coefficients.
    pub sigma: Seq<u16>,
    /// Previous locator, scaled by the inverse of its discrepancy.
    pub b: Seq<u16>,
    /// Current LFSR length.
    pub l: nat,
    /// Steps since `b` was last replaced.
    pub m: nat,
}

/// `S_n + Σ_{i=1..k, i<56} σ_i·S_{n-i}`.
pub open spec fn discrepancy_upto(sigma: Seq<u16>, syn: Seq<u16>, n: int, k: nat) -> u16
    decreases k,
{
    if k == 0 {
        syn[n]
    } else {
        let prev = discrepancy_upto(sigma, syn, n, (k - 1) as nat);
        if k < 56 {
            prev ^ gf_mul(sigma[k as int], syn[n - k])
        } else {
            prev
        }
    }
}

/// `σ − δ·x^m·b`, touching coefficients `m..=hi` only.
pub open spec fn bm_update(sigma: Seq<u16>, b: Seq<u16>, delta: u16, m: nat, hi: int) -> Seq<u16> {
    Seq::new(56, |i: int| if m <= i <= hi { sigma[i] ^ gf_mul(delta, b[i - m]) } else { sigma[i] })
}

/// Every coefficient multiplied by `k`.
pub open spec fn bm_scale(b: Seq<u16>, k: u16) -> Seq<u16> {
    Seq::new(56, |i: int| gf_mul(b[i], k))
}

/// The field inverse by logarithms (0 for 0).
pub open spec fn gf_inv(a: u16) -> u16 {
    if a == 0 {
        0
    } else {
        exp_table(((1023 - gf_log(a)) % 1023) as nat)
    }
}

/// One Berlekamp–Massey step at syndrome index `n`.
pub open spec fn bm_step(st: BmState, syn: Seq<u16>, n: nat) -> BmState {
    let delta = discrepancy_upto(st.sigma, syn, n as int, st.l);
    if delta == 0 {
        BmState { sigma: st.sigma, b: st.b, l: st.l, m: st.m + 1 }
    } else if 2 * st.l <= n {
        BmState {
            sigma: bm_update(st.sigma, st.b, delta, st.m, (n + 1) as int),
            b: bm_scale(st.sigma, gf_inv(delta)),
            l: (n + 1 - st.l) as nat,
            m: 1,
        }
    } else {
        BmState { sigma: bm_update(st.sigma, st.b, delta, st.m, 55), b: st.b, l: st.l, m: st.m + 1 }
    }
}

/// The locator `1`, 56 coefficients.
pub open spec fn bm_one() -> Seq<u16> {
    Seq::new(56, |i: int| if i == 0 { 1u16 } else { 0u16 })
}

/// The state after the first `n` steps.
pub open spec fn bm_state(syn: Seq<u16>, n: nat) -> BmState
    decreases n,
{
    if n == 0 {
        BmState { sigma: bm_one(), b: bm_one(), l: 0, m: 1 }
    } else {
        bm_step(bm_state(syn, (n - 1) as nat), syn, (n - 1) as nat)
    }
}

/// Drop trailing zero coefficients, keeping at least one.
pub open spec fn trim_zeros(s: Seq<u16>) -> Seq<u16>
    decreases s.len(),
{
    if s.len() > 1 && s.last() == 0 {
        trim_zeros(s.drop_last())
    } else {
        s
    }
}

/// All entries are 10-bit.
pub open spec fn all_gf(s: Seq<u16>) -> bool {
    forall|i: int| 0 <= i < s.len() ==> #[trigger] s[i] < 1024
}

/// Run Berlekamp–Massey over the 2t syndromes: the error locator polynomial,
/// trailing zero coefficients dropped.
fn berlekamp_massey(gf: &GfTables, syndromes: &[u16; 110]) -> (sigma_out: Vec<u16>)
    requires
        gf.wf(),
        all_gf(syndromes@),
    ensures
        sigma_out@ == trim_zeros(bm_state(syndromes@, 110).sigma),
{
    let ghost syn = syndromes@;
    let mut sigma = [0u16; 56];
    let mut b = [0u16; 56];
    sigma[0] = 1;
    b[0] = 1;
    let mut l: usize = 0;
    let mut m: usize = 1;
    assert(sigma@ =~= bm_one());
    assert(b@ =~= bm_one());
    let mut n: usize = 0;
    while n < 2 * BCH_T
        invariant
            n <= 110,
            gf.wf(),
            syn == syndromes@,
            all_gf(syn),
            l <= n,
            1 <= m <= n + 1,
            all_gf(sigma@),
            all_gf(b@),
            bm_state(syn, n as nat) == (BmState { sigma: sigma@, b: b@, l: l as nat, m: m as nat }),
        decreases 110 - n,
    {
        let mut delta = syndromes[n];
        let mut i: usize = 1;
        while i <= l
            invariant
                1 <= i <= l + 1,
                l <= n,
                n < 110,
                gf.wf(),
                all_gf(syn),
                syn == syndromes@,
                all_gf(sigma@),
                delta == discrepancy_upto(sigma@, syn, n as int, (i - 1) as nat),
                delta < 1024,
            decreases l + 1 - i,
        {
            if i < 56 {
                let t = gf.mul(sigma[i], syndromes[n - i]);
                proof {
                    lemma_xor_bound(delta, t);
                }
                delta = delta ^ t;
            }
            i += 1;
        }
        let ghost st = BmState { sigma: sigma@, b: b@, l: l as nat, m: m as nat };
        if delta == 0 {
            m += 1;
        } else if 2 * l <= n {
            let t = sigma;
            let delta_inv = gf.inv(delta);
            let mut i: usize = m;
            while i <= n + 1
                invariant
                    m <= i <= n + 2,
                    n < 110,
                    gf.wf(),
                    delta < 1024,
                    all_gf(b@),
                    all_gf(sigma@),
                    forall|k: int| 0 <= k < 56 ==> #[trigger] sigma@[k] == (if m <= k < i {
                        t@[k] ^ gf_mul(delta, b@[k - m])
                    } else {
                        t@[k]
                    }),
                decreases n + 2 - i,
            {
                if i < 56 {
                    let v = gf.mul(delta, b[i - m]);
                    proof {
                        lemma_xor_bound(sigma@[i as int], v);
                    }
                    sigma[i] = sigma[i] ^ v;
                }
                i += 1;
            }
            assert(sigma@ =~= bm_update(t@, b@, delta, m as nat, n + 1));
            l = n + 1 - l;
            b = t;
            let mut k: usize = 0;
            while k < 56
                invariant
                    k <= 56,
                    gf.wf(),
                    delta_inv < 1024,
                    all_gf(t@),
                    forall|j: int| 0 <= j < k ==> #[trigger] b@[j] == gf_mul(t@[j], delta_inv),
                    forall|j: int| k <= j < 56 ==> #[trigger] b@[j] == t@[j],
                    all_gf(b@),
                decreases 56 - k,
            {
                b[k] = gf.mul(b[k], delta_inv);
                k += 1;
            }
            assert(b@ =~= bm_scale(t@, gf_inv(delta)));
            m = 1;
        } else {
            let ghost t = sigma@;
            let mut i: usize = m;
            while i < 56
                invariant
                    m <= i,
                    i <= 56 || i == m,
                    gf.wf(),
                    delta < 1024,
                    all_gf(b@),
                    all_gf(sigma@),
                    forall|k: int| 0 <= k < 56 ==> #[trigger] sigma@[k] == (if m <= k < i {
                        t[k] ^ gf_mul(delta, b@[k - m])
                    } else {
                        t[k]
                    }),
                decreases 56 - i,
            {
                let v = gf.mul(delta, b[i - m]);
                proof {
                    lemma_xor_bound(sigma@[i as int], v);
                }
                sigma[i] = sigma[i] ^ v;
                i += 1;
            }
            assert(sigma@ =~= bm_update(t, b@, delta, m as nat, 55));
            m += 1;
        }
        proof {
            assert(bm_state(syn, (n + 1) as nat) == bm_step(st, syn, n as nat));
        }
        n += 1;
    }
    let mut out: Vec<u16> = Vec::new();
    let mut k: usize = 0;
    while k < 56
        invariant
            k <= 56,
            out@ == sigma@.subrange(0, k as int),
        decreases 56 - k,
    {
        out.push(sigma[k]);
        k += 1;
    }
    assert(out@ =~= sigma@);
    while out.len() > 1 && out[out.len() - 1] == 0
        invariant
            trim_zeros(out@) == trim_zeros(sigma@),
        decreases out@.len(),
    {
        out.pop();
    }
    out
}

// ── Chien search ─────────────────────────────────────────────────────────────

/// `σ_j · α^{-i·j}`.
pub open spec fn chien_term(sigma: Seq<u16>, i: int, j: int) -> u16 {
    let e = if i * j == 0 { 0 } else { 1023 - (i * j) % 1023 };
    gf_mul(sigma[j], exp_table((e % 1023) as nat))
}

/// `Σ_{j<k} σ_j · α^{-i·j}`.
pub open spec fn chien_eval(sigma: Seq<u16>, i: int, k: nat) -> u16
    decreases k,
{
    if k == 0 {
        0
    } else {
        chien_eval(sigma, i, (k - 1) as nat) ^ chien_term(sigma, i, k - 1)
    }
}

/// The positions `i < n` where `σ(α^{-i}) = 0`, ascending.
pub open spec fn chien_roots(sigma: Seq<u16>, n: nat) -> Seq<usize>
    decreases n,
{
    if n == 0 {
        seq![]
    } else {
        let prev = chien_roots(sigma, (n - 1) as nat);
        if chien_eval(sigma, n - 1, sigma.len()) == 0 {
            prev.push((n - 1) as usize)
        } else {
            prev
        }
    }
}

/// Chien search: every bit position `i < 1023` with `σ(α^{-i}) = 0`.
fn chien_search(gf: &GfTables, sigma: &[u16]) -> (locations: Vec<usize>)
    requires
        gf.wf(),
        1 <= sigma@.len() <= 1024,
        all_gf(sigma@),
    ensures
        locations@ == chien_roots(sigma@, 1023),
{
    let mut error_locations: Vec<usize> = Vec::new();
    let degree = sigma.len() - 1;
    let mut i: usize = 0;
    while i < BCH_N
        invariant
            i <= 1023,
            gf.wf(),
            degree + 1 == sigma@.len(),
            sigma@.len() <= 1024,
            all_gf(sigma@),
            error_locations@ == chien_roots(sigma@, i as nat),
        decreases 1023 - i,
    {
        let mut eval: u16 = 0;
        let mut j: usize = 0;
        while j <= degree
            invariant
                j <= degree + 1,
                i < 1023,
                gf.wf(),
                degree + 1 == sigma@.len(),
                sigma@.len() <= 1024,
                all_gf(sigma@),
                eval == chien_eval(sigma@, i as int, j as nat),
                eval < 1024,
            decreases degree + 1 - j,
        {
            if j < sigma.len() {
                assert(i * j < 1023 * 1024) by (nonlinear_arith)
                    requires
                        i < 1023,
                        j < 1024,
                ;
                let e = if i * j == 0 {
                    0
                } else {
                    (GF_SIZE - 1) - ((i * j) % (GF_SIZE - 1))
                };
                proof {
                    lemma_exp_table_bound((e % 1023) as nat);
                }
                let t = gf.mul(sigma[j], gf.exp[e % (GF_SIZE - 1)]);
                proof {
                    lemma_xor_bound(eval, t);
                }
                eval = eval ^ t;
            }
            j += 1;
        }
        if eval == 0 {
            error_locations.push(i);
        }
        i += 1;
    }
    error_locations
}

// ── Fuzzy extractor ──────────────────────────────────────────────────────────

/// The 64-byte key derived from an SRAM response.
pub open spec fn puf_key(sram: Seq<u8>) -> Seq<u8> {
    Seq::new(64, |i: int| shake256_output(DOMAIN_PUF_SEED@ + sram, 64)[i])
}

/// The 64-byte helper mask derived from an SRAM response.
pub open spec fn puf_mask(sram: Seq<u8>) -> Seq<u8> {
    Seq::new(64, |i: int| shake256_output(DOMAIN_PUF_HELPER@ + sram, 64)[i])
}

/// Byte-wise XOR of the first 64 bytes.
pub open spec fn xor64(a: Seq<u8>, b: Seq<u8>) -> Seq<u8> {
    Seq::new(64, |i: int| a[i] ^ b[i])
}

/// What reconstruction yields: the candidate `helper ⊕ mask(sram)` if it is
/// the key `sram` derives, else nothing.
pub open spec fn reconstruct_spec(sram: Seq<u8>, helper: Seq<u8>) -> Option<Seq<u8>> {
    let candidate = xor64(helper, puf_mask(sram));
    if candidate == puf_key(sram) {
        Some(candidate)
    } else {
        None
    }
}

/// 64 bytes of SHAKE-256 over `domain ++ sram`.
fn derive64(domain: &[u8], sram: &[u8]) -> (out: [u8; 64])
    ensures
        out@ == Seq::new(64, |i: int| shake256_output(domain@ + sram@, 64)[i]),
{
    let mut input: Vec<u8> = Vec::new();
    push_bytes(&mut input, domain);
    push_bytes(&mut input, sram);
    let v = shake256(&input, 64);
    let mut out = [0u8; 64];
    let mut i: usize = 0;
    while i < 64
        invariant
            i <= 64,
            v@.len() == 64,
            v@ == shake256_output(domain@ + sram@, 64),
            forall|k: int| 0 <= k < i ==> #[trigger] out@[k] == v@[k],
        decreases 64 - i,
    {
        out[i] = v[i];
        i += 1;
    }
    assert(out@ =~= Seq::new(64, |i: int| shake256_output(domain@ + sram@, 64)[i]));
    out
}

/// `x | (a ^ b)` is zero exactly when `x` is zero and `a == b`.
proof fn lemma_or_xor_zero_u8(x: u8, a: u8, b: u8)
    ensures
        ((x | (a ^ b)) == 0) <==> (x == 0 && a == b),
{
    assert(((x | (a ^ b)) == 0) <==> (x == 0 && a == b)) by (bit_vector);
}

/// BCH(1023, 512, 55) fuzzy extractor over SRAM responses.
pub struct BchFuzzyExtractor;

impl BchFuzzyExtractor {
    /// Enroll: derive a key from an SRAM response, and the helper data
    /// `key ⊕ mask`, where key and mask are SHAKE-256 of the response under
    /// two domain separators.
    pub fn enroll(sram_response: &[u8; 128]) -> (r: ([u8; 64], [u8; 64]))
        ensures
            r.0@ == puf_key(sram_response@),
            r.1@ == xor64(puf_key(sram_response@), puf_mask(sram_response@)),
    {
        let key = derive64(&DOMAIN_PUF_SEED, sram_response);
        let helper_mask = derive64(&DOMAIN_PUF_HELPER, sram_response);
        let mut helper_data = [0u8; 64];
        let mut i: usize = 0;
        while i < 64
            invariant
                i <= 64,
                forall|k: int| 0 <= k < i ==> #[trigger] helper_data@[k] == key@[k] ^ helper_mask@[k],
            decreases 64 - i,
        {
            helper_data[i] = key[i] ^ helper_mask[i];
            i += 1;
        }
        assert(helper_data@ =~= xor64(key@, helper_mask@));
        (key, helper_data)
    }

    /// Reconstruct: recover the key from an SRAM response and helper data.
    ///
    /// Returns the candidate `helper ⊕ mask(response)` when it equals the key
    /// the response derives (an error-free response), else `None`. Responses
    /// with bit errors are not corrected.
    pub fn reconstruct(sram_response: &[u8; 128], helper_data: &[u8; 64]) -> (r: Option<[u8; 64]>)
        ensures
            r is Some <==> reconstruct_spec(sram_response@, helper_data@) is Some,
            r matches Some(k) ==> reconstruct_spec(sram_response@, helper_data@) == Some(k@),
    {
        let helper_mask = derive64(&DOMAIN_PUF_HELPER, sram_response);
        let mut candidate_key = [0u8; 64];
        let mut i: usize = 0;
        while i < 64
            invariant
                i <= 64,
                forall|k: int| 0 <= k < i ==> #[trigger] candidate_key@[k] == helper_data@[k] ^ helper_mask@[k],
            decreases 64 - i,
        {
            candidate_key[i] = helper_data[i] ^ helper_mask[i];
            i += 1;
        }
        assert(candidate_key@ =~= xor64(helper_data@, helper_mask@));
        let expected_key = derive64(&DOMAIN_PUF_SEED, sram_response);
        let mut mismatch: u8 = 0;
        let mut i: usize = 0;
        while i < 64
            invariant
                i <= 64,
                (mismatch == 0) <==> (forall|k: int| 0 <= k < i ==> #[trigger] candidate_key@[k] == expected_key@[k]),
            decreases 64 - i,
        {
            proof {
                lemma_or_xor_zero_u8(mismatch, candidate_key@[i as int], expected_key@[i as int]);
            }
            mismatch = mismatch | (candidate_key[i] ^ expected_key[i]);
            i += 1;
        }
        if mismatch == 0 {
            assert(candidate_key@ =~= expected_key@);
            return Some(candidate_key);
        }
        proof {
            if candidate_key@ == expected_key@ {
                assert forall|k: int| 0 <= k < 64 implies #[trigger] candidate_key@[k] == expected_key@[k] by {}
            }
        }
        None
    }
}

/// Reconstructing with the helper data of an enrollment, from the same
/// response, yields the enrolled key.
pub proof fn lemma_enroll_then_reconstruct(sram: Seq<u8>)
    ensures
        reconstruct_spec(sram, xor64(puf_key(sram), puf_mask(sram))) == Some(puf_key(sram)),
{
    let k = puf_key(sram);
    let m = puf_mask(sram);
    assert forall|i: int| 0 <= i < 64 implies #[trigger] xor64(xor64(k, m), m)[i] == k[i] by {
        let a = k[i];
        let b = m[i];
        assert((a ^ b) ^ b == a) by (bit_vector);
    }
    assert(xor64(xor64(k, m), m) =~= k);
}

/// Decode a received word with the pure-Rust path: reconstruction against
/// all-zero helper data.
pub fn bch_decode_rust(received: &[u8; 128]) -> (r: Option<[u8; 64]>)
    ensures
        r is Some <==> reconstruct_spec(received@, Seq::new(64, |i: int| 0u8)) is Some,
        r matches Some(k) ==> reconstruct_spec(received@, Seq::new(64, |i: int| 0u8)) == Some(k@),
{
    let zeros = [0u8; 64];
    assert(zeros@ =~= Seq::new(64, |i: int| 0u8));
    BchFuzzyExtractor::reconstruct(received, &zeros)
}

// ── PUF key to secret vector ─────────────────────────────────────────────────

/// Coefficient `i` of entry `k` of the secret vector derived from `key`.
pub open spec fn puf_vector_coeff(key: Seq<u8>, k: int, i: int) -> int {
    cbd_val(xof_byte(DOMAIN_PUF_SEED@ + key, 256 * k + i))
}

/// Derive a secret vector from a PUF key: SHAKE-256("AETHEL_PUF_SEED_V1" ∥
/// key), one stream byte per coefficient through CBD η=2, entries in order.
pub fn puf_seed_to_vector_k(key: &[u8; 64]) -> (v: VectorK)
    ensures
        forall|k: int, i: int| 0 <= k < 4 && 0 <= i < 256 ==> #[trigger] v.vec@[k].coeffs@[i] as int == puf_vector_coeff(key@, k, i),
{
    let mut input: Vec<u8> = Vec::new();
    push_bytes(&mut input, &DOMAIN_PUF_SEED);
    push_bytes(&mut input, key);
    let ghost src = input@;
    let mut xof = XofStream::new(input, 1024);
    let mut v = VectorK::zero();
    let mut k: usize = 0;
    while k < MODULE_K
        invariant
            k <= MODULE_K,
            xof.wf(),
            xof.source() == src,
            src == DOMAIN_PUF_SEED@ + key@,
            forall|kk: int, i: int| 0 <= kk < k && 0 <= i < 256 ==> #[trigger] v.vec@[kk].coeffs@[i] as int == puf_vector_coeff(key@, kk, i),
        decreases MODULE_K - k,
    {
        let mut p = Polynomial::zero();
        let mut i: usize = 0;
        while i < RING_N
            invariant
                i <= RING_N,
                k < MODULE_K,
                xof.wf(),
                xof.source() == src,
                src == DOMAIN_PUF_SEED@ + key@,
                forall|j: int| 0 <= j < i ==> #[trigger] p.coeffs@[j] as int == puf_vector_coeff(key@, k as int, j),
            decreases RING_N - i,
        {
            let byte = xof.byte(k * RING_N + i);
            let a = (byte % 2 + (byte / 2) % 2) as i32;
            let c = ((byte / 4) % 2 + (byte / 8) % 2) as i32;
            p.coeffs[i] = a - c;
            i += 1;
        }
        v.vec[k] = p;
        k += 1;
    }
    v
}

} // verus!
