//! The number-theoretic transform as mathematics: the discrete Fourier
//! transforms that the in-place butterflies of the NTT compute, and the facts
//! about powers of a root of unity modulo `q` that make them correct.

use vstd::arithmetic::div_mod::{lemma_add_mod_noop, lemma_mod_twice, lemma_mul_mod_noop_general, lemma_sub_mod_noop};
use vstd::arithmetic::power::{lemma_pow_adds, lemma_pow_mod_noop, lemma_pow_multiplies, pow};
use vstd::arithmetic::power2::pow2;
use vstd::prelude::*;

use crate::plp::{poly_mul_spec, rev_bits};
use crate::ring::{ext, pmul, pmul_term, lemma_sum_add, lemma_sum_ext, lemma_sum_scale, lemma_sum_shift, q_int, range_sum, u32s_to_ints};

verus! {

// ── Sums modulo q ────────────────────────────────────────────────────────────

/// Sums of congruent terms are congruent.
pub proof fn lemma_sum_cong(f: spec_fn(int) -> int, g: spec_fn(int) -> int, lo: int, n: nat)
    requires
        forall|x: int| lo <= x < lo + n ==> #[trigger] (f(x) % q_int()) == g(x) % q_int(),
    ensures
        range_sum(f, lo, n) % q_int() == range_sum(g, lo, n) % q_int(),
    decreases n,
{
    if n > 0 {
        let n1 = (n - 1) as nat;
        lemma_sum_cong(f, g, lo, n1);
        let x = lo + n1;
        assert(f(x) % q_int() == g(x) % q_int());
        lemma_add_mod_noop(range_sum(f, lo, n1), f(x), q_int());
        lemma_add_mod_noop(range_sum(g, lo, n1), g(x), q_int());
    }
}

/// The even-indexed terms of `f`.
pub open spec fn evens(f: spec_fn(int) -> int) -> spec_fn(int) -> int {
    |u: int| f(2 * u)
}

/// The odd-indexed terms of `f`.
pub open spec fn odds(f: spec_fn(int) -> int) -> spec_fn(int) -> int {
    |u: int| f(2 * u + 1)
}

/// A sum over `[0, 2l)` is the sum of its even terms plus the sum of its odd
/// terms.
pub proof fn lemma_sum_even_odd(f: spec_fn(int) -> int, l: nat)
    ensures
        range_sum(f, 0, 2 * l) == range_sum(evens(f), 0, l) + range_sum(odds(f), 0, l),
    decreases l,
{
    if l > 0 {
        let l1 = (l - 1) as nat;
        lemma_sum_even_odd(f, l1);
        assert(range_sum(f, 0, 2 * l) == range_sum(f, 0, (2 * l - 1) as nat) + f(2 * l - 1));
        assert(range_sum(f, 0, (2 * l - 1) as nat) == range_sum(f, 0, 2 * l1) + f(2 * l1 as int));
        assert(evens(f)(l1 as int) == f(2 * l1 as int));
        assert(odds(f)(l1 as int) == f(2 * l1 as int + 1));
    }
}

// ── Powers of a root of unity ────────────────────────────────────────────────

/// `root^128 ≡ −1 (mod q)`: the root has order 256.
pub open spec fn half_turn(root: int) -> bool {
    pow(root, 128) % q_int() == q_int() - 1
}

/// A root with `root^128 ≡ −1` has `root^(256·u) ≡ 1`.
pub proof fn lemma_full_turn(root: int, u: nat)
    requires
        half_turn(root),
    ensures
        pow(root, 256 * u) % q_int() == 1,
{
    lemma_pow_adds(root, 128, 128);
    let h = pow(root, 128);
    lemma_mul_mod_noop_general(h, h, q_int());
    assert((q_int() - 1) * (q_int() - 1) % q_int() == 1);
    assert(pow(root, 256) % q_int() == 1);
    lemma_pow_multiplies(root, 256, u);
    lemma_pow_mod_noop(pow(root, 256), u, q_int());
    vstd::arithmetic::power::lemma1_pow(u);
}

// ── The DFT of a strided subsequence ─────────────────────────────────────────

/// Term `u` of coefficient `k` of the size-`m` DFT of the subsequence
/// `x[c], x[c + 256/m], x[c + 2·256/m], …` with root `root^(256/m)`.
pub open spec fn dft_term(x: Seq<int>, root: int, m: int, c: int, k: int) -> spec_fn(int) -> int {
    |u: int| x[c + (256int / m) * u] * pow(root, ((256int / m) * u * k) as nat)
}

/// Coefficient `k` of that DFT, unreduced.
pub open spec fn dft(x: Seq<int>, root: int, m: int, c: int, k: int) -> int {
    range_sum(dft_term(x, root, m, c, k), 0, m as nat)
}

/// A block length of the butterfly stages.
pub open spec fn stage_len(l: int) -> bool {
    l == 1 || l == 2 || l == 4 || l == 8 || l == 16 || l == 32 || l == 64 || l == 128
}

pub proof fn lemma_stage_len(l: int)
    requires
        stage_len(l),
    ensures
        (256int / (2 * l)) * 2 == 256int / l,
        (256int / (2 * l)) * l == 128,
        256int / (2 * l) >= 1,
{
    if l == 1 {
        assert(256int / (2 * l) == 128 && 256int / l == 256) by (nonlinear_arith)
            requires
                l == 1,
        ;
    } else if l == 2 {
        assert(256int / (2 * l) == 64 && 256int / l == 128) by (nonlinear_arith)
            requires
                l == 2,
        ;
    } else if l == 4 {
        assert(256int / (2 * l) == 32 && 256int / l == 64) by (nonlinear_arith)
            requires
                l == 4,
        ;
    } else if l == 8 {
        assert(256int / (2 * l) == 16 && 256int / l == 32) by (nonlinear_arith)
            requires
                l == 8,
        ;
    } else if l == 16 {
        assert(256int / (2 * l) == 8 && 256int / l == 16) by (nonlinear_arith)
            requires
                l == 16,
        ;
    } else if l == 32 {
        assert(256int / (2 * l) == 4 && 256int / l == 8) by (nonlinear_arith)
            requires
                l == 32,
        ;
    } else if l == 64 {
        assert(256int / (2 * l) == 2 && 256int / l == 4) by (nonlinear_arith)
            requires
                l == 64,
        ;
    } else if l == 128 {
        assert(256int / (2 * l) == 1 && 256int / l == 2) by (nonlinear_arith)
            requires
                l == 128,
        ;
    }
}

/// One butterfly: the size-`2l` DFT at offset `c` from the size-`l` DFTs at
/// offsets `c` and `c + 256/(2l)`.
pub proof fn lemma_butterfly(x: Seq<int>, root: int, l: int, c: int, j: int)
    requires
        stage_len(l),
        half_turn(root),
        0 <= j < l,
    ensures
        dft(x, root, 2 * l, c, j) % q_int() == (dft(x, root, l, c, j) + pow(root, ((256int / (2 * l)) * j) as nat)
            * dft(x, root, l, c + 256int / (2 * l), j)) % q_int(),
        dft(x, root, 2 * l, c, j + l) % q_int() == (dft(x, root, l, c, j) - pow(root, ((256int / (2 * l)) * j) as nat)
            * dft(x, root, l, c + 256int / (2 * l), j)) % q_int(),
{
    lemma_stage_len(l);
    let d = 256int / (2 * l);
    let p = pow(root, (d * j) as nat);
    let e_part = dft_term(x, root, l, c, j);
    let o_part = dft_term(x, root, l, c + d, j);
    let ev = dft(x, root, l, c, j);
    let od = dft(x, root, l, c + d, j);
    // k = j
    let f = dft_term(x, root, 2 * l, c, j);
    lemma_sum_even_odd(f, l as nat);
    assert forall|u: int| 0 <= u < l implies #[trigger] evens(f)(u) == e_part(u) by {
        assert(d * (2 * u) == (256int / l) * u) by (nonlinear_arith)
            requires
                d * 2 == 256int / l,
        ;
        assert(d * (2 * u) * j == (256int / l) * u * j) by (nonlinear_arith)
            requires
                d * (2 * u) == (256int / l) * u,
        ;
    }
    lemma_sum_ext(evens(f), e_part, 0, l as nat);
    let o_scaled = |u: int| p * o_part(u);
    assert forall|u: int| 0 <= u < l implies #[trigger] odds(f)(u) == o_scaled(u) by {
        assert(d * (2 * u + 1) == (256int / l) * u + d) by (nonlinear_arith)
            requires
                d * 2 == 256int / l,
        ;
        assert(d * (2 * u + 1) * j == (256int / l) * u * j + d * j) by (nonlinear_arith)
            requires
                d * (2 * u + 1) == (256int / l) * u + d,
        ;
        assert((256int / l) * u * j >= 0) by (nonlinear_arith)
            requires
                u >= 0,
                j >= 0,
                256int / l >= 0,
        ;
        assert(d * j >= 0) by (nonlinear_arith)
            requires
                d >= 0,
                j >= 0,
        ;
        lemma_pow_adds(root, ((256int / l) * u * j) as nat, (d * j) as nat);
        let xv = x[c + d + (256int / l) * u];
        let a = pow(root, ((256int / l) * u * j) as nat);
        assert(xv * (a * p) == p * (xv * a)) by (nonlinear_arith);
        assert(c + d * (2 * u + 1) == c + d + (256int / l) * u);
    }
    lemma_sum_ext(odds(f), o_scaled, 0, l as nat);
    lemma_sum_scale(o_part, o_scaled, p, 0, l as nat);
    // k = j + l
    let g = dft_term(x, root, 2 * l, c, j + l);
    lemma_sum_even_odd(g, l as nat);
    assert forall|u: int| 0 <= u < l implies #[trigger] (evens(g)(u) % q_int()) == e_part(u) % q_int() by {
        assert(d * (2 * u) == (256int / l) * u) by (nonlinear_arith)
            requires
                d * 2 == 256int / l,
        ;
        assert(d * (2 * u) * (j + l) == (256int / l) * u * j + 256 * u) by (nonlinear_arith)
            requires
                d * (2 * u) == (256int / l) * u,
                d * l == 128,
                d * 2 == 256int / l,
        ;
        assert((256int / l) * u * j >= 0) by (nonlinear_arith)
            requires
                u >= 0,
                j >= 0,
                256int / l >= 0,
        ;
        let e1 = ((256int / l) * u * j) as nat;
        let e2 = (256 * u) as nat;
        lemma_pow_adds(root, e1, e2);
        lemma_full_turn(root, u as nat);
        let xv = x[c + (256int / l) * u];
        let a = pow(root, e1);
        let b = pow(root, e2);
        lemma_mul_mod_noop_general(xv * a, b, q_int());
        assert(xv * (a * b) == (xv * a) * b) by (nonlinear_arith);
        lemma_mod_twice(xv * a, q_int());
        assert(((xv * a) % q_int()) * 1 == (xv * a) % q_int());
    }
    lemma_sum_cong(evens(g), e_part, 0, l as nat);
    let o_neg = |u: int| (q_int() - 1) * p * o_part(u);
    assert forall|u: int| 0 <= u < l implies #[trigger] (odds(g)(u) % q_int()) == o_neg(u) % q_int() by {
        assert(d * (2 * u + 1) * (j + l) == (256int / l) * u * j + 256 * u + d * j + 128) by (nonlinear_arith)
            requires
                d * 2 == 256int / l,
                d * l == 128,
        ;
        assert((256int / l) * u * j >= 0) by (nonlinear_arith)
            requires
                u >= 0,
                j >= 0,
                256int / l >= 0,
        ;
        assert(d * j >= 0) by (nonlinear_arith)
            requires
                d >= 0,
                j >= 0,
        ;
        let e1 = ((256int / l) * u * j) as nat;
        let e2 = (256 * u) as nat;
        let e3 = (d * j) as nat;
        lemma_pow_adds(root, e1, e2);
        lemma_pow_adds(root, (e1 + e2) as nat, e3);
        lemma_pow_adds(root, (e1 + e2 + e3) as nat, 128);
        lemma_full_turn(root, u as nat);
        let xv = x[c + d + (256int / l) * u];
        let a = pow(root, e1);
        let b = pow(root, e2);
        let h = pow(root, 128);
        assert(c + d * (2 * u + 1) == c + d + (256int / l) * u) by (nonlinear_arith)
            requires
                d * 2 == 256int / l,
        ;
        // xv·a·b·p·h ≡ xv·a·p·(q − 1)
        let big = xv * a * p;
        assert(odds(g)(u) == big * (b * h)) by (nonlinear_arith)
            requires
                odds(g)(u) == xv * (((a * b) * p) * h),
                big == xv * a * p,
        ;
        lemma_mul_mod_noop_general(b, h, q_int());
        assert((b * h) % q_int() == q_int() - 1);
        lemma_mul_mod_noop_general(big, b * h, q_int());
        lemma_mul_mod_noop_general(big, q_int() - 1, q_int());
        lemma_mod_twice(q_int() - 1, q_int());
        assert(o_neg(u) == big * (q_int() - 1)) by (nonlinear_arith)
            requires
                o_neg(u) == (q_int() - 1) * p * (xv * a),
                big == xv * a * p,
        ;
    }
    lemma_sum_cong(odds(g), o_neg, 0, l as nat);
    lemma_sum_scale(o_part, o_neg, (q_int() - 1) * p, 0, l as nat);
    // (E + (q − 1)·p·O) ≡ E − p·O
    let t = p * od;
    assert((q_int() - 1) * p * od == q_int() * t - t) by (nonlinear_arith)
        requires
            t == p * od,
    ;
    lemma_add_mod_noop(range_sum(evens(g), 0, l as nat), range_sum(odds(g), 0, l as nat), q_int());
    lemma_add_mod_noop(ev, (q_int() - 1) * p * od, q_int());
    assert((ev + (q_int() * t - t)) % q_int() == (ev - t) % q_int()) by {
        vstd::arithmetic::div_mod::lemma_mod_multiples_vanish(t, ev - t, q_int());
    }
}

// ── Bit reversal ─────────────────────────────────────────────────────────────

/// The low eight bits of `x` in reverse order.
pub open spec fn rev8_bv(x: u32) -> u32 {
    ((x & 1) << 7u32) | ((x & 2) << 5u32) | ((x & 4) << 3u32) | ((x & 8) << 1u32) | ((x & 16) >> 1u32) | ((x
        & 32) >> 3u32) | ((x & 64) >> 5u32) | ((x & 128) >> 7u32)
}

/// [`rev_bits`] over eight bits is [`rev8_bv`].
pub proof fn lemma_rev_bits_8(x: nat)
    requires
        x < 256,
    ensures
        rev_bits(x, 8) == rev8_bv(x as u32) as nat,
        rev8_bv(x as u32) < 256,
        rev8_bv(rev8_bv(x as u32)) == x as u32,
{
    vstd::arithmetic::power2::lemma2_to64();
    reveal_with_fuel(rev_bits, 9);
    let x1 = x / 2;
    let x2 = x1 / 2;
    let x3 = x2 / 2;
    let x4 = x3 / 2;
    let x5 = x4 / 2;
    let x6 = x5 / 2;
    let x7 = x6 / 2;
    assert(pow2(0) == 1 && pow2(1) == 2 && pow2(2) == 4 && pow2(3) == 8 && pow2(4) == 16 && pow2(5) == 32 && pow2(6)
        == 64 && pow2(7) == 128);
    assert(rev_bits(x7 / 2, 0) == 0);
    assert(rev_bits(x7, 1) == (x7 % 2) * pow2(0) + rev_bits(x7 / 2, 0));
    assert(rev_bits(x6, 2) == (x6 % 2) * pow2(1) + rev_bits(x7, 1));
    assert(rev_bits(x5, 3) == (x5 % 2) * pow2(2) + rev_bits(x6, 2));
    assert(rev_bits(x4, 4) == (x4 % 2) * pow2(3) + rev_bits(x5, 3));
    assert(rev_bits(x3, 5) == (x3 % 2) * pow2(4) + rev_bits(x4, 4));
    assert(rev_bits(x2, 6) == (x2 % 2) * pow2(5) + rev_bits(x3, 5));
    assert(rev_bits(x1, 7) == (x1 % 2) * pow2(6) + rev_bits(x2, 6));
    assert(rev_bits(x, 8) == (x % 2) * pow2(7) + rev_bits(x1, 7));
    assert(rev_bits(x, 8) == (x % 2) * 128 + (x1 % 2) * 64 + (x2 % 2) * 32 + (x3 % 2) * 16 + (x4 % 2) * 8 + (x5 % 2) * 4
        + (x6 % 2) * 2 + (x7 % 2));
    let y = x as u32;
    assert(y < 256 ==> rev8_bv(y) == (y % 2) * 128 + ((y / 2) % 2) * 64 + ((y / 2 / 2) % 2) * 32 + ((y / 2 / 2 / 2) % 2)
        * 16 + ((y / 2 / 2 / 2 / 2) % 2) * 8 + ((y / 2 / 2 / 2 / 2 / 2) % 2) * 4 + ((y / 2 / 2 / 2 / 2 / 2 / 2) % 2) * 2
        + ((y / 2 / 2 / 2 / 2 / 2 / 2 / 2) % 2)) by (bit_vector);
    assert(y < 256 ==> rev8_bv(y) < 256 && rev8_bv(rev8_bv(y)) == y) by (bit_vector);
}

/// Bit reversal of a block start: setting bit `log l` of a multiple of `2l`
/// adds `128 / l` to its reversal.
pub proof fn lemma_rev8_half(s: u32, l: u32, m: u32)
    requires
        stage_len(l as int),
        m == 2 * l,
        s < 256,
        s % m == 0,
    ensures
        rev8_bv((s + l) as u32) == rev8_bv(s) + 128u32 / l,
        rev8_bv(0) == 0,
{
    assert(rev8_bv((s + l) as u32) == rev8_bv(s) + 128u32 / l) by (bit_vector)
        requires
            l == 1 || l == 2 || l == 4 || l == 8 || l == 16 || l == 32 || l == 64 || l == 128,
            m == 2 * l,
            s < 256,
            s % m == 0,
    ;
    assert(rev8_bv(0) == 0) by (bit_vector);
}

// ── The state of the in-place transform ──────────────────────────────────────

/// The value that position `p` holds once the blocks of size `m` are DFTs:
/// coefficient `p mod m` of the DFT of the subsequence starting at the bit
/// reversal of the block's start.
pub open spec fn stage_val(x: Seq<int>, root: int, m: int, p: int) -> int {
    dft(x, root, m, rev8_bv((p - p % m) as u32) as int, p % m) % q_int()
}

/// `(b + j) mod m = j` and `b + j − (b + j) mod m = b` for a multiple `b` of `m`.
pub proof fn lemma_block_offset(b: int, j: int, m: int)
    requires
        m > 0,
        b >= 0,
        b % m == 0,
        0 <= j < m,
    ensures
        (b + j) % m == j,
        b + j - (b + j) % m == b,
{
    let t = b / m;
    vstd::arithmetic::div_mod::lemma_fundamental_div_mod(b, m);
    vstd::arithmetic::div_mod::lemma_mod_multiples_vanish(t, j, m);
    vstd::arithmetic::div_mod::lemma_small_mod(j as nat, m as nat);
}

/// The values of a size-1 stage are the bit-reversed inputs.
pub proof fn lemma_stage_one(x: Seq<int>, root: int, p: int)
    requires
        0 <= p < 256,
        0 <= x[rev8_bv(p as u32) as int] < q_int(),
    ensures
        stage_val(x, root, 1, p) == x[rev8_bv(p as u32) as int],
{
    assert(p % 1 == 0);
    let c = rev8_bv(p as u32) as int;
    vstd::arithmetic::power::lemma_pow0(root);
    assert(dft_term(x, root, 1, c, 0)(0) == x[c] * pow(root, 0));
    assert(range_sum(dft_term(x, root, 1, c, 0), 0, 1) == range_sum(dft_term(x, root, 1, c, 0), 0, 0) + dft_term(
        x,
        root,
        1,
        c,
        0,
    )(0));
    assert(dft(x, root, 1, c, 0) == x[c]);
    vstd::arithmetic::div_mod::lemma_small_mod(x[c] as nat, q_int() as nat);
}

/// One butterfly of the in-place loop, on reduced values.
pub proof fn lemma_butterfly_step(x: Seq<int>, root: int, l: int, base: int, j: int, u: int, v: int, w: int, wl: int)
    requires
        stage_len(l),
        half_turn(root),
        0 <= base < 256,
        base % (2 * l) == 0,
        0 <= j < l,
        u == stage_val(x, root, l, base + j),
        v == stage_val(x, root, l, base + j + l),
        wl == pow(root, (128int / l) as nat) % q_int(),
        w == pow(wl, j as nat) % q_int(),
    ensures
        (u + (v * w) % q_int()) % q_int() == stage_val(x, root, 2 * l, base + j),
        (u + q_int() - (v * w) % q_int()) % q_int() == stage_val(x, root, 2 * l, base + j + l),
{
    lemma_stage_len(l);
    let d = 256int / (2 * l);
    assert(d == 128int / l) by (nonlinear_arith)
        requires
            d * l == 128,
            stage_len(l),
            d == 256int / (2 * l),
    ;
    assert(base % l == 0) by {
        vstd::arithmetic::div_mod::lemma_fundamental_div_mod(base, 2 * l);
        let t = base / (2 * l);
        assert(base == l * (2 * t)) by (nonlinear_arith)
            requires
                base == (2 * l) * t + base % (2 * l),
                base % (2 * l) == 0,
        ;
        vstd::arithmetic::div_mod::lemma_mod_multiples_basic(2 * t, l);
        assert((2 * t) * l == l * (2 * t)) by (nonlinear_arith);
    }
    assert(base + 2 * l <= 256) by (nonlinear_arith)
        requires
            base % (2 * l) == 0,
            0 <= base < 256,
            stage_len(l),
    ;
    lemma_block_offset(base, j, l);
    lemma_block_offset(base + l, j, l);
    assert((base + l) % l == 0) by (nonlinear_arith)
        requires
            base % l == 0,
            l > 0,
    ;
    lemma_block_offset(base, j, 2 * l);
    lemma_block_offset(base, j + l, 2 * l);
    let c = rev8_bv(base as u32) as int;
    lemma_rev8_half(base as u32, l as u32, (2 * l) as u32);
    assert(rev8_bv((base + l) as u32) as int == c + d);
    let e = dft(x, root, l, c, j);
    let o = dft(x, root, l, c + d, j);
    assert(u == e % q_int());
    assert(v == o % q_int());
    // w ≡ root^(d·j)
    let p = pow(root, (d * j) as nat);
    assert(d * j >= 0) by (nonlinear_arith)
        requires
            d >= 0,
            j >= 0,
    ;
    lemma_pow_mod_noop(pow(root, d as nat), j as nat, q_int());
    lemma_pow_multiplies(root, d as nat, j as nat);
    assert(w == p % q_int());
    lemma_butterfly(x, root, l, c, j);
    // (u + v·w mod q) mod q ≡ e + p·o
    lemma_mul_mod_noop_general(o, p, q_int());
    assert((v * w) % q_int() == (o * p) % q_int());
    lemma_add_mod_noop(e, o * p, q_int());
    lemma_mod_twice(e, q_int());
    lemma_mod_twice(o * p, q_int());
    assert(o * p == p * o) by (nonlinear_arith);
    assert((u + (v * w) % q_int()) % q_int() == (e + p * o) % q_int());
    // (u + q − v·w mod q) mod q ≡ e − p·o
    lemma_sub_mod_noop(e, o * p, q_int());
    let t = (o * p) % q_int();
    assert((u + q_int() - t) % q_int() == (u - t) % q_int()) by {
        vstd::arithmetic::div_mod::lemma_mod_add_multiples_vanish(u - t, q_int());
    }
    assert((u - t) % q_int() == (e - p * o) % q_int());
}

// ── The roots used by the negacyclic transform ───────────────────────────────

/// From `b^e mod q` to `b^(2e) mod q`.
pub proof fn lemma_pow_double(b: int, e: nat, v: int)
    requires
        pow(b, e) % q_int() == v,
    ensures
        pow(b, 2 * e) % q_int() == (v * v) % q_int(),
{
    lemma_pow_adds(b, e, e);
    assert(e + e == 2 * e);
    lemma_mul_mod_noop_general(pow(b, e), pow(b, e), q_int());
}

/// From `b^e mod q` to `b^(e+1) mod q`.
pub proof fn lemma_pow_succ(b: int, e: nat, v: int)
    requires
        pow(b, e) % q_int() == v,
    ensures
        pow(b, e + 1) % q_int() == (v * b) % q_int(),
{
    lemma_pow_adds(b, e, 1);
    vstd::arithmetic::power::lemma_pow1(b);
    vstd::arithmetic::div_mod::lemma_mul_mod_noop_left(pow(b, e), b, q_int());
}

/// `(q − 1)^e ≡ (−1)^e`.
pub proof fn lemma_neg_one_pow(e: nat)
    ensures
        pow(q_int() - 1, e) % q_int() == (if e % 2 == 1 {
            q_int() - 1
        } else {
            1
        }),
    decreases e,
{
    if e == 0 {
        vstd::arithmetic::power::lemma_pow0(q_int() - 1);
    } else {
        let e1 = (e - 1) as nat;
        lemma_neg_one_pow(e1);
        let v = pow(q_int() - 1, e1) % q_int();
        lemma_pow_succ(q_int() - 1, e1, v);
        assert(8380416int * 8380416int % 8380417int == 1);
        assert(1int * 8380416int % 8380417int == 8380416);
    }
}

/// `ψ = 1753` has `ψ^256 ≡ −1`.
pub proof fn lemma_psi_order()
    ensures
        pow(1753, 256) % q_int() == q_int() - 1,
        pow(1753, 2) % q_int() == 3073009,
{
    vstd::arithmetic::power::lemma_pow1(1753);
    vstd::arithmetic::div_mod::lemma_small_mod(1753nat, q_int() as nat);
    lemma_pow_double(1753, 1, 1753);
    assert((1753int * 1753int) % q_int() == 3073009);
    lemma_pow_double(1753, 2, 3073009);
    assert((3073009int * 3073009int) % q_int() == 3602218);
    lemma_pow_double(1753, 4, 3602218);
    assert((3602218int * 3602218int) % q_int() == 5010068);
    lemma_pow_double(1753, 8, 5010068);
    assert((5010068int * 5010068int) % q_int() == 7778734);
    lemma_pow_double(1753, 16, 7778734);
    assert((7778734int * 7778734int) % q_int() == 5178923);
    lemma_pow_double(1753, 32, 5178923);
    assert((5178923int * 5178923int) % q_int() == 3765607);
    lemma_pow_double(1753, 64, 3765607);
    assert((3765607int * 3765607int) % q_int() == 4808194);
    lemma_pow_double(1753, 128, 4808194);
    assert((4808194int * 4808194int) % q_int() == 8380416);
}

/// `ω = ψ² mod q` has order 256.
pub proof fn lemma_omega_half_turn()
    ensures
        half_turn(3073009),
{
    lemma_psi_order();
    lemma_pow_mod_noop(pow(1753, 2), 128, q_int());
    lemma_pow_multiplies(1753, 2, 128);
}

/// The inverse `ω^(q−2) mod q` of a root of order 256 has order 256 too.
pub proof fn lemma_inverse_half_turn(w: int)
    requires
        half_turn(w),
    ensures
        half_turn(pow(w, (q_int() - 2) as nat) % q_int()),
{
    let e = (q_int() - 2) as nat;
    lemma_pow_mod_noop(pow(w, e), 128, q_int());
    lemma_pow_multiplies(w, e, 128);
    lemma_pow_multiplies(w, 128, e);
    assert(e * 128 == 128 * e) by (nonlinear_arith);
    lemma_pow_mod_noop(pow(w, 128), e, q_int());
    lemma_neg_one_pow(e);
}

// ── The negacyclic transform ─────────────────────────────────────────────────

/// `ψ`.
pub open spec fn psi_val() -> int {
    1753
}

/// `ω = ψ² mod q`.
pub open spec fn omega_val() -> int {
    3073009
}

/// `ω⁻¹ = ω^(q−2) mod q`.
pub open spec fn omega_inv_val() -> int {
    pow(omega_val(), (q_int() - 2) as nat) % q_int()
}

/// `ψ⁻¹ = ψ^(q−2) mod q`.
pub open spec fn psi_inv_val() -> int {
    pow(psi_val(), (q_int() - 2) as nat) % q_int()
}

/// `256⁻¹ = 256^(q−2) mod q`.
pub open spec fn n_inv_val() -> int {
    pow(256, (q_int() - 2) as nat) % q_int()
}

/// Coefficient `i` weighted by `ψ^i`, reduced.
pub open spec fn psi_weighted(p: Seq<u32>) -> Seq<int> {
    Seq::new(256, |i: int| (p[i] * pow(psi_val(), i as nat)) % q_int())
}

/// The forward negacyclic NTT: the DFT with root `ω` of the `ψ`-weighted
/// coefficients.
pub open spec fn ntt_spec(p: Seq<u32>) -> Seq<u32> {
    Seq::new(256, |k: int| (dft(psi_weighted(p), omega_val(), 256, 0, k) % q_int()) as u32)
}

/// The inverse negacyclic NTT: the DFT with root `ω⁻¹`, scaled by `256⁻¹` and
/// weighted by `ψ^(−i)`.
pub open spec fn intt_spec(p: Seq<u32>) -> Seq<u32> {
    Seq::new(
        256,
        |i: int|
            ((((dft(u32s_to_ints(p), omega_inv_val(), 256, 0, i) % q_int()) * n_inv_val()) % q_int()) * (pow(psi_inv_val(), i as nat)
                % q_int()) % q_int()) as u32,
    )
}

// ── Inverses ─────────────────────────────────────────────────────────────────

/// `256⁻¹ = 256^(q−2) mod q = 8347681`, and `256·256⁻¹ ≡ 1`.
pub proof fn lemma_n_inv_value()
    ensures
        n_inv_val() == 8347681,
        (256 * n_inv_val()) % q_int() == 1,
{
    vstd::arithmetic::power::lemma_pow1(256);
    vstd::arithmetic::div_mod::lemma_small_mod(256nat, q_int() as nat);
    lemma_pow_double(256, 1, 256);
    assert((256int * 256int) % q_int() == 65536);
    lemma_pow_succ(256, 2, 65536);
    assert((65536int * 256int) % q_int() == 16382);
    lemma_pow_double(256, 3, 16382);
    assert((16382int * 16382int) % q_int() == 196580);
    lemma_pow_succ(256, 6, 196580);
    assert((196580int * 256int) % q_int() == 41978);
    lemma_pow_double(256, 7, 41978);
    assert((41978int * 41978int) % q_int() == 2264914);
    lemma_pow_succ(256, 14, 2264914);
    assert((2264914int * 256int) % q_int() == 1569211);
    lemma_pow_double(256, 15, 1569211);
    assert((1569211int * 1569211int) % q_int() == 5235411);
    lemma_pow_succ(256, 30, 5235411);
    assert((5235411int * 256int) % q_int() == 7778913);
    lemma_pow_double(256, 31, 7778913);
    assert((7778913int * 7778913int) % q_int() == 7699292);
    lemma_pow_succ(256, 62, 7699292);
    assert((7699292int * 256int) % q_int() == 1620757);
    lemma_pow_double(256, 63, 1620757);
    assert((1620757int * 1620757int) % q_int() == 3163982);
    lemma_pow_succ(256, 126, 3163982);
    assert((3163982int * 256int) % q_int() == 5459360);
    lemma_pow_double(256, 127, 5459360);
    assert((5459360int * 5459360int) % q_int() == 2146197);
    lemma_pow_succ(256, 254, 2146197);
    assert((2146197int * 256int) % q_int() == 4699327);
    lemma_pow_double(256, 255, 4699327);
    assert((4699327int * 4699327int) % q_int() == 1634545);
    lemma_pow_succ(256, 510, 1634545);
    assert((1634545int * 256int) % q_int() == 7803087);
    lemma_pow_double(256, 511, 7803087);
    assert((7803087int * 7803087int) % q_int() == 3983976);
    lemma_pow_double(256, 1022, 3983976);
    assert((3983976int * 3983976int) % q_int() == 7513094);
    lemma_pow_succ(256, 2044, 7513094);
    assert((7513094int * 256int) % q_int() == 4236571);
    lemma_pow_double(256, 2045, 4236571);
    assert((4236571int * 4236571int) % q_int() == 1999550);
    lemma_pow_succ(256, 4090, 1999550);
    assert((1999550int * 256int) % q_int() == 679363);
    lemma_pow_double(256, 4091, 679363);
    assert((679363int * 679363int) % q_int() == 7760745);
    lemma_pow_succ(256, 8182, 7760745);
    assert((7760745int * 256int) % q_int() == 591891);
    lemma_pow_double(256, 8183, 591891);
    assert((591891int * 591891int) % q_int() == 3613);
    lemma_pow_succ(256, 16366, 3613);
    assert((3613int * 256int) % q_int() == 924928);
    lemma_pow_double(256, 16367, 924928);
    assert((924928int * 924928int) % q_int() == 2076990);
    lemma_pow_succ(256, 32734, 2076990);
    assert((2076990int * 256int) % q_int() == 3743169);
    lemma_pow_double(256, 32735, 3743169);
    assert((3743169int * 3743169int) % q_int() == 2795674);
    lemma_pow_succ(256, 65470, 2795674);
    assert((2795674int * 256int) % q_int() == 3357099);
    lemma_pow_double(256, 65471, 3357099);
    assert((3357099int * 3357099int) % q_int() == 3207946);
    lemma_pow_succ(256, 130942, 3207946);
    assert((3207946int * 256int) % q_int() == 8333727);
    lemma_pow_double(256, 130943, 8333727);
    assert((8333727int * 8333727int) % q_int() == 1047680);
    lemma_pow_succ(256, 261886, 1047680);
    assert((1047680int * 256int) % q_int() == 32736);
    lemma_pow_double(256, 261887, 32736);
    assert((32736int * 32736int) % q_int() == 7332737);
    lemma_pow_succ(256, 523774, 7332737);
    assert((7332737int * 256int) % q_int() == 8347681);
    lemma_pow_double(256, 523775, 8347681);
    assert((8347681int * 8347681int) % q_int() == 7332737);
    lemma_pow_succ(256, 1047550, 7332737);
    assert((7332737int * 256int) % q_int() == 8347681);
    lemma_pow_double(256, 1047551, 8347681);
    assert((8347681int * 8347681int) % q_int() == 7332737);
    lemma_pow_succ(256, 2095102, 7332737);
    assert((7332737int * 256int) % q_int() == 8347681);
    lemma_pow_double(256, 2095103, 8347681);
    assert((8347681int * 8347681int) % q_int() == 7332737);
    lemma_pow_succ(256, 4190206, 7332737);
    assert((7332737int * 256int) % q_int() == 8347681);
    lemma_pow_double(256, 4190207, 8347681);
    assert((8347681int * 8347681int) % q_int() == 7332737);
    lemma_pow_succ(256, 8380414, 7332737);
    assert((7332737int * 256int) % q_int() == 8347681);
    assert(256int * 8347681int % q_int() == 1);
}

/// `ψ⁻¹ = ψ^(q−2) mod q = 731434`, and `ψ·ψ⁻¹ ≡ 1`.
pub proof fn lemma_psi_inv_value()
    ensures
        psi_inv_val() == 731434,
        (psi_val() * psi_inv_val()) % q_int() == 1,
{
    vstd::arithmetic::power::lemma_pow1(1753);
    vstd::arithmetic::div_mod::lemma_small_mod(1753nat, q_int() as nat);
    lemma_pow_double(1753, 1, 1753);
    assert((1753int * 1753int) % q_int() == 3073009);
    lemma_pow_succ(1753, 2, 3073009);
    assert((3073009int * 1753int) % q_int() == 6757063);
    lemma_pow_double(1753, 3, 6757063);
    assert((6757063int * 6757063int) % q_int() == 5801164);
    lemma_pow_succ(1753, 6, 5801164);
    assert((5801164int * 1753int) % q_int() == 3994671);
    lemma_pow_double(1753, 7, 3994671);
    assert((3994671int * 3994671int) % q_int() == 1356448);
    lemma_pow_succ(1753, 14, 1356448);
    assert((1356448int * 1753int) % q_int() == 6195333);
    lemma_pow_double(1753, 15, 6195333);
    assert((6195333int * 6195333int) % q_int() == 348812);
    lemma_pow_succ(1753, 30, 348812);
    assert((348812int * 1753int) % q_int() == 8077412);
    lemma_pow_double(1753, 31, 8077412);
    assert((8077412int * 8077412int) % q_int() == 4561790);
    lemma_pow_succ(1753, 62, 4561790);
    assert((4561790int * 1753int) % q_int() == 1900052);
    lemma_pow_double(1753, 63, 1900052);
    assert((1900052int * 1900052int) % q_int() == 6143691);
    lemma_pow_succ(1753, 126, 6143691);
    assert((6143691int * 1753int) % q_int() == 1054478);
    lemma_pow_double(1753, 127, 1054478);
    assert((1054478int * 1054478int) % q_int() == 1744507);
    lemma_pow_succ(1753, 254, 1744507);
    assert((1744507int * 1753int) % q_int() == 7648983);
    lemma_pow_double(1753, 255, 7648983);
    assert((7648983int * 7648983int) % q_int() == 6635910);
    lemma_pow_succ(1753, 510, 6635910);
    assert((6635910int * 1753int) % q_int() == 731434);
    lemma_pow_double(1753, 511, 731434);
    assert((731434int * 731434int) % q_int() == 6635910);
    lemma_pow_double(1753, 1022, 6635910);
    assert((6635910int * 6635910int) % q_int() == 6522001);
    lemma_pow_succ(1753, 2044, 6522001);
    assert((6522001int * 1753int) % q_int() == 2178965);
    lemma_pow_double(1753, 2045, 2178965);
    assert((2178965int * 2178965int) % q_int() == 5121960);
    lemma_pow_succ(1753, 4090, 5121960);
    assert((5121960int * 1753int) % q_int() == 3369273);
    lemma_pow_double(1753, 4091, 3369273);
    assert((3369273int * 3369273int) % q_int() == 5006167);
    lemma_pow_succ(1753, 8182, 5006167);
    assert((5006167int * 1753int) % q_int() == 1514152);
    lemma_pow_double(1753, 8183, 1514152);
    assert((1514152int * 1514152int) % q_int() == 459163);
    lemma_pow_succ(1753, 16366, 459163);
    assert((459163int * 1753int) % q_int() == 392707);
    lemma_pow_double(1753, 16367, 392707);
    assert((392707int * 392707int) % q_int() == 2354215);
    lemma_pow_succ(1753, 32734, 2354215);
    assert((2354215int * 1753int) % q_int() == 3773731);
    lemma_pow_double(1753, 32735, 3773731);
    assert((3773731int * 3773731int) % q_int() == 1922253);
    lemma_pow_succ(1753, 65470, 1922253);
    assert((1922253int * 1753int) % q_int() == 781875);
    lemma_pow_double(1753, 65471, 781875);
    assert((781875int * 781875int) % q_int() == 2236726);
    lemma_pow_succ(1753, 130942, 2236726);
    assert((2236726int * 1753int) % q_int() == 7325939);
    lemma_pow_double(1753, 130943, 7325939);
    assert((7325939int * 7325939int) % q_int() == 1744507);
    lemma_pow_succ(1753, 261886, 1744507);
    assert((1744507int * 1753int) % q_int() == 7648983);
    lemma_pow_double(1753, 261887, 7648983);
    assert((7648983int * 7648983int) % q_int() == 6635910);
    lemma_pow_succ(1753, 523774, 6635910);
    assert((6635910int * 1753int) % q_int() == 731434);
    lemma_pow_double(1753, 523775, 731434);
    assert((731434int * 731434int) % q_int() == 6635910);
    lemma_pow_succ(1753, 1047550, 6635910);
    assert((6635910int * 1753int) % q_int() == 731434);
    lemma_pow_double(1753, 1047551, 731434);
    assert((731434int * 731434int) % q_int() == 6635910);
    lemma_pow_succ(1753, 2095102, 6635910);
    assert((6635910int * 1753int) % q_int() == 731434);
    lemma_pow_double(1753, 2095103, 731434);
    assert((731434int * 731434int) % q_int() == 6635910);
    lemma_pow_succ(1753, 4190206, 6635910);
    assert((6635910int * 1753int) % q_int() == 731434);
    lemma_pow_double(1753, 4190207, 731434);
    assert((731434int * 731434int) % q_int() == 6635910);
    lemma_pow_succ(1753, 8380414, 6635910);
    assert((6635910int * 1753int) % q_int() == 731434);
    assert(1753int * 731434int % q_int() == 1);
}

// ── Orthogonality ────────────────────────────────────────────────────────────

/// Splitting a range in two.
pub proof fn lemma_sum_concat(f: spec_fn(int) -> int, lo: int, a: nat, b: nat)
    ensures
        range_sum(f, lo, a + b) == range_sum(f, lo, a) + range_sum(f, lo + a, b),
    decreases b,
{
    if b > 0 {
        lemma_sum_concat(f, lo, a, (b - 1) as nat);
        assert(range_sum(f, lo, a + b) == range_sum(f, lo, (a + b - 1) as nat) + f(lo + a + b - 1));
    }
}

/// A sum of `n` ones.
pub proof fn lemma_sum_ones(f: spec_fn(int) -> int, lo: int, n: nat)
    requires
        forall|x: int| lo <= x < lo + n ==> #[trigger] f(x) == 1,
    ensures
        range_sum(f, lo, n) == n,
    decreases n,
{
    if n > 0 {
        lemma_sum_ones(f, lo, (n - 1) as nat);
        assert(f(lo + n - 1) == 1);
    }
}

/// `k ↦ ρ^(d·k)`.
pub open spec fn geo_term(rho: int, d: int) -> spec_fn(int) -> int {
    |k: int| pow(rho, (d * k) as nat)
}

/// A power of two from 2 to 256.
pub open spec fn pow2_len(n: int) -> bool {
    n == 2 || n == 4 || n == 8 || n == 16 || n == 32 || n == 64 || n == 128 || n == 256
}

/// `Σ_{k<n} ρ^(d·k) ≡ 0` when `ρ^(n/2) ≡ −1` and `n ∤ d`.
pub proof fn lemma_geo_vanishes(rho: int, n: int, d: int)
    requires
        pow2_len(n),
        pow(rho, (n / 2) as nat) % q_int() == q_int() - 1,
        d >= 0,
        d % n != 0,
    ensures
        range_sum(geo_term(rho, d), 0, n as nat) % q_int() == 0,
    decreases n,
{
    let h = n / 2;
    assert(h + h == n && h >= 1);
    let t = geo_term(rho, d);
    let t2 = |k: int| t(k + h);
    lemma_sum_concat(t, 0, h as nat, h as nat);
    lemma_sum_shift(t, t2, h, 0, h as nat);
    assert(d * h >= 0) by (nonlinear_arith)
        requires
            d >= 0,
            h >= 0,
    ;
    let sh = pow(rho, (d * h) as nat);
    lemma_pow_multiplies(rho, h as nat, d as nat);
    assert((h * d) as nat == (d * h) as nat) by (nonlinear_arith);
    lemma_pow_mod_noop(pow(rho, h as nat), d as nat, q_int());
    lemma_neg_one_pow(d as nat);
    assert forall|k: int| 0 <= k < h implies #[trigger] t2(k) == t(k) * sh by {
        assert(d * k >= 0) by (nonlinear_arith)
            requires
                d >= 0,
                k >= 0,
        ;
        assert(d * (k + h) == d * k + d * h) by (nonlinear_arith);
        lemma_pow_adds(rho, (d * k) as nat, (d * h) as nat);
    }
    if d % 2 == 1 {
        assert(sh % q_int() == q_int() - 1);
        let both = |k: int| t(k) + t2(k);
        let zero = |k: int| 0int;
        assert forall|k: int| 0 <= k < h implies #[trigger] (both(k) % q_int()) == zero(k) % q_int() by {
            let tk = t(k);
            lemma_mul_mod_noop_general(tk, sh, q_int());
            lemma_mul_mod_noop_general(tk, q_int() - 1, q_int());
            lemma_mod_twice(q_int() - 1, q_int());
            assert(tk * (q_int() - 1) == tk * q_int() - tk) by (nonlinear_arith);
            lemma_add_mod_noop(tk, tk * sh, q_int());
            lemma_add_mod_noop(tk, tk * (q_int() - 1), q_int());
            vstd::arithmetic::div_mod::lemma_mod_multiples_basic(tk, q_int());
            assert(tk + (tk * q_int() - tk) == tk * q_int());
            assert(q_int() * tk == tk * q_int()) by (nonlinear_arith);
        }
        lemma_sum_add(t, t2, both, 0, h as nat);
        lemma_sum_cong(both, zero, 0, h as nat);
        crate::ring::lemma_sum_zero(zero, 0, h as nat);
    } else {
        assert(n >= 4);
        assert(sh % q_int() == 1);
        // The second half repeats the first.
        assert forall|k: int| 0 <= k < h implies #[trigger] (t2(k) % q_int()) == t(k) % q_int() by {
            lemma_mul_mod_noop_general(t(k), sh, q_int());
            lemma_mod_twice(t(k), q_int());
        }
        lemma_sum_cong(t2, t, 0, h as nat);
        // The first half is the sum for ρ² over n/2.
        let rho2 = pow(rho, 2);
        let d2 = d / 2;
        assert(h / 2 * 2 == h);
        lemma_pow_multiplies(rho, 2, (h / 2) as nat);
        assert(2 * (h / 2) == h);
        assert(d2 % h != 0) by {
            if d2 % h == 0 {
                vstd::arithmetic::div_mod::lemma_fundamental_div_mod(d2, h);
                assert(d == n * (d2 / h)) by (nonlinear_arith)
                    requires
                        d2 == h * (d2 / h),
                        d == 2 * d2,
                        n == 2 * h,
                ;
                vstd::arithmetic::div_mod::lemma_mod_multiples_basic(d2 / h, n);
                assert((d2 / h) * n == n * (d2 / h)) by (nonlinear_arith);
            }
        }
        lemma_geo_vanishes(rho2, h, d2);
        assert forall|k: int| 0 <= k < h implies #[trigger] t(k) == geo_term(rho2, d2)(k) by {
            assert(d2 * k >= 0) by (nonlinear_arith)
                requires
                    d2 >= 0,
                    k >= 0,
            ;
            lemma_pow_multiplies(rho, 2, (d2 * k) as nat);
            assert(2 * (d2 * k) == d * k) by (nonlinear_arith)
                requires
                    d == 2 * d2,
            ;
        }
        lemma_sum_ext(t, geo_term(rho2, d2), 0, h as nat);
        lemma_add_mod_noop(range_sum(t, 0, h as nat), range_sum(t2, 0, h as nat), q_int());
    }
}

/// Orthogonality of the powers of `ω`: `Σ_{k<256} ω^(d·k)` is `256` when
/// `256 | d` and `0` otherwise, modulo `q`.
pub proof fn lemma_omega_orth(d: int)
    requires
        d >= 0,
    ensures
        range_sum(geo_term(omega_val(), d), 0, 256) % q_int() == (if d % 256 == 0 {
            256int
        } else {
            0int
        }),
{
    lemma_omega_half_turn();
    if d % 256 == 0 {
        let one = |k: int| 1int;
        assert forall|k: int| 0 <= k < 256 implies #[trigger] (geo_term(omega_val(), d)(k) % q_int()) == one(k)
            % q_int() by {
            let m = d / 256;
            assert(d * k == 256 * (m * k)) by (nonlinear_arith)
                requires
                    d == 256 * m,
            ;
            assert(m * k >= 0) by (nonlinear_arith)
                requires
                    m >= 0,
                    k >= 0,
            ;
            lemma_full_turn(omega_val(), (m * k) as nat);
        }
        lemma_sum_cong(geo_term(omega_val(), d), one, 0, 256);
        lemma_sum_ones(one, 0, 256);
    } else {
        lemma_geo_vanishes(omega_val(), 256, d);
    }
}

/// `ω⁻¹` acts as `ω^255`.
pub proof fn lemma_omega_inv_pow(e: nat)
    ensures
        pow(omega_inv_val(), e) % q_int() == pow(omega_val(), 255 * e) % q_int(),
{
    lemma_omega_half_turn();
    let qe = (q_int() - 2) as nat;
    lemma_pow_mod_noop(pow(omega_val(), qe), e, q_int());
    lemma_pow_multiplies(omega_val(), qe, e);
    assert(qe * e == 256 * (32735 * e) + 255 * e) by (nonlinear_arith)
        requires
            qe == 8380415,
    ;
    lemma_pow_adds(omega_val(), 256 * (32735 * e), 255 * e);
    lemma_full_turn(omega_val(), 32735 * e);
    lemma_mul_mod_noop_general(pow(omega_val(), 256 * (32735 * e)), pow(omega_val(), 255 * e), q_int());
    lemma_mod_twice(pow(omega_val(), 255 * e), q_int());
}

// ── The inverse transform undoes the forward one ─────────────────────────────

/// Products of congruent factors are congruent.
pub proof fn lemma_mul_cong(a: int, a2: int, b: int, b2: int)
    requires
        a % q_int() == a2 % q_int(),
        b % q_int() == b2 % q_int(),
    ensures
        (a * b) % q_int() == (a2 * b2) % q_int(),
{
    lemma_mul_mod_noop_general(a, b, q_int());
    lemma_mul_mod_noop_general(a2, b2, q_int());
}

/// `x[u]·ω^((u + 255·i)·k)`: the double sum of the inverse of a DFT.
spec fn inv_grid(x: Seq<int>, i: int) -> spec_fn(int, int) -> int {
    |k: int, u: int| x[u] * pow(omega_val(), ((u + 255 * i) * k) as nat)
}

/// The DFT with root `ω⁻¹` of (anything congruent to) the DFT with root `ω`
/// of `x` is `256·x`, modulo `q`.
pub proof fn lemma_inverse_dft(x: Seq<int>, y: Seq<int>, i: int)
    requires
        x.len() == 256,
        0 <= i < 256,
        forall|k: int| 0 <= k < 256 ==> #[trigger] (y[k] % q_int()) == dft(x, omega_val(), 256, 0, k) % q_int(),
    ensures
        dft(y, omega_inv_val(), 256, 0, i) % q_int() == (256 * x[i]) % q_int(),
{
    let h = inv_grid(x, i);
    let rows = crate::ring::row_sums(h, 256);
    let cols = crate::ring::col_sums(h, 256);
    // Each term of the outer sum is congruent to a row of the grid.
    assert forall|k: int| 0 <= k < 256 implies #[trigger] (dft_term(y, omega_inv_val(), 256, 0, i)(k) % q_int())
        == rows(k) % q_int() by {
        assert(256int / 256 == 1);
        assert(k * i >= 0) by (nonlinear_arith)
            requires
                k >= 0,
                i >= 0,
        ;
        lemma_omega_inv_pow((k * i) as nat);
        let c = pow(omega_val(), (255 * (k * i)) as nat);
        lemma_mul_cong(y[k], dft(x, omega_val(), 256, 0, k), pow(omega_inv_val(), (k * i) as nat), c);
        // dft(x, ω, 256, 0, k)·c is row k.
        let dterm = dft_term(x, omega_val(), 256, 0, k);
        assert forall|u: int| 0 <= u < 256 implies #[trigger] crate::ring::row_fn(h, k)(u) == c * dterm(u) by {
            assert(u * k >= 0) by (nonlinear_arith)
                requires
                    u >= 0,
                    k >= 0,
            ;
            assert((u + 255 * i) * k == u * k + 255 * (k * i)) by (nonlinear_arith);
            lemma_pow_adds(omega_val(), (u * k) as nat, (255 * (k * i)) as nat);
            let xv = x[u];
            let a = pow(omega_val(), (u * k) as nat);
            assert(xv * (a * c) == c * (xv * a)) by (nonlinear_arith);
            assert(dterm(u) == xv * a);
        }
        lemma_sum_scale(dterm, crate::ring::row_fn(h, k), c, 0, 256);
        assert(dft(x, omega_val(), 256, 0, k) * c == c * dft(x, omega_val(), 256, 0, k)) by (nonlinear_arith);
    }
    lemma_sum_cong(dft_term(y, omega_inv_val(), 256, 0, i), rows, 0, 256);
    crate::ring::lemma_sum_swap(h, 256, 256);
    // Each column collapses by orthogonality.
    let single = |u: int| if u == i { 256 * x[i] } else { 0int };
    assert forall|u: int| 0 <= u < 256 implies #[trigger] (cols(u) % q_int()) == single(u) % q_int() by {
        let d = u + 255 * i;
        assert forall|k: int| 0 <= k < 256 implies #[trigger] crate::ring::col_fn(h, u)(k) == x[u] * geo_term(
            omega_val(),
            d,
        )(k) by {}
        lemma_sum_scale(geo_term(omega_val(), d), crate::ring::col_fn(h, u), x[u], 0, 256);
        lemma_omega_orth(d);
        let g = range_sum(geo_term(omega_val(), d), 0, 256);
        lemma_mul_cong(x[u], x[u], g, if d % 256 == 0 { 256int } else { 0int });
        if u == i {
            assert(d == 256 * i);
            vstd::arithmetic::div_mod::lemma_mod_multiples_basic(i, 256);
            assert(i * 256 == 256 * i) by (nonlinear_arith);
            assert(x[u] * 256 == 256 * x[i]) by (nonlinear_arith)
                requires
                    u == i,
            ;
        } else {
            assert(d % 256 != 0) by {
                if d % 256 == 0 {
                    vstd::arithmetic::div_mod::lemma_fundamental_div_mod(d, 256);
                    assert(u - i == 256 * (d / 256) - 256 * i);
                    assert(u - i == 256 * (d / 256 - i)) by (nonlinear_arith)
                        requires
                            u - i == 256 * (d / 256) - 256 * i,
                    ;
                }
            }
            assert(x[u] * 0 == 0) by (nonlinear_arith);
        }
    }
    lemma_sum_cong(cols, single, 0, 256);
    let zero = |u: int| 0int;
    crate::ring::lemma_sum_zero(zero, 0, 256);
    crate::ring::lemma_sum_update(zero, single, i, 0, 256);
}

/// `ψ^i·ψ⁻ⁱ ≡ 1`.
proof fn lemma_psi_pow_inv(i: nat)
    ensures
        (pow(psi_val(), i) * pow(psi_inv_val(), i)) % q_int() == 1,
{
    lemma_psi_inv_value();
    vstd::arithmetic::power::lemma_pow_distributes(psi_val(), psi_inv_val(), i);
    lemma_pow_mod_noop(psi_val() * psi_inv_val(), i, q_int());
    vstd::arithmetic::power::lemma1_pow(i);
}

/// The inverse NTT undoes the forward NTT on every polynomial with
/// coefficients below `q`.
pub proof fn lemma_ntt_round_trip(p: Seq<u32>)
    requires
        p.len() == 256,
        forall|i: int| 0 <= i < 256 ==> #[trigger] p[i] < q_int(),
    ensures
        intt_spec(ntt_spec(p)) == p,
{
    let y = ntt_spec(p);
    let yi = u32s_to_ints(y);
    let pw = psi_weighted(p);
    assert forall|k: int| 0 <= k < 256 implies #[trigger] (yi[k] % q_int()) == dft(pw, omega_val(), 256, 0, k)
        % q_int() by {
        lemma_mod_twice(dft(pw, omega_val(), 256, 0, k), q_int());
    }
    lemma_n_inv_value();
    assert forall|i: int| 0 <= i < 256 implies #[trigger] intt_spec(y)[i] == p[i] by {
        lemma_inverse_dft(pw, yi, i);
        let t = dft(yi, omega_inv_val(), 256, 0, i);
        let pi = pow(psi_val(), i as nat);
        let ip = pow(psi_inv_val(), i as nat);
        // ((t mod q)·n⁻¹ mod q)·(ψ⁻ⁱ mod q) ≡ 256·pw[i]·n⁻¹·ψ⁻ⁱ
        lemma_mod_twice(t, q_int());
        lemma_mul_cong(t % q_int(), 256 * pw[i], n_inv_val(), n_inv_val());
        lemma_mod_twice((t % q_int()) * n_inv_val(), q_int());
        lemma_mod_twice(ip, q_int());
        lemma_mul_cong(((t % q_int()) * n_inv_val()) % q_int(), 256 * pw[i] * n_inv_val(), ip % q_int(), ip);
        // 256·n⁻¹ ≡ 1
        assert(256 * pw[i] * n_inv_val() == pw[i] * (256 * n_inv_val())) by (nonlinear_arith);
        lemma_mul_cong(pw[i], pw[i], 256 * n_inv_val(), 1);
        lemma_mul_cong(pw[i] * (256 * n_inv_val()), pw[i], ip, ip);
        // pw[i] ≡ p[i]·ψ^i
        lemma_mod_twice(p[i] * pi, q_int());
        lemma_mul_cong(pw[i], p[i] * pi, ip, ip);
        assert(p[i] * pi * ip == p[i] * (pi * ip)) by (nonlinear_arith);
        lemma_psi_pow_inv(i as nat);
        lemma_mul_cong(p[i] as int, p[i] as int, pi * ip, 1);
        vstd::arithmetic::div_mod::lemma_small_mod(p[i] as nat, q_int() as nat);
    }
    assert(intt_spec(y) =~= p);
}

// ── Products through the transform ───────────────────────────────────────────

/// `ω^e ≡ ω^(e mod 256)`.
pub proof fn lemma_omega_reduce(e: int)
    requires
        e >= 0,
    ensures
        pow(omega_val(), e as nat) % q_int() == pow(omega_val(), (e % 256) as nat) % q_int(),
{
    lemma_omega_half_turn();
    let t = e / 256;
    let r = e % 256;
    assert(e == 256 * t + r);
    lemma_pow_adds(omega_val(), (256 * t) as nat, r as nat);
    lemma_full_turn(omega_val(), t as nat);
    lemma_mul_cong(pow(omega_val(), (256 * t) as nat), 1, pow(omega_val(), r as nat), pow(omega_val(), r as nat));
}

/// `Σ_i a[i]·b[(m − i) mod 256]`: coefficient `m` of the cyclic convolution.
pub open spec fn cyc_term(a: Seq<int>, b: Seq<int>, m: int) -> spec_fn(int) -> int {
    |i: int| a[i] * b[(m - i) % 256]
}

/// The cyclic convolution of two 256-coefficient sequences.
pub open spec fn cyc_seq(a: Seq<int>, b: Seq<int>) -> Seq<int> {
    Seq::new(256, |m: int| range_sum(cyc_term(a, b, m), 0, 256))
}

/// `b[(m − i) mod 256]·(ω^((m mod 256)·k) mod q)`, exactly 256-periodic in `m`.
spec fn shifted_term(b: Seq<int>, i: int, k: int) -> spec_fn(int) -> int {
    |m: int| b[(m - i) % 256] * (pow(omega_val(), ((m % 256) * k) as nat) % q_int())
}

/// `b[j]·ω^((i + j)·k)`.
spec fn offset_term(b: Seq<int>, i: int, k: int) -> spec_fn(int) -> int {
    |j: int| b[j] * pow(omega_val(), ((i + j) * k) as nat)
}

/// `b[(m − i) mod 256]·ω^(m·k)`.
spec fn conv_inner(b: Seq<int>, i: int, k: int) -> spec_fn(int) -> int {
    |m: int| b[(m - i) % 256] * pow(omega_val(), (m * k) as nat)
}

/// `ω^(i·k)·DFT(b)_k ≡ Σ_m b[(m − i) mod 256]·ω^(m·k)`.
proof fn lemma_shifted_dft(b: Seq<int>, i: int, k: int)
    requires
        b.len() == 256,
        0 <= i < 256,
        0 <= k < 256,
    ensures
        (pow(omega_val(), (i * k) as nat) * dft(b, omega_val(), 256, 0, k)) % q_int() == range_sum(
            conv_inner(b, i, k),
            0,
            256,
        ) % q_int(),
{
    assert(256int / 256 == 1);
    let wi = pow(omega_val(), (i * k) as nat);
    assert(i * k >= 0) by (nonlinear_arith)
        requires
            i >= 0,
            k >= 0,
    ;
    // ω^(ik)·Σ_j b[j]·ω^(jk) = Σ_j b[j]·ω^((i+j)k)
    let dterm = dft_term(b, omega_val(), 256, 0, k);
    assert forall|j: int| 0 <= j < 256 implies #[trigger] offset_term(b, i, k)(j) == wi * dterm(j) by {
        assert(j * k >= 0) by (nonlinear_arith)
            requires
                j >= 0,
                k >= 0,
        ;
        assert((i + j) * k == j * k + i * k) by (nonlinear_arith);
        lemma_pow_adds(omega_val(), (j * k) as nat, (i * k) as nat);
        let bj = b[j];
        let pj = pow(omega_val(), (j * k) as nat);
        assert(bj * (pj * wi) == wi * (bj * pj)) by (nonlinear_arith);
    }
    lemma_sum_scale(dterm, offset_term(b, i, k), wi, 0, 256);
    // Σ_j b[j]·ω^((i+j)k) ≡ Σ_j P(i + j)
    let pt = shifted_term(b, i, k);
    let pshift = |j: int| pt(j + i);
    assert forall|j: int| 0 <= j < 256 implies #[trigger] (offset_term(b, i, k)(j) % q_int()) == pshift(j) % q_int() by {
        assert((j + i - i) % 256 == j);
        assert((i + j) * k >= 0) by (nonlinear_arith)
            requires
                i + j >= 0,
                k >= 0,
        ;
        lemma_omega_reduce((i + j) * k);
        lemma_omega_reduce(((j + i) % 256) * k);
        assert(((i + j) * k) % 256 == (((j + i) % 256) * k) % 256) by {
            vstd::arithmetic::div_mod::lemma_mul_mod_noop_left(i + j, k, 256);
        }
        assert(((j + i) % 256) * k >= 0) by (nonlinear_arith)
            requires
                (j + i) % 256 >= 0,
                k >= 0,
        ;
        let e1 = pow(omega_val(), ((i + j) * k) as nat);
        let e2 = pow(omega_val(), (((j + i) % 256) * k) as nat);
        lemma_mod_twice(e2, q_int());
        lemma_mul_cong(b[j], b[j], e1, e2 % q_int());
    }
    lemma_sum_cong(offset_term(b, i, k), pshift, 0, 256);
    lemma_sum_shift(pt, pshift, i, 0, 256);
    assert forall|m: int| #[trigger] pt(m + 256) == pt(m) by {
        assert((m + 256) % 256 == m % 256);
        assert((m + 256 - i) % 256 == (m - i) % 256);
    }
    crate::ring::lemma_sum_window(pt, i);
    // Σ_{m<256} P(m) ≡ Σ_m b[(m − i) mod 256]·ω^(mk)
    assert forall|m: int| 0 <= m < 256 implies #[trigger] (pt(m) % q_int()) == conv_inner(b, i, k)(m) % q_int() by {
        assert(m % 256 == m);
        let e = pow(omega_val(), (m * k) as nat);
        lemma_mod_twice(e, q_int());
        lemma_mul_cong(b[(m - i) % 256], b[(m - i) % 256], e % q_int(), e);
    }
    lemma_sum_cong(pt, conv_inner(b, i, k), 0, 256);
}

/// `a[i]·b[(m − i) mod 256]·ω^(m·k)` over `(i, m)`.
spec fn conv_grid(a: Seq<int>, b: Seq<int>, k: int) -> spec_fn(int, int) -> int {
    |i: int, m: int| a[i] * conv_inner(b, i, k)(m)
}

/// The convolution theorem: the DFT of a cyclic convolution is the product of
/// the DFTs, modulo `q`.
pub proof fn lemma_dft_of_convolution(a: Seq<int>, b: Seq<int>, k: int)
    requires
        a.len() == 256,
        b.len() == 256,
        0 <= k < 256,
    ensures
        (dft(a, omega_val(), 256, 0, k) * dft(b, omega_val(), 256, 0, k)) % q_int() == dft(
            cyc_seq(a, b),
            omega_val(),
            256,
            0,
            k,
        ) % q_int(),
{
    assert(256int / 256 == 1);
    let db = dft(b, omega_val(), 256, 0, k);
    let da_term = dft_term(a, omega_val(), 256, 0, k);
    let g = conv_grid(a, b, k);
    // DFT(a)·DFT(b) = Σ_i a[i]·ω^(ik)·DFT(b)
    let scaled = |i: int| db * da_term(i);
    assert forall|i: int| 0 <= i < 256 implies #[trigger] scaled(i) == db * da_term(i) by {}
    lemma_sum_scale(da_term, scaled, db, 0, 256);
    // each term ≡ row i of the grid
    assert forall|i: int| 0 <= i < 256 implies #[trigger] (scaled(i) % q_int()) == crate::ring::row_sums(g, 256)(i)
        % q_int() by {
        assert(i * k >= 0) by (nonlinear_arith)
            requires
                i >= 0,
                k >= 0,
        ;
        let wi = pow(omega_val(), (i * k) as nat);
        lemma_shifted_dft(b, i, k);
        assert(scaled(i) == a[i] * (wi * db)) by (nonlinear_arith)
            requires
                scaled(i) == db * (a[i] * wi),
        ;
        lemma_mul_cong(a[i], a[i], wi * db, range_sum(conv_inner(b, i, k), 0, 256));
        assert forall|m: int| 0 <= m < 256 implies #[trigger] crate::ring::row_fn(g, i)(m) == a[i] * conv_inner(
            b,
            i,
            k,
        )(m) by {}
        lemma_sum_scale(conv_inner(b, i, k), crate::ring::row_fn(g, i), a[i], 0, 256);
    }
    lemma_sum_cong(scaled, crate::ring::row_sums(g, 256), 0, 256);
    crate::ring::lemma_sum_swap(g, 256, 256);
    // column m is c_m·ω^(mk)
    let c = cyc_seq(a, b);
    assert forall|m: int| 0 <= m < 256 implies #[trigger] crate::ring::col_sums(g, 256)(m) == dft_term(
        c,
        omega_val(),
        256,
        0,
        k,
    )(m) by {
        assert(m * k >= 0) by (nonlinear_arith)
            requires
                m >= 0,
                k >= 0,
        ;
        let wm = pow(omega_val(), (m * k) as nat);
        assert forall|i: int| 0 <= i < 256 implies #[trigger] crate::ring::col_fn(g, m)(i) == wm * cyc_term(a, b, m)(
            i,
        ) by {
            let x = a[i];
            let y = b[(m - i) % 256];
            assert(x * (y * wm) == wm * (x * y)) by (nonlinear_arith);
        }
        lemma_sum_scale(cyc_term(a, b, m), crate::ring::col_fn(g, m), wm, 0, 256);
        let cm = range_sum(cyc_term(a, b, m), 0, 256);
        assert(wm * cm == cm * wm) by (nonlinear_arith);
    }
    lemma_sum_ext(crate::ring::col_sums(g, 256), dft_term(c, omega_val(), 256, 0, k), 0, 256);
    let da = dft(a, omega_val(), 256, 0, k);
    assert(da * db == db * da) by (nonlinear_arith);
    assert(range_sum(scaled, 0, 256) == da * db);
    assert(range_sum(crate::ring::row_sums(g, 256), 0, 256) == range_sum(crate::ring::col_sums(g, 256), 0, 256));
    assert(dft(c, omega_val(), 256, 0, k) == range_sum(dft_term(c, omega_val(), 256, 0, k), 0, 256));
}

/// Coefficient-wise product, reduced.
pub open spec fn pointwise(f: Seq<u32>, g: Seq<u32>) -> Seq<u32> {
    Seq::new(256, |k: int| ((f[k] * g[k]) % q_int()) as u32)
}

/// `A_i·B_{(l−i) mod 256}·ψ⁻ˡ ≡ a_i·ext(b, l − i)` for the `ψ`-weighted
/// sequences `A`, `B` of `a`, `b`.
proof fn lemma_unweight_term(a: Seq<u32>, b: Seq<u32>, l: int, i: int)
    requires
        a.len() == 256,
        b.len() == 256,
        0 <= l < 256,
        0 <= i < 256,
    ensures
        (cyc_term(psi_weighted(a), psi_weighted(b), l)(i) * pow(psi_inv_val(), l as nat)) % q_int() == pmul_term(
            u32s_to_ints(a),
            u32s_to_ints(b),
            l,
        )(i) % q_int(),
{
    let j = (l - i) % 256;
    let ai = a[i] as int;
    let bj = b[j] as int;
    let pi = pow(psi_val(), i as nat);
    let pj = pow(psi_val(), j as nat);
    let il = pow(psi_inv_val(), l as nat);
    let pl = pow(psi_val(), l as nat);
    // A_i·B_j ≡ a_i·b_j·ψ^(i+j)
    lemma_mod_twice(ai * pi, q_int());
    lemma_mod_twice(bj * pj, q_int());
    lemma_mul_cong(psi_weighted(a)[i], ai * pi, psi_weighted(b)[j], bj * pj);
    lemma_pow_adds(psi_val(), i as nat, j as nat);
    assert((ai * pi) * (bj * pj) == (ai * bj) * (pi * pj)) by (nonlinear_arith);
    let ab = ai * bj;
    let t = psi_weighted(a)[i] * psi_weighted(b)[j];
    lemma_mul_cong(t, ab * pow(psi_val(), (i + j) as nat), il, il);
    lemma_psi_pow_inv(l as nat);
    if i <= l {
        assert(j == l - i);
        assert(ext(u32s_to_ints(b), l - i) == bj);
        assert(ab * pl * il == ab * (pl * il)) by (nonlinear_arith);
        lemma_mul_cong(ab, ab, pl * il, 1);
    } else {
        assert(j == l - i + 256);
        assert(i + j == l + 256);
        assert((l - i) / 256 == -1);
        assert(ext(u32s_to_ints(b), l - i) == -bj);
        lemma_pow_adds(psi_val(), l as nat, 256);
        lemma_psi_order();
        let p256 = pow(psi_val(), 256);
        assert(ab * (pl * p256) * il == (ab * p256) * (pl * il)) by (nonlinear_arith);
        lemma_mul_cong(ab, ab, p256, q_int() - 1);
        lemma_mul_cong(ab * p256, ab * (q_int() - 1), pl * il, 1);
        assert(ab * (q_int() - 1) == -ab + q_int() * ab) by (nonlinear_arith);
        vstd::arithmetic::div_mod::lemma_mod_multiples_vanish(ab, -ab, q_int());
        assert(ai * (-bj) == -ab) by (nonlinear_arith)
            requires
                ab == ai * bj,
        ;
    }
}

/// Multiplying through the transform is multiplying in `R_q`: the inverse NTT
/// of the coefficient-wise product of two forward NTTs is the negacyclic
/// product, for polynomials with coefficients below `q`.
pub proof fn lemma_ntt_multiplication(a: Seq<u32>, b: Seq<u32>)
    requires
        a.len() == 256,
        b.len() == 256,
        forall|i: int| 0 <= i < 256 ==> #[trigger] a[i] < q_int(),
        forall|i: int| 0 <= i < 256 ==> #[trigger] b[i] < q_int(),
    ensures
        intt_spec(pointwise(ntt_spec(a), ntt_spec(b))) == poly_mul_spec(a, b),
{
    let aw = psi_weighted(a);
    let bw = psi_weighted(b);
    let c = cyc_seq(aw, bw);
    let z = pointwise(ntt_spec(a), ntt_spec(b));
    let zi = u32s_to_ints(z);
    assert forall|k: int| 0 <= k < 256 implies #[trigger] (zi[k] % q_int()) == dft(c, omega_val(), 256, 0, k) % q_int() by {
        let fa = dft(aw, omega_val(), 256, 0, k);
        let fb = dft(bw, omega_val(), 256, 0, k);
        lemma_mod_twice(fa, q_int());
        lemma_mod_twice(fb, q_int());
        lemma_mul_cong(fa % q_int(), fa, fb % q_int(), fb);
        lemma_mod_twice((fa % q_int()) * (fb % q_int()), q_int());
        lemma_dft_of_convolution(aw, bw, k);
    }
    lemma_n_inv_value();
    assert forall|l: int| 0 <= l < 256 implies #[trigger] intt_spec(z)[l] == poly_mul_spec(a, b)[l] by {
        lemma_inverse_dft(c, zi, l);
        let t = dft(zi, omega_inv_val(), 256, 0, l);
        let il = pow(psi_inv_val(), l as nat);
        let cl = c[l];
        // out ≡ 256·c_l·n⁻¹·ψ⁻ˡ ≡ c_l·ψ⁻ˡ
        lemma_mod_twice(t, q_int());
        lemma_mul_cong(t % q_int(), 256 * cl, n_inv_val(), n_inv_val());
        lemma_mod_twice((t % q_int()) * n_inv_val(), q_int());
        lemma_mod_twice(il, q_int());
        lemma_mul_cong(((t % q_int()) * n_inv_val()) % q_int(), 256 * cl * n_inv_val(), il % q_int(), il);
        assert(256 * cl * n_inv_val() == cl * (256 * n_inv_val())) by (nonlinear_arith);
        lemma_mul_cong(cl, cl, 256 * n_inv_val(), 1);
        lemma_mul_cong(cl * (256 * n_inv_val()), cl, il, il);
        // c_l·ψ⁻ˡ ≡ Σ_i a_i·ext(b, l − i)
        let scaled = |i: int| il * cyc_term(aw, bw, l)(i);
        lemma_sum_scale(cyc_term(aw, bw, l), scaled, il, 0, 256);
        assert forall|i: int| 0 <= i < 256 implies #[trigger] (scaled(i) % q_int()) == pmul_term(
            u32s_to_ints(a),
            u32s_to_ints(b),
            l,
        )(i) % q_int() by {
            lemma_unweight_term(a, b, l, i);
            let x = cyc_term(aw, bw, l)(i);
            assert(il * x == x * il) by (nonlinear_arith);
        }
        lemma_sum_cong(scaled, pmul_term(u32s_to_ints(a), u32s_to_ints(b), l), 0, 256);
        assert(cl * il == il * cl) by (nonlinear_arith);
        crate::ring::lemma_nega_is_pmul(u32s_to_ints(a), u32s_to_ints(b), l);
        lemma_mod_twice(pmul(u32s_to_ints(a), u32s_to_ints(b), l), q_int());
    }
    assert(intt_spec(z) =~= poly_mul_spec(a, b));
}

} // verus!
