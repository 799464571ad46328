//! The ring `R_q = Z_q[X]/(X^256 + 1)` as mathematics.
//!
//! Both polynomial representations in this crate (`plp::Poly`, with
//! coefficients in `[0, q)`, and `saap::Polynomial`, with centred
//! coefficients) are specified against the integer-level definitions here, so
//! statements about one carry over to the other.

use vstd::arithmetic::div_mod::{lemma_add_mod_noop, lemma_mul_mod_noop_general, lemma_sub_mod_noop};
use vstd::prelude::*;

verus! {

/// The prime modulus `q = 8_380_417`.
pub open spec fn q_int() -> int {
    8380417
}

/// Coefficients as integers.
pub open spec fn u32s_to_ints(s: Seq<u32>) -> Seq<int> {
    Seq::new(s.len(), |i: int| s[i] as int)
}

/// Coefficients as integers.
pub open spec fn i32s_to_ints(s: Seq<i32>) -> Seq<int> {
    Seq::new(s.len(), |i: int| s[i] as int)
}

/// `sum_{i < lim, 0 <= m - i < 256} a[i] * b[m - i]`: the degree-`m`
/// coefficient of the plain product, restricted to the first `lim` terms of `a`.
pub open spec fn conv_upto(a: Seq<int>, b: Seq<int>, m: int, lim: int) -> int
    decreases lim,
{
    if lim <= 0 {
        0
    } else {
        conv_upto(a, b, m, lim - 1) + (if 0 <= m - (lim - 1) < 256 {
            a[lim - 1] * b[m - (lim - 1)]
        } else {
            0
        })
    }
}

/// Degree-`m` coefficient of the plain product of two degree-255 polynomials.
pub open spec fn conv(a: Seq<int>, b: Seq<int>, m: int) -> int {
    conv_upto(a, b, m, 256)
}

/// Coefficient `k` of `a * b` in `R_q`, reduced into `[0, q)`: `X^256 = -1`
/// folds degree `k + 256` onto degree `k` with a sign change.
pub open spec fn nega_coeff(a: Seq<int>, b: Seq<int>, k: int) -> int {
    (conv(a, b, k) - conv(a, b, k + 256)) % q_int()
}

/// The centred representative of `x mod q`, in `[-(q-1)/2, (q-1)/2]`.
pub open spec fn centered(x: int) -> int {
    let r = x % q_int();
    if r > q_int() / 2 {
        r - q_int()
    } else {
        r
    }
}

/// All entries lie in `[lo, hi]`.
pub open spec fn all_in(s: Seq<int>, lo: int, hi: int) -> bool {
    forall|i: int| 0 <= i < s.len() ==> lo <= #[trigger] s[i] <= hi
}

pub proof fn lemma_conv_upto_bounds(a: Seq<int>, b: Seq<int>, m: int, lim: int, ba: int, bb: int)
    requires
        0 <= lim <= 256,
        a.len() == 256,
        b.len() == 256,
        ba >= 0,
        bb >= 0,
        all_in(a, 0, ba),
        all_in(b, -bb, bb),
    ensures
        -lim * (ba * bb) <= conv_upto(a, b, m, lim) <= lim * (ba * bb),
    decreases lim,
{
    if lim > 0 {
        lemma_conv_upto_bounds(a, b, m, lim - 1, ba, bb);
        if 0 <= m - (lim - 1) < 256 {
            let x = a[lim - 1];
            let y = b[m - (lim - 1)];
            assert(0 <= x <= ba);
            assert(-bb <= y <= bb);
            assert(-(ba * bb) <= x * y <= ba * bb) by (nonlinear_arith)
                requires
                    0 <= x <= ba,
                    -bb <= y <= bb,
            ;
        }
        assert(-lim * (ba * bb) == -(lim - 1) * (ba * bb) - ba * bb) by (nonlinear_arith);
        assert(lim * (ba * bb) == (lim - 1) * (ba * bb) + ba * bb) by (nonlinear_arith);
    }
}

/// Entry-wise congruence modulo `q`.
pub open spec fn congruent_seqs(a: Seq<int>, a2: Seq<int>) -> bool {
    &&& a.len() == a2.len()
    &&& forall|i: int| 0 <= i < a.len() ==> #[trigger] (a[i] % q_int()) == a2[i] % q_int()
}

pub proof fn lemma_conv_upto_congruent(a: Seq<int>, a2: Seq<int>, b: Seq<int>, b2: Seq<int>, m: int, lim: int)
    requires
        0 <= lim <= 256,
        a.len() == 256,
        b.len() == 256,
        congruent_seqs(a, a2),
        congruent_seqs(b, b2),
    ensures
        conv_upto(a, b, m, lim) % q_int() == conv_upto(a2, b2, m, lim) % q_int(),
    decreases lim,
{
    if lim > 0 {
        lemma_conv_upto_congruent(a, a2, b, b2, m, lim - 1);
        let x = conv_upto(a, b, m, lim - 1);
        let x2 = conv_upto(a2, b2, m, lim - 1);
        let (t, t2) = if 0 <= m - (lim - 1) < 256 {
            let i = lim - 1;
            let j = m - (lim - 1);
            lemma_mul_mod_noop_general(a[i], b[j], q_int());
            lemma_mul_mod_noop_general(a2[i], b2[j], q_int());
            assert(a[i] % q_int() == a2[i] % q_int());
            assert(b[j] % q_int() == b2[j] % q_int());
            (a[i] * b[j], a2[i] * b2[j])
        } else {
            (0int, 0int)
        };
        assert(t % q_int() == t2 % q_int());
        lemma_add_mod_noop(x, t, q_int());
        lemma_add_mod_noop(x2, t2, q_int());
    }
}

pub proof fn lemma_nega_congruent(a: Seq<int>, a2: Seq<int>, b: Seq<int>, b2: Seq<int>, k: int)
    requires
        a.len() == 256,
        b.len() == 256,
        congruent_seqs(a, a2),
        congruent_seqs(b, b2),
    ensures
        nega_coeff(a, b, k) == nega_coeff(a2, b2, k),
{
    lemma_conv_upto_congruent(a, a2, b, b2, k, 256);
    lemma_conv_upto_congruent(a, a2, b, b2, k + 256, 256);
    lemma_sub_mod_noop(conv(a, b, k), conv(a, b, k + 256), q_int());
    lemma_sub_mod_noop(conv(a2, b2, k), conv(a2, b2, k + 256), q_int());
}

// ── Finite sums ──────────────────────────────────────────────────────────────

/// `f(lo) + f(lo + 1) + … + f(lo + n - 1)`.
pub open spec fn range_sum(f: spec_fn(int) -> int, lo: int, n: nat) -> int
    decreases n,
{
    if n == 0 {
        0
    } else {
        range_sum(f, lo, (n - 1) as nat) + f(lo + n - 1)
    }
}

/// Sums of functions that agree on the range are equal.
pub proof fn lemma_sum_ext(f: spec_fn(int) -> int, g: spec_fn(int) -> int, lo: int, n: nat)
    requires
        forall|x: int| lo <= x < lo + n ==> #[trigger] f(x) == g(x),
    ensures
        range_sum(f, lo, n) == range_sum(g, lo, n),
    decreases n,
{
    if n > 0 {
        lemma_sum_ext(f, g, lo, (n - 1) as nat);
        assert(f(lo + n - 1) == g(lo + n - 1));
    }
}

/// Peeling off the first term.
pub proof fn lemma_sum_first(f: spec_fn(int) -> int, lo: int, n: nat)
    requires
        n > 0,
    ensures
        range_sum(f, lo, n) == f(lo) + range_sum(f, lo + 1, (n - 1) as nat),
    decreases n,
{
    if n > 1 {
        let n1 = (n - 1) as nat;
        let n2 = (n - 2) as nat;
        lemma_sum_first(f, lo, n1);
        assert(range_sum(f, lo, n) == range_sum(f, lo, n1) + f(lo + n - 1));
        assert(range_sum(f, lo + 1, n1) == range_sum(f, lo + 1, n2) + f(lo + 1 + n1 - 1));
    } else {
        assert(range_sum(f, lo, 1) == range_sum(f, lo, 0) + f(lo));
    }
}

/// The sum of a pointwise sum.
pub proof fn lemma_sum_add(f: spec_fn(int) -> int, g: spec_fn(int) -> int, h: spec_fn(int) -> int, lo: int, n: nat)
    requires
        forall|x: int| lo <= x < lo + n ==> #[trigger] h(x) == f(x) + g(x),
    ensures
        range_sum(h, lo, n) == range_sum(f, lo, n) + range_sum(g, lo, n),
    decreases n,
{
    if n > 0 {
        lemma_sum_add(f, g, h, lo, (n - 1) as nat);
        assert(h(lo + n - 1) == f(lo + n - 1) + g(lo + n - 1));
    }
}

/// The sum of a scaled function.
pub proof fn lemma_sum_scale(f: spec_fn(int) -> int, h: spec_fn(int) -> int, k: int, lo: int, n: nat)
    requires
        forall|x: int| lo <= x < lo + n ==> #[trigger] h(x) == k * f(x),
    ensures
        range_sum(h, lo, n) == k * range_sum(f, lo, n),
    decreases n,
{
    if n > 0 {
        lemma_sum_scale(f, h, k, lo, (n - 1) as nat);
        let s = range_sum(f, lo, (n - 1) as nat);
        let t = f(lo + n - 1);
        assert(h(lo + n - 1) == k * t);
        assert(k * (s + t) == k * s + k * t) by (nonlinear_arith);
    }
}

/// A sum of terms bounded by `g` in absolute value is bounded by the sum of `g`.
pub proof fn lemma_sum_abs_bound(f: spec_fn(int) -> int, g: spec_fn(int) -> int, lo: int, n: nat)
    requires
        forall|x: int| lo <= x < lo + n ==> -#[trigger] g(x) <= f(x) <= g(x),
    ensures
        -range_sum(g, lo, n) <= range_sum(f, lo, n) <= range_sum(g, lo, n),
    decreases n,
{
    if n > 0 {
        lemma_sum_abs_bound(f, g, lo, (n - 1) as nat);
        assert(-g(lo + n - 1) <= f(lo + n - 1) <= g(lo + n - 1));
    }
}

/// Summing `f(c - x)` over a range is summing `f` over the mirrored range.
pub proof fn lemma_sum_reverse(f: spec_fn(int) -> int, g: spec_fn(int) -> int, c: int, lo: int, n: nat)
    requires
        forall|x: int| lo <= x < lo + n ==> #[trigger] g(x) == f(c - x),
    ensures
        range_sum(g, lo, n) == range_sum(f, c - lo - n + 1, n),
    decreases n,
{
    if n > 0 {
        lemma_sum_reverse(f, g, c, lo, (n - 1) as nat);
        lemma_sum_first(f, c - lo - n + 1, n);
        assert(g(lo + n - 1) == f(c - (lo + n - 1)));
    }
}

/// Shifting the summation variable.
pub proof fn lemma_sum_shift(f: spec_fn(int) -> int, g: spec_fn(int) -> int, d: int, lo: int, n: nat)
    requires
        forall|x: int| lo <= x < lo + n ==> #[trigger] g(x) == f(x + d),
    ensures
        range_sum(g, lo, n) == range_sum(f, lo + d, n),
    decreases n,
{
    if n > 0 {
        lemma_sum_shift(f, g, d, lo, (n - 1) as nat);
        assert(g(lo + n - 1) == f(lo + n - 1 + d));
    }
}

/// A 256-periodic function sums to the same value over every window of 256.
pub proof fn lemma_sum_window(f: spec_fn(int) -> int, lo: int)
    requires
        forall|x: int| #[trigger] f(x + 256) == f(x),
    ensures
        range_sum(f, lo, 256) == range_sum(f, 0, 256),
    decreases (if lo >= 0 { lo } else { -lo }),
{
    if lo > 0 {
        lemma_sum_window(f, lo - 1);
        lemma_sum_first(f, lo - 1, 257);
        assert(f(lo - 1 + 256) == f(lo - 1));
    } else if lo < 0 {
        lemma_sum_window(f, lo + 1);
        lemma_sum_first(f, lo, 257);
        assert(f(lo + 256) == f(lo));
    }
}

/// Row `i` of a two-argument function.
pub open spec fn row_fn(h: spec_fn(int, int) -> int, i: int) -> spec_fn(int) -> int {
    |j: int| h(i, j)
}

/// Column `j` of a two-argument function.
pub open spec fn col_fn(h: spec_fn(int, int) -> int, j: int) -> spec_fn(int) -> int {
    |i: int| h(i, j)
}

/// Row sums over `j < m`.
pub open spec fn row_sums(h: spec_fn(int, int) -> int, m: nat) -> spec_fn(int) -> int {
    |i: int| range_sum(row_fn(h, i), 0, m)
}

/// Column sums over `i < n`.
pub open spec fn col_sums(h: spec_fn(int, int) -> int, n: nat) -> spec_fn(int) -> int {
    |j: int| range_sum(col_fn(h, j), 0, n)
}

/// Exchanging the order of a double sum over a rectangle.
pub proof fn lemma_sum_swap(h: spec_fn(int, int) -> int, n: nat, m: nat)
    ensures
        range_sum(row_sums(h, m), 0, n) == range_sum(col_sums(h, n), 0, m),
    decreases n,
{
    if n > 0 {
        let n1 = (n - 1) as nat;
        lemma_sum_swap(h, n1, m);
        assert forall|j: int| 0 <= j < m implies #[trigger] col_sums(h, n)(j) == col_sums(h, n1)(j) + row_fn(
            h,
            n1 as int,
        )(j) by {
            assert(range_sum(col_fn(h, j), 0, n) == range_sum(col_fn(h, j), 0, n1) + col_fn(h, j)(n1 as int));
        }
        lemma_sum_add(col_sums(h, n1), row_fn(h, n1 as int), col_sums(h, n), 0, m);
        assert(range_sum(row_sums(h, m), 0, n) == range_sum(row_sums(h, m), 0, n1) + row_sums(h, m)(n1 as int));
        assert(row_sums(h, m)(n1 as int) == range_sum(row_fn(h, n1 as int), 0, m));
    } else {
        assert forall|j: int| 0 <= j < m implies #[trigger] col_sums(h, n)(j) == 0 by {
            assert(range_sum(col_fn(h, j), 0, 0) == 0);
        }
        lemma_sum_zero(col_sums(h, n), 0, m);
    }
}

/// A sum of zeros.
pub proof fn lemma_sum_zero(f: spec_fn(int) -> int, lo: int, n: nat)
    requires
        forall|x: int| lo <= x < lo + n ==> #[trigger] f(x) == 0,
    ensures
        range_sum(f, lo, n) == 0,
    decreases n,
{
    if n > 0 {
        lemma_sum_zero(f, lo, (n - 1) as nat);
        assert(f(lo + n - 1) == 0);
    }
}

// ── The negacyclic product over the integers ─────────────────────────────────

/// The signed periodic extension of a 256-coefficient sequence. In `R` the
/// identity `X^256 = -1` makes index `m + 256` carry the negation of index `m`.
pub open spec fn ext(b: Seq<int>, m: int) -> int {
    if (m / 256) % 2 == 0 {
        b[m % 256]
    } else {
        -b[m % 256]
    }
}

/// The terms `a[i]·ext(b, k - i)` of coefficient `k` of `a·b`.
pub open spec fn pmul_term(a: Seq<int>, b: Seq<int>, k: int) -> spec_fn(int) -> int {
    |i: int| a[i] * ext(b, k - i)
}

/// Coefficient `k` of `a·b` in `Z[X]/(X^256 + 1)`, unreduced; for `k` outside
/// `[0, 256)` it follows the same signed extension as [`ext`].
pub open spec fn pmul(a: Seq<int>, b: Seq<int>, k: int) -> int {
    range_sum(pmul_term(a, b, k), 0, 256)
}

/// `a·b` in `Z[X]/(X^256 + 1)`.
pub open spec fn pmul_seq(a: Seq<int>, b: Seq<int>) -> Seq<int> {
    Seq::new(256, |k: int| pmul(a, b, k))
}

/// Entry-wise sum of two coefficient sequences.
pub open spec fn seq_add(a: Seq<int>, b: Seq<int>) -> Seq<int> {
    Seq::new(256, |i: int| a[i] + b[i])
}

pub proof fn lemma_ext_in_range(b: Seq<int>, m: int)
    requires
        0 <= m < 256,
    ensures
        ext(b, m) == b[m],
{
}

pub proof fn lemma_ext_shift(b: Seq<int>, m: int)
    ensures
        ext(b, m + 256) == -ext(b, m),
        ext(b, m - 256) == -ext(b, m),
{
    assert((m + 256) / 256 == m / 256 + 1);
    assert((m + 256) % 256 == m % 256);
    assert((m - 256) / 256 == m / 256 - 1);
    assert((m - 256) % 256 == m % 256);
}

/// Coefficient `k + 256` of the extension is the negation of coefficient `k`.
pub proof fn lemma_pmul_shift(a: Seq<int>, b: Seq<int>, m: int)
    ensures
        pmul(a, b, m + 256) == -pmul(a, b, m),
{
    assert forall|i: int| 0 <= i < 256 implies #[trigger] pmul_term(a, b, m + 256)(i) == -1 * pmul_term(a, b, m)(i) by {
        lemma_ext_shift(b, m - i);
        let x = a[i];
        let y = ext(b, m - i);
        assert(x * (-y) == -1 * (x * y)) by (nonlinear_arith);
    }
    lemma_sum_scale(pmul_term(a, b, m), pmul_term(a, b, m + 256), -1, 0, 256);
}

/// The extension of a product is the product's own coefficient formula.
pub proof fn lemma_ext_pmul_seq(a: Seq<int>, b: Seq<int>, m: int)
    ensures
        ext(pmul_seq(a, b), m) == pmul(a, b, m),
    decreases (if m >= 256 { m } else if m < 0 { 256 - m } else { 0 }),
{
    if m >= 256 {
        lemma_ext_pmul_seq(a, b, m - 256);
        lemma_ext_shift(pmul_seq(a, b), m - 256);
        lemma_pmul_shift(a, b, m - 256);
    } else if m < 0 {
        lemma_ext_pmul_seq(a, b, m + 256);
        lemma_ext_shift(pmul_seq(a, b), m + 256);
        lemma_pmul_shift(a, b, m);
    }
}

/// The prefix sums of the product terms are the folded plain convolution.
proof fn lemma_pmul_prefix(a: Seq<int>, b: Seq<int>, k: int, lim: nat)
    requires
        0 <= k < 256,
        lim <= 256,
    ensures
        range_sum(pmul_term(a, b, k), 0, lim) == conv_upto(a, b, k, lim as int) - conv_upto(a, b, k + 256, lim as int),
    decreases lim,
{
    if lim > 0 {
        lemma_pmul_prefix(a, b, k, (lim - 1) as nat);
        let i = lim - 1;
        assert(range_sum(pmul_term(a, b, k), 0, lim) == range_sum(pmul_term(a, b, k), 0, (lim - 1) as nat)
            + pmul_term(a, b, k)(i));
        assert(conv_upto(a, b, k, lim as int) == conv_upto(a, b, k, i) + (if 0 <= k - i < 256 {
            a[i] * b[k - i]
        } else {
            0
        }));
        assert(conv_upto(a, b, k + 256, lim as int) == conv_upto(a, b, k + 256, i) + (if 0 <= k + 256 - i < 256 {
            a[i] * b[k + 256 - i]
        } else {
            0
        }));
        if i <= k {
            lemma_ext_in_range(b, k - i);
        } else {
            lemma_ext_shift(b, k - i + 256);
            lemma_ext_in_range(b, k - i + 256);
            assert(k - i + 256 - 256 == k - i);
            let x = a[i];
            let y = b[k - i + 256];
            assert(x * (-y) == -(x * y)) by (nonlinear_arith);
        }
    }
}

/// [`nega_coeff`] is the integer product reduced into `[0, q)`.
pub proof fn lemma_nega_is_pmul(a: Seq<int>, b: Seq<int>, k: int)
    requires
        0 <= k < 256,
    ensures
        nega_coeff(a, b, k) == pmul(a, b, k) % q_int(),
{
    lemma_pmul_prefix(a, b, k, 256);
}

/// `ext(a, x)·ext(b, k - x)`: a 256-periodic function of `x`.
pub open spec fn cross(a: Seq<int>, b: Seq<int>, k: int) -> spec_fn(int) -> int {
    |x: int| ext(a, x) * ext(b, k - x)
}

proof fn lemma_cross_periodic(a: Seq<int>, b: Seq<int>, k: int)
    ensures
        forall|x: int| #[trigger] cross(a, b, k)(x + 256) == cross(a, b, k)(x),
{
    assert forall|x: int| #[trigger] cross(a, b, k)(x + 256) == cross(a, b, k)(x) by {
        lemma_ext_shift(a, x);
        lemma_ext_shift(b, k - x);
        assert(k - (x + 256) == (k - x) - 256);
        let p = ext(a, x);
        let q = ext(b, k - x);
        assert((-p) * (-q) == p * q) by (nonlinear_arith);
    }
}

/// The product as a sum of [`cross`] over one period.
proof fn lemma_pmul_cross(a: Seq<int>, b: Seq<int>, k: int)
    ensures
        pmul(a, b, k) == range_sum(cross(a, b, k), 0, 256),
{
    assert forall|i: int| 0 <= i < 256 implies #[trigger] pmul_term(a, b, k)(i) == cross(a, b, k)(i) by {
        lemma_ext_in_range(a, i);
    }
    lemma_sum_ext(pmul_term(a, b, k), cross(a, b, k), 0, 256);
}

/// The negacyclic product commutes.
pub proof fn lemma_pmul_comm(a: Seq<int>, b: Seq<int>, k: int)
    ensures
        pmul(a, b, k) == pmul(b, a, k),
{
    lemma_pmul_cross(a, b, k);
    lemma_pmul_cross(b, a, k);
    assert forall|x: int| 0 <= x < 256 implies #[trigger] cross(b, a, k)(x) == cross(a, b, k)(k - x) by {
        assert(k - (k - x) == x);
        let p = ext(b, x);
        let q = ext(a, k - x);
        assert(p * q == q * p) by (nonlinear_arith);
    }
    lemma_sum_reverse(cross(a, b, k), cross(b, a, k), k, 0, 256);
    lemma_cross_periodic(a, b, k);
    lemma_sum_window(cross(a, b, k), k - 255);
}

/// The product sequence commutes.
pub proof fn lemma_pmul_seq_comm(a: Seq<int>, b: Seq<int>)
    ensures
        pmul_seq(a, b) == pmul_seq(b, a),
{
    assert forall|k: int| 0 <= k < 256 implies #[trigger] pmul_seq(a, b)[k] == pmul_seq(b, a)[k] by {
        lemma_pmul_comm(a, b, k);
    }
    assert(pmul_seq(a, b) =~= pmul_seq(b, a));
}

/// `a[i]·ext(b, l - i)·ext(c, k - l)`: the double sum of `(a·b)·c`.
spec fn assoc_grid(a: Seq<int>, b: Seq<int>, c: Seq<int>, k: int) -> spec_fn(int, int) -> int {
    |i: int, l: int| a[i] * (ext(b, l - i) * ext(c, k - l))
}

/// `ext(b, l - i)·ext(c, k - l)` as a function of `l`.
spec fn lane(b: Seq<int>, c: Seq<int>, k: int, i: int) -> spec_fn(int) -> int {
    |l: int| ext(b, l - i) * ext(c, k - l)
}

/// The negacyclic product is associative.
pub proof fn lemma_pmul_assoc(a: Seq<int>, b: Seq<int>, c: Seq<int>, k: int)
    ensures
        pmul(a, pmul_seq(b, c), k) == pmul(pmul_seq(a, b), c, k),
{
    let g = assoc_grid(a, b, c, k);
    // Left side: Σ_i a[i]·pmul(b, c, k - i).
    let left = |i: int| a[i] * pmul(b, c, k - i);
    assert forall|i: int| 0 <= i < 256 implies #[trigger] pmul_term(a, pmul_seq(b, c), k)(i) == left(i) by {
        lemma_ext_pmul_seq(b, c, k - i);
    }
    lemma_sum_ext(pmul_term(a, pmul_seq(b, c), k), left, 0, 256);
    // Right side, by columns: Σ_l pmul(a, b, l)·ext(c, k - l).
    assert forall|l: int| 0 <= l < 256 implies #[trigger] pmul_term(pmul_seq(a, b), c, k)(l) == col_sums(g, 256)(
        l,
    ) by {
        let e = ext(c, k - l);
        assert forall|i: int| 0 <= i < 256 implies #[trigger] col_fn(g, l)(i) == e * pmul_term(a, b, l)(i) by {
            let x = a[i];
            let y = ext(b, l - i);
            assert(x * (y * e) == e * (x * y)) by (nonlinear_arith);
        }
        lemma_sum_scale(pmul_term(a, b, l), col_fn(g, l), e, 0, 256);
        let p = pmul(a, b, l);
        assert(p * e == e * p) by (nonlinear_arith);
    }
    lemma_sum_ext(pmul_term(pmul_seq(a, b), c, k), col_sums(g, 256), 0, 256);
    lemma_sum_swap(g, 256, 256);
    // Each row sums to a[i]·pmul(b, c, k - i).
    assert forall|i: int| 0 <= i < 256 implies #[trigger] row_sums(g, 256)(i) == left(i) by {
        let ln = lane(b, c, k, i);
        assert forall|l: int| 0 <= l < 256 implies #[trigger] row_fn(g, i)(l) == a[i] * ln(l) by {}
        lemma_sum_scale(ln, row_fn(g, i), a[i], 0, 256);
        assert forall|l: int| 0 <= l < 256 implies #[trigger] ln(l) == cross(b, c, k - i)(l + (-i)) by {
            assert(k - i - (l - i) == k - l);
        }
        lemma_sum_shift(cross(b, c, k - i), ln, -i, 0, 256);
        lemma_cross_periodic(b, c, k - i);
        lemma_sum_window(cross(b, c, k - i), -i);
        lemma_pmul_cross(b, c, k - i);
    }
    lemma_sum_ext(row_sums(g, 256), left, 0, 256);
}

/// `a·(b·c) = b·(a·c)`.
pub proof fn lemma_pmul_left_comm(a: Seq<int>, b: Seq<int>, c: Seq<int>, k: int)
    ensures
        pmul(a, pmul_seq(b, c), k) == pmul(b, pmul_seq(a, c), k),
{
    lemma_pmul_assoc(a, b, c, k);
    lemma_pmul_seq_comm(a, b);
    lemma_pmul_assoc(b, a, c, k);
}

/// The product distributes over a sum in its second argument.
pub proof fn lemma_pmul_add(a: Seq<int>, b: Seq<int>, b2: Seq<int>, k: int)
    ensures
        pmul(a, seq_add(b, b2), k) == pmul(a, b, k) + pmul(a, b2, k),
{
    assert forall|i: int| 0 <= i < 256 implies #[trigger] pmul_term(a, seq_add(b, b2), k)(i) == pmul_term(a, b, k)(i)
        + pmul_term(a, b2, k)(i) by {
        let m = k - i;
        assert(0 <= m % 256 < 256);
        let x = a[i];
        let y = ext(b, m);
        let z = ext(b2, m);
        assert(ext(seq_add(b, b2), m) == y + z);
        assert(x * (y + z) == x * y + x * z) by (nonlinear_arith);
    }
    lemma_sum_add(pmul_term(a, b, k), pmul_term(a, b2, k), pmul_term(a, seq_add(b, b2), k), 0, 256);
}

/// `|x|`.
pub open spec fn int_abs(x: int) -> int {
    if x < 0 {
        -x
    } else {
        x
    }
}

/// The absolute values of a sequence's entries, as a function of the index.
pub open spec fn abs_terms(s: Seq<int>) -> spec_fn(int) -> int {
    |k: int| int_abs(s[k])
}

/// Changing one term of a sum changes the sum by the difference.
pub proof fn lemma_sum_update(f: spec_fn(int) -> int, g: spec_fn(int) -> int, p: int, lo: int, n: nat)
    requires
        lo <= p < lo + n,
        forall|x: int| lo <= x < lo + n && x != p ==> #[trigger] f(x) == g(x),
    ensures
        range_sum(g, lo, n) == range_sum(f, lo, n) - f(p) + g(p),
    decreases n,
{
    let n1 = (n - 1) as nat;
    if p == lo + n1 {
        lemma_sum_ext(f, g, lo, n1);
    } else {
        lemma_sum_update(f, g, p, lo, n1);
        assert(f(lo + n1) == g(lo + n1));
    }
}

/// `|c·e|∞ ≤ β_e·‖c‖₁` for coefficients of `e` bounded by `β_e`.
pub proof fn lemma_pmul_small_bound(c: Seq<int>, e: Seq<int>, k: int, l1: int, be: int)
    requires
        e.len() == 256,
        be >= 0,
        forall|i: int| 0 <= i < 256 ==> -be <= #[trigger] e[i] <= be,
        range_sum(abs_terms(c), 0, 256) <= l1,
    ensures
        -(be * l1) <= pmul(c, e, k) <= be * l1,
{
    let g = |i: int| be * abs_terms(c)(i);
    assert forall|i: int| 0 <= i < 256 implies -#[trigger] g(i) <= pmul_term(c, e, k)(i) <= g(i) by {
        let m = k - i;
        assert(0 <= m % 256 < 256);
        let y = ext(e, m);
        assert(-be <= y <= be);
        let x = c[i];
        assert(-(be * int_abs(x)) <= x * y <= be * int_abs(x)) by (nonlinear_arith)
            requires
                -be <= y <= be,
                be >= 0,
        ;
    }
    lemma_sum_abs_bound(pmul_term(c, e, k), g, 0, 256);
    lemma_sum_scale(abs_terms(c), g, be, 0, 256);
    let t = range_sum(abs_terms(c), 0, 256);
    assert(be * t <= be * l1) by (nonlinear_arith)
        requires
            be >= 0,
            t <= l1,
    ;
}

// ── Congruence of coefficient sequences ──────────────────────────────────────

/// Entry-wise difference of two coefficient sequences.
pub open spec fn seq_sub(a: Seq<int>, b: Seq<int>) -> Seq<int> {
    Seq::new(256, |i: int| a[i] - b[i])
}

pub proof fn lemma_cong_refl(a: Seq<int>)
    ensures
        congruent_seqs(a, a),
{
}

pub proof fn lemma_cong_sym(a: Seq<int>, b: Seq<int>)
    requires
        congruent_seqs(a, b),
    ensures
        congruent_seqs(b, a),
{
    assert forall|i: int| 0 <= i < b.len() implies #[trigger] (b[i] % q_int()) == a[i] % q_int() by {
        assert(a[i] % q_int() == b[i] % q_int());
    }
}

pub proof fn lemma_cong_trans(a: Seq<int>, b: Seq<int>, c: Seq<int>)
    requires
        congruent_seqs(a, b),
        congruent_seqs(b, c),
    ensures
        congruent_seqs(a, c),
{
    assert forall|i: int| 0 <= i < a.len() implies #[trigger] (a[i] % q_int()) == c[i] % q_int() by {
        assert(a[i] % q_int() == b[i] % q_int());
        assert(b[i] % q_int() == c[i] % q_int());
    }
}

pub proof fn lemma_seq_add_cong(a: Seq<int>, a2: Seq<int>, b: Seq<int>, b2: Seq<int>)
    requires
        a.len() == 256,
        b.len() == 256,
        congruent_seqs(a, a2),
        congruent_seqs(b, b2),
    ensures
        congruent_seqs(seq_add(a, b), seq_add(a2, b2)),
{
    assert forall|i: int| 0 <= i < 256 implies #[trigger] (seq_add(a, b)[i] % q_int()) == seq_add(a2, b2)[i]
        % q_int() by {
        assert(a[i] % q_int() == a2[i] % q_int());
        assert(b[i] % q_int() == b2[i] % q_int());
        lemma_add_mod_noop(a[i], b[i], q_int());
        lemma_add_mod_noop(a2[i], b2[i], q_int());
    }
}

pub proof fn lemma_seq_sub_cong(a: Seq<int>, a2: Seq<int>, b: Seq<int>, b2: Seq<int>)
    requires
        a.len() == 256,
        b.len() == 256,
        congruent_seqs(a, a2),
        congruent_seqs(b, b2),
    ensures
        congruent_seqs(seq_sub(a, b), seq_sub(a2, b2)),
{
    assert forall|i: int| 0 <= i < 256 implies #[trigger] (seq_sub(a, b)[i] % q_int()) == seq_sub(a2, b2)[i]
        % q_int() by {
        assert(a[i] % q_int() == a2[i] % q_int());
        assert(b[i] % q_int() == b2[i] % q_int());
        lemma_sub_mod_noop(a[i], b[i], q_int());
        lemma_sub_mod_noop(a2[i], b2[i], q_int());
    }
}

pub proof fn lemma_pmul_seq_cong(a: Seq<int>, a2: Seq<int>, b: Seq<int>, b2: Seq<int>)
    requires
        a.len() == 256,
        b.len() == 256,
        congruent_seqs(a, a2),
        congruent_seqs(b, b2),
    ensures
        congruent_seqs(pmul_seq(a, b), pmul_seq(a2, b2)),
{
    assert forall|k: int| 0 <= k < 256 implies #[trigger] (pmul_seq(a, b)[k] % q_int()) == pmul_seq(a2, b2)[k]
        % q_int() by {
        lemma_nega_congruent(a, a2, b, b2, k);
        lemma_nega_is_pmul(a, b, k);
        lemma_nega_is_pmul(a2, b2, k);
    }
}

/// `a·(b + c) = a·b + a·c` for whole products.
pub proof fn lemma_pmul_seq_add(a: Seq<int>, b: Seq<int>, c: Seq<int>)
    ensures
        pmul_seq(a, seq_add(b, c)) == seq_add(pmul_seq(a, b), pmul_seq(a, c)),
{
    assert forall|k: int| 0 <= k < 256 implies #[trigger] pmul_seq(a, seq_add(b, c))[k] == seq_add(
        pmul_seq(a, b),
        pmul_seq(a, c),
    )[k] by {
        lemma_pmul_add(a, b, c, k);
    }
    assert(pmul_seq(a, seq_add(b, c)) =~= seq_add(pmul_seq(a, b), pmul_seq(a, c)));
}

/// `a·(b·c) = b·(a·c)` for whole products.
pub proof fn lemma_pmul_seq_left_comm(a: Seq<int>, b: Seq<int>, c: Seq<int>)
    ensures
        pmul_seq(a, pmul_seq(b, c)) == pmul_seq(b, pmul_seq(a, c)),
{
    assert forall|k: int| 0 <= k < 256 implies #[trigger] pmul_seq(a, pmul_seq(b, c))[k] == pmul_seq(
        b,
        pmul_seq(a, c),
    )[k] by {
        lemma_pmul_left_comm(a, b, c, k);
    }
    assert(pmul_seq(a, pmul_seq(b, c)) =~= pmul_seq(b, pmul_seq(a, c)));
}

} // verus!
