//! SHAKE-256 / SHA3-256 access and the deterministic samplers built on them.
//!
//! Every derivation in this crate reads a SHAKE-256 output stream. The stream
//! is modelled by [`shake256_output`], the first `len` bytes of SHAKE-256 over
//! an input, and the samplers are stated as functions of that stream.

use vstd::prelude::*;
use sha3::digest::{ExtendableOutput, Update, XofReader};
use sha3::{Sha3_256, Shake256};
use zeroize::Zeroize;
use crate::ring::{abs_terms, lemma_sum_update, lemma_sum_zero, range_sum};

verus! {

/// The first `len` bytes of SHAKE-256 absorbed over `input`.
pub uninterp spec fn shake256_output(input: Seq<u8>, len: nat) -> Seq<u8>;

/// The 32-byte SHA3-256 digest of `input`.
pub uninterp spec fn sha3_256_digest(input: Seq<u8>) -> Seq<u8>;

/// Squeeze `len` bytes of SHAKE-256 over `input` (sha3 `Shake256`: `update`,
/// `finalize_xof`, `XofReader::read`).
///
/// Claims: the output has `len` bytes and is the named SHAKE-256 output; and,
/// since SHAKE-256 is an extendable-output function, every shorter squeeze of
/// the same input is a prefix of this one.
#[verifier::external_body]
pub(crate) fn shake256(input: &[u8], len: usize) -> (out: Vec<u8>)
    ensures
        out@.len() == len,
        out@ == shake256_output(input@, len as nat),
        forall|n: nat| n <= len ==> #[trigger] shake256_output(input@, n) == out@.subrange(0, n as int),
{
    let mut hasher = Shake256::default();
    Update::update(&mut hasher, input);
    let mut reader = hasher.finalize_xof();
    let mut out = vec![0u8; len];
    reader.read(&mut out);
    out
}

/// SHA3-256 of `input` (sha3 `Sha3_256`: `update`, `finalize`).
///
/// Claims: the result is the named 32-byte digest of `input`.
#[verifier::external_body]
pub(crate) fn sha3_256(input: &[u8]) -> (out: [u8; 32])
    ensures
        out@ == sha3_256_digest(input@),
{
    let mut hasher = <Sha3_256 as sha3::Digest>::new();
    sha3::Digest::update(&mut hasher, input);
    let digest = sha3::Digest::finalize(hasher);
    let mut out = [0u8; 32];
    out.copy_from_slice(&digest);
    out
}

/// Wipe a coefficient array with `zeroize` (volatile writes).
///
/// Claims: every entry is zero afterwards, and the call does not panic.
#[verifier::external_body]
pub(crate) fn wipe_u32s(a: &mut [u32; 256])
    ensures
        forall|i: int| 0 <= i < 256 ==> #[trigger] final(a)@[i] == 0,
    no_unwind
{
    a.zeroize();
}

/// Wipe a centred coefficient array with `zeroize` (volatile writes).
///
/// Claims: every entry is zero afterwards, and the call does not panic.
#[verifier::external_body]
pub(crate) fn wipe_i32s(a: &mut [i32; 256])
    ensures
        forall|i: int| 0 <= i < 256 ==> #[trigger] final(a)@[i] == 0,
    no_unwind
{
    a.zeroize();
}

/// Wipe a vector of field elements with `zeroize`, which zeroes the entries
/// and then clears the vector.
///
/// Claims: the vector is empty afterwards.
#[verifier::external_body]
pub(crate) fn wipe_u64_vec(v: &mut Vec<u64>)
    ensures
        final(v)@.len() == 0,
{
    v.zeroize();
}

/// Wipe a 32-byte array with `zeroize` (volatile writes).
///
/// Claims: every byte is zero afterwards.
#[verifier::external_body]
pub(crate) fn wipe_bytes32(a: &mut [u8; 32])
    ensures
        forall|i: int| 0 <= i < 32 ==> #[trigger] final(a)@[i] == 0,
{
    a.zeroize();
}

/// Byte `i` of the SHAKE-256 stream over `input`.
pub open spec fn xof_byte(input: Seq<u8>, i: int) -> u8 {
    shake256_output(input, (i + 1) as nat)[i]
}

/// Upper bound on how far into one stream a sampler reads.
///
/// Each sampler is stated over the stream's first `XOF_BYTE_CAP` bytes. Every
/// sampler here needs far fewer bytes than this with overwhelming probability;
/// see each sampler for what it yields if the prefix runs short.
pub const XOF_BYTE_CAP: usize = 1048576;

// ── Little-endian encodings ──────────────────────────────────────────────────

/// Little-endian bytes of a `u32`.
pub open spec fn le_u32(x: u32) -> Seq<u8> {
    seq![(x % 256) as u8, ((x / 256) % 256) as u8, ((x / 65536) % 256) as u8, ((x / 16777216) % 256) as u8]
}

/// Little-endian bytes of a `u64`.
pub open spec fn le_u64(x: u64) -> Seq<u8> {
    le_u32((x % 4294967296) as u32) + le_u32((x / 4294967296) as u32)
}

/// Append `s` to `v`.
pub(crate) fn push_bytes(v: &mut Vec<u8>, s: &[u8])
    ensures
        final(v)@ == old(v)@ + s@,
{
    let ghost start = v@;
    let mut i: usize = 0;
    while i < s.len()
        invariant
            i <= s@.len(),
            v@ == start + s@.subrange(0, i as int),
        decreases s@.len() - i,
    {
        v.push(s[i]);
        i += 1;
        assert(v@ =~= start + s@.subrange(0, i as int));
    }
    assert(s@.subrange(0, s@.len() as int) =~= s@);
}

/// Append the little-endian bytes of `x` to `v`.
pub(crate) fn push_u32_le(v: &mut Vec<u8>, x: u32)
    ensures
        final(v)@ == old(v)@ + le_u32(x),
{
    let b0 = (x & 0xff) as u8;
    let b1 = ((x >> 8) & 0xff) as u8;
    let b2 = ((x >> 16) & 0xff) as u8;
    let b3 = ((x >> 24) & 0xff) as u8;
    assert(b0 == (x % 256) as u8 && b1 == ((x / 256) % 256) as u8 && b2 == ((x / 65536) % 256) as u8
        && b3 == ((x / 16777216) % 256) as u8) by (bit_vector)
        requires
            b0 == (x & 0xff) as u8,
            b1 == ((x >> 8) & 0xff) as u8,
            b2 == ((x >> 16) & 0xff) as u8,
            b3 == ((x >> 24) & 0xff) as u8,
    ;
    let ghost start = v@;
    v.push(b0);
    v.push(b1);
    v.push(b2);
    v.push(b3);
    assert(v@ =~= start + le_u32(x));
}

/// Append the little-endian bytes of `x` to `v`.
pub(crate) fn push_u64_le(v: &mut Vec<u8>, x: u64)
    ensures
        final(v)@ == old(v)@ + le_u64(x),
{
    let lo = (x & 0xffff_ffff) as u32;
    let hi = (x >> 32) as u32;
    assert(lo == (x % 4294967296) as u32 && hi == (x / 4294967296) as u32) by (bit_vector)
        requires
            lo == (x & 0xffff_ffff) as u32,
            hi == (x >> 32) as u32,
    ;
    let ghost start = v@;
    push_u32_le(v, lo);
    push_u32_le(v, hi);
    assert(v@ =~= start + le_u64(x));
}

/// Decode four little-endian bytes.
pub(crate) fn u32_from_le(b0: u8, b1: u8, b2: u8, b3: u8) -> (r: u32)
    ensures
        r as int == b0 as int + 256 * (b1 as int) + 65536 * (b2 as int) + 16777216 * (b3 as int),
        le_u32(r) == seq![b0, b1, b2, b3],
{
    let r = (b0 as u32) | ((b1 as u32) << 8) | ((b2 as u32) << 16) | ((b3 as u32) << 24);
    assert(r as int == b0 as int + 256 * (b1 as int) + 65536 * (b2 as int) + 16777216 * (b3 as int)
        && (r % 256) as u8 == b0 && ((r / 256) % 256) as u8 == b1 && ((r / 65536) % 256) as u8 == b2
        && ((r / 16777216) % 256) as u8 == b3) by (bit_vector)
        requires
            r == (b0 as u32) | ((b1 as u32) << 8) | ((b2 as u32) << 16) | ((b3 as u32) << 24),
    ;
    assert(le_u32(r) =~= seq![b0, b1, b2, b3]);
    r
}

// ── The stream ───────────────────────────────────────────────────────────────

/// A SHAKE-256 output stream over a fixed input, read by position.
pub(crate) struct XofStream {
    input: Vec<u8>,
    buf: Vec<u8>,
}

impl XofStream {
    /// The absorbed input.
    pub(crate) closed spec fn source(&self) -> Seq<u8> {
        self.input@
    }

    /// The buffer is a squeezed prefix of the stream.
    pub(crate) closed spec fn wf(&self) -> bool {
        &&& self.buf@.len() <= XOF_BYTE_CAP
        &&& forall|n: nat|
            n <= self.buf@.len() ==> #[trigger] shake256_output(self.input@, n) == self.buf@.subrange(0, n as int)
    }

    /// How many bytes of the stream are squeezed and held.
    pub(crate) closed spec fn squeezed(&self) -> nat {
        self.buf@.len()
    }

    /// Start a stream over `input`, squeezing `initial` bytes up front.
    pub(crate) fn new(input: Vec<u8>, initial: usize) -> (s: Self)
        requires
            initial <= XOF_BYTE_CAP,
        ensures
            s.wf(),
            s.source() == input@,
    {
        let buf = shake256(&input, initial);
        XofStream { input, buf }
    }

    /// Squeeze at least `len` bytes now, so that a reader that will need about
    /// that many does not re-squeeze the stream as it grows.
    pub(crate) fn reserve(&mut self, len: usize)
        requires
            old(self).wf(),
            len <= XOF_BYTE_CAP,
        ensures
            final(self).wf(),
            final(self).source() == old(self).source(),
            final(self).squeezed() == if len > old(self).squeezed() { len as nat } else { old(self).squeezed() },
    {
        if len > self.buf.len() {
            self.buf = shake256(&self.input, len);
        }
    }

    /// Byte `pos` of the stream.
    pub(crate) fn byte(&mut self, pos: usize) -> (r: u8)
        requires
            old(self).wf(),
            pos < XOF_BYTE_CAP,
        ensures
            final(self).wf(),
            final(self).source() == old(self).source(),
            r == xof_byte(old(self).source(), pos as int),
    {
        if pos >= self.buf.len() {
            let len = self.buf.len();
            let mut new_len = if len > XOF_BYTE_CAP / 2 { XOF_BYTE_CAP } else { 2 * len };
            if new_len <= pos {
                new_len = pos + 1;
            }
            self.buf = shake256(&self.input, new_len);
        }
        let r = self.buf[pos];
        proof {
            let n = (pos + 1) as nat;
            assert(shake256_output(self.input@, n) == self.buf@.subrange(0, n as int));
        }
        r
    }
}

// ── Rejection sampling over fixed-width groups ───────────────────────────────

/// The value of group `g` of `width` bytes.
///
/// Width 3: a 23-bit little-endian value (top bit of the third byte dropped).
/// Width 4: a 31-bit little-endian value (top bit of the fourth byte dropped).
pub open spec fn group_value(input: Seq<u8>, width: int, g: int) -> int {
    let b0 = xof_byte(input, width * g) as int;
    let b1 = xof_byte(input, width * g + 1) as int;
    let b2 = xof_byte(input, width * g + 2) as int;
    if width == 3 {
        b0 + 256 * b1 + 65536 * (b2 % 128)
    } else {
        let b3 = xof_byte(input, width * g + 3) as int;
        b0 + 256 * b1 + 65536 * b2 + 16777216 * (b3 % 128)
    }
}

/// The values below `bound` among the first `g` groups, in stream order,
/// keeping at most `limit` of them.
pub open spec fn accepted_values(input: Seq<u8>, width: int, bound: int, limit: nat, g: nat) -> Seq<int>
    decreases g,
{
    if g == 0 {
        seq![]
    } else {
        let prev = accepted_values(input, width, bound, limit, (g - 1) as nat);
        let v = group_value(input, width, g - 1);
        if prev.len() < limit && v < bound {
            prev.push(v)
        } else {
            prev
        }
    }
}

/// How many groups of `width` bytes fit under the stream cap.
pub open spec fn group_cap(width: int) -> nat {
    (XOF_BYTE_CAP as int / width) as nat
}

/// The first `limit` values below `bound`, scanning the capped stream.
///
/// This is fewer than `limit` values only if the first [`XOF_BYTE_CAP`]
/// bytes hold fewer than `limit` acceptable groups.
pub open spec fn rejection_sample(input: Seq<u8>, width: int, bound: int, limit: nat) -> Seq<int> {
    accepted_values(input, width, bound, limit, group_cap(width))
}

pub proof fn lemma_accepted_bounds(input: Seq<u8>, width: int, bound: int, limit: nat, g: nat)
    ensures
        accepted_values(input, width, bound, limit, g).len() <= limit,
        accepted_values(input, width, bound, limit, g).len() <= g,
        forall|i: int|
            0 <= i < accepted_values(input, width, bound, limit, g).len() ==> 0 <= #[trigger] accepted_values(
                input,
                width,
                bound,
                limit,
                g,
            )[i] < bound,
    decreases g,
{
    if g > 0 {
        lemma_accepted_bounds(input, width, bound, limit, (g - 1) as nat);
        let prev = accepted_values(input, width, bound, limit, (g - 1) as nat);
        let v = group_value(input, width, g - 1);
        assert(0 <= xof_byte(input, width * (g - 1)) && 0 <= xof_byte(input, width * (g - 1) + 1));
        assert(0 <= v);
    }
}

pub proof fn lemma_accepted_saturates(input: Seq<u8>, width: int, bound: int, limit: nat, g1: nat, g2: nat)
    requires
        g1 <= g2,
        accepted_values(input, width, bound, limit, g1).len() >= limit,
    ensures
        accepted_values(input, width, bound, limit, g2) == accepted_values(input, width, bound, limit, g1),
    decreases g2 - g1,
{
    if g2 > g1 {
        lemma_accepted_saturates(input, width, bound, limit, g1, (g2 - 1) as nat);
    }
}

/// Rejection-sample up to `limit` group values below `bound` from `stream`.
pub(crate) fn sample_rejection(stream: &mut XofStream, width: usize, bound: u32, limit: usize) -> (out: Vec<u32>)
    requires
        old(stream).wf(),
        width == 3 || width == 4,
        bound <= 2147483648,
    ensures
        final(stream).wf(),
        final(stream).source() == old(stream).source(),
        out@.len() == rejection_sample(old(stream).source(), width as int, bound as int, limit as nat).len(),
        forall|i: int|
            0 <= i < out@.len() ==> #[trigger] out@[i] as int == rejection_sample(
                old(stream).source(),
                width as int,
                bound as int,
                limit as nat,
            )[i],
{
    let ghost input = stream.source();
    let cap = XOF_BYTE_CAP / width;
    assert(cap == group_cap(width as int));
    let mut out: Vec<u32> = Vec::new();
    let mut g: usize = 0;
    while g < cap && out.len() < limit
        invariant
            stream.wf(),
            stream.source() == input,
            width == 3 || width == 4,
            cap == group_cap(width as int),
            g <= cap,
            out@.len() == accepted_values(input, width as int, bound as int, limit as nat, g as nat).len(),
            forall|i: int|
                0 <= i < out@.len() ==> #[trigger] out@[i] as int == accepted_values(
                    input,
                    width as int,
                    bound as int,
                    limit as nat,
                    g as nat,
                )[i],
        decreases cap - g,
    {
        assert(width * g + width <= XOF_BYTE_CAP) by (nonlinear_arith)
            requires
                g < cap,
                cap == XOF_BYTE_CAP as int / width as int,
                width == 3 || width == 4,
        ;
        let base = width * g;
        let b0 = stream.byte(base);
        let b1 = stream.byte(base + 1);
        let b2 = stream.byte(base + 2);
        let val: u32 = if width == 3 {
            let v = (b0 as u32) | ((b1 as u32) << 8) | ((b2 as u32 & 0x7F) << 16);
            assert(v as int == b0 as int + 256 * (b1 as int) + 65536 * ((b2 as int) % 128)) by (bit_vector)
                requires
                    v == (b0 as u32) | ((b1 as u32) << 8) | ((b2 as u32 & 0x7F) << 16),
            ;
            v
        } else {
            let b3 = stream.byte(base + 3);
            let v = ((b0 as u32) | ((b1 as u32) << 8) | ((b2 as u32) << 16) | ((b3 as u32) << 24)) & 0x7FFF_FFFF;
            assert(v as int == b0 as int + 256 * (b1 as int) + 65536 * (b2 as int) + 16777216 * ((b3 as int) % 128))
                by (bit_vector)
                requires
                    v == ((b0 as u32) | ((b1 as u32) << 8) | ((b2 as u32) << 16) | ((b3 as u32) << 24))
                        & 0x7FFF_FFFF,
            ;
            v
        };
        assert(val as int == group_value(input, width as int, g as int));
        let ghost prev = accepted_values(input, width as int, bound as int, limit as nat, g as nat);
        if val < bound {
            out.push(val);
        }
        g += 1;
        assert(accepted_values(input, width as int, bound as int, limit as nat, g as nat) == (if prev.len() < limit
            && (val as int) < bound {
            prev.push(val as int)
        } else {
            prev
        }));
    }
    proof {
        if g < cap {
            lemma_accepted_saturates(input, width as int, bound as int, limit as nat, g as nat, cap as nat);
        }
    }
    out
}

// ── Sparse ternary challenges ────────────────────────────────────────────────

/// The distinct positions drawn from stream bytes `8 .. 8 + p`, keeping the
/// first `weight` of them. Bytes `0 .. 8` carry the signs.
pub open spec fn challenge_positions(input: Seq<u8>, weight: nat, p: nat) -> Seq<int>
    decreases p,
{
    if p == 0 {
        seq![]
    } else {
        let prev = challenge_positions(input, weight, (p - 1) as nat);
        let pos = xof_byte(input, 8 + p - 1) as int;
        if prev.len() < weight && !prev.contains(pos) {
            prev.push(pos)
        } else {
            prev
        }
    }
}

/// The sign of the `t`-th selected position: bit `t` of the first 8 stream
/// bytes, 0 meaning `+1`.
pub open spec fn challenge_sign(input: Seq<u8>, t: int) -> int {
    if (xof_byte(input, t / 8) as int / pow2_small(t % 8)) % 2 == 0 {
        1
    } else {
        -1
    }
}

/// `2^k` for small `k`.
pub open spec fn pow2_small(k: int) -> int
    decreases k,
{
    if k <= 0 {
        1
    } else {
        2 * pow2_small(k - 1)
    }
}

/// Coefficients after writing the signs of the first `t` positions.
pub open spec fn challenge_build(input: Seq<u8>, positions: Seq<int>, t: nat) -> Seq<int>
    decreases t,
{
    if t == 0 {
        Seq::new(256, |k: int| 0int)
    } else {
        challenge_build(input, positions, (t - 1) as nat).update(positions[t - 1], challenge_sign(input, t - 1))
    }
}

/// How many position bytes a challenge may consume.
pub open spec fn challenge_byte_cap() -> nat {
    (XOF_BYTE_CAP - 8) as nat
}

/// The sparse ternary challenge: `weight` distinct positions from the stream,
/// each set to `±1` by the sign bits. All other coefficients are zero.
pub open spec fn challenge_coeffs(input: Seq<u8>, weight: nat) -> Seq<int> {
    let positions = challenge_positions(input, weight, challenge_byte_cap());
    challenge_build(input, positions, positions.len())
}

pub proof fn lemma_positions_facts(input: Seq<u8>, weight: nat, p: nat)
    ensures
        challenge_positions(input, weight, p).len() <= weight,
        challenge_positions(input, weight, p).len() <= p,
        forall|i: int|
            0 <= i < challenge_positions(input, weight, p).len() ==> 0 <= #[trigger] challenge_positions(
                input,
                weight,
                p,
            )[i] < 256,
    decreases p,
{
    if p > 0 {
        lemma_positions_facts(input, weight, (p - 1) as nat);
    }
}

pub proof fn lemma_positions_saturate(input: Seq<u8>, weight: nat, p1: nat, p2: nat)
    requires
        p1 <= p2,
        challenge_positions(input, weight, p1).len() >= weight,
    ensures
        challenge_positions(input, weight, p2) == challenge_positions(input, weight, p1),
    decreases p2 - p1,
{
    if p2 > p1 {
        lemma_positions_saturate(input, weight, p1, (p2 - 1) as nat);
    }
}

pub proof fn lemma_build_prefix(input: Seq<u8>, positions: Seq<int>, extra: int, t: nat)
    requires
        t <= positions.len(),
    ensures
        challenge_build(input, positions.push(extra), t) == challenge_build(input, positions, t),
    decreases t,
{
    if t > 0 {
        lemma_build_prefix(input, positions, extra, (t - 1) as nat);
        assert(positions.push(extra)[t - 1] == positions[t - 1]);
    }
}

pub proof fn lemma_build_len(input: Seq<u8>, positions: Seq<int>, t: nat)
    requires
        t <= positions.len(),
        forall|i: int| 0 <= i < t ==> 0 <= #[trigger] positions[i] < 256,
    ensures
        challenge_build(input, positions, t).len() == 256,
    decreases t,
{
    if t > 0 {
        lemma_build_len(input, positions, (t - 1) as nat);
    }
}

pub proof fn lemma_build_values(input: Seq<u8>, positions: Seq<int>, t: nat)
    requires
        t <= positions.len(),
        forall|i: int| 0 <= i < t ==> 0 <= #[trigger] positions[i] < 256,
    ensures
        challenge_build(input, positions, t).len() == 256,
        forall|k: int| 0 <= k < 256 ==> -1 <= #[trigger] challenge_build(input, positions, t)[k] <= 1,
    decreases t,
{
    if t > 0 {
        lemma_build_values(input, positions, (t - 1) as nat);
    }
}

pub proof fn lemma_challenge_values(input: Seq<u8>, weight: nat, k: int)
    requires
        0 <= k < 256,
    ensures
        challenge_coeffs(input, weight).len() == 256,
        -1 <= challenge_coeffs(input, weight)[k] <= 1,
{
    let positions = challenge_positions(input, weight, challenge_byte_cap());
    lemma_positions_facts(input, weight, challenge_byte_cap());
    lemma_build_values(input, positions, positions.len());
}

/// Sample a sparse ternary challenge of `weight` nonzero coefficients.
///
/// Returns the coefficients in `{-1, 0, 1}`.
pub(crate) fn sample_challenge(stream: &mut XofStream, weight: usize) -> (c: [i32; 256])
    requires
        old(stream).wf(),
        weight <= 64,
    ensures
        forall|k: int| 0 <= k < 256 ==> #[trigger] c@[k] as int == challenge_coeffs(old(stream).source(), weight as nat)[k],
{
    let ghost input = stream.source();
    let mut signs = [0u8; 8];
    let mut i: usize = 0;
    while i < 8
        invariant
            stream.wf(),
            stream.source() == input,
            i <= 8,
            forall|j: int| 0 <= j < i ==> #[trigger] signs@[j] == xof_byte(input, j),
        decreases 8 - i,
    {
        signs[i] = stream.byte(i);
        i += 1;
    }
    let mut c = [0i32; 256];
    let mut used = [false; 256];
    let mut count: usize = 0;
    let mut p: usize = 0;
    let cap = XOF_BYTE_CAP - 8;
    proof {
        assert(c@ =~= Seq::new(256, |k: int| 0i32));
    }
    while p < cap && count < weight
        invariant
            stream.wf(),
            stream.source() == input,
            cap == challenge_byte_cap(),
            p <= cap,
            weight <= 64,
            forall|j: int| 0 <= j < 8 ==> #[trigger] signs@[j] == xof_byte(input, j),
            count == challenge_positions(input, weight as nat, p as nat).len(),
            forall|k: int|
                0 <= k < 256 ==> #[trigger] used@[k] == challenge_positions(input, weight as nat, p as nat).contains(k),
            forall|k: int|
                0 <= k < 256 ==> #[trigger] c@[k] as int == challenge_build(
                    input,
                    challenge_positions(input, weight as nat, p as nat),
                    count as nat,
                )[k],
        decreases cap - p,
    {
        let ghost prev = challenge_positions(input, weight as nat, p as nat);
        let pos_byte = stream.byte(8 + p);
        let pos = pos_byte as usize;
        proof {
            lemma_positions_facts(input, weight as nat, p as nat);
            lemma_build_len(input, prev, count as nat);
        }
        if !used[pos] {
            used[pos] = true;
            let t = count;
            let sign_byte = signs[t / 8];
            let bit = (sign_byte >> ((t % 8) as u8)) & 1;
            let sign: i32 = if bit == 0 { 1 } else { -1 };
            proof {
                let sh = (t % 8) as u8;
                assert(sh < 8);
                assert(((sign_byte >> sh) & 1) as int == (sign_byte as int / pow2_small(sh as int)) % 2) by {
                    lemma_shift_bit(sign_byte, sh);
                }
                assert(sign as int == challenge_sign(input, t as int));
            }
            c[pos] = sign;
            count += 1;
            proof {
                let next = prev.push(pos as int);
                assert(challenge_positions(input, weight as nat, (p + 1) as nat) == next);
                lemma_build_prefix(input, prev, pos as int, t as nat);
                assert(next[t as int] == pos as int);
                assert forall|k: int| 0 <= k < 256 implies #[trigger] used@[k] == next.contains(k) by {
                    if k == pos as int {
                        assert(next[t as int] == k);
                    } else {
                        if next.contains(k) {
                            let j = choose|j: int| 0 <= j < next.len() && next[j] == k;
                            assert(prev[j] == k);
                        }
                        if prev.contains(k) {
                            let j = choose|j: int| 0 <= j < prev.len() && prev[j] == k;
                            assert(next[j] == k);
                        }
                    }
                }
            }
        } else {
            proof {
                assert(challenge_positions(input, weight as nat, (p + 1) as nat) == prev);
            }
        }
        p += 1;
    }
    proof {
        if p < cap {
            lemma_positions_saturate(input, weight as nat, p as nat, cap as nat);
        }
    }
    c
}

pub proof fn lemma_shift_bit(b: u8, sh: u8)
    requires
        sh < 8,
    ensures
        ((b >> sh) & 1) as int == (b as int / pow2_small(sh as int)) % 2,
{
    reveal_with_fuel(pow2_small, 9);
    if sh == 0 {
        assert(((b >> 0u8) & 1) as int == (b as int / 1) % 2) by (bit_vector);
    } else if sh == 1 {
        assert(((b >> 1u8) & 1) as int == (b as int / 2) % 2) by (bit_vector);
    } else if sh == 2 {
        assert(((b >> 2u8) & 1) as int == (b as int / 4) % 2) by (bit_vector);
    } else if sh == 3 {
        assert(((b >> 3u8) & 1) as int == (b as int / 8) % 2) by (bit_vector);
    } else if sh == 4 {
        assert(((b >> 4u8) & 1) as int == (b as int / 16) % 2) by (bit_vector);
    } else if sh == 5 {
        assert(((b >> 5u8) & 1) as int == (b as int / 32) % 2) by (bit_vector);
    } else if sh == 6 {
        assert(((b >> 6u8) & 1) as int == (b as int / 64) % 2) by (bit_vector);
    } else {
        assert(((b >> 7u8) & 1) as int == (b as int / 128) % 2) by (bit_vector);
    }
}

/// The challenge built from `t` positions has at most `t` nonzero entries,
/// each `±1`: its `ℓ₁` norm is at most `t`.
pub proof fn lemma_build_l1(input: Seq<u8>, positions: Seq<int>, t: nat)
    requires
        t <= positions.len(),
        forall|i: int| 0 <= i < t ==> 0 <= #[trigger] positions[i] < 256,
    ensures
        range_sum(abs_terms(challenge_build(input, positions, t)), 0, 256) <= t,
    decreases t,
{
    lemma_build_len(input, positions, t);
    if t == 0 {
        lemma_sum_zero(abs_terms(challenge_build(input, positions, t)), 0, 256);
    } else {
        let t1 = (t - 1) as nat;
        lemma_build_l1(input, positions, t1);
        lemma_build_len(input, positions, t1);
        let prev = challenge_build(input, positions, t1);
        let cur = challenge_build(input, positions, t);
        let p = positions[t1 as int];
        assert(cur == prev.update(p, challenge_sign(input, t1 as int)));
        lemma_sum_update(abs_terms(prev), abs_terms(cur), p, 0, 256);
    }
}

/// A challenge of weight `w` has `ℓ₁` norm at most `w`.
pub proof fn lemma_challenge_l1(input: Seq<u8>, weight: nat)
    ensures
        range_sum(abs_terms(challenge_coeffs(input, weight)), 0, 256) <= weight,
{
    let positions = challenge_positions(input, weight, challenge_byte_cap());
    lemma_positions_facts(input, weight, challenge_byte_cap());
    lemma_build_l1(input, positions, positions.len());
}


/// `1` for each nonzero coefficient, `0` otherwise.
pub open spec fn nonzero_terms(s: Seq<int>) -> spec_fn(int) -> int {
    |k: int| if s[k] != 0 { 1int } else { 0int }
}

/// The chosen positions are distinct.
proof fn lemma_positions_distinct(input: Seq<u8>, weight: nat, p: nat)
    ensures
        forall|a: int, b: int|
            0 <= a < b < challenge_positions(input, weight, p).len() ==> #[trigger] challenge_positions(
                input,
                weight,
                p,
            )[a] != #[trigger] challenge_positions(input, weight, p)[b],
    decreases p,
{
    if p > 0 {
        let p1 = (p - 1) as nat;
        lemma_positions_distinct(input, weight, p1);
        let prev = challenge_positions(input, weight, p1);
        let pos = xof_byte(input, 8 + p - 1) as int;
        if prev.len() < weight && !prev.contains(pos) {
            let cur = challenge_positions(input, weight, p);
            assert forall|a: int, b: int| 0 <= a < b < cur.len() implies #[trigger] cur[a] != #[trigger] cur[b] by {
                if b == prev.len() {
                    assert(cur[a] == prev[a]);
                    if prev[a] == pos {
                        assert(prev.contains(pos));
                    }
                }
            }
        }
    }
}

/// A coefficient of the build is nonzero exactly where a position was written.
proof fn lemma_build_support(input: Seq<u8>, positions: Seq<int>, t: nat, k: int)
    requires
        t <= positions.len(),
        forall|i: int| 0 <= i < t ==> 0 <= #[trigger] positions[i] < 256,
        0 <= k < 256,
    ensures
        challenge_build(input, positions, t)[k] != 0 <==> exists|i: int| 0 <= i < t && positions[i] == k,
    decreases t,
{
    lemma_build_len(input, positions, t);
    if t > 0 {
        let t1 = (t - 1) as nat;
        lemma_build_support(input, positions, t1, k);
        lemma_build_len(input, positions, t1);
        let p = positions[t1 as int];
        if k == p {
            assert(positions[t1 as int] == k);
        } else {
            if exists|i: int| 0 <= i < t && positions[i] == k {
                let i = choose|i: int| 0 <= i < t && positions[i] == k;
                assert(i < t1);
            }
        }
    }
}

/// With distinct positions, the first `t` writes leave exactly `t` nonzero
/// coefficients.
proof fn lemma_build_count(input: Seq<u8>, positions: Seq<int>, t: nat)
    requires
        t <= positions.len(),
        forall|i: int| 0 <= i < t ==> 0 <= #[trigger] positions[i] < 256,
        forall|a: int, b: int| 0 <= a < b < t ==> #[trigger] positions[a] != #[trigger] positions[b],
    ensures
        range_sum(nonzero_terms(challenge_build(input, positions, t)), 0, 256) == t,
    decreases t,
{
    lemma_build_len(input, positions, t);
    if t == 0 {
        lemma_sum_zero(nonzero_terms(challenge_build(input, positions, t)), 0, 256);
    } else {
        let t1 = (t - 1) as nat;
        lemma_build_count(input, positions, t1);
        lemma_build_len(input, positions, t1);
        let prev = challenge_build(input, positions, t1);
        let cur = challenge_build(input, positions, t);
        let p = positions[t1 as int];
        assert(cur == prev.update(p, challenge_sign(input, t1 as int)));
        lemma_build_support(input, positions, t1, p);
        if prev[p] != 0 {
            let i = choose|i: int| 0 <= i < t1 && positions[i] == p;
            assert(positions[i] != positions[t1 as int]);
        }
        assert(nonzero_terms(prev)(p) == 0);
        assert(nonzero_terms(cur)(p) == 1);
        lemma_sum_update(nonzero_terms(prev), nonzero_terms(cur), p, 0, 256);
    }
}

/// A challenge has exactly as many nonzero coefficients as positions were
/// chosen: `weight` of them once the stream offers `weight` distinct
/// positions within its cap, never more.
pub proof fn lemma_challenge_weight(input: Seq<u8>, weight: nat)
    ensures
        range_sum(nonzero_terms(challenge_coeffs(input, weight)), 0, 256) == challenge_positions(
            input,
            weight,
            challenge_byte_cap(),
        ).len(),
        challenge_positions(input, weight, challenge_byte_cap()).len() <= weight,
{
    let positions = challenge_positions(input, weight, challenge_byte_cap());
    lemma_positions_facts(input, weight, challenge_byte_cap());
    lemma_positions_distinct(input, weight, challenge_byte_cap());
    lemma_build_count(input, positions, positions.len());
}


/// Once at least one position byte is read, at least one position is chosen.
pub proof fn lemma_positions_nonempty(input: Seq<u8>, weight: nat, p: nat)
    requires
        weight >= 1,
        p >= 1,
    ensures
        challenge_positions(input, weight, p).len() >= 1,
    decreases p,
{
    if p > 1 {
        lemma_positions_nonempty(input, weight, (p - 1) as nat);
    } else {
        assert(challenge_positions(input, weight, 0).len() == 0);
    }
}

} // verus!
