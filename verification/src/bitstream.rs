//! Mathematical model of an Exp-Golomb bitstream.
//!
//! A buffer of bytes is viewed as a stream of `8 * len` bits, most
//! significant bit of each byte first.  The spec functions here describe
//! where a codeword starts and ends, which unsigned value it denotes, the
//! exact bits of the codeword of a value, and the zig-zag mapping between
//! unsigned and signed values.

use vstd::arithmetic::div_mod::*;
use vstd::arithmetic::power2::*;
use vstd::prelude::*;

verus! {

/// Number of bits carried by the byte sequence `s`.
pub open spec fn stream_len(s: Seq<u8>) -> int {
    8 * (s.len() as int)
}

/// Bit `i` of the stream: bit `7 - i % 8` (counting from the least
/// significant end) of byte `i / 8`.
pub open spec fn bit_at(s: Seq<u8>, i: int) -> bool {
    (s[i / 8] >> ((7 - (i % 8)) as u8)) & 1u8 == 1u8
}

/// Length of the zero run that starts at bit `pos`: `Some(k)` when bit
/// `pos + k` is the first `1` bit at or after `pos`, `None` when every bit
/// from `pos` to the end of the stream is `0` (or `pos` is outside the
/// stream).
pub open spec fn leading_zeros_at(s: Seq<u8>, pos: int) -> Option<int>
    decreases stream_len(s) - pos,
{
    if pos < 0 || pos >= stream_len(s) {
        None
    } else if bit_at(s, pos) {
        Some(0)
    } else {
        match leading_zeros_at(s, pos + 1) {
            None => None,
            Some(k) => Some(k + 1),
        }
    }
}

/// Value of the `k` bits starting at bit `pos`, most significant first.
pub open spec fn suffix_at(s: Seq<u8>, pos: int, k: int) -> int
    decreases k,
{
    if k <= 0 {
        0
    } else {
        2 * suffix_at(s, pos, k - 1) + (if bit_at(s, pos + k - 1) {
            1int
        } else {
            0int
        })
    }
}

/// Unsigned value denoted by a codeword with prefix length `k` and suffix
/// value `y`.  For `k < 64` this is the canonical `2^k - 1 + y`; a prefix
/// of exactly 64 zeros pairs the 64-bit suffix directly with the 64-bit
/// value domain, so that every `u64` has a codeword and vice versa.
pub open spec fn decoded_value(k: int, y: int) -> int {
    if k == 64 {
        y
    } else {
        pow2(k as nat) - 1 + y
    }
}

/// Result of decoding one codeword at bit `pos`: the value and the bit
/// position one past the codeword, or `None` when the stream ends before
/// the codeword does or the prefix run exceeds 64 zeros.
pub open spec fn decode_at(s: Seq<u8>, pos: int) -> Option<(u64, int)> {
    match leading_zeros_at(s, pos) {
        None => None,
        Some(k) => {
            if k > 64 {
                None
            } else if pos + 2 * k + 1 <= stream_len(s) {
                Some((decoded_value(k, suffix_at(s, pos + k + 1, k)) as u64, pos + 2 * k + 1))
            } else {
                None
            }
        },
    }
}

/// Floor of the base-2 logarithm (0 for arguments below 2).
pub open spec fn floor_log2(n: int) -> int
    decreases n,
{
    if n <= 1 {
        0
    } else {
        1 + floor_log2(n / 2)
    }
}

/// Prefix length of the codeword of `v`: the bit length of `v + 1`, less
/// one.  `u64::MAX` gets the longest prefix, 64 zeros.
pub open spec fn code_k(v: u64) -> int {
    floor_log2(v as int + 1)
}

/// Total bit length of the codeword of `v`.
pub open spec fn code_len(v: u64) -> int {
    2 * code_k(v) + 1
}

/// Suffix value of the codeword of `v`, a `code_k(v)`-bit number.
pub open spec fn code_suffix(v: u64) -> int {
    if v == u64::MAX {
        u64::MAX as int
    } else {
        v + 1 - pow2(code_k(v) as nat)
    }
}

/// Bit `j` of the codeword of `v`: `code_k(v)` zeros, the terminating
/// one, then the suffix bits, most significant first.
pub open spec fn code_bit(v: u64, j: int) -> bool {
    if j < code_k(v) {
        false
    } else if j == code_k(v) {
        true
    } else {
        code_suffix(v) / (pow2((2 * code_k(v) - j) as nat) as int) % 2 == 1
    }
}

/// Signed value denoted by the unsigned codeword value `u`: odd `u` maps
/// to `(u + 1) / 2`, even `u` to `-(u / 2)`; the largest `u` wraps to
/// `i64::MIN`, completing a bijection between the two 64-bit domains.
pub open spec fn signed_of(u: u64) -> i64 {
    if u == u64::MAX {
        i64::MIN
    } else if u % 2 == 0 {
        (-((u as int) / 2)) as i64
    } else {
        (((u as int) + 1) / 2) as i64
    }
}

/// Unsigned codeword value denoting the signed value `v`: the inverse of
/// `signed_of`.
pub open spec fn unsigned_of(v: i64) -> u64 {
    if v == i64::MIN {
        u64::MAX
    } else if v > 0 {
        (2 * (v as int) - 1) as u64
    } else {
        (-2 * (v as int)) as u64
    }
}

/// `floor_log2` names the position of the highest set bit: `2^f <= n < 2^(f+1)`.
pub proof fn lemma_floor_log2(n: int)
    requires
        n >= 1,
    ensures
        0 <= floor_log2(n),
        pow2(floor_log2(n) as nat) <= n < pow2((floor_log2(n) + 1) as nat),
    decreases n,
{
    if n <= 1 {
        lemma2_to64();
    } else {
        lemma_floor_log2(n / 2);
        let f = floor_log2(n / 2);
        lemma_pow2_unfold((f + 1) as nat);
        lemma_pow2_unfold((f + 2) as nat);
        lemma_fundamental_div_mod(n, 2);
    }
}

/// The codeword of `v` is well formed: its prefix length is at most 64,
/// its suffix is a `code_k(v)`-bit value, and prefix and suffix together
/// denote `v`.
pub proof fn lemma_code_shape(v: u64)
    ensures
        0 <= code_k(v) <= 64,
        v == u64::MAX <==> code_k(v) == 64,
        0 <= code_suffix(v) < pow2(code_k(v) as nat),
        decoded_value(code_k(v), code_suffix(v)) == v,
{
    lemma_floor_log2(v as int + 1);
    let k = code_k(v);
    lemma2_to64();
    lemma2_to64_rest();
    if v == u64::MAX {
        // 2^k <= 2^64 < 2^(k+1) pins k to 64.
        if k > 64 {
            lemma_pow2_strictly_increases(64, k as nat);
        }
        if k < 63 {
            lemma_pow2_strictly_increases((k + 1) as nat, 64);
        }
    } else {
        // 2^k <= v + 1 < 2^64 keeps k below 64.
        if k > 64 {
            lemma_pow2_strictly_increases(64, k as nat);
        }
    }
}

/// Characterizes `leading_zeros_at`: a `Some(k)` points at the first set
/// bit, a `None` means the rest of the stream is all zeros.
pub proof fn lemma_leading_zeros_at_props(s: Seq<u8>, pos: int)
    requires
        0 <= pos <= stream_len(s),
    ensures
        match leading_zeros_at(s, pos) {
            Some(k) => 0 <= k && pos + k < stream_len(s) && bit_at(s, pos + k) && (forall|i: int|
                pos <= i < pos + k ==> !bit_at(s, i)),
            None => forall|i: int| pos <= i < stream_len(s) ==> !bit_at(s, i),
        },
    decreases stream_len(s) - pos,
{
    if pos < stream_len(s) && !bit_at(s, pos) {
        lemma_leading_zeros_at_props(s, pos + 1);
    }
}

/// A run of `k` zeros followed by a one bit is found by
/// `leading_zeros_at`.
pub proof fn lemma_leading_zeros_at_window(s: Seq<u8>, pos: int, k: int)
    requires
        0 <= pos,
        0 <= k,
        pos + k < stream_len(s),
        forall|i: int| pos <= i < pos + k ==> !bit_at(s, i),
        bit_at(s, pos + k),
    ensures
        leading_zeros_at(s, pos) == Some(k),
    decreases k,
{
    if k > 0 {
        lemma_leading_zeros_at_window(s, pos + 1, k - 1);
    }
}

/// A zero run that reaches the end of the stream has no terminating one
/// bit.
pub proof fn lemma_leading_zeros_at_none(s: Seq<u8>, pos: int)
    requires
        0 <= pos <= stream_len(s),
        forall|i: int| pos <= i < stream_len(s) ==> !bit_at(s, i),
    ensures
        leading_zeros_at(s, pos) is None,
    decreases stream_len(s) - pos,
{
    if pos < stream_len(s) {
        lemma_leading_zeros_at_none(s, pos + 1);
    }
}

/// `leading_zeros_at` depends only on the bits from the start position to
/// the end of the stream.
pub proof fn lemma_leading_zeros_at_congruence(s1: Seq<u8>, p1: int, s2: Seq<u8>, p2: int)
    requires
        0 <= p1 <= stream_len(s1),
        0 <= p2 <= stream_len(s2),
        stream_len(s1) - p1 == stream_len(s2) - p2,
        forall|i: int|
            0 <= i < stream_len(s1) - p1 ==> #[trigger] bit_at(s1, p1 + i) == bit_at(s2, p2 + i),
    ensures
        leading_zeros_at(s1, p1) == leading_zeros_at(s2, p2),
    decreases stream_len(s1) - p1,
{
    if p1 < stream_len(s1) {
        assert(bit_at(s1, p1 + 0) == bit_at(s2, p2 + 0));
        if !bit_at(s1, p1) {
            assert forall|i: int|
                0 <= i < stream_len(s1) - (p1 + 1) implies #[trigger] bit_at(s1, p1 + 1 + i)
                == bit_at(s2, p2 + 1 + i) by {
                assert(bit_at(s1, p1 + (i + 1)) == bit_at(s2, p2 + (i + 1)));
            }
            lemma_leading_zeros_at_congruence(s1, p1 + 1, s2, p2 + 1);
        }
    }
}

/// A `k`-bit suffix value lies below `2^k`.
pub proof fn lemma_suffix_at_bound(s: Seq<u8>, pos: int, k: int)
    requires
        0 <= k,
    ensures
        0 <= suffix_at(s, pos, k) < pow2(k as nat),
    decreases k,
{
    if k == 0 {
        lemma2_to64();
    } else {
        lemma_suffix_at_bound(s, pos, k - 1);
        lemma_pow2_unfold(k as nat);
    }
}

/// `suffix_at` depends only on the `k` bits it reads.
pub proof fn lemma_suffix_at_congruence(s1: Seq<u8>, p1: int, s2: Seq<u8>, p2: int, k: int)
    requires
        0 <= k,
        forall|m: int| 0 <= m < k ==> #[trigger] bit_at(s1, p1 + m) == bit_at(s2, p2 + m),
    ensures
        suffix_at(s1, p1, k) == suffix_at(s2, p2, k),
    decreases k,
{
    if k > 0 {
        lemma_suffix_at_congruence(s1, p1, s2, p2, k - 1);
        assert(bit_at(s1, p1 + (k - 1)) == bit_at(s2, p2 + (k - 1)));
    }
}

/// Reading `k` bits that spell the binary digits of `y`, most significant
/// first, yields `y`.
pub proof fn lemma_suffix_at_of_value(s: Seq<u8>, pos: int, k: int, y: int)
    requires
        0 <= k,
        0 <= y < pow2(k as nat),
        forall|m: int|
            0 <= m < k ==> #[trigger] bit_at(s, pos + m) == (y / (pow2((k - 1 - m) as nat) as int)
                % 2 == 1),
    ensures
        suffix_at(s, pos, k) == y,
    decreases k,
{
    if k == 0 {
        lemma2_to64();
    } else {
        lemma_pow2_unfold(k as nat);
        assert forall|m: int|
            0 <= m < k - 1 implies #[trigger] bit_at(s, pos + m) == ((y / 2) / (pow2(
            (k - 2 - m) as nat,
        ) as int) % 2 == 1) by {
            lemma_pow2_unfold((k - 1 - m) as nat);
            lemma_pow2_pos((k - 2 - m) as nat);
            lemma_div_denominator(y, 2, pow2((k - 2 - m) as nat) as int);
            assert(bit_at(s, pos + m) == (y / (pow2((k - 1 - m) as nat) as int) % 2 == 1));
        }
        lemma_suffix_at_of_value(s, pos, k - 1, y / 2);
        lemma2_to64();
        assert(bit_at(s, pos + (k - 1)) == (y / (pow2(0) as int) % 2 == 1));
        lemma_fundamental_div_mod(y, 2);
    }
}

/// Powers of two are monotone.
pub proof fn lemma_pow2_le(e1: nat, e2: nat)
    requires
        e1 <= e2,
    ensures
        pow2(e1) <= pow2(e2),
{
    if e1 < e2 {
        lemma_pow2_strictly_increases(e1, e2);
    }
}

/// For values below `u64::MAX`, bit `code_k(v) + t` of the codeword of
/// `v` is binary digit `code_k(v) - t` of `v + 1`: the terminating one
/// and the suffix together spell `v + 1` from its highest set bit down.
pub proof fn lemma_code_bit_arith(v: u64, t: int)
    requires
        v < u64::MAX,
        0 <= t <= code_k(v),
    ensures
        code_bit(v, code_k(v) + t) == ((v as int + 1) / (pow2((code_k(v) - t) as nat) as int) % 2
            == 1),
{
    lemma_code_shape(v);
    let k = code_k(v);
    let xp1 = v as int + 1;
    let sfx = code_suffix(v);
    if t == 0 {
        lemma_pow2_pos(k as nat);
        lemma_fundamental_div_mod_converse(xp1, pow2(k as nat) as int, 1, sfx);
    } else {
        let d = pow2((k - t) as nat) as int;
        lemma_pow2_pos((k - t) as nat);
        lemma_pow2_adds((k - t) as nat, t as nat);
        lemma_hoist_over_denominator(sfx, pow2(t as nat) as int, pow2((k - t) as nat));
        lemma_pow2_unfold(t as nat);
        lemma_mod_multiples_vanish(pow2((t - 1) as nat) as int, sfx / d, 2);
    }
}

/// Dividing `2^a - 1` by `2^b` (for `b < a`) leaves `2^(a-b) - 1`, an odd
/// number: every bit of an all-ones value is set.
pub proof fn lemma_pow2_minus_one_div(a: nat, b: nat)
    requires
        b < a,
    ensures
        (pow2(a) - 1) / (pow2(b) as int) == pow2((a - b) as nat) - 1,
        (pow2(a) - 1) / (pow2(b) as int) % 2 == 1,
{
    lemma_pow2_pos(b);
    lemma_pow2_pos((a - b) as nat);
    lemma_pow2_adds((a - b) as nat, b);
    assert((pow2((a - b) as nat) - 1) * (pow2(b) as int) + (pow2(b) - 1) == pow2((a - b) as nat)
        * (pow2(b) as int) - 1) by (nonlinear_arith);
    lemma_fundamental_div_mod_converse(
        pow2(a) - 1,
        pow2(b) as int,
        pow2((a - b) as nat) - 1,
        pow2(b) - 1,
    );
    lemma_pow2_unfold((a - b) as nat);
    lemma_pow2_pos((a - b - 1) as nat);
    lemma_fundamental_div_mod_converse(
        pow2((a - b) as nat) - 1,
        2,
        pow2((a - b - 1) as nat) - 1,
        1,
    );
}

/// Round trip of an unsigned value: wherever the stream holds exactly the
/// codeword bits of `v`, decoding yields `v` and stops one past the
/// codeword.
pub proof fn lemma_unsigned_round_trip(s: Seq<u8>, pos: int, v: u64)
    requires
        0 <= pos,
        pos + code_len(v) <= stream_len(s),
        forall|j: int| 0 <= j < code_len(v) ==> #[trigger] bit_at(s, pos + j) == code_bit(v, j),
    ensures
        decode_at(s, pos) == Some((v, pos + code_len(v))),
{
    let k = code_k(v);
    lemma_code_shape(v);
    assert forall|i: int| pos <= i < pos + k implies !bit_at(s, i) by {
        assert(bit_at(s, pos + (i - pos)) == code_bit(v, i - pos));
    }
    assert(bit_at(s, pos + k) == code_bit(v, k));
    lemma_leading_zeros_at_window(s, pos, k);
    assert forall|m: int|
        0 <= m < k implies #[trigger] bit_at(s, pos + k + 1 + m) == (code_suffix(v) / (pow2(
        (k - 1 - m) as nat,
    ) as int) % 2 == 1) by {
        assert(bit_at(s, pos + (k + 1 + m)) == code_bit(v, k + 1 + m));
        assert(code_bit(v, k + 1 + m) == (code_suffix(v) / (pow2((2 * k - (k + 1 + m)) as nat) as int)
            % 2 == 1));
    }
    lemma_suffix_at_of_value(s, pos + k + 1, k, code_suffix(v));
}

/// Round trip through a zero-initialized region: where the encoder's
/// write effect has taken place (the codeword of `v` OR-ed in at `pos`
/// over bits that were all zero there), decoding at `pos` yields `v`
/// and lands one past the codeword.
pub proof fn lemma_encode_then_decode(old_s: Seq<u8>, new_s: Seq<u8>, pos: int, v: u64)
    requires
        0 <= pos,
        new_s.len() == old_s.len(),
        pos + code_len(v) <= stream_len(old_s),
        forall|i: int| pos <= i < pos + code_len(v) ==> !bit_at(old_s, i),
        forall|i: int|
            0 <= i < stream_len(old_s) ==> #[trigger] bit_at(new_s, i) == (bit_at(old_s, i) || (pos
                <= i < pos + code_len(v) && code_bit(v, i - pos))),
    ensures
        decode_at(new_s, pos) == Some((v, pos + code_len(v))),
{
    lemma_code_shape(v);
    assert forall|j: int| 0 <= j < code_len(v) implies #[trigger] bit_at(new_s, pos + j)
        == code_bit(v, j) by {
        assert(bit_at(new_s, pos + j) == (bit_at(old_s, pos + j) || (pos <= pos + j < pos
            + code_len(v) && code_bit(v, (pos + j) - pos))));
        assert(!bit_at(old_s, pos + j));
    }
    lemma_unsigned_round_trip(new_s, pos, v);
}

/// Signed round trip: the write effect for the zig-zag image of a signed
/// value decodes back to a codeword value whose signed reading is the
/// value itself.
pub proof fn lemma_signed_encode_then_decode(old_s: Seq<u8>, new_s: Seq<u8>, pos: int, v: i64)
    requires
        0 <= pos,
        new_s.len() == old_s.len(),
        pos + code_len(unsigned_of(v)) <= stream_len(old_s),
        forall|i: int| pos <= i < pos + code_len(unsigned_of(v)) ==> !bit_at(old_s, i),
        forall|i: int|
            0 <= i < stream_len(old_s) ==> #[trigger] bit_at(new_s, i) == (bit_at(old_s, i) || (pos
                <= i < pos + code_len(unsigned_of(v)) && code_bit(unsigned_of(v), i - pos))),
    ensures
        decode_at(new_s, pos) == Some((unsigned_of(v), pos + code_len(unsigned_of(v)))),
        signed_of(unsigned_of(v)) == v,
{
    lemma_encode_then_decode(old_s, new_s, pos, unsigned_of(v));
    lemma_signed_bijection(0, v);
}

/// The signed mapping is a bijection between the 64-bit unsigned and
/// signed domains: the two directions invert each other everywhere.
pub proof fn lemma_signed_bijection(u: u64, v: i64)
    ensures
        unsigned_of(signed_of(u)) == u,
        signed_of(unsigned_of(v)) == v,
{
}

/// The codeword of `u64::MAX` is the longest one: 64 zeros, the
/// terminating one, and an all-ones 64-bit suffix, 129 bits in all.
pub proof fn lemma_max_codeword()
    ensures
        code_k(u64::MAX) == 64,
        code_len(u64::MAX) == 129,
        forall|j: int| 0 <= j < 64 ==> !code_bit(u64::MAX, j),
        code_bit(u64::MAX, 64),
        forall|j: int| 64 < j < 129 ==> code_bit(u64::MAX, j),
{
    lemma_code_shape(u64::MAX);
    lemma2_to64();
    lemma2_to64_rest();
    assert forall|j: int| 64 < j < 129 implies code_bit(u64::MAX, j) by {
        lemma_pow2_minus_one_div(64, (128 - j) as nat);
    }
}

/// A prefix of 65 zero bits can never terminate in a decodable codeword:
/// decoding fails rather than wrapping past the 64-bit domain.
pub proof fn lemma_overflow_prefix(s: Seq<u8>, pos: int)
    requires
        0 <= pos <= stream_len(s),
        forall|i: int| pos <= i < pos + 65 ==> !bit_at(s, i),
    ensures
        decode_at(s, pos) is None,
{
    lemma_leading_zeros_at_props(s, pos);
    match leading_zeros_at(s, pos) {
        None => {},
        Some(k) => {
            if k < 65 {
                assert(!bit_at(s, pos + k));
            }
        },
    }
}

/// Decoding depends only on the bit sequence from the start position on:
/// the same bits at another alignment decode to the same value, with the
/// end position shifted by the same amount.
pub proof fn lemma_decode_alignment_invariance(s1: Seq<u8>, p1: int, s2: Seq<u8>, p2: int)
    requires
        0 <= p1 <= stream_len(s1),
        0 <= p2 <= stream_len(s2),
        stream_len(s1) - p1 == stream_len(s2) - p2,
        forall|i: int|
            0 <= i < stream_len(s1) - p1 ==> #[trigger] bit_at(s1, p1 + i) == bit_at(s2, p2 + i),
    ensures
        match (decode_at(s1, p1), decode_at(s2, p2)) {
            (Some(a), Some(b)) => a.0 == b.0 && a.1 - p1 == b.1 - p2,
            (None, None) => true,
            _ => false,
        },
{
    lemma_leading_zeros_at_congruence(s1, p1, s2, p2);
    match leading_zeros_at(s1, p1) {
        None => {},
        Some(k) => {
            lemma_leading_zeros_at_props(s1, p1);
            if k <= 64 && p1 + 2 * k + 1 <= stream_len(s1) {
                assert forall|m: int|
                    0 <= m < k implies #[trigger] bit_at(s1, p1 + k + 1 + m) == bit_at(
                    s2,
                    p2 + k + 1 + m,
                ) by {
                    assert(bit_at(s1, p1 + (k + 1 + m)) == bit_at(s2, p2 + (k + 1 + m)));
                }
                lemma_suffix_at_congruence(s1, p1 + k + 1, s2, p2 + k + 1, k);
            }
        },
    }
}

} // verus!
