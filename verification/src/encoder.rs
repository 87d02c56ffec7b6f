//! Exp-Golomb encoding into an owned byte buffer.

use crate::bitstream::{
    bit_at, code_bit, code_k, code_len, floor_log2, lemma_code_bit_arith, lemma_code_shape,
    lemma_floor_log2, lemma_max_codeword, lemma_pow2_le, stream_len, unsigned_of,
};
use vstd::arithmetic::div_mod::*;
use vstd::arithmetic::power2::*;
use vstd::bits::lemma_u64_shr_is_div;
use vstd::prelude::*;
use vstd::slice::slice_subrange;
use vstd::std_specs::bits::{axiom_u64_leading_zeros, u64_leading_zeros};

verus! {

/// Effect of OR-ing a single bit into a byte: bit `sh` (from the least
/// significant end) becomes set when `v` is one, every other bit keeps
/// its value.
proof fn lemma_u8_or_single_bit(b: u8, v: u8, sh: u8, sj: u8)
    by (bit_vector)
    requires
        v == 0 || v == 1,
        sh < 8,
        sj < 8,
    ensures
        ((b | (v << sh)) >> sj) & 1u8 == 1u8 <==> (((b >> sj) & 1u8 == 1u8) || (v == 1 && sj
            == sh)),
{
}

/// Bit `8j + r` (most significant first) of a 64-bit value equals bit
/// `7 - r` of big-endian byte `j`.
proof fn lemma_u64_byte_bit(x: u64, j: u64, r: u64)
    by (bit_vector)
    requires
        j < 8,
        r < 8,
    ensures
        (((x >> ((56 - 8 * j) as u64)) as u8) >> ((7 - r) as u8)) & 1u8 == 1u8 <==> (x >> ((63 - (8
            * j + r)) as u64)) & 1u64 == 1u64,
{
}

/// Bit `e` (from the least significant end) of a 64-bit value, read by
/// shift and mask, is the parity of the value divided by `2^e`.
proof fn lemma_u64_bit_parity(x: u64, e: u64)
    requires
        e < 64,
    ensures
        ((x >> e) & 1u64 == 1u64) <==> ((x as int) / (pow2(e as nat) as int) % 2 == 1),
{
    lemma_u64_shr_is_div(x, e);
    let q: u64 = x >> e;
    assert((q & 1u64 == 1u64) <==> (q % 2 == 1)) by (bit_vector);
}

/// The leading-zero count of `v + 1` names the highest set bit of
/// `v + 1`, which is exactly the prefix length of the codeword of `v`.
proof fn lemma_lz_pins_code_k(v: u64)
    requires
        v < u64::MAX,
    ensures
        u64_leading_zeros((v + 1) as u64) == 63 - code_k(v),
{
    let xp1 = (v + 1) as u64;
    axiom_u64_leading_zeros(xp1);
    let lz = u64_leading_zeros(xp1);
    lemma2_to64();
    lemma2_to64_rest();
    // Upper bound: the leading `lz` bits are zero, so `xp1 < 2^(64 - lz)`.
    if lz > 0 {
        let eu = (64 - lz) as u64;
        lemma_u64_shr_is_div(xp1, eu);
        lemma_pow2_pos((64 - lz) as nat);
        lemma_small_div_converse(xp1 as int, pow2((64 - lz) as nat) as int);
    }
    // Lower bound: bit `63 - lz` is set, so `xp1 >= 2^(63 - lz)`.
    let el = (63 - lz) as u64;
    lemma_u64_shr_is_div(xp1, el);
    let q: u64 = xp1 >> el;
    assert(q & 1u64 != 0u64 ==> q % 2 == 1) by (bit_vector);
    let d = pow2((63 - lz) as nat) as int;
    lemma_pow2_pos((63 - lz) as nat);
    lemma_fundamental_div_mod(xp1 as int, d);
    lemma_mod_division_less_than_divisor(xp1 as int, d);
    assert(xp1 as int >= d) by (nonlinear_arith)
        requires
            xp1 as int == d * (xp1 as int / d) + xp1 as int % d,
            xp1 as int / d >= 1,
            xp1 as int % d >= 0,
            d > 0,
    ;
    // `floor_log2` is pinned by the two bounds.
    lemma_floor_log2(xp1 as int);
    let f = floor_log2(xp1 as int);
    if f < 63 - lz {
        lemma_pow2_le((f + 1) as nat, (63 - lz) as nat);
    }
    if f > 63 - lz {
        lemma_pow2_le((64 - lz) as nat, f as nat);
    }
}

/// Write cursor: a byte index and a sub-byte bit offset into an owned
/// buffer.  Writing only ever ORs one bits into place, so the caller
/// must hand over a pre-zeroed region to get exactly the written
/// codewords back.
struct BitBuffer {
    buf: Vec<u8>,
    index: usize,
    bit_pos: u32,
}

impl BitBuffer {
    spec fn bytes(self) -> Seq<u8> {
        self.buf@
    }

    /// Bit position one past the last cursor advance.
    spec fn pos(self) -> int {
        8 * (self.index as int) + self.bit_pos
    }

    spec fn wf(self) -> bool {
        &&& self.bit_pos <= 7
        &&& self.pos() <= stream_len(self.buf@)
    }

    fn new(buf: Vec<u8>, bit_pos: u32) -> (r: BitBuffer)
        requires
            bit_pos <= 7,
            buf@.len() > 0,
        ensures
            r.wf(),
            r.bytes() == buf@,
            r.pos() == bit_pos,
    {
        BitBuffer { buf, index: 0, bit_pos }
    }

    /// Write one bit at the cursor (OR-ing it into the byte) and
    /// advance, or report a full buffer.
    fn put_bit(&mut self, value: bool) -> (r: Option<()>)
        requires
            old(self).wf(),
        ensures
            final(self).wf(),
            final(self).bytes().len() == old(self).bytes().len(),
            old(self).pos() < stream_len(old(self).bytes()) ==> {
                &&& r is Some
                &&& final(self).pos() == old(self).pos() + 1
                &&& forall|i: int|
                    0 <= i < stream_len(old(self).bytes()) ==> #[trigger] bit_at(
                        final(self).bytes(),
                        i,
                    ) == (bit_at(old(self).bytes(), i) || (i == old(self).pos() && value))
                &&& !value ==> final(self).bytes() == old(self).bytes()
            },
            old(self).pos() >= stream_len(old(self).bytes()) ==> r is None && *final(self) == *old(
                self,
            ),
    {
        let ghost ob = self.buf@;
        let ghost p = self.pos();
        let ghost idx = self.index as int;
        let ghost bp = self.bit_pos as int;
        if self.index >= self.buf.len() {
            return None;
        }
        let shift: u8 = (7 - self.bit_pos) as u8;
        let v: u8 = if value {
            1
        } else {
            0
        };
        let b: u8 = self.buf[self.index];
        let nb: u8 = b | (v << shift);
        self.buf[self.index] = nb;
        proof {
            if !value {
                assert(b | (0u8 << shift) == b) by (bit_vector);
                assert(self.buf@ =~= ob);
            }
            assert forall|i: int| 0 <= i < stream_len(ob) implies #[trigger] bit_at(self.buf@, i)
                == (bit_at(ob, i) || (i == p && value)) by {
                if i / 8 == idx {
                    lemma_u8_or_single_bit(b, v, shift, (7 - (i % 8)) as u8);
                }
            }
        }
        self.bit_pos = self.bit_pos + 1;
        if self.bit_pos >= 8 {
            self.bit_pos = 0;
            self.index = self.index + 1;
        }
        Some(())
    }

    /// Write `num_zeros` zero bits: the bytes stay as they are, only the
    /// cursor advances, stopping at the end of a full buffer.
    fn put_zeros(&mut self, num_zeros: u32) -> (r: Option<()>)
        requires
            old(self).wf(),
        ensures
            final(self).wf(),
            final(self).bytes() == old(self).bytes(),
            r is Some <==> old(self).pos() + num_zeros <= stream_len(old(self).bytes()),
            final(self).pos() == if old(self).pos() + num_zeros <= stream_len(old(self).bytes()) {
                old(self).pos() + num_zeros
            } else {
                stream_len(old(self).bytes())
            },
    {
        let mut i: u32 = 0;
        #[verifier::loop_isolation(false)]
        while i < num_zeros
            invariant
                self.wf(),
                self.bytes() == old(self).bytes(),
                i <= num_zeros,
                self.pos() == old(self).pos() + i,
            decreases num_zeros - i,
        {
            match self.put_bit(false) {
                None => {
                    return None;
                },
                Some(()) => {},
            }
            i = i + 1;
        }
        Some(())
    }

    /// Write the run of bits that starts at bit `start_pos` of the first
    /// byte of `bytes` and reaches to their end, packing across byte
    /// boundaries at the destination; fails the moment the destination
    /// is exhausted, leaving the already-written bits in place.
    fn put_bytes(&mut self, bytes: &[u8], start_pos: u32) -> (r: Option<()>)
        requires
            old(self).wf(),
            start_pos <= 7,
            8 * bytes@.len() <= usize::MAX,
        ensures
            final(self).wf(),
            final(self).bytes().len() == old(self).bytes().len(),
            ({
                let run = if bytes@.len() == 0 {
                    0int
                } else {
                    8 * bytes@.len() - start_pos
                };
                let cap = stream_len(old(self).bytes());
                let w = if old(self).pos() + run <= cap {
                    run
                } else {
                    cap - old(self).pos()
                };
                &&& (r is Some <==> old(self).pos() + run <= cap)
                &&& final(self).pos() == old(self).pos() + w
                &&& forall|i: int|
                    0 <= i < cap ==> #[trigger] bit_at(final(self).bytes(), i) == (bit_at(
                        old(self).bytes(),
                        i,
                    ) || (old(self).pos() <= i < old(self).pos() + w && bit_at(
                        bytes@,
                        start_pos + (i - old(self).pos()),
                    )))
            }),
    {
        let ghost ob = self.bytes();
        let ghost p0 = self.pos();
        let ghost cap = stream_len(ob);
        if bytes.is_empty() {
            return Some(());
        }
        let run: usize = 8 * bytes.len() - start_pos as usize;
        let mut t: usize = 0;
        #[verifier::loop_isolation(false)]
        while t < run
            invariant
                self.wf(),
                self.bytes().len() == ob.len(),
                t <= run,
                self.pos() == p0 + t,
                forall|i: int|
                    0 <= i < cap ==> #[trigger] bit_at(self.bytes(), i) == (bit_at(ob, i) || (p0
                        <= i < p0 + t && bit_at(bytes@, start_pos + (i - p0)))),
            decreases run - t,
        {
            let ghost mid = self.bytes();
            let u: usize = start_pos as usize + t;
            let sb_index: usize = u / 8;
            let sb_shift: u8 = (7 - (u % 8)) as u8;
            let byte: u8 = bytes[sb_index];
            let bitv: bool = ((byte >> sb_shift) & 1u8) == 1u8;
            assert(bitv == bit_at(bytes@, start_pos + t));
            match self.put_bit(bitv) {
                None => {
                    assert forall|i: int| 0 <= i < cap implies #[trigger] bit_at(self.bytes(), i)
                        == (bit_at(ob, i) || (p0 <= i < cap && bit_at(
                        bytes@,
                        start_pos + (i - p0),
                    ))) by {
                        assert(bit_at(self.bytes(), i) == bit_at(mid, i));
                    }
                    return None;
                },
                Some(()) => {
                    assert forall|i: int| 0 <= i < cap implies #[trigger] bit_at(self.bytes(), i)
                        == (bit_at(ob, i) || (p0 <= i < p0 + t + 1 && bit_at(
                        bytes@,
                        start_pos + (i - p0),
                    ))) by {
                        assert(bit_at(self.bytes(), i) == (bit_at(mid, i) || (i == p0 + t
                            && bitv)));
                        assert(bit_at(mid, i) == (bit_at(ob, i) || (p0 <= i < p0 + t && bit_at(
                            bytes@,
                            start_pos + (i - p0),
                        ))));
                    }
                },
            }
            t = t + 1;
        }
        Some(())
    }
}

/// The eight bytes of `x`, most significant first.
fn be_bytes(x: u64) -> (r: Vec<u8>)
    ensures
        r@.len() == 8,
        forall|j: int| 0 <= j < 8 ==> r@[j] == (x >> ((56 - 8 * j) as u64)) as u8,
{
    let mut bytes: Vec<u8> = Vec::new();
    let mut bi: usize = 0;
    #[verifier::loop_isolation(false)]
    while bi < 8
        invariant
            bytes@.len() == bi,
            bi <= 8,
            forall|j: int| 0 <= j < bi ==> bytes@[j] == (x >> ((56 - 8 * j) as u64)) as u8,
        decreases 8 - bi,
    {
        let sh: u64 = 56 - 8 * (bi as u64);
        bytes.push((x >> sh) as u8);
        bi = bi + 1;
    }
    bytes
}

/// An Exponential-Golomb writer.
pub struct ExpGolombEncoder {
    bit_buf: BitBuffer,
}

impl ExpGolombEncoder {
    /// The bytes of the buffer the encoder writes into.
    pub closed spec fn bytes(self) -> Seq<u8> {
        self.bit_buf.bytes()
    }

    /// Current bit position in the stream, between 0 and
    /// `stream_len(self.bytes())`.
    pub closed spec fn pos(self) -> int {
        self.bit_buf.pos()
    }

    /// Internal well-formedness of the cursor.
    pub closed spec fn wf(self) -> bool {
        self.bit_buf.wf()
    }

    /// Create a new `ExpGolombEncoder` owning the destination buffer.
    ///
    /// `start` denotes the starting position in the first byte of `buf`
    /// and goes from 0 (first) to 7 (last).  Returns `None` if the
    /// buffer is empty or if `start` is not within `[0, 7]`.  Writing
    /// only ORs one bits into the buffer, so a caller that wants the
    /// buffer to hold exactly the written codewords hands over zeroed
    /// bytes.  `close` gives the buffer back.
    pub fn new(buf: Vec<u8>, start: u32) -> (r: Option<ExpGolombEncoder>)
        ensures
            r is Some <==> (buf@.len() > 0 && start <= 7),
            r matches Some(e) ==> e.wf() && e.bytes() == buf@ && e.pos() == start,
    {
        if buf.is_empty() || start > 7 {
            return None;
        }
        Some(ExpGolombEncoder { bit_buf: BitBuffer::new(buf, start) })
    }

    /// Write a single raw bit to the buffer.  Returns `None` if the
    /// buffer is full.
    pub fn put_bit(&mut self, value: bool) -> (r: Option<()>)
        requires
            old(self).wf(),
        ensures
            final(self).wf(),
            final(self).bytes().len() == old(self).bytes().len(),
            old(self).pos() < stream_len(old(self).bytes()) ==> {
                &&& r is Some
                &&& final(self).pos() == old(self).pos() + 1
                &&& forall|i: int|
                    0 <= i < stream_len(old(self).bytes()) ==> #[trigger] bit_at(
                        final(self).bytes(),
                        i,
                    ) == (bit_at(old(self).bytes(), i) || (i == old(self).pos() && value))
                &&& !value ==> final(self).bytes() == old(self).bytes()
            },
            old(self).pos() >= stream_len(old(self).bytes()) ==> r is None && final(self).bytes()
                == old(self).bytes() && final(self).pos() == old(self).pos(),
    {
        self.bit_buf.put_bit(value)
    }

    /// Encode a `u64` into the buffer: `code_k(value)` zero bits, then
    /// the bits of `value + 1` from its highest set bit down, beginning
    /// with the terminating one bit.  (`u64::MAX` gets the longest
    /// codeword: 64 zeros, the one, and an all-ones 64-bit suffix.)
    /// Returns `None` if the buffer is full; bits already written stay
    /// in place.
    pub fn put_unsigned(&mut self, value: u64) -> (r: Option<()>)
        requires
            old(self).wf(),
        ensures
            final(self).wf(),
            final(self).bytes().len() == old(self).bytes().len(),
            ({
                let cw = code_len(value);
                let cap = stream_len(old(self).bytes());
                let w = if old(self).pos() + cw <= cap {
                    cw
                } else {
                    cap - old(self).pos()
                };
                &&& (r is Some <==> old(self).pos() + cw <= cap)
                &&& final(self).pos() == old(self).pos() + w
                &&& forall|i: int|
                    0 <= i < cap ==> #[trigger] bit_at(final(self).bytes(), i) == (bit_at(
                        old(self).bytes(),
                        i,
                    ) || (old(self).pos() <= i < old(self).pos() + w && code_bit(
                        value,
                        i - old(self).pos(),
                    )))
            }),
    {
        let ghost ob = self.bytes();
        let ghost p0 = self.pos();
        let ghost cap = stream_len(ob);
        proof {
            lemma_code_shape(value);
        }
        if value == u64::MAX {
            proof {
                lemma_max_codeword();
            }
            match self.bit_buf.put_zeros(64) {
                None => {
                    return None;
                },
                Some(()) => {},
            }
            match self.bit_buf.put_bit(true) {
                None => {
                    return None;
                },
                Some(()) => {},
            }
            let ghost m2 = self.bytes();
            let ones: Vec<u8> = be_bytes(u64::MAX);
            let r2 = self.bit_buf.put_bytes(ones.as_slice(), 0);
            proof {
                let w = if p0 + 129 <= cap {
                    129int
                } else {
                    cap - p0
                };
                let w3 = if p0 + 129 <= cap {
                    64int
                } else {
                    cap - (p0 + 65)
                };
                assert forall|i: int| 0 <= i < cap implies #[trigger] bit_at(self.bytes(), i) == (
                bit_at(ob, i) || (p0 <= i < p0 + w && code_bit(value, i - p0))) by {
                    assert(bit_at(self.bytes(), i) == (bit_at(m2, i) || (p0 + 65 <= i < p0 + 65
                        + w3 && bit_at(ones@, 0 + (i - (p0 + 65))))));
                    if p0 + 65 <= i < p0 + 65 + w3 {
                        let t = i - (p0 + 65);
                        lemma_u64_byte_bit(u64::MAX, (t / 8) as u64, (t % 8) as u64);
                        let e = (63 - t) as u64;
                        assert((0xffff_ffff_ffff_ffffu64 >> e) & 1u64 == 1u64) by (bit_vector)
                            requires
                                e < 64,
                        ;
                    }
                }
            }
            r2
        } else {
            let xp1: u64 = value + 1;
            let lz: u32 = xp1.leading_zeros();
            proof {
                lemma_lz_pins_code_k(value);
            }
            let ghost k = code_k(value);
            let num_zeros: u32 = 64 - lz - 1;
            match self.bit_buf.put_zeros(num_zeros) {
                None => {
                    return None;
                },
                Some(()) => {},
            }
            let ghost m1 = self.bytes();
            let bytes: Vec<u8> = be_bytes(xp1);
            let start: usize = (lz / 8) as usize;
            let bit_start: u32 = lz % 8;
            let rest: &[u8] = slice_subrange(bytes.as_slice(), start, 8);
            let r2 = self.bit_buf.put_bytes(rest, bit_start);
            proof {
                let run2 = 8 * (rest@.len() as int) - bit_start;
                assert(run2 == k + 1);
                let w = if p0 + (2 * k + 1) <= cap {
                    2 * k + 1
                } else {
                    cap - p0
                };
                let w2 = if p0 + k + run2 <= cap {
                    run2
                } else {
                    cap - (p0 + k)
                };
                assert forall|i: int| 0 <= i < cap implies #[trigger] bit_at(self.bytes(), i) == (
                bit_at(ob, i) || (p0 <= i < p0 + w && code_bit(value, i - p0))) by {
                    assert(bit_at(self.bytes(), i) == (bit_at(m1, i) || (p0 + k <= i < p0 + k + w2
                        && bit_at(rest@, bit_start + (i - (p0 + k))))));
                    if p0 + k <= i < p0 + k + w2 {
                        let t = i - (p0 + k);
                        let u = bit_start + t;
                        assert(rest@[u / 8] == bytes@[start + u / 8]);
                        lemma_u64_byte_bit(xp1, (start + u / 8) as u64, (u % 8) as u64);
                        lemma_u64_bit_parity(xp1, (k - t) as u64);
                        lemma_code_bit_arith(value, t);
                    }
                }
            }
            r2
        }
    }

    /// Encode an `i64` by mapping it through the zig-zag unsigned domain
    /// (the inverse of the signed read mapping), then writing that
    /// codeword.  Returns `None` if the buffer is full.
    pub fn put_signed(&mut self, value: i64) -> (r: Option<()>)
        requires
            old(self).wf(),
        ensures
            final(self).wf(),
            final(self).bytes().len() == old(self).bytes().len(),
            ({
                let cw = code_len(unsigned_of(value));
                let cap = stream_len(old(self).bytes());
                let w = if old(self).pos() + cw <= cap {
                    cw
                } else {
                    cap - old(self).pos()
                };
                &&& (r is Some <==> old(self).pos() + cw <= cap)
                &&& final(self).pos() == old(self).pos() + w
                &&& forall|i: int|
                    0 <= i < cap ==> #[trigger] bit_at(final(self).bytes(), i) == (bit_at(
                        old(self).bytes(),
                        i,
                    ) || (old(self).pos() <= i < old(self).pos() + w && code_bit(
                        unsigned_of(value),
                        i - old(self).pos(),
                    )))
            }),
    {
        let u: u64 = if value == i64::MIN {
            u64::MAX
        } else if value > 0 {
            2 * (value as u64) - 1
        } else {
            2 * ((-value) as u64)
        };
        self.put_unsigned(u)
    }

    /// Consume the encoder, returning the buffer together with the bit
    /// position one past the last written bit: a byte index and the bit
    /// offset within that byte.
    pub fn close(self) -> (r: (Vec<u8>, usize, u32))
        requires
            self.wf(),
        ensures
            r.0@ == self.bytes(),
            8 * r.1 + r.2 == self.pos(),
            r.2 <= 7,
            r.1 <= r.0@.len(),
    {
        (self.bit_buf.buf, self.bit_buf.index, self.bit_buf.bit_pos)
    }
}

} // verus!
