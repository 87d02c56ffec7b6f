//! Exp-Golomb decoding over a borrowed byte buffer.

use crate::bitstream::{
    bit_at, decode_at, leading_zeros_at, lemma_leading_zeros_at_none,
    lemma_leading_zeros_at_props, lemma_leading_zeros_at_window, lemma_suffix_at_bound, signed_of,
    stream_len, suffix_at,
};
use vstd::arithmetic::div_mod::*;
use vstd::arithmetic::power2::*;
use vstd::bits::lemma_u64_shl_is_mul;
use vstd::prelude::*;

verus! {

/// Read cursor: a byte index and a sub-byte bit offset into a borrowed
/// buffer.  A byte index equal to the buffer length marks an exhausted
/// cursor; once exhausted, it stays exhausted.
struct BitIterator<'a> {
    buf: &'a [u8],
    index: usize,
    bit_pos: u32,
}

impl<'a> BitIterator<'a> {
    spec fn bytes(self) -> Seq<u8> {
        self.buf@
    }

    spec fn wf(self) -> bool {
        &&& self.index <= self.buf@.len()
        &&& self.bit_pos <= 7
    }

    /// Bit position of the cursor, capped at the end of the stream.
    spec fn pos(self) -> int {
        let p = 8 * (self.index as int) + self.bit_pos;
        if p > stream_len(self.buf@) {
            stream_len(self.buf@)
        } else {
            p
        }
    }

    fn new(buf: &'a [u8], start: u32) -> (r: BitIterator<'a>)
        requires
            start <= 7,
        ensures
            r.wf(),
            r.bytes() == buf@,
            buf@.len() > 0 ==> r.pos() == start,
    {
        BitIterator { buf, index: 0, bit_pos: start }
    }

    /// Read one bit and advance, or report the end of the stream.
    fn next(&mut self) -> (r: Option<u8>)
        requires
            old(self).wf(),
        ensures
            final(self).wf(),
            final(self).bytes() == old(self).bytes(),
            old(self).pos() < stream_len(old(self).bytes()) ==> {
                &&& r == Some(
                    if bit_at(old(self).bytes(), old(self).pos()) {
                        1u8
                    } else {
                        0u8
                    },
                )
                &&& final(self).pos() == old(self).pos() + 1
            },
            old(self).pos() >= stream_len(old(self).bytes()) ==> r is None && *final(self)
                == *old(self),
    {
        if self.index >= self.buf.len() {
            return None;
        }
        let curr_byte: u8 = self.buf[self.index];
        let shift: u8 = (7 - self.bit_pos) as u8;
        let bit: u8 = (curr_byte >> shift) & 1u8;
        proof {
            let p = 8 * (self.index as int) + self.bit_pos;
            lemma_fundamental_div_mod_converse(p, 8, self.index as int, self.bit_pos as int);
            assert((curr_byte >> shift) & 1u8 == 0u8 || (curr_byte >> shift) & 1u8 == 1u8)
                by (bit_vector);
        }
        self.bit_pos = self.bit_pos + 1;
        if self.bit_pos == 8 {
            self.bit_pos = 0;
            self.index = self.index + 1;
        }
        Some(bit)
    }

    /// Advance the cursor by `num_bits` bits, clamping at the end of the
    /// stream; skipping is best-effort and never fails.
    fn skip_bits(&mut self, num_bits: u32)
        requires
            old(self).wf(),
            num_bits <= 64,
        ensures
            final(self).wf(),
            final(self).bytes() == old(self).bytes(),
            final(self).pos() == if old(self).pos() + num_bits <= stream_len(old(self).bytes()) {
                old(self).pos() + num_bits
            } else {
                stream_len(old(self).bytes())
            },
    {
        let offset: usize = self.bit_pos as usize + num_bits as usize;
        let add: usize = offset / 8;
        proof {
            lemma_fundamental_div_mod(offset as int, 8);
        }
        if add >= self.buf.len() - self.index {
            self.index = self.buf.len();
        } else {
            self.index = self.index + add;
        }
        self.bit_pos = (offset % 8) as u32;
    }

    /// Whether at least `n` more bits can be read from the cursor.
    fn has_bits(&self, n: u32) -> (r: bool)
        requires
            self.wf(),
            n <= 64,
        ensures
            r <==> self.pos() + n <= stream_len(self.bytes()),
    {
        let len: usize = self.buf.len();
        if self.index >= len {
            n == 0
        } else {
            let rem_bytes: usize = len - self.index;
            if rem_bytes >= 9 {
                true
            } else {
                let avail: u32 = 8 * (rem_bytes as u32) - self.bit_pos;
                n <= avail
            }
        }
    }
}

/// An Exponential-Golomb parser.
pub struct ExpGolombDecoder<'a> {
    iter: BitIterator<'a>,
}

impl<'a> ExpGolombDecoder<'a> {
    /// The bytes of the buffer the decoder reads.
    pub closed spec fn bytes(self) -> Seq<u8> {
        self.iter.bytes()
    }

    /// Current bit position in the stream, between 0 and
    /// `stream_len(self.bytes())`.
    pub closed spec fn pos(self) -> int {
        self.iter.pos()
    }

    /// Internal well-formedness of the cursor.
    pub closed spec fn wf(self) -> bool {
        self.iter.wf()
    }

    /// Create a new `ExpGolombDecoder`.
    ///
    /// `start` denotes the starting position in the first byte of `buf`
    /// and goes from 0 (first) to 7 (last).  Returns `None` if the buffer
    /// is empty or if `start` is not within `[0, 7]`.
    pub fn new(buf: &'a [u8], start: u32) -> (r: Option<ExpGolombDecoder<'a>>)
        ensures
            r is Some <==> (buf@.len() > 0 && start <= 7),
            r matches Some(d) ==> d.wf() && d.bytes() == buf@ && d.pos() == start,
    {
        if buf.is_empty() || start > 7 {
            return None;
        }
        Some(ExpGolombDecoder { iter: BitIterator::new(buf, start) })
    }

    /// Read the next bit (i.e., as a flag).  Returns `None` if the end of
    /// the bitstream is reached.
    pub fn next_bit(&mut self) -> (r: Option<u8>)
        requires
            old(self).wf(),
        ensures
            final(self).wf(),
            final(self).bytes() == old(self).bytes(),
            old(self).pos() < stream_len(old(self).bytes()) ==> {
                &&& r == Some(
                    if bit_at(old(self).bytes(), old(self).pos()) {
                        1u8
                    } else {
                        0u8
                    },
                )
                &&& final(self).pos() == old(self).pos() + 1
            },
            old(self).pos() >= stream_len(old(self).bytes()) ==> r is None && final(self).pos()
                == old(self).pos(),
    {
        self.iter.next()
    }

    /// Count the zero run in front of the next codeword and consume its
    /// terminating one bit.  Fails once the 65th zero is seen (the coded
    /// value could not fit 64 bits) or when the stream ends first.
    fn count_leading_zeroes(&mut self) -> (r: Option<u32>)
        requires
            old(self).wf(),
        ensures
            final(self).wf(),
            final(self).bytes() == old(self).bytes(),
            match leading_zeros_at(old(self).bytes(), old(self).pos()) {
                Some(k) => {
                    if k <= 64 {
                        0 <= k && r == Some(k as u32) && final(self).pos() == old(self).pos() + k
                            + 1
                    } else {
                        r is None && final(self).pos() == old(self).pos() + 65
                    }
                },
                None => r is None && final(self).pos() == (if old(self).pos() + 65 <= stream_len(
                    old(self).bytes(),
                ) {
                    old(self).pos() + 65
                } else {
                    stream_len(old(self).bytes())
                }),
            },
    {
        let ghost s = self.bytes();
        let ghost pos0 = self.pos();
        let mut leading_zeros: u32 = 0;
        #[verifier::loop_isolation(false)]
        loop
            invariant
                self.wf(),
                self.bytes() == s,
                leading_zeros <= 64,
                self.pos() == pos0 + leading_zeros,
                0 <= pos0,
                forall|i: int| pos0 <= i < pos0 + leading_zeros ==> !bit_at(s, i),
            decreases stream_len(s) - self.pos(),
        {
            match self.iter.next() {
                None => {
                    proof {
                        lemma_leading_zeros_at_none(s, pos0);
                    }
                    return None;
                },
                Some(bit) => {
                    if bit == 0 {
                        leading_zeros = leading_zeros + 1;
                        if leading_zeros > 64 {
                            proof {
                                lemma_leading_zeros_at_props(s, pos0);
                            }
                            return None;
                        }
                    } else {
                        proof {
                            lemma_leading_zeros_at_window(s, pos0, leading_zeros as int);
                        }
                        return Some(leading_zeros);
                    }
                },
            }
        }
    }

    /// Read the next Exp-Golomb value as an unsigned integer.  Returns
    /// `None` if the end of the bitstream is reached before parsing is
    /// completed or if the coded value exceeds the limits of a `u64`.
    pub fn next_unsigned(&mut self) -> (r: Option<u64>)
        requires
            old(self).wf(),
        ensures
            final(self).wf(),
            final(self).bytes() == old(self).bytes(),
            match decode_at(old(self).bytes(), old(self).pos()) {
                Some(ve) => r == Some(ve.0) && final(self).pos() == ve.1,
                None => r is None,
            },
    {
        let ghost s = self.bytes();
        let ghost pos0 = self.pos();
        let lz: u32 = match self.count_leading_zeroes() {
            None => {
                return None;
            },
            Some(lz) => lz,
        };
        let base: u64 = if lz == 64 {
            0
        } else {
            proof {
                lemma2_to64();
                lemma2_to64_rest();
                if lz < 63 {
                    lemma_pow2_strictly_increases(lz as nat, 63);
                }
                lemma_u64_shl_is_mul(1u64, lz as u64);
                lemma_pow2_pos(lz as nat);
            }
            (1u64 << (lz as u64)) - 1
        };
        let ghost sufstart = pos0 + lz + 1;
        let mut y: u64 = 0;
        let mut consumed: u32 = 0;
        proof {
            lemma2_to64();
        }
        #[verifier::loop_isolation(false)]
        while consumed < lz
            invariant
                self.wf(),
                self.bytes() == s,
                consumed <= lz <= 64,
                leading_zeros_at(s, pos0) == Some(lz as int),
                self.pos() == sufstart + consumed,
                sufstart == pos0 + lz + 1,
                y == suffix_at(s, sufstart, consumed as int),
                y < pow2(consumed as nat),
            decreases lz - consumed,
        {
            match self.iter.next() {
                None => {
                    return None;
                },
                Some(bit) => {
                    proof {
                        lemma_pow2_unfold((consumed + 1) as nat);
                        lemma2_to64();
                        lemma2_to64_rest();
                        if consumed < 63 {
                            lemma_pow2_strictly_increases(consumed as nat, 63);
                        }
                    }
                    y = 2 * y + bit as u64;
                    consumed = consumed + 1;
                },
            }
        }
        proof {
            lemma_suffix_at_bound(s, sufstart, lz as int);
            if lz < 64 {
                lemma_pow2_unfold((lz + 1) as nat);
                if lz + 1 < 64 {
                    lemma_pow2_strictly_increases((lz + 1) as nat, 64);
                }
                lemma2_to64();
                lemma2_to64_rest();
            }
        }
        Some(base + y)
    }

    /// Read the next Exp-Golomb value, interpreting it as a signed
    /// integer.  Returns `None` if the end of the bitstream is reached
    /// before parsing is completed or if the coded value exceeds the
    /// limits of an `i64`.
    pub fn next_signed(&mut self) -> (r: Option<i64>)
        requires
            old(self).wf(),
        ensures
            final(self).wf(),
            final(self).bytes() == old(self).bytes(),
            match decode_at(old(self).bytes(), old(self).pos()) {
                Some(ve) => r == Some(signed_of(ve.0)) && final(self).pos() == ve.1,
                None => r is None,
            },
    {
        match self.next_unsigned() {
            None => None,
            Some(u) => {
                if u == u64::MAX {
                    Some(i64::MIN)
                } else if u % 2 == 0 {
                    Some(-((u / 2) as i64))
                } else {
                    Some((u / 2 + 1) as i64)
                }
            },
        }
    }

    /// Skip the next Exp-Golomb encoded value and report whether a whole
    /// codeword was passed over.  Shared worker for the public skip
    /// operations.
    pub(crate) fn skip_next_checked(&mut self) -> (r: Option<()>)
        requires
            old(self).wf(),
        ensures
            final(self).wf(),
            final(self).bytes() == old(self).bytes(),
            r is Some <==> decode_at(old(self).bytes(), old(self).pos()) is Some,
            decode_at(old(self).bytes(), old(self).pos()) matches Some(ve) ==> final(self).pos()
                == ve.1,
            decode_at(old(self).bytes(), old(self).pos()) is None ==> final(self).pos()
                >= old(self).pos(),
    {
        match self.count_leading_zeroes() {
            None => None,
            Some(lz) => {
                let fits: bool = self.iter.has_bits(lz);
                self.iter.skip_bits(lz);
                if fits {
                    Some(())
                } else {
                    None
                }
            },
        }
    }

    /// Skip the next Exp-Golomb encoded value.  Any parsing error at the
    /// end of the bitstream is ignored; where a whole codeword was
    /// present, the cursor lands exactly on the bit that follows it.
    pub fn skip_next(&mut self)
        requires
            old(self).wf(),
        ensures
            final(self).wf(),
            final(self).bytes() == old(self).bytes(),
            decode_at(old(self).bytes(), old(self).pos()) matches Some(ve) ==> final(self).pos()
                == ve.1,
            decode_at(old(self).bytes(), old(self).pos()) is None ==> final(self).pos() >= old(
                self,
            ).pos(),
    {
        let _ = self.skip_next_checked();
    }
}

} // verus!
