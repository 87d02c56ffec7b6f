//! Bit-level codec for Exponential-Golomb universal integer coding.
//!
//! The codec reads and writes variable-length codewords over byte buffers
//! starting at an arbitrary bit offset.  A codeword is a run of `k` zero
//! bits, one terminating `1` bit, and `k` suffix bits; it encodes the
//! unsigned value `2^k - 1 + suffix`.

pub mod bitstream;
pub mod decoder;
pub mod encoder;

pub use decoder::ExpGolombDecoder;
pub use encoder::ExpGolombEncoder;

use crate::bitstream::{bit_at, decode_at, signed_of, stream_len};
use vstd::prelude::*;

verus! {

/// An Exponential-Golomb parser: the reader surface, a thin layer over
/// `ExpGolombDecoder`, which holds the one canonical decode algorithm.
pub struct ExpGolombReader<'a> {
    inner: ExpGolombDecoder<'a>,
}

impl<'a> ExpGolombReader<'a> {
    /// The bytes of the buffer the reader reads.
    pub closed spec fn bytes(self) -> Seq<u8> {
        self.inner.bytes()
    }

    /// Current bit position in the stream.
    pub closed spec fn pos(self) -> int {
        self.inner.pos()
    }

    /// Internal well-formedness of the cursor.
    pub closed spec fn wf(self) -> bool {
        self.inner.wf()
    }

    /// Create a new `ExpGolomb` reader.
    ///
    /// `start` denotes the starting position in the first byte of `buf`
    /// and goes from 0 (first) to 7 (last).  Returns `None` if the
    /// buffer is empty or if `start` is not within `[0, 7]`.
    pub fn new(buf: &'a [u8], start: u8) -> (r: Option<ExpGolombReader<'a>>)
        ensures
            r is Some <==> (buf@.len() > 0 && start <= 7),
            r matches Some(d) ==> d.wf() && d.bytes() == buf@ && d.pos() == start,
    {
        match ExpGolombDecoder::new(buf, start as u32) {
            None => None,
            Some(inner) => Some(ExpGolombReader { inner }),
        }
    }

    /// Read the next bit (i.e., as a flag).  Returns `None` if the end
    /// of the bitstream is reached.
    pub fn next_bit(&mut self) -> (r: Option<u8>)
        requires
            old(self).wf(),
        ensures
            final(self).wf(),
            final(self).bytes() == old(self).bytes(),
            old(self).pos() < stream_len(old(self).bytes()) ==> {
                &&& r == Some(
                    if bit_at(old(self).bytes(), old(self).pos()) {
                        1u8
                    } else {
                        0u8
                    },
                )
                &&& final(self).pos() == old(self).pos() + 1
            },
            old(self).pos() >= stream_len(old(self).bytes()) ==> r is None && final(self).pos()
                == old(self).pos(),
    {
        self.inner.next_bit()
    }

    /// Read the next Exp-Golomb value as an unsigned integer.  Returns
    /// `None` if the end of the bitstream is reached before parsing is
    /// completed or if the coded value exceeds the limits of a `u64`.
    pub fn next_unsigned(&mut self) -> (r: Option<u64>)
        requires
            old(self).wf(),
        ensures
            final(self).wf(),
            final(self).bytes() == old(self).bytes(),
            match decode_at(old(self).bytes(), old(self).pos()) {
                Some(ve) => r == Some(ve.0) && final(self).pos() == ve.1,
                None => r is None,
            },
    {
        self.inner.next_unsigned()
    }

    /// Read the next Exp-Golomb value, interpreting it as a signed
    /// integer.  Returns `None` if the end of the bitstream is reached
    /// before parsing is completed or if the coded value exceeds the
    /// limits of an `i64`.
    pub fn next_signed(&mut self) -> (r: Option<i64>)
        requires
            old(self).wf(),
        ensures
            final(self).wf(),
            final(self).bytes() == old(self).bytes(),
            match decode_at(old(self).bytes(), old(self).pos()) {
                Some(ve) => r == Some(signed_of(ve.0)) && final(self).pos() == ve.1,
                None => r is None,
            },
    {
        self.inner.next_signed()
    }

    /// Skip the next Exp-Golomb encoded value.  Returns `None` if the
    /// end of the bitstream is reached before a whole codeword was
    /// passed over; on `Some`, the cursor lands exactly on the bit that
    /// follows the skipped codeword.
    pub fn skip_next(&mut self) -> (r: Option<()>)
        requires
            old(self).wf(),
        ensures
            final(self).wf(),
            final(self).bytes() == old(self).bytes(),
            r is Some <==> decode_at(old(self).bytes(), old(self).pos()) is Some,
            decode_at(old(self).bytes(), old(self).pos()) matches Some(ve) ==> final(self).pos()
                == ve.1,
            decode_at(old(self).bytes(), old(self).pos()) is None ==> final(self).pos() >= old(
                self,
            ).pos(),
    {
        self.inner.skip_next_checked()
    }
}

} // verus!
