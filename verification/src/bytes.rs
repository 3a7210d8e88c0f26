//! Runs of bytes.

use crate::bits::Bits;
use crate::error::Error;
use crate::length::{is_pow2, is_power_of_two, lemma_pow2_half};
use crate::word::{byte_bits, bytes_bits, lemma_bits_of_len, unpack_bytes};
use std::sync::Arc;
use vstd::prelude::*;
use vstd::slice::{slice_subrange, slice_to_vec};

verus! {

/// Immutable sequence of bytes whose length is a power of two.
///
/// A run is a window into shared storage.  Splitting it in half gives two
/// windows into the same storage; splitting a single byte gives the two
/// halves of its bits.
#[derive(Debug, Eq, PartialEq)]
pub struct Bytes {
    bytes: Arc<Vec<u8>>,
    start: usize,
    len: usize,
}

impl View for Bytes {
    type V = Seq<u8>;

    /// The bytes of the run, leftmost first.
    closed spec fn view(&self) -> Seq<u8> {
        self.bytes@.subrange(self.start as int, self.start + self.len)
    }
}

impl Clone for Bytes {
    /// Another window onto the same storage.
    fn clone(&self) -> (run: Self)
        ensures
            run@ == self@,
    {
        proof {
            use_type_invariant(self);
        }
        Self { bytes: self.bytes.clone(), start: self.start, len: self.len }
    }
}

impl Bytes {
    #[verifier::type_invariant]
    spec fn inv(&self) -> bool {
        &&& self.start + self.len <= self.bytes@.len() <= usize::MAX
        &&& is_pow2(self.len as int)
    }

    /// A run of the given bytes, whose number must be a power of two.
    pub fn from_bytes(bytes: Vec<u8>) -> (run: Self)
        requires
            is_pow2(bytes@.len() as int),
        ensures
            run@ == bytes@,
    {
        let len = bytes.len();
        proof {
            assert(bytes@.subrange(0, len as int) =~= bytes@);
        }
        Self { len, bytes: Arc::new(bytes), start: 0 }
    }

    /// A run of the given bytes, or `InvalidLength` if their number is not a
    /// power of two.
    pub fn try_from_bytes(bytes: Vec<u8>) -> (result: Result<Self, Error>)
        ensures
            match result {
                Ok(run) => is_pow2(bytes@.len() as int) && run@ == bytes@,
                Err(e) => !is_pow2(bytes@.len() as int) && e == Error::InvalidLength,
            },
    {
        if is_power_of_two(bytes.len()) {
            Ok(Self::from_bytes(bytes))
        } else {
            Err(Error::InvalidLength)
        }
    }

    /// A run of a copy of the given bytes, whose number must be a power of two.
    pub fn from_slice(bytes: &[u8]) -> (run: Self)
        requires
            is_pow2(bytes@.len() as int),
        ensures
            run@ == bytes@,
    {
        Self::from_bytes(slice_to_vec(bytes))
    }

    /// The number of bytes in the run: a power of two.
    pub fn byte_length(&self) -> (len: usize)
        ensures
            len == self@.len(),
            is_pow2(len as int),
    {
        proof {
            use_type_invariant(self);
        }
        self.len
    }

    /// The bytes of the run, leftmost first.
    pub fn iter_bytes(&self) -> (bytes: Vec<u8>)
        ensures
            bytes@ == self@,
    {
        slice_to_vec(self.as_slice())
    }

    /// The bits of the run: those of each byte in turn, most significant first.
    pub fn iter_bits(&self) -> (bits: Vec<bool>)
        ensures
            bits@ == bytes_bits(self@),
    {
        unpack_bytes(self.as_slice())
    }

    /// The two halves of the run.
    ///
    /// A run of two or more bytes gives two runs of bytes.  A run of a single
    /// byte gives, as the error, the runs of its upper and lower four bits.
    pub fn split(&self) -> (halves: Result<(Self, Self), (Bits, Bits)>)
        ensures
            is_pow2(self@.len() as int),
            match halves {
                Ok((left, right)) => {
                    &&& self@.len() > 1
                    &&& left@ == self@.take(self@.len() as int / 2)
                    &&& right@ == self@.skip(self@.len() as int / 2)
                    &&& left@.len() == self@.len() / 2
                    &&& right@.len() == self@.len() / 2
                    &&& left@ + right@ == self@
                },
                Err((left, right)) => {
                    &&& self@.len() == 1
                    &&& left@ == byte_bits(self@[0]).take(4)
                    &&& right@ == byte_bits(self@[0]).skip(4)
                    &&& left@ + right@ == bytes_bits(self@)
                },
            },
    {
        proof {
            use_type_invariant(self);
        }
        if self.len == 1 {
            let byte = self.bytes[self.start];
            let bits = Bits::from_byte(byte);
            proof {
                lemma_bits_of_len(byte as nat, 8);
                assert(self@ =~= seq![byte]);
                assert(bytes_bits(self@) =~= byte_bits(byte));
            }
            Err(bits.split().unwrap())
        } else {
            proof {
                lemma_pow2_half(self.len as int);
            }
            let half = self.len / 2;
            let left = Self { bytes: self.bytes.clone(), start: self.start, len: half };
            let right = Self { bytes: self.bytes.clone(), start: self.start + half, len: half };
            proof {
                assert(left@ =~= self@.take(self@.len() as int / 2));
                assert(right@ =~= self@.skip(self@.len() as int / 2));
                assert(left@ + right@ =~= self@);
            }
            Ok((left, right))
        }
    }

    /// The window of the run as a slice of its storage.
    pub(crate) fn as_slice(&self) -> (bytes: &[u8])
        ensures
            bytes@ == self@,
    {
        proof {
            use_type_invariant(self);
        }
        slice_subrange(self.bytes.as_slice(), self.start, self.start + self.len)
    }
}

} // verus!
