//! Runs of bits.

use crate::error::Error;
use crate::length::{is_pow2, is_power_of_two, lemma_pow2_half};
use crate::word::{byte_bits, byte_to_bits, lemma_bits_of_len};
use std::sync::Arc;
use vstd::prelude::*;

verus! {

/// Immutable sequence of bits whose length is a power of two.
///
/// A run is a window into shared storage.  Splitting it in half gives two
/// windows into the same storage: nothing is copied.
#[derive(Debug, Eq, PartialEq)]
pub struct Bits {
    bits: Arc<Vec<bool>>,
    start: usize,
    len: usize,
}

impl View for Bits {
    type V = Seq<bool>;

    /// The bits of the run, leftmost first.
    closed spec fn view(&self) -> Seq<bool> {
        self.bits@.subrange(self.start as int, self.start + self.len)
    }
}

impl Clone for Bits {
    /// Another window onto the same storage.
    fn clone(&self) -> (run: Self)
        ensures
            run@ == self@,
    {
        proof {
            use_type_invariant(self);
        }
        Self { bits: self.bits.clone(), start: self.start, len: self.len }
    }
}

impl Bits {
    #[verifier::type_invariant]
    spec fn inv(&self) -> bool {
        &&& self.start + self.len <= self.bits@.len() <= usize::MAX
        &&& is_pow2(self.len as int)
    }

    /// A run of the given bits, whose number must be a power of two.
    pub fn from_bits(bits: Vec<bool>) -> (run: Self)
        requires
            is_pow2(bits@.len() as int),
        ensures
            run@ == bits@,
    {
        let len = bits.len();
        proof {
            assert(bits@.subrange(0, len as int) =~= bits@);
        }
        Self { len, bits: Arc::new(bits), start: 0 }
    }

    /// A run of the given bits, or `InvalidLength` if their number is not a
    /// power of two.
    pub fn try_from_bits(bits: Vec<bool>) -> (result: Result<Self, Error>)
        ensures
            match result {
                Ok(run) => is_pow2(bits@.len() as int) && run@ == bits@,
                Err(e) => !is_pow2(bits@.len() as int) && e == Error::InvalidLength,
            },
    {
        if is_power_of_two(bits.len()) {
            Ok(Self::from_bits(bits))
        } else {
            Err(Error::InvalidLength)
        }
    }

    /// A run of one bit.
    pub fn from_bit(bit: bool) -> (run: Self)
        ensures
            run@ == seq![bit],
    {
        let bits: Vec<bool> = vec![bit];
        proof {
            assert(bits@.subrange(0, 1) =~= seq![bit]);
        }
        Self { len: 1, bits: Arc::new(bits), start: 0 }
    }

    /// The run of the eight bits of a byte, most significant first.
    pub fn from_byte(byte: u8) -> (run: Self)
        ensures
            run@ == byte_bits(byte),
    {
        let bits = byte_to_bits(byte);
        proof {
            lemma_bits_of_len(byte as nat, 8);
            reveal_with_fuel(is_pow2, 4);
            assert(bits@.subrange(0, 8) =~= bits@);
        }
        Self { bits: Arc::new(bits), start: 0, len: 8 }
    }

    /// The left and the right half of the run, or `None` for a run of one bit.
    pub fn split(&self) -> (halves: Option<(Self, Self)>)
        ensures
            is_pow2(self@.len() as int),
            self@.len() == 1 <==> halves is None,
            halves matches Some((left, right)) ==> {
                &&& left@ == self@.take(self@.len() as int / 2)
                &&& right@ == self@.skip(self@.len() as int / 2)
                &&& left@.len() == self@.len() / 2
                &&& right@.len() == self@.len() / 2
                &&& left@ + right@ == self@
            },
    {
        proof {
            use_type_invariant(self);
        }
        if self.len == 1 {
            None
        } else {
            proof {
                lemma_pow2_half(self.len as int);
            }
            let half = self.len / 2;
            let left = Self { bits: self.bits.clone(), start: self.start, len: half };
            let right = Self { bits: self.bits.clone(), start: self.start + half, len: half };
            proof {
                assert(left@ =~= self@.take(self@.len() as int / 2));
                assert(right@ =~= self@.skip(self@.len() as int / 2));
                assert(left@ + right@ =~= self@);
            }
            Some((left, right))
        }
    }

    /// The bit of a run of one bit, or `None` for a longer run.
    pub fn get_bit(&self) -> (bit: Option<bool>)
        ensures
            bit == if self@.len() == 1 { Some(self@[0]) } else { None },
    {
        proof {
            use_type_invariant(self);
        }
        if self.len == 1 {
            Some(self.bits[self.start])
        } else {
            None
        }
    }

    /// The number of bits in the run: a power of two.
    pub fn bit_length(&self) -> (len: usize)
        ensures
            len == self@.len(),
            is_pow2(len as int),
    {
        proof {
            use_type_invariant(self);
        }
        self.len
    }

    /// The bits of the run, leftmost first.
    pub fn iter_bits(&self) -> (bits: Vec<bool>)
        ensures
            bits@ == self@,
    {
        proof {
            use_type_invariant(self);
        }
        let mut bits: Vec<bool> = Vec::new();
        let mut i: usize = 0;
        while i < self.len
            invariant
                i <= self.len,
                self.start + self.len <= self.bits@.len() <= usize::MAX,
                bits@ == self@.take(i as int),
            decreases self.len - i,
        {
            bits.push(self.bits[self.start + i]);
            proof {
                assert(bits@ =~= self@.take(i + 1));
            }
            i += 1;
        }
        proof {
            assert(self@.take(self.len as int) =~= self@);
        }
        bits
    }
}

} // verus!
