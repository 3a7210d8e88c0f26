//! Values that are one uniform run, taken as a run of bits or of bytes.

use crate::bits::Bits;
use crate::bytes::Bytes;
use crate::error::Error;
use crate::length::{is_pow2, is_power_of_two, lemma_pow2_eighth};
use crate::native::{do_each_bit_strict, is_run_shaped, native_bits, value_bits};
use crate::word::{pack_bits, pack_bytes};
use simplicity::Value;
use vstd::prelude::*;

verus! {

/// The run of bits that a value is, or why it is none.
///
/// The number of bits must be a power of two, and the value must have the
/// shape of a run.
pub open spec fn bit_run_of(v: &Value) -> Result<Seq<bool>, Error> {
    if !is_pow2(value_bits(v).len() as int) {
        Err(Error::InvalidLength)
    } else if !is_run_shaped(v) {
        Err(Error::NotAUniformRun)
    } else {
        Ok(value_bits(v))
    }
}

/// The run of bytes that a value is, or why it is none.
///
/// The number of bits must be a power of two and a multiple of eight, and the
/// value must have the shape of a run.  Eight bits make a byte, most
/// significant bit first.
pub open spec fn byte_run_of(v: &Value) -> Result<Seq<u8>, Error> {
    if !is_pow2(value_bits(v).len() as int) {
        Err(Error::InvalidLength)
    } else if value_bits(v).len() % 8 != 0 {
        Err(Error::MisalignedByteLength)
    } else if !is_run_shaped(v) {
        Err(Error::NotAUniformRun)
    } else {
        Ok(pack_bytes(value_bits(v)))
    }
}

impl Bits {
    /// The value as a run of bits.
    pub fn try_from(value: &Value) -> (result: Result<Self, Error>)
        ensures
            match result {
                Ok(run) => bit_run_of(value) == Ok::<Seq<bool>, Error>(run@),
                Err(e) => bit_run_of(value) == Err::<Seq<bool>, Error>(e),
            },
    {
        let all = native_bits(value);
        if !is_power_of_two(all.len()) {
            return Err(Error::InvalidLength);
        }
        match do_each_bit_strict(value) {
            Ok(bits) => Ok(Bits::from_bits(bits)),
            Err(e) => Err(e),
        }
    }
}

impl Bytes {
    /// The value as a run of bytes.
    pub fn try_from(value: &Value) -> (result: Result<Self, Error>)
        ensures
            match result {
                Ok(run) => byte_run_of(value) == Ok::<Seq<u8>, Error>(run@),
                Err(e) => byte_run_of(value) == Err::<Seq<u8>, Error>(e),
            },
    {
        let all = native_bits(value);
        if !is_power_of_two(all.len()) {
            return Err(Error::InvalidLength);
        }
        if all.len() % 8 != 0 {
            return Err(Error::MisalignedByteLength);
        }
        match do_each_bit_strict(value) {
            Ok(bits) => {
                let bytes = pack_bits(bits.as_slice());
                proof {
                    lemma_pow2_eighth(bits@.len() as int);
                }
                Ok(Bytes::from_bytes(bytes))
            },
            Err(e) => Err(e),
        }
    }
}

} // verus!
