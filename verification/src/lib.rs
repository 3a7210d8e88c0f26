//! Compact values of a unit / sum / product type system.
//!
//! A value is a tree of unit, left, right and product nodes.  Long spans of
//! bits and bytes inside such a tree are held as runs: windows into shared
//! storage that can be bisected without copying.
//!
//! - [`bits`] and [`bytes`] hold the runs, [`word`] the packing of bits into
//!   bytes, [`length`] the lengths that a run may have.
//! - [`value`] holds the extended value, and [`shape`] what it is apart from
//!   how its runs are stored; contracts speak of values by their shape.
//! - [`native`] and [`types`] describe the values and types of `simplicity`.
//! - [`strict`] takes a value as one run, [`compress`] turns any value into
//!   an extended value, [`decode`] reads one from a type and a stream of
//!   bits, and [`render`] writes one as text.

pub mod bits;
pub mod bytes;
pub mod compress;
pub mod decode;
pub mod error;
pub mod length;
pub mod native;
pub mod render;
pub mod shape;
pub mod strict;
pub mod types;
pub mod value;
pub mod word;

pub use crate::bits::Bits;
pub use crate::bytes::Bytes;
pub use crate::error::Error;
pub use crate::value::ExtValue;
