//! A byte encoder/decoder for converting values to and from byte streams.
//!
//! Values are written with [`Encode::encode`], which appends their bytes to a
//! buffer, and read with [`Decode::decode`], which reads them from a byte slice at a
//! position. Integers travel big-endian, strings behind a `u16` byte count, vectors
//! behind a `u64` length, `Option` and `Result` behind a marker byte, and enums behind
//! a discriminant byte.

pub mod bytes;
pub mod codec;
pub mod containers;
pub mod error;
pub mod ints;
pub mod laws;
pub mod layout_laws;
pub mod shapes;
pub mod tags;
pub mod text;

pub use codec::{Codec, Decode, Encode, Failure, Model};
pub use error::{Error, Result};
