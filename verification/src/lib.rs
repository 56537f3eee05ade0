//! Whole-file range coding over exact, arbitrary-precision fractions.
//!
//! A byte string is compressed into a single fraction: a point inside the
//! interval that is left when the interval from 0 to 1 is narrowed once for
//! every byte, in proportion to how frequent the byte is. No rounding takes
//! place, so the fraction and the table of frequencies give the bytes back
//! exactly.
//!
//! - [`rational`]: exact fractions of big integers, reduced now and then.
//! - [`range_encoder`]: the frequency model, encoding and decoding.
//! - [`range_serializer`]: the container of a model and an encoded value.
//! - [`bignum`]: the operations on big integers that are taken on trust.
//! - [`fraction`], [`euclid`], [`bytes`]: the mathematics of the contracts.
//! - [`model_laws`], [`coding_laws`], [`round_trip`], [`container_laws`]:
//!   what is proved of the whole.

pub mod bignum;
pub mod bytes;
pub mod coding_laws;
pub mod container_laws;
pub mod error;
pub mod euclid;
pub mod fraction;
pub mod model_laws;
pub mod range_encoder;
pub mod range_serializer;
pub mod rational;
pub mod round_trip;
