//! A verified implementation of the Hessian 2.0 binary serialization
//! format: a bidirectional codec between an in-memory value model and the
//! tagged, self-describing Hessian wire encoding.
//!
//! `wire::sd_value` gives the byte format its meaning as a deterministic
//! mathematical parse.  The decoder is proved equal to that parse, and the
//! encoder is proved to emit octets the parse reads back to the value that
//! was written — so decoding an encoding returns the original value.

pub mod constant;
pub mod de;
pub mod error;
pub mod fbits;
pub mod laws;
pub mod model;
pub mod order;
pub mod parse;
pub mod ser;
pub mod text;
pub mod value;
pub mod wire;

pub use constant::ByteCodecType;
pub use de::from_slice;
pub use error::{Error, ErrorKind};
pub use order::value_eq;
pub use ser::to_vec;
pub use value::Value;
