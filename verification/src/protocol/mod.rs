//! The wire protocol: decimal numerals, line framing, the value type and its
//! codec.

pub mod decode;
pub mod framing;
pub mod laws;
pub mod number;
pub mod order;
pub mod r_object;
pub mod text;

pub use decode::ProtocolError;
pub use r_object::RObject;
