//! Decoding of RESP requests: a fixed-capacity ring buffer over a byte stream and an
//! iterative decoder for multi-bulk and inline commands.
pub mod buffer;
pub mod encoding;
pub mod error;

pub mod network;
pub mod truncation;
pub mod value;
