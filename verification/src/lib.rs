//! An LZ78 dictionary codec over a bit-packed wire format.
//!
//! The encoder turns an arbitrary byte stream into a compressed bit stream
//! and the decoder reverses the transform exactly. Both sides accept their
//! input in arbitrary-sized chunks and buffer partial state between calls,
//! so a chunked session produces output bit-identical to a single-shot call.

pub mod bits;
pub mod code;
pub mod dict;
pub mod error;
pub mod compress;
pub mod decompress;
pub mod laws;

pub use crate::compress::LZ78Compressor;
pub use crate::decompress::LZ78Decompressor;
