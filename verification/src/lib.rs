//! LZW compression over in-memory byte buffers, with the dictionary, the
//! encoder and the decoder stated as mathematical models and the executable
//! code proved against them.

pub mod coder;
pub mod dictionary;
pub mod laws;
pub mod stream;
pub mod trie;

pub use coder::LZWCoder;
pub use stream::DecodeError;
