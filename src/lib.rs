//! Decoder for the PPM animation container written by a handheld drawing
//! application: header and metadata parsing, the frame offset table, line-type
//! decompression of two-layer 1-bit frames, and interframe XOR compositing.

pub mod bytes;
pub mod error;
pub mod frame;
pub mod palette;
pub mod parser;
pub mod text;

pub use bytes::read_n_to_vec;
pub use error::PpmError;
pub use palette::Rgb;
pub use parser::{Metadata, PPMParser};
pub use text::{strip_null, vec_u8_to_string};
