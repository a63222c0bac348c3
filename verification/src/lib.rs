//! Bit-level packing of traffic sensor counts with a fixed prefix code.

pub mod bit_decoder;
pub mod bit_encoder;
pub mod bits;
pub mod prefix_code;
pub mod utils;
