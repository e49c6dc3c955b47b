//! A GIF decoder: the container format (header, logical screen descriptor,
//! colour tables, extension blocks, image descriptors) and the variable
//! code-width LZW decompression of image data, read through a
//! least-significant-bit-first bit reader.

pub mod bit_math;
pub mod bit_reader;
pub mod error;
pub mod lzw;
pub mod gif;
