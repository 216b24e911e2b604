//! Verified emitter of the NumPy `.npy` array file format (version 1.0).
//!
//! The library turns a delimited textual table into the bytes of a `.npy`
//! file: a 128-byte header region (magic, version, descriptor dictionary,
//! space padding) followed by the rows' elements packed little-endian, in
//! row-major order. The shape is known only once the input is exhausted, so
//! the emitter reserves the header region with space bytes, appends the
//! data, and overwrites the start of the reservation with the finished
//! header.
//!
//! Integer element types are parsed and encoded here. The two
//! floating-point element types are encoded here from their IEEE-754 bit
//! patterns; parsing a floating-point token is the caller's part, since
//! floating-point values cannot appear in verified code.

pub mod bits;
pub mod bytes_util;
pub mod convert;
pub mod dtype;
pub mod header;
pub mod laws;
pub mod le;
pub mod num;
pub mod split;

pub use bits::bits_to_npy;
pub use bits::convert_bits_data;
pub use bits::convert_bits_line;
pub use convert::NpyError;
pub use convert::convert_data;
pub use convert::convert_line;
pub use convert::txt_to_npy;
pub use dtype::DType;
pub use dtype::dtype_of_arg;
pub use dtype::dtype_to_header_str;
pub use header::write_header;
pub use num::parse_i32_token;
pub use num::parse_i64_token;
pub use num::parse_u32_token;
pub use num::parse_u64_token;
pub use split::split_line;
