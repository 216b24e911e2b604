use vstd::prelude::*;

use crate::bytes_util::ascii_bytes;

verus! {

/// The element type of the produced array: the six supported fixed-width
/// little-endian numeric kinds.
#[derive(Clone, Copy, PartialEq, Eq, Structural, Debug)]
pub enum DType {
    U32,
    I32,
    U64,
    I64,
    F32,
    F64,
}

/// The byte width of one element of the given type.
pub open spec fn width(dt: DType) -> nat {
    match dt {
        DType::U32 => 4,
        DType::I32 => 4,
        DType::U64 => 8,
        DType::I64 => 8,
        DType::F32 => 4,
        DType::F64 => 8,
    }
}

/// Whether the type's tokens are parsed by this library itself; the two
/// floating-point types are parsed by the caller, which hands over bit patterns.
pub open spec fn is_int_dtype(dt: DType) -> bool {
    match dt {
        DType::U32 => true,
        DType::I32 => true,
        DType::U64 => true,
        DType::I64 => true,
        DType::F32 => false,
        DType::F64 => false,
    }
}

/// The canonical NumPy descriptor token of the type.
pub open spec fn descr_chars(dt: DType) -> Seq<char> {
    match dt {
        DType::U32 => "<u4"@,
        DType::U64 => "<u8"@,
        DType::I32 => "<i4"@,
        DType::I64 => "<i8"@,
        DType::F32 => "<f4"@,
        DType::F64 => "<f8"@,
    }
}

/// The descriptor token as ASCII bytes.
pub open spec fn descr_bytes(dt: DType) -> Seq<u8> {
    ascii_bytes(descr_chars(dt))
}

/// Returns the descriptor token that names `dt` inside the header dictionary.
pub fn dtype_to_header_str(dt: &DType) -> (r: String)
    ensures
        r@ == descr_chars(*dt),
{
    match *dt {
        DType::U32 => "<u4".to_owned(),
        DType::U64 => "<u8".to_owned(),
        DType::I32 => "<i4".to_owned(),
        DType::I64 => "<i8".to_owned(),
        DType::F32 => "<f4".to_owned(),
        DType::F64 => "<f8".to_owned(),
    }
}

/// The element type selected by a textual argument: each of the six names
/// picks its type, and anything else falls back to `F32`.
pub open spec fn dtype_of_arg_spec(s: Seq<u8>) -> DType {
    if s == ascii_bytes("u32"@) {
        DType::U32
    } else if s == ascii_bytes("u64"@) {
        DType::U64
    } else if s == ascii_bytes("i32"@) {
        DType::I32
    } else if s == ascii_bytes("i64"@) {
        DType::I64
    } else if s == ascii_bytes("f64"@) {
        DType::F64
    } else {
        DType::F32
    }
}

/// Maps the textual type argument to its element type, with the fallback
/// to `F32` for an unrecognized name.
pub fn dtype_of_arg(s: &[u8]) -> (r: DType)
    ensures
        r == dtype_of_arg_spec(s@),
{
    proof {
        reveal_strlit("u32");
        reveal_strlit("u64");
        reveal_strlit("i32");
        reveal_strlit("i64");
        reveal_strlit("f64");
        assert(vstd::string::is_ascii("u32"));
        assert(vstd::string::is_ascii("u64"));
        assert(vstd::string::is_ascii("i32"));
        assert(vstd::string::is_ascii("i64"));
        assert(vstd::string::is_ascii("f64"));
    }
    if crate::bytes_util::bytes_eq(s, crate::bytes_util::ascii_lit("u32")) {
        DType::U32
    } else if crate::bytes_util::bytes_eq(s, crate::bytes_util::ascii_lit("u64")) {
        DType::U64
    } else if crate::bytes_util::bytes_eq(s, crate::bytes_util::ascii_lit("i32")) {
        DType::I32
    } else if crate::bytes_util::bytes_eq(s, crate::bytes_util::ascii_lit("i64")) {
        DType::I64
    } else if crate::bytes_util::bytes_eq(s, crate::bytes_util::ascii_lit("f64")) {
        DType::F64
    } else {
        DType::F32
    }
}

} // verus!
