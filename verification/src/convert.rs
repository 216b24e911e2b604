use vstd::prelude::*;

use crate::dtype::DType;
use crate::dtype::is_int_dtype;
use crate::header::HEADER_SIZE;
use crate::header::header_bytes;
use crate::header::lemma_preamble_fits;
use crate::header::preamble_bytes;
use crate::header::write_header;
use crate::le::i32_pattern;
use crate::le::i64_pattern;
use crate::le::put_u32_le;
use crate::le::put_u64_le;
use crate::le::put_i32_le;
use crate::le::put_i64_le;
use crate::le::u32_le;
use crate::le::u64_le;
use crate::num::parse_i32_spec;
use crate::num::parse_i32_token;
use crate::num::parse_i64_spec;
use crate::num::parse_i64_token;
use crate::num::parse_u32_spec;
use crate::num::parse_u32_token;
use crate::num::parse_u64_spec;
use crate::num::parse_u64_token;
use crate::split::lemma_split_count;
use crate::split::split_line;
use crate::split::split_spec;

verus! {

/// The error of a failed conversion: a field token did not parse as the
/// element type.
#[derive(Clone, Copy, PartialEq, Eq, Structural, Debug)]
pub enum NpyError {
    Parse,
}

/// The encoded bytes of one token of an integer element type; `None` when
/// the token does not parse.
pub open spec fn enc_token(dt: DType, tok: Seq<u8>) -> Option<Seq<u8>>
    recommends
        is_int_dtype(dt),
{
    match dt {
        DType::U32 => match parse_u32_spec(tok) {
            Some(v) => Some(u32_le(v)),
            None => None,
        },
        DType::I32 => match parse_i32_spec(tok) {
            Some(v) => Some(u32_le(i32_pattern(v))),
            None => None,
        },
        DType::U64 => match parse_u64_spec(tok) {
            Some(v) => Some(u64_le(v)),
            None => None,
        },
        DType::I64 => match parse_i64_spec(tok) {
            Some(v) => Some(u64_le(i64_pattern(v))),
            None => None,
        },
        DType::F32 => None,
        DType::F64 => None,
    }
}

/// The concatenated encodings of a sequence of tokens; `None` when any
/// token does not parse.
pub open spec fn enc_tokens(dt: DType, toks: Seq<Seq<u8>>) -> Option<Seq<u8>>
    decreases toks.len(),
{
    if toks.len() == 0 {
        Some(Seq::<u8>::empty())
    } else {
        match enc_token(dt, toks[0]) {
            Some(b) => match enc_tokens(dt, toks.drop_first()) {
                Some(r) => Some(b + r),
                None => None,
            },
            None => None,
        }
    }
}

/// The encoded bytes of one line: its fields split on the separator, each
/// parsed and encoded; `None` when any field does not parse.
pub open spec fn enc_line(dt: DType, line: Seq<u8>, sep: Seq<u8>) -> Option<Seq<u8>> {
    enc_tokens(dt, split_spec(line, sep))
}

/// The concatenated encodings of all lines; `None` when any line fails.
pub open spec fn enc_lines(dt: DType, lines: Seq<Seq<u8>>, sep: Seq<u8>) -> Option<Seq<u8>>
    decreases lines.len(),
{
    if lines.len() == 0 {
        Some(Seq::<u8>::empty())
    } else {
        match enc_line(dt, lines[0], sep) {
            Some(b) => match enc_lines(dt, lines.drop_first(), sep) {
                Some(r) => Some(b + r),
                None => None,
            },
            None => None,
        }
    }
}

/// The bytes of the lines that convert before the first failing one.
pub open spec fn enc_lines_prefix(dt: DType, lines: Seq<Seq<u8>>, sep: Seq<u8>) -> Seq<u8>
    decreases lines.len(),
{
    if lines.len() == 0 {
        Seq::<u8>::empty()
    } else {
        match enc_line(dt, lines[0], sep) {
            Some(b) => b + enc_lines_prefix(dt, lines.drop_first(), sep),
            None => Seq::<u8>::empty(),
        }
    }
}

/// Splits one line on the separator, parses every field as the integer
/// element type, and appends the fields' little-endian encodings to the
/// sink in field order; returns the field count. On a parse failure nothing
/// is appended.
pub fn convert_line(line: &[u8], out: &mut Vec<u8>, dtype: &DType, sep: &[u8]) -> (r: Result<
    u32,
    NpyError,
>)
    requires
        is_int_dtype(*dtype),
        sep@.len() >= 1,
        line@.len() < 0xffff_ffff,
    ensures
        match r {
            Ok(n) => enc_line(*dtype, line@, sep@) is Some && final(out)@ == old(out)@ + enc_line(
                *dtype,
                line@,
                sep@,
            ).unwrap() && n as int == split_spec(line@, sep@).len(),
            Err(e) => enc_line(*dtype, line@, sep@) is None && final(out)@ == old(out)@ && e
                == NpyError::Parse,
        },
{
    let toks = split_line(line, sep);
    let ghost all = toks.deep_view();
    proof {
        lemma_split_count(line@, sep@);
        assert(all.skip(0) =~= all);
    }
    let k = toks.len();
    let mut buf: Vec<u8> = Vec::new();
    let mut i: usize = 0;
    while i < k
        invariant
            i <= k,
            k == all.len(),
            k == toks@.len(),
            all == toks.deep_view(),
            all == split_spec(line@, sep@),
            is_int_dtype(*dtype),
            match enc_tokens(*dtype, all.skip(i as int)) {
                Some(r) => enc_tokens(*dtype, all) == Some(buf@ + r),
                None => enc_tokens(*dtype, all) is None,
            },
        decreases k - i,
    {
        let tok: &Vec<u8> = &toks[i];
        proof {
            assert(all[i as int] == tok@);
            assert(all.skip(i as int)[0] == all[i as int]);
            assert(all.skip(i as int).drop_first() =~= all.skip(i as int + 1));
        }
        let ok: bool = match *dtype {
            DType::U32 => {
                match parse_u32_token(tok.as_slice()) {
                    Some(v) => {
                        put_u32_le(&mut buf, v);
                        true
                    },
                    None => false,
                }
            },
            DType::I32 => {
                match parse_i32_token(tok.as_slice()) {
                    Some(v) => {
                        put_i32_le(&mut buf, v);
                        true
                    },
                    None => false,
                }
            },
            DType::U64 => {
                match parse_u64_token(tok.as_slice()) {
                    Some(v) => {
                        put_u64_le(&mut buf, v);
                        true
                    },
                    None => false,
                }
            },
            DType::I64 => {
                match parse_i64_token(tok.as_slice()) {
                    Some(v) => {
                        put_i64_le(&mut buf, v);
                        true
                    },
                    None => false,
                }
            },
            DType::F32 => false,
            DType::F64 => false,
        };
        if !ok {
            proof {
                assert(enc_token(*dtype, all.skip(i as int)[0]) is None);
                assert(enc_tokens(*dtype, all) is None);
            }
            return Err(NpyError::Parse);
        }
        i = i + 1;
    }
    proof {
        assert(all.skip(k as int) =~= Seq::<Seq<u8>>::empty());
        assert(enc_tokens(*dtype, all.skip(k as int)) == Some(Seq::<u8>::empty()));
        assert(buf@ + Seq::<u8>::empty() =~= buf@);
    }
    out.append(&mut buf);
    Ok(k as u32)
}

/// Drives [`convert_line`] over every line in order, appending all element
/// bytes to the sink; returns the row count and the field count of the last
/// line. On a failure the bytes of the lines before the failing one remain
/// appended.
pub fn convert_data(lines: &Vec<Vec<u8>>, out: &mut Vec<u8>, dtype: &DType, sep: &[u8]) -> (r:
    Result<(u32, u32), NpyError>)
    requires
        is_int_dtype(*dtype),
        sep@.len() >= 1,
        lines@.len() <= 0xffff_ffff,
        forall|i: int| 0 <= i < lines@.len() ==> (#[trigger] lines@[i])@.len() < 0xffff_ffff,
    ensures
        match r {
            Ok(rc) => enc_lines(*dtype, lines.deep_view(), sep@) is Some && final(out)@ == old(
                out,
            )@ + enc_lines(*dtype, lines.deep_view(), sep@).unwrap() && rc.0 as int
                == lines.deep_view().len() && rc.1 as int == (if lines.deep_view().len() == 0 {
                0int
            } else {
                split_spec(lines.deep_view().last(), sep@).len() as int
            }),
            Err(e) => enc_lines(*dtype, lines.deep_view(), sep@) is None && final(out)@ == old(
                out,
            )@ + enc_lines_prefix(*dtype, lines.deep_view(), sep@) && e == NpyError::Parse,
        },
{
    let ghost all = lines.deep_view();
    let ghost out0 = out@;
    let n = lines.len();
    let mut rows: u32 = 0;
    let mut cols: u32 = 0;
    let mut i: usize = 0;
    proof {
        assert(all.skip(0) =~= all);
    }
    while i < n
        invariant
            i <= n,
            n == all.len(),
            n == lines@.len(),
            n <= 0xffff_ffff,
            all == lines.deep_view(),
            is_int_dtype(*dtype),
            sep@.len() >= 1,
            forall|t: int| 0 <= t < lines@.len() ==> (#[trigger] lines@[t])@.len() < 0xffff_ffff,
            rows as int == i,
            i == 0 ==> cols == 0,
            i > 0 ==> cols as int == split_spec(all[i - 1], sep@).len(),
            out0 == old(out)@,
            out@.len() >= out0.len(),
            out@.subrange(0, out0.len() as int) == out0,
            match enc_lines(*dtype, all.skip(i as int), sep@) {
                Some(r) => enc_lines(*dtype, all, sep@) == Some(
                    out@.subrange(out0.len() as int, out@.len() as int) + r,
                ),
                None => enc_lines(*dtype, all, sep@) is None,
            },
            enc_lines_prefix(*dtype, all, sep@) == out@.subrange(
                out0.len() as int,
                out@.len() as int,
            ) + enc_lines_prefix(*dtype, all.skip(i as int), sep@),
        decreases n - i,
    {
        let line: &Vec<u8> = &lines[i];
        proof {
            assert(all[i as int] == line@);
            assert(all.skip(i as int)[0] == all[i as int]);
            assert(all.skip(i as int).drop_first() =~= all.skip(i as int + 1));
        }
        let ghost before = out@;
        match convert_line(line.as_slice(), out, dtype, sep) {
            Ok(c) => {
                proof {
                    let written = before.subrange(out0.len() as int, before.len() as int);
                    let b = enc_line(*dtype, all[i as int], sep@).unwrap();
                    assert(out@.subrange(out0.len() as int, out@.len() as int) =~= written + b);
                    assert((written + b) + enc_lines_prefix(
                        *dtype,
                        all.skip(i as int + 1),
                        sep@,
                    ) =~= written + (b + enc_lines_prefix(*dtype, all.skip(i as int + 1), sep@)));
                    match enc_lines(*dtype, all.skip(i as int + 1), sep@) {
                        Some(rr) => {
                            assert((written + b) + rr =~= written + (b + rr));
                        },
                        None => {
                        },
                    }
                    assert(out@.subrange(0, out0.len() as int) =~= out0);
                }
                rows = rows + 1;
                cols = c;
            },
            Err(e) => {
                proof {
                    assert(enc_lines(*dtype, all.skip(i as int), sep@) is None);
                    assert(enc_lines_prefix(*dtype, all.skip(i as int), sep@)
                        =~= Seq::<u8>::empty());
                    assert(out@.subrange(out0.len() as int, out@.len() as int)
                        + Seq::<u8>::empty() =~= out@.subrange(
                        out0.len() as int,
                        out@.len() as int,
                    ));
                    assert(out@ =~= out@.subrange(0, out0.len() as int) + out@.subrange(
                        out0.len() as int,
                        out@.len() as int,
                    ));
                    assert(out@ =~= out0 + enc_lines_prefix(*dtype, all, sep@));
                    assert(out@ == old(out)@ + enc_lines_prefix(*dtype, lines.deep_view(), sep@));
                }
                return Err(e);
            },
        }
        i = i + 1;
    }
    proof {
        assert(all.skip(n as int) =~= Seq::<Seq<u8>>::empty());
        assert(out@.subrange(out0.len() as int, out@.len() as int) + Seq::<u8>::empty()
            =~= out@.subrange(out0.len() as int, out@.len() as int));
        assert(out@ =~= out0 + out@.subrange(out0.len() as int, out@.len() as int));
        if n > 0 {
            assert(all[n - 1] == all.last());
        }
    }
    Ok((rows, cols))
}

/// The rendered row count of a table.
pub open spec fn shape_rows(lines: Seq<Seq<u8>>) -> u32
    recommends
        lines.len() <= 0xffff_ffff,
{
    lines.len() as u32
}

/// The rendered column count of a table: the field count of the last line,
/// or zero when there are no lines.
pub open spec fn shape_cols(lines: Seq<Seq<u8>>, sep: Seq<u8>) -> u32 {
    if lines.len() == 0 {
        0u32
    } else {
        split_spec(lines.last(), sep).len() as u32
    }
}

/// The bytes of the whole file: the 128-byte header region for the final
/// shape, then every line's encoded elements in input order.
pub open spec fn npy_bytes(dt: DType, lines: Seq<Seq<u8>>, sep: Seq<u8>) -> Seq<u8>
    recommends
        enc_lines(dt, lines, sep) is Some,
{
    header_bytes(dt, shape_rows(lines), shape_cols(lines, sep)) + enc_lines(
        dt,
        lines,
        sep,
    ).unwrap()
}

/// Converts a whole textual table of an integer element type into the bytes
/// of its file: reserves the header region with space bytes, appends every
/// line's elements, then overwrites the start of the reservation with the
/// finished header.
pub fn txt_to_npy(lines: &Vec<Vec<u8>>, data_type: &DType, sep: &[u8]) -> (r: Result<
    Vec<u8>,
    NpyError,
>)
    requires
        is_int_dtype(*data_type),
        sep@.len() >= 1,
        lines@.len() <= 0xffff_ffff,
        forall|i: int| 0 <= i < lines@.len() ==> (#[trigger] lines@[i])@.len() < 0xffff_ffff,
    ensures
        match r {
            Ok(v) => enc_lines(*data_type, lines.deep_view(), sep@) is Some && v@ == npy_bytes(
                *data_type,
                lines.deep_view(),
                sep@,
            ),
            Err(e) => enc_lines(*data_type, lines.deep_view(), sep@) is None && e
                == NpyError::Parse,
        },
{
    let mut out: Vec<u8> = Vec::new();
    let mut i: usize = 0;
    while i < HEADER_SIZE
        invariant
            i <= HEADER_SIZE,
            out@.len() == i,
            forall|t: int| 0 <= t < i ==> out@[t] == 32u8,
        decreases HEADER_SIZE - i,
    {
        out.push(32u8);
        i = i + 1;
    }
    let ghost spaces = out@;
    match convert_data(lines, &mut out, data_type, sep) {
        Ok(rc) => {
            let rows = rc.0;
            let cols = rc.1;
            let ghost data = enc_lines(*data_type, lines.deep_view(), sep@).unwrap();
            let ghost ob = out@;
            proof {
                lemma_preamble_fits(*data_type, rows, cols);
            }
            write_header(&mut out, rows, cols, data_type);
            proof {
                let pre = preamble_bytes(*data_type, rows, cols);
                assert(ob.subrange(pre.len() as int, ob.len() as int) =~= ob.subrange(
                    pre.len() as int,
                    HEADER_SIZE as int,
                ) + data);
                assert(ob.subrange(pre.len() as int, HEADER_SIZE as int) =~= Seq::new(
                    (HEADER_SIZE - pre.len()) as nat,
                    |t: int| 32u8,
                ));
                assert(out@ =~= header_bytes(*data_type, rows, cols) + data);
                assert(rows == shape_rows(lines.deep_view()));
                assert(cols == shape_cols(lines.deep_view(), sep@));
            }
            Ok(out)
        },
        Err(e) => Err(e),
    }
}

} // verus!
