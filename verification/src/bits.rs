use vstd::prelude::*;

use crate::convert::NpyError;
use crate::dtype::DType;
use crate::dtype::is_int_dtype;
use crate::dtype::width;
use crate::header::HEADER_SIZE;
use crate::header::header_bytes;
use crate::header::lemma_preamble_fits;
use crate::header::preamble_bytes;
use crate::header::write_header;
use crate::le::put_u32_le;
use crate::le::put_u64_le;
use crate::le::u32_le;
use crate::le::u64_le;

verus! {

/// The encoded bytes of one field given as a bit pattern: the pattern's low
/// four bytes for a four-byte element type, all eight otherwise.
pub open spec fn enc_bits_elem(dt: DType, b: u64) -> Seq<u8> {
    if width(dt) == 4 {
        u32_le((b % 0x1_0000_0000) as u32)
    } else {
        u64_le(b)
    }
}

/// The encoded bytes of one row of bit patterns; `None` when a field is
/// `None`, that is, when the caller's parse of that field failed.
pub open spec fn enc_bits_row(dt: DType, row: Seq<Option<u64>>) -> Option<Seq<u8>>
    decreases row.len(),
{
    if row.len() == 0 {
        Some(Seq::<u8>::empty())
    } else {
        match row[0] {
            Some(b) => match enc_bits_row(dt, row.drop_first()) {
                Some(r) => Some(enc_bits_elem(dt, b) + r),
                None => None,
            },
            None => None,
        }
    }
}

/// The concatenated encodings of all rows; `None` when any row fails.
pub open spec fn enc_bits_rows(dt: DType, rows: Seq<Seq<Option<u64>>>) -> Option<Seq<u8>>
    decreases rows.len(),
{
    if rows.len() == 0 {
        Some(Seq::<u8>::empty())
    } else {
        match enc_bits_row(dt, rows[0]) {
            Some(b) => match enc_bits_rows(dt, rows.drop_first()) {
                Some(r) => Some(b + r),
                None => None,
            },
            None => None,
        }
    }
}

/// The bytes of the rows that convert before the first failing one.
pub open spec fn enc_bits_prefix(dt: DType, rows: Seq<Seq<Option<u64>>>) -> Seq<u8>
    decreases rows.len(),
{
    if rows.len() == 0 {
        Seq::<u8>::empty()
    } else {
        match enc_bits_row(dt, rows[0]) {
            Some(b) => b + enc_bits_prefix(dt, rows.drop_first()),
            None => Seq::<u8>::empty(),
        }
    }
}

/// Appends the little-endian encodings of one row of bit patterns to the
/// sink in field order; returns the field count. A `None` field is a failed
/// parse: nothing is appended and the conversion fails.
pub fn convert_bits_line(row: &Vec<Option<u64>>, out: &mut Vec<u8>, dtype: &DType) -> (r: Result<
    u32,
    NpyError,
>)
    requires
        !is_int_dtype(*dtype),
        row@.len() <= 0xffff_ffff,
    ensures
        match r {
            Ok(n) => enc_bits_row(*dtype, row@) is Some && final(out)@ == old(out)@ + enc_bits_row(
                *dtype,
                row@,
            ).unwrap() && n as int == row@.len(),
            Err(e) => enc_bits_row(*dtype, row@) is None && final(out)@ == old(out)@ && e
                == NpyError::Parse,
        },
{
    let k = row.len();
    let mut buf: Vec<u8> = Vec::new();
    let mut i: usize = 0;
    proof {
        assert(row@.skip(0) =~= row@);
    }
    while i < k
        invariant
            i <= k,
            k == row@.len(),
            !is_int_dtype(*dtype),
            match enc_bits_row(*dtype, row@.skip(i as int)) {
                Some(r) => enc_bits_row(*dtype, row@) == Some(buf@ + r),
                None => enc_bits_row(*dtype, row@) is None,
            },
        decreases k - i,
    {
        proof {
            assert(row@.skip(i as int)[0] == row@[i as int]);
            assert(row@.skip(i as int).drop_first() =~= row@.skip(i as int + 1));
        }
        match row[i] {
            Some(b) => {
                match *dtype {
                    DType::F32 => {
                        put_u32_le(&mut buf, (b % 0x1_0000_0000u64) as u32);
                    },
                    _ => {
                        put_u64_le(&mut buf, b);
                    },
                }
            },
            None => {
                proof {
                    assert(enc_bits_row(*dtype, row@) is None);
                }
                return Err(NpyError::Parse);
            },
        }
        i = i + 1;
    }
    proof {
        assert(row@.skip(k as int) =~= Seq::<Option<u64>>::empty());
        assert(buf@ + Seq::<u8>::empty() =~= buf@);
    }
    out.append(&mut buf);
    Ok(k as u32)
}

/// Drives [`convert_bits_line`] over every row in order; returns the row
/// count and the field count of the last row. On a failure the bytes of the
/// rows before the failing one remain appended.
pub fn convert_bits_data(rows: &Vec<Vec<Option<u64>>>, out: &mut Vec<u8>, dtype: &DType) -> (r:
    Result<(u32, u32), NpyError>)
    requires
        !is_int_dtype(*dtype),
        rows@.len() <= 0xffff_ffff,
        forall|i: int| 0 <= i < rows@.len() ==> (#[trigger] rows@[i])@.len() <= 0xffff_ffff,
    ensures
        match r {
            Ok(rc) => enc_bits_rows(*dtype, rows.deep_view()) is Some && final(out)@ == old(out)@
                + enc_bits_rows(*dtype, rows.deep_view()).unwrap() && rc.0 as int
                == rows.deep_view().len() && rc.1 as int == (if rows.deep_view().len() == 0 {
                0int
            } else {
                rows.deep_view().last().len() as int
            }),
            Err(e) => enc_bits_rows(*dtype, rows.deep_view()) is None && final(out)@ == old(out)@
                + enc_bits_prefix(*dtype, rows.deep_view()) && e == NpyError::Parse,
        },
{
    let ghost all = rows.deep_view();
    let ghost out0 = out@;
    let n = rows.len();
    let mut nrows: u32 = 0;
    let mut cols: u32 = 0;
    let mut i: usize = 0;
    proof {
        assert(all.skip(0) =~= all);
    }
    while i < n
        invariant
            i <= n,
            n == all.len(),
            n == rows@.len(),
            n <= 0xffff_ffff,
            all == rows.deep_view(),
            !is_int_dtype(*dtype),
            forall|t: int| 0 <= t < rows@.len() ==> (#[trigger] rows@[t])@.len() <= 0xffff_ffff,
            nrows as int == i,
            i == 0 ==> cols == 0,
            i > 0 ==> cols as int == all[i - 1].len(),
            out0 == old(out)@,
            out@.len() >= out0.len(),
            out@.subrange(0, out0.len() as int) == out0,
            match enc_bits_rows(*dtype, all.skip(i as int)) {
                Some(r) => enc_bits_rows(*dtype, all) == Some(
                    out@.subrange(out0.len() as int, out@.len() as int) + r,
                ),
                None => enc_bits_rows(*dtype, all) is None,
            },
            enc_bits_prefix(*dtype, all) == out@.subrange(out0.len() as int, out@.len() as int)
                + enc_bits_prefix(*dtype, all.skip(i as int)),
        decreases n - i,
    {
        let row: &Vec<Option<u64>> = &rows[i];
        proof {
            assert(all[i as int] =~= row@);
            assert(all.skip(i as int)[0] == all[i as int]);
            assert(all.skip(i as int).drop_first() =~= all.skip(i as int + 1));
        }
        let ghost before = out@;
        match convert_bits_line(row, out, dtype) {
            Ok(c) => {
                proof {
                    let written = before.subrange(out0.len() as int, before.len() as int);
                    let b = enc_bits_row(*dtype, all[i as int]).unwrap();
                    assert(out@.subrange(out0.len() as int, out@.len() as int) =~= written + b);
                    assert((written + b) + enc_bits_prefix(*dtype, all.skip(i as int + 1))
                        =~= written + (b + enc_bits_prefix(*dtype, all.skip(i as int + 1))));
                    match enc_bits_rows(*dtype, all.skip(i as int + 1)) {
                        Some(rr) => {
                            assert((written + b) + rr =~= written + (b + rr));
                        },
                        None => {
                        },
                    }
                    assert(out@.subrange(0, out0.len() as int) =~= out0);
                }
                nrows = nrows + 1;
                cols = c;
            },
            Err(e) => {
                proof {
                    assert(enc_bits_rows(*dtype, all.skip(i as int)) is None);
                    assert(enc_bits_prefix(*dtype, all.skip(i as int)) =~= Seq::<u8>::empty());
                    assert(out@.subrange(out0.len() as int, out@.len() as int)
                        + Seq::<u8>::empty() =~= out@.subrange(
                        out0.len() as int,
                        out@.len() as int,
                    ));
                    assert(out@ =~= out0 + enc_bits_prefix(*dtype, all));
                }
                return Err(e);
            },
        }
        i = i + 1;
    }
    proof {
        assert(all.skip(n as int) =~= Seq::<Seq<Option<u64>>>::empty());
        assert(out@.subrange(out0.len() as int, out@.len() as int) + Seq::<u8>::empty()
            =~= out@.subrange(out0.len() as int, out@.len() as int));
        assert(out@ =~= out0 + out@.subrange(out0.len() as int, out@.len() as int));
        if n > 0 {
            assert(all[n - 1] == all.last());
        }
    }
    Ok((nrows, cols))
}

/// The rendered column count of a table of bit-pattern rows.
pub open spec fn bits_shape_cols(rows: Seq<Seq<Option<u64>>>) -> u32 {
    if rows.len() == 0 {
        0u32
    } else {
        rows.last().len() as u32
    }
}

/// The bytes of the whole file for rows of bit patterns: the 128-byte
/// header region for the final shape, then every row's encoded fields.
pub open spec fn npy_bits_bytes(dt: DType, rows: Seq<Seq<Option<u64>>>) -> Seq<u8>
    recommends
        enc_bits_rows(dt, rows) is Some,
        rows.len() <= 0xffff_ffff,
{
    header_bytes(dt, rows.len() as u32, bits_shape_cols(rows)) + enc_bits_rows(dt, rows).unwrap()
}

/// Converts a table of bit-pattern rows of a floating-point element type
/// into the bytes of its file, as [`crate::convert::txt_to_npy`] does for a
/// textual table of an integer element type.
pub fn bits_to_npy(rows: &Vec<Vec<Option<u64>>>, data_type: &DType) -> (r: Result<
    Vec<u8>,
    NpyError,
>)
    requires
        !is_int_dtype(*data_type),
        rows@.len() <= 0xffff_ffff,
        forall|i: int| 0 <= i < rows@.len() ==> (#[trigger] rows@[i])@.len() <= 0xffff_ffff,
    ensures
        match r {
            Ok(v) => enc_bits_rows(*data_type, rows.deep_view()) is Some && v@ == npy_bits_bytes(
                *data_type,
                rows.deep_view(),
            ),
            Err(e) => enc_bits_rows(*data_type, rows.deep_view()) is None && e == NpyError::Parse,
        },
{
    let mut out: Vec<u8> = Vec::new();
    let mut i: usize = 0;
    while i < HEADER_SIZE
        invariant
            i <= HEADER_SIZE,
            out@.len() == i,
            forall|t: int| 0 <= t < i ==> out@[t] == 32u8,
        decreases HEADER_SIZE - i,
    {
        out.push(32u8);
        i = i + 1;
    }
    match convert_bits_data(rows, &mut out, data_type) {
        Ok(rc) => {
            let nrows = rc.0;
            let cols = rc.1;
            let ghost data = enc_bits_rows(*data_type, rows.deep_view()).unwrap();
            let ghost ob = out@;
            proof {
                lemma_preamble_fits(*data_type, nrows, cols);
            }
            write_header(&mut out, nrows, cols, data_type);
            proof {
                let pre = preamble_bytes(*data_type, nrows, cols);
                assert(ob.subrange(pre.len() as int, ob.len() as int) =~= ob.subrange(
                    pre.len() as int,
                    HEADER_SIZE as int,
                ) + data);
                assert(ob.subrange(pre.len() as int, HEADER_SIZE as int) =~= Seq::new(
                    (HEADER_SIZE - pre.len()) as nat,
                    |t: int| 32u8,
                ));
                assert(out@ =~= header_bytes(*data_type, nrows, cols) + data);
                assert(nrows as int == rows.deep_view().len());
                assert(cols == bits_shape_cols(rows.deep_view()));
            }
            Ok(out)
        },
        Err(e) => Err(e),
    }
}

} // verus!
