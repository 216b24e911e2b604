use vstd::prelude::*;

use crate::bits::bits_shape_cols;
use crate::bits::enc_bits_elem;
use crate::bits::enc_bits_row;
use crate::bits::enc_bits_rows;
use crate::bits::npy_bits_bytes;
use crate::bytes_util::ascii_bytes;
use crate::convert::enc_line;
use crate::convert::enc_lines;
use crate::convert::enc_token;
use crate::convert::enc_tokens;
use crate::convert::npy_bytes;
use crate::convert::shape_cols;
use crate::convert::shape_rows;
use crate::dtype::DType;
use crate::dtype::descr_bytes;
use crate::dtype::is_int_dtype;
use crate::dtype::width;
use crate::header::header_bytes;
use crate::header::lemma_preamble_fits;
use crate::header::shape_bytes;
use crate::le::i32_pattern;
use crate::le::i64_pattern;
use crate::le::le4_val;
use crate::le::le8_val;
use crate::le::lemma_le4_roundtrip;
use crate::le::lemma_le8_roundtrip;
use crate::num::parse_i32_spec;
use crate::num::parse_i64_spec;
use crate::num::parse_u32_spec;
use crate::num::parse_u64_spec;
use crate::split::lemma_split_nonempty;
use crate::split::split_spec;

verus! {

/// The header region is always exactly 128 bytes and opens with the fixed
/// preamble: the magic byte, the name `NUMPY`, format version 1.0, and the
/// 16-bit little-endian preamble length 118. The descriptor token stands at
/// offset 21 and the rendered shape at offset 60; the header depends on the
/// element type and the shape alone, never on the data values.
pub proof fn lemma_header_magic(dt: DType, rows: u32, cols: u32)
    ensures
        header_bytes(dt, rows, cols).len() == 128,
        header_bytes(dt, rows, cols)[0] == 0x93,
        header_bytes(dt, rows, cols).subrange(1, 6) == ascii_bytes("NUMPY"@),
        header_bytes(dt, rows, cols)[6] == 1,
        header_bytes(dt, rows, cols)[7] == 0,
        header_bytes(dt, rows, cols)[8] + 0x100 * header_bytes(dt, rows, cols)[9] == 118,
        header_bytes(dt, rows, cols).subrange(21, 24) == descr_bytes(dt),
        header_bytes(dt, rows, cols).subrange(60, 60 + shape_bytes(rows, cols).len() as int)
            == shape_bytes(rows, cols),
{
    lemma_preamble_fits(dt, rows, cols);
    assert(118u16 & 0xff == 118 && (118u16 >> 8) & 0xff == 0) by (bit_vector);
    reveal_strlit("NUMPY");
    reveal_strlit("{'descr': '");
    reveal_strlit("', 'fortran_order': False, 'shape': ");
    reveal_strlit("<u4");
    reveal_strlit("<u8");
    reveal_strlit("<i4");
    reveal_strlit("<i8");
    reveal_strlit("<f4");
    reveal_strlit("<f8");
    let h = header_bytes(dt, rows, cols);
    assert(h.subrange(1, 6) =~= ascii_bytes("NUMPY"@));
    assert(h.subrange(21, 24) =~= descr_bytes(dt));
    assert(h.subrange(60, 60 + shape_bytes(rows, cols).len() as int) =~= shape_bytes(rows, cols));
}

/// For every successful textual run, the produced file opens with the fixed
/// preamble, and its data region starts at offset 128.
pub proof fn lemma_npy_magic(dt: DType, lines: Seq<Seq<u8>>, sep: Seq<u8>)
    requires
        enc_lines(dt, lines, sep) is Some,
    ensures
        npy_bytes(dt, lines, sep).len() >= 128,
        npy_bytes(dt, lines, sep).subrange(0, 128) == header_bytes(
            dt,
            shape_rows(lines),
            shape_cols(lines, sep),
        ),
        npy_bytes(dt, lines, sep).skip(128) == enc_lines(dt, lines, sep).unwrap(),
        npy_bytes(dt, lines, sep)[0] == 0x93,
        npy_bytes(dt, lines, sep).subrange(1, 6) == ascii_bytes("NUMPY"@),
        npy_bytes(dt, lines, sep)[6] == 1,
        npy_bytes(dt, lines, sep)[7] == 0,
        npy_bytes(dt, lines, sep)[8] + 0x100 * npy_bytes(dt, lines, sep)[9] == 118,
{
    lemma_header_magic(dt, shape_rows(lines), shape_cols(lines, sep));
    let h = header_bytes(dt, shape_rows(lines), shape_cols(lines, sep));
    let f = npy_bytes(dt, lines, sep);
    assert(f.subrange(0, 128) =~= h);
    assert(f.skip(128) =~= enc_lines(dt, lines, sep).unwrap());
    assert(f.subrange(0, 128).subrange(1, 6) =~= f.subrange(1, 6));
}

/// For every successful run over bit-pattern rows, the produced file opens
/// with the fixed preamble, and its data region starts at offset 128.
pub proof fn lemma_npy_bits_magic(dt: DType, rows: Seq<Seq<Option<u64>>>)
    requires
        enc_bits_rows(dt, rows) is Some,
        rows.len() <= 0xffff_ffff,
    ensures
        npy_bits_bytes(dt, rows).len() >= 128,
        npy_bits_bytes(dt, rows).subrange(0, 128) == header_bytes(
            dt,
            rows.len() as u32,
            bits_shape_cols(rows),
        ),
        npy_bits_bytes(dt, rows).skip(128) == enc_bits_rows(dt, rows).unwrap(),
        npy_bits_bytes(dt, rows)[0] == 0x93,
        npy_bits_bytes(dt, rows).subrange(1, 6) == ascii_bytes("NUMPY"@),
        npy_bits_bytes(dt, rows)[6] == 1,
        npy_bits_bytes(dt, rows)[7] == 0,
        npy_bits_bytes(dt, rows)[8] + 0x100 * npy_bits_bytes(dt, rows)[9] == 118,
{
    lemma_header_magic(dt, rows.len() as u32, bits_shape_cols(rows));
    let h = header_bytes(dt, rows.len() as u32, bits_shape_cols(rows));
    let f = npy_bits_bytes(dt, rows);
    assert(f.subrange(0, 128) =~= h);
    assert(f.skip(128) =~= enc_bits_rows(dt, rows).unwrap());
    assert(f.subrange(0, 128).subrange(1, 6) =~= f.subrange(1, 6));
}

/// An encoded token of an integer element type is exactly as wide as the
/// element.
pub proof fn lemma_enc_token_width(dt: DType, tok: Seq<u8>)
    requires
        is_int_dtype(dt),
        enc_token(dt, tok) is Some,
    ensures
        enc_token(dt, tok).unwrap().len() == width(dt),
{
}

/// An encoded token sequence is exactly one element width per token.
pub proof fn lemma_enc_tokens_len(dt: DType, toks: Seq<Seq<u8>>)
    requires
        is_int_dtype(dt),
        enc_tokens(dt, toks) is Some,
    ensures
        enc_tokens(dt, toks).unwrap().len() == toks.len() * width(dt),
    decreases toks.len(),
{
    if toks.len() > 0 {
        lemma_enc_token_width(dt, toks[0]);
        lemma_enc_tokens_len(dt, toks.drop_first());
        assert(toks.len() * width(dt) == width(dt) + (toks.len() - 1) * width(dt))
            by (nonlinear_arith);
    }
}

/// The encoded bytes of lines whose field counts all equal `c` are exactly
/// `lines.len() * c` elements.
pub proof fn lemma_enc_lines_len(dt: DType, lines: Seq<Seq<u8>>, sep: Seq<u8>, c: int)
    requires
        is_int_dtype(dt),
        enc_lines(dt, lines, sep) is Some,
        forall|i: int| 0 <= i < lines.len() ==> split_spec(#[trigger] lines[i], sep).len() == c,
    ensures
        enc_lines(dt, lines, sep).unwrap().len() == lines.len() * c * width(dt),
    decreases lines.len(),
{
    if lines.len() == 0 {
        assert(lines.len() * c * width(dt) == 0) by (nonlinear_arith)
            requires
                lines.len() == 0,
        ;
    } else {
        assert(split_spec(lines[0], sep).len() == c);
        lemma_enc_tokens_len(dt, split_spec(lines[0], sep));
        assert(forall|i: int|
            0 <= i < lines.drop_first().len() ==> split_spec(
                #[trigger] lines.drop_first()[i],
                sep,
            ).len() == c);
        lemma_enc_lines_len(dt, lines.drop_first(), sep, c);
        assert(lines.len() * c * width(dt) == c * width(dt) + (lines.len() - 1) * c * width(dt))
            by (nonlinear_arith);
    }
}

/// For every successful textual run in which all lines carry the same field
/// count, the file size is `128 + rows * max(cols, 1) * width`, where `cols`
/// is the field count of the last line.
pub proof fn lemma_npy_size(dt: DType, lines: Seq<Seq<u8>>, sep: Seq<u8>)
    requires
        is_int_dtype(dt),
        sep.len() >= 1,
        enc_lines(dt, lines, sep) is Some,
        forall|i: int|
            0 <= i < lines.len() ==> split_spec(#[trigger] lines[i], sep).len() == split_spec(
                lines.last(),
                sep,
            ).len(),
    ensures
        ({
            let c = if lines.len() == 0 {
                0int
            } else {
                split_spec(lines.last(), sep).len() as int
            };
            let cmax = if c == 0 {
                1int
            } else {
                c
            };
            npy_bytes(dt, lines, sep).len() == 128 + lines.len() * cmax * width(dt)
        }),
{
    lemma_header_magic(dt, shape_rows(lines), shape_cols(lines, sep));
    if lines.len() == 0 {
        assert(enc_lines(dt, lines, sep).unwrap().len() == 0);
    } else {
        let c = split_spec(lines.last(), sep).len() as int;
        lemma_split_nonempty(lines.last(), sep);
        lemma_enc_lines_len(dt, lines, sep, c);
    }
}

/// For every successful run over bit-pattern rows that all carry the same
/// field count, the file size is `128 + rows * max(cols, 1) * width`.
pub proof fn lemma_npy_bits_size(dt: DType, rows: Seq<Seq<Option<u64>>>)
    requires
        !is_int_dtype(dt),
        enc_bits_rows(dt, rows) is Some,
        rows.len() <= 0xffff_ffff,
        rows.len() > 0 ==> rows.last().len() >= 1,
        forall|i: int| 0 <= i < rows.len() ==> (#[trigger] rows[i]).len() == rows.last().len(),
    ensures
        ({
            let c = if rows.len() == 0 {
                0int
            } else {
                rows.last().len() as int
            };
            let cmax = if c == 0 {
                1int
            } else {
                c
            };
            npy_bits_bytes(dt, rows).len() == 128 + rows.len() * cmax * width(dt)
        }),
{
    lemma_header_magic(dt, rows.len() as u32, bits_shape_cols(rows));
    if rows.len() == 0 {
        assert(enc_bits_rows(dt, rows).unwrap().len() == 0);
    } else {
        let c = rows.last().len() as int;
        lemma_enc_bits_rows_len(dt, rows, c);
    }
}

/// An encoded bit-pattern row is exactly one element width per field.
pub proof fn lemma_enc_bits_row_len(dt: DType, row: Seq<Option<u64>>)
    requires
        enc_bits_row(dt, row) is Some,
    ensures
        enc_bits_row(dt, row).unwrap().len() == row.len() * width(dt),
    decreases row.len(),
{
    if row.len() > 0 {
        lemma_enc_bits_row_len(dt, row.drop_first());
        assert(row.len() * width(dt) == width(dt) + (row.len() - 1) * width(dt))
            by (nonlinear_arith);
    }
}

/// Encoded bit-pattern rows whose field counts all equal `c` are exactly
/// `rows.len() * c` elements.
pub proof fn lemma_enc_bits_rows_len(dt: DType, rows: Seq<Seq<Option<u64>>>, c: int)
    requires
        enc_bits_rows(dt, rows) is Some,
        forall|i: int| 0 <= i < rows.len() ==> (#[trigger] rows[i]).len() == c,
    ensures
        enc_bits_rows(dt, rows).unwrap().len() == rows.len() * c * width(dt),
    decreases rows.len(),
{
    if rows.len() == 0 {
        assert(rows.len() * c * width(dt) == 0) by (nonlinear_arith)
            requires
                rows.len() == 0,
        ;
    } else {
        lemma_enc_bits_row_len(dt, rows[0]);
        assert(forall|i: int|
            0 <= i < rows.drop_first().len() ==> (#[trigger] rows.drop_first()[i]).len() == c);
        lemma_enc_bits_rows_len(dt, rows.drop_first(), c);
        assert(rows.len() * c * width(dt) == c * width(dt) + (rows.len() - 1) * c * width(dt))
            by (nonlinear_arith);
    }
}

/// Each token's encoding stands at its own offset in an encoded token
/// sequence.
pub proof fn lemma_enc_tokens_index(dt: DType, toks: Seq<Seq<u8>>, j: int)
    requires
        is_int_dtype(dt),
        enc_tokens(dt, toks) is Some,
        0 <= j < toks.len(),
    ensures
        enc_token(dt, toks[j]) is Some,
        enc_tokens(dt, toks).unwrap().subrange(j * width(dt), (j + 1) * width(dt)) == enc_token(
            dt,
            toks[j],
        ).unwrap(),
    decreases j,
{
    let w = width(dt) as int;
    let b = enc_token(dt, toks[0]).unwrap();
    let rest = enc_tokens(dt, toks.drop_first()).unwrap();
    lemma_enc_token_width(dt, toks[0]);
    lemma_enc_tokens_len(dt, toks.drop_first());
    if j == 0 {
        assert((b + rest).subrange(0, w) =~= b);
    } else {
        lemma_enc_tokens_index(dt, toks.drop_first(), j - 1);
        assert((j - 1) * w == j * w - w && j * w == (j + 1) * w - w) by (nonlinear_arith);
        assert((toks.len() - 1) * w >= j * w) by (nonlinear_arith)
            requires
                toks.len() - 1 >= j,
                w >= 0,
        ;
        assert((b + rest).subrange(j * w, (j + 1) * w) =~= rest.subrange((j - 1) * w, j * w));
        assert(toks.drop_first()[j - 1] == toks[j]);
    }
}

/// Each line's encoding stands at its own offset in the data bytes of a
/// run whose lines all carry `c` fields.
pub proof fn lemma_enc_lines_index(dt: DType, lines: Seq<Seq<u8>>, sep: Seq<u8>, c: int, i: int)
    requires
        is_int_dtype(dt),
        enc_lines(dt, lines, sep) is Some,
        forall|t: int| 0 <= t < lines.len() ==> split_spec(#[trigger] lines[t], sep).len() == c,
        0 <= i < lines.len(),
    ensures
        enc_line(dt, lines[i], sep) is Some,
        enc_lines(dt, lines, sep).unwrap().subrange(i * c * width(dt), (i + 1) * c * width(dt))
            == enc_line(dt, lines[i], sep).unwrap(),
    decreases i,
{
    let w = width(dt) as int;
    let b = enc_line(dt, lines[0], sep).unwrap();
    let rest = enc_lines(dt, lines.drop_first(), sep).unwrap();
    lemma_enc_tokens_len(dt, split_spec(lines[0], sep));
    assert(forall|t: int|
        0 <= t < lines.drop_first().len() ==> split_spec(
            #[trigger] lines.drop_first()[t],
            sep,
        ).len() == c);
    lemma_enc_lines_len(dt, lines.drop_first(), sep, c);
    if i == 0 {
        assert(0 * c * w == 0 && 1 * c * w == c * w) by (nonlinear_arith);
        assert((b + rest).subrange(0, c * w) =~= b);
    } else {
        lemma_enc_lines_index(dt, lines.drop_first(), sep, c, i - 1);
        assert((i - 1) * c * w == i * c * w - c * w && i * c * w == (i + 1) * c * w - c * w)
            by (nonlinear_arith);
        assert((lines.len() - 1) * c * w >= i * c * w) by (nonlinear_arith)
            requires
                lines.len() - 1 >= i,
                c >= 0,
                w >= 0,
        ;
        assert(c * w >= 0) by (nonlinear_arith)
            requires
                c >= 0,
                w >= 0,
        ;
        assert((b + rest).subrange(i * c * w, (i + 1) * c * w) =~= rest.subrange(
            (i - 1) * c * w,
            i * c * w,
        ));
        assert(lines.drop_first()[i - 1] == lines[i]);
    }
}

/// Round trip of the whole data region: in a successful run whose lines all
/// carry the same field count, the element at row `i`, column `j` of the
/// file, read at its row-major offset, is exactly the encoding of field `j`
/// of line `i`; with [`lemma_enc_token_roundtrip`], decoding those bytes
/// recovers the parsed value of that field.
pub proof fn lemma_npy_element(dt: DType, lines: Seq<Seq<u8>>, sep: Seq<u8>, i: int, j: int)
    requires
        is_int_dtype(dt),
        sep.len() >= 1,
        enc_lines(dt, lines, sep) is Some,
        forall|t: int|
            0 <= t < lines.len() ==> split_spec(#[trigger] lines[t], sep).len() == split_spec(
                lines.last(),
                sep,
            ).len(),
        0 <= i < lines.len(),
        0 <= j < split_spec(lines.last(), sep).len(),
    ensures
        ({
            let c = split_spec(lines.last(), sep).len() as int;
            let w = width(dt) as int;
            let off = 128 + (i * c + j) * w;
            enc_token(dt, split_spec(lines[i], sep)[j]) is Some && npy_bytes(
                dt,
                lines,
                sep,
            ).subrange(off, off + w) == enc_token(dt, split_spec(lines[i], sep)[j]).unwrap()
        }),
{
    let c = split_spec(lines.last(), sep).len() as int;
    let w = width(dt) as int;
    let data = enc_lines(dt, lines, sep).unwrap();
    let f = npy_bytes(dt, lines, sep);
    lemma_npy_magic(dt, lines, sep);
    lemma_enc_lines_len(dt, lines, sep, c);
    lemma_enc_lines_index(dt, lines, sep, c, i);
    lemma_enc_tokens_index(dt, split_spec(lines[i], sep), j);
    let row = enc_line(dt, lines[i], sep).unwrap();
    assert((i * c + j) * w == i * c * w + j * w && (i * c + j + 1) * w == i * c * w + (j + 1) * w)
        by (nonlinear_arith);
    assert(i * c * w >= 0 && (i + 1) * c * w <= lines.len() * c * w && (j + 1) * w <= c * w)
        by (nonlinear_arith)
        requires
            0 <= i < lines.len(),
            0 <= j < c,
            w >= 0,
            c >= 0,
    ;
    assert((i + 1) * c * w - i * c * w == c * w && j * w >= 0 && j * w <= (j + 1) * w)
        by (nonlinear_arith)
        requires
            0 <= j,
            w >= 0,
            c >= 0,
    ;
    assert(data.len() == lines.len() * c * w);
    assert(data.subrange(i * c * w + j * w, i * c * w + (j + 1) * w) =~= data.subrange(
        i * c * w,
        (i + 1) * c * w,
    ).subrange(j * w, (j + 1) * w));
    assert(f.len() == 128 + data.len());
    assert(f.skip(128) == data);
    assert(f.subrange(128 + (i * c + j) * w, 128 + (i * c + j + 1) * w) =~= data.subrange(
        (i * c + j) * w,
        (i * c + j + 1) * w,
    ));
}

/// Each field's encoding stands at its own offset in an encoded
/// bit-pattern row.
pub proof fn lemma_enc_bits_row_index(dt: DType, row: Seq<Option<u64>>, j: int)
    requires
        enc_bits_row(dt, row) is Some,
        0 <= j < row.len(),
    ensures
        row[j] is Some,
        enc_bits_row(dt, row).unwrap().subrange(j * width(dt), (j + 1) * width(dt))
            == enc_bits_elem(dt, row[j].unwrap()),
    decreases j,
{
    let w = width(dt) as int;
    let b = enc_bits_elem(dt, row[0].unwrap());
    let rest = enc_bits_row(dt, row.drop_first()).unwrap();
    lemma_enc_bits_row_len(dt, row.drop_first());
    if j == 0 {
        assert((b + rest).subrange(0, w) =~= b);
    } else {
        lemma_enc_bits_row_index(dt, row.drop_first(), j - 1);
        assert((j - 1) * w == j * w - w && j * w == (j + 1) * w - w) by (nonlinear_arith);
        assert((row.len() - 1) * w >= j * w) by (nonlinear_arith)
            requires
                row.len() - 1 >= j,
                w >= 0,
        ;
        assert((b + rest).subrange(j * w, (j + 1) * w) =~= rest.subrange((j - 1) * w, j * w));
        assert(row.drop_first()[j - 1] == row[j]);
    }
}

/// Each row's encoding stands at its own offset in the data bytes of a run
/// of bit-pattern rows that all carry `c` fields.
pub proof fn lemma_enc_bits_rows_index(dt: DType, rows: Seq<Seq<Option<u64>>>, c: int, i: int)
    requires
        enc_bits_rows(dt, rows) is Some,
        forall|t: int| 0 <= t < rows.len() ==> (#[trigger] rows[t]).len() == c,
        0 <= i < rows.len(),
    ensures
        enc_bits_row(dt, rows[i]) is Some,
        enc_bits_rows(dt, rows).unwrap().subrange(i * c * width(dt), (i + 1) * c * width(dt))
            == enc_bits_row(dt, rows[i]).unwrap(),
    decreases i,
{
    let w = width(dt) as int;
    let b = enc_bits_row(dt, rows[0]).unwrap();
    let rest = enc_bits_rows(dt, rows.drop_first()).unwrap();
    lemma_enc_bits_row_len(dt, rows[0]);
    assert(forall|t: int|
        0 <= t < rows.drop_first().len() ==> (#[trigger] rows.drop_first()[t]).len() == c);
    lemma_enc_bits_rows_len(dt, rows.drop_first(), c);
    if i == 0 {
        assert(0 * c * w == 0 && 1 * c * w == c * w) by (nonlinear_arith);
        assert((b + rest).subrange(0, c * w) =~= b);
    } else {
        lemma_enc_bits_rows_index(dt, rows.drop_first(), c, i - 1);
        assert((i - 1) * c * w == i * c * w - c * w && i * c * w == (i + 1) * c * w - c * w)
            by (nonlinear_arith);
        assert((rows.len() - 1) * c * w >= i * c * w) by (nonlinear_arith)
            requires
                rows.len() - 1 >= i,
                c >= 0,
                w >= 0,
        ;
        assert(c * w >= 0) by (nonlinear_arith)
            requires
                c >= 0,
                w >= 0,
        ;
        assert((b + rest).subrange(i * c * w, (i + 1) * c * w) =~= rest.subrange(
            (i - 1) * c * w,
            i * c * w,
        ));
        assert(rows.drop_first()[i - 1] == rows[i]);
    }
}

/// Round trip of the whole data region of a bit-pattern run whose rows all
/// carry the same field count: the element at row `i`, column `j`, read at
/// its row-major offset, is exactly the encoding of the pattern the caller
/// handed over; with [`lemma_enc_bits_roundtrip`], decoding those bytes
/// recovers the pattern.
pub proof fn lemma_npy_bits_element(dt: DType, rows: Seq<Seq<Option<u64>>>, i: int, j: int)
    requires
        !is_int_dtype(dt),
        enc_bits_rows(dt, rows) is Some,
        rows.len() <= 0xffff_ffff,
        forall|t: int| 0 <= t < rows.len() ==> (#[trigger] rows[t]).len() == rows.last().len(),
        0 <= i < rows.len(),
        0 <= j < rows.last().len(),
    ensures
        ({
            let c = rows.last().len() as int;
            let w = width(dt) as int;
            let off = 128 + (i * c + j) * w;
            rows[i][j] is Some && npy_bits_bytes(dt, rows).subrange(off, off + w)
                == enc_bits_elem(dt, rows[i][j].unwrap())
        }),
{
    let c = rows.last().len() as int;
    let w = width(dt) as int;
    let data = enc_bits_rows(dt, rows).unwrap();
    let f = npy_bits_bytes(dt, rows);
    lemma_npy_bits_magic(dt, rows);
    lemma_enc_bits_rows_len(dt, rows, c);
    lemma_enc_bits_rows_index(dt, rows, c, i);
    lemma_enc_bits_row_index(dt, rows[i], j);
    assert((i * c + j) * w == i * c * w + j * w && (i * c + j + 1) * w == i * c * w + (j + 1) * w)
        by (nonlinear_arith);
    assert(i * c * w >= 0 && (i + 1) * c * w <= rows.len() * c * w && (j + 1) * w <= c * w)
        by (nonlinear_arith)
        requires
            0 <= i < rows.len(),
            0 <= j < c,
            w >= 0,
            c >= 0,
    ;
    assert((i + 1) * c * w - i * c * w == c * w && j * w >= 0 && j * w <= (j + 1) * w)
        by (nonlinear_arith)
        requires
            0 <= j,
            w >= 0,
            c >= 0,
    ;
    assert(data.len() == rows.len() * c * w);
    assert(data.subrange(i * c * w + j * w, i * c * w + (j + 1) * w) =~= data.subrange(
        i * c * w,
        (i + 1) * c * w,
    ).subrange(j * w, (j + 1) * w));
    assert(f.len() == 128 + data.len());
    assert(f.skip(128) == data);
    assert(f.subrange(128 + (i * c + j) * w, 128 + (i * c + j + 1) * w) =~= data.subrange(
        (i * c + j) * w,
        (i * c + j + 1) * w,
    ));
}

/// Round trip of one element: decoding the little-endian bytes of an
/// encoded token recovers the parsed value, or for a signed type its
/// two's-complement pattern.
pub proof fn lemma_enc_token_roundtrip(dt: DType, tok: Seq<u8>)
    requires
        is_int_dtype(dt),
        enc_token(dt, tok) is Some,
    ensures
        dt is U32 ==> le4_val(enc_token(dt, tok).unwrap()) == parse_u32_spec(tok).unwrap(),
        dt is I32 ==> le4_val(enc_token(dt, tok).unwrap()) == i32_pattern(
            parse_i32_spec(tok).unwrap(),
        ),
        dt is U64 ==> le8_val(enc_token(dt, tok).unwrap()) == parse_u64_spec(tok).unwrap(),
        dt is I64 ==> le8_val(enc_token(dt, tok).unwrap()) == i64_pattern(
            parse_i64_spec(tok).unwrap(),
        ),
{
    match dt {
        DType::U32 => lemma_le4_roundtrip(parse_u32_spec(tok).unwrap()),
        DType::I32 => lemma_le4_roundtrip(i32_pattern(parse_i32_spec(tok).unwrap())),
        DType::U64 => lemma_le8_roundtrip(parse_u64_spec(tok).unwrap()),
        DType::I64 => lemma_le8_roundtrip(i64_pattern(parse_i64_spec(tok).unwrap())),
        DType::F32 => {
        },
        DType::F64 => {
        },
    }
}

/// Round trip of one bit-pattern field: decoding its little-endian bytes
/// recovers the pattern (its low 32 bits for a four-byte element type).
pub proof fn lemma_enc_bits_roundtrip(dt: DType, b: u64)
    ensures
        width(dt) == 4 ==> le4_val(enc_bits_elem(dt, b)) == b % 0x1_0000_0000,
        width(dt) == 8 ==> le8_val(enc_bits_elem(dt, b)) == b,
{
    if width(dt) == 4 {
        lemma_le4_roundtrip((b % 0x1_0000_0000) as u32);
    } else {
        lemma_le8_roundtrip(b);
    }
}

} // verus!

verus! {

/// A token sequence fails to encode exactly when one of its tokens does not
/// parse.
pub proof fn lemma_enc_tokens_none_iff(dt: DType, toks: Seq<Seq<u8>>)
    requires
        is_int_dtype(dt),
    ensures
        enc_tokens(dt, toks) is None <==> (exists|j: int|
            0 <= j < toks.len() && enc_token(dt, #[trigger] toks[j]) is None),
    decreases toks.len(),
{
    if toks.len() > 0 {
        lemma_enc_tokens_none_iff(dt, toks.drop_first());
        if enc_token(dt, toks[0]) is None {
            assert(enc_token(dt, toks[0]) is None);
        } else {
            if enc_tokens(dt, toks.drop_first()) is None {
                let j = choose|j: int|
                    0 <= j < toks.drop_first().len() && enc_token(
                        dt,
                        #[trigger] toks.drop_first()[j],
                    ) is None;
                assert(toks.drop_first()[j] == toks[j + 1]);
                assert(enc_token(dt, toks[j + 1]) is None);
            }
            if exists|j: int| 0 <= j < toks.len() && enc_token(dt, #[trigger] toks[j]) is None {
                let j = choose|j: int|
                    0 <= j < toks.len() && enc_token(dt, #[trigger] toks[j]) is None;
                assert(j >= 1);
                assert(toks.drop_first()[j - 1] == toks[j]);
            }
        }
    }
}

/// A run fails to encode exactly when one of its lines fails; a line fails
/// exactly when one of its fields does not parse, as
/// [`lemma_enc_tokens_none_iff`] states.
pub proof fn lemma_enc_lines_none_iff(dt: DType, lines: Seq<Seq<u8>>, sep: Seq<u8>)
    requires
        is_int_dtype(dt),
    ensures
        enc_lines(dt, lines, sep) is None <==> (exists|i: int|
            0 <= i < lines.len() && enc_line(dt, #[trigger] lines[i], sep) is None),
    decreases lines.len(),
{
    if lines.len() > 0 {
        lemma_enc_lines_none_iff(dt, lines.drop_first(), sep);
        if enc_line(dt, lines[0], sep) is None {
            assert(enc_line(dt, lines[0], sep) is None);
        } else {
            if enc_lines(dt, lines.drop_first(), sep) is None {
                let i = choose|i: int|
                    0 <= i < lines.drop_first().len() && enc_line(
                        dt,
                        #[trigger] lines.drop_first()[i],
                        sep,
                    ) is None;
                assert(lines.drop_first()[i] == lines[i + 1]);
                assert(enc_line(dt, lines[i + 1], sep) is None);
            }
            if exists|i: int|
                0 <= i < lines.len() && enc_line(dt, #[trigger] lines[i], sep) is None {
                let i = choose|i: int|
                    0 <= i < lines.len() && enc_line(dt, #[trigger] lines[i], sep) is None;
                assert(i >= 1);
                assert(lines.drop_first()[i - 1] == lines[i]);
            }
        }
    }
}

} // verus!
