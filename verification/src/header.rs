use vstd::prelude::*;

use crate::bytes_util::append_ascii;
use crate::bytes_util::ascii_bytes;
use crate::dtype::DType;
use crate::dtype::descr_bytes;
use crate::dtype::dtype_to_header_str;
use crate::le::put_u16_le;
use crate::le::put_u8;
use crate::le::u16_le;

verus! {

/// The size of the reserved header region at the start of the file.
pub const HEADER_SIZE: usize = 128;

/// The value of the 16-bit preamble-length field: the bytes declared to
/// belong to the dictionary region that follows the first ten bytes.
pub const DICT_REGION: u16 = 118;

/// The decimal digits of a number, most significant first.
pub open spec fn dec_bytes(n: nat) -> Seq<u8>
    decreases n,
{
    if n < 10 {
        seq![(48 + n) as u8]
    } else {
        dec_bytes(n / 10) + seq![(48 + n % 10) as u8]
    }
}

/// Ten to the power `k`.
pub open spec fn pow10(k: nat) -> nat
    decreases k,
{
    if k == 0 {
        1
    } else {
        10 * pow10((k - 1) as nat)
    }
}

/// A number below `10^k` renders in at most `k` digits.
pub proof fn lemma_dec_bytes_len(n: nat, k: nat)
    requires
        k >= 1,
        n < pow10(k),
    ensures
        dec_bytes(n).len() <= k,
    decreases k,
{
    if n >= 10 {
        assert(pow10(0) == 1);
        assert(pow10(1) == 10);
        assert(k >= 2) by {
            if k == 1 {
                assert(n < 10);
            }
        }
        assert(n / 10 < pow10((k - 1) as nat)) by (nonlinear_arith)
            requires
                n < pow10(k),
                pow10(k) == 10 * pow10((k - 1) as nat),
        ;
        lemma_dec_bytes_len(n / 10, (k - 1) as nat);
    }
}

/// Any 32-bit value renders in at most ten digits.
pub proof fn lemma_dec_bytes_len_u32(n: u32)
    ensures
        dec_bytes(n as nat).len() <= 10,
{
    assert(pow10(0) == 1);
    assert(pow10(1) == 10);
    assert(pow10(2) == 100);
    assert(pow10(3) == 1000);
    assert(pow10(4) == 10000);
    assert(pow10(5) == 100000);
    assert(pow10(6) == 1000000);
    assert(pow10(7) == 10000000);
    assert(pow10(8) == 100000000);
    assert(pow10(9) == 1000000000);
    assert(pow10(10) == 10_000_000_000);
    lemma_dec_bytes_len(n as nat, 10);
}

/// The rendered shape tuple: rank 1 when there is at most one column,
/// rank 2 otherwise.
pub open spec fn shape_bytes(rows: u32, cols: u32) -> Seq<u8> {
    if cols == 0 {
        ascii_bytes("(0,)"@)
    } else if cols == 1 {
        ascii_bytes("("@) + dec_bytes(rows as nat) + ascii_bytes(",)"@)
    } else {
        ascii_bytes("("@) + dec_bytes(rows as nat) + ascii_bytes(","@) + dec_bytes(cols as nat)
            + ascii_bytes(")"@)
    }
}

/// The dictionary literal of the header.
pub open spec fn dict_bytes(dt: DType, rows: u32, cols: u32) -> Seq<u8> {
    ascii_bytes("{'descr': '"@) + descr_bytes(dt) + ascii_bytes(
        "', 'fortran_order': False, 'shape': "@,
    ) + shape_bytes(rows, cols) + ascii_bytes("}"@)
}

/// The first ten bytes of the file: magic, format version 1.0, and the
/// little-endian preamble-length field.
pub open spec fn magic_bytes() -> Seq<u8> {
    seq![0x93u8] + ascii_bytes("NUMPY"@) + seq![1u8, 0u8] + u16_le(118)
}

/// Every byte the header writer itself emits: the ten fixed bytes, then the
/// dictionary.
pub open spec fn preamble_bytes(dt: DType, rows: u32, cols: u32) -> Seq<u8> {
    magic_bytes() + dict_bytes(dt, rows, cols)
}

/// The whole 128-byte header region: the preamble, padded to the region's
/// size with space bytes.
pub open spec fn header_bytes(dt: DType, rows: u32, cols: u32) -> Seq<u8> {
    preamble_bytes(dt, rows, cols) + Seq::new(
        (HEADER_SIZE - preamble_bytes(dt, rows, cols).len()) as nat,
        |i: int| 32u8,
    )
}

/// The dictionary never outgrows the declared dictionary region, so the
/// preamble never outgrows the reserved header region.
pub proof fn lemma_preamble_fits(dt: DType, rows: u32, cols: u32)
    ensures
        dict_bytes(dt, rows, cols).len() <= DICT_REGION,
        preamble_bytes(dt, rows, cols).len() <= HEADER_SIZE,
        magic_bytes().len() == 10,
{
    reveal_strlit("{'descr': '");
    reveal_strlit("', 'fortran_order': False, 'shape': ");
    reveal_strlit("(0,)");
    reveal_strlit("(");
    reveal_strlit(",)");
    reveal_strlit(",");
    reveal_strlit(")");
    reveal_strlit("}");
    reveal_strlit("NUMPY");
    reveal_strlit("<u4");
    reveal_strlit("<u8");
    reveal_strlit("<i4");
    reveal_strlit("<i8");
    reveal_strlit("<f4");
    reveal_strlit("<f8");
    lemma_dec_bytes_len_u32(rows);
    lemma_dec_bytes_len_u32(cols);
}

/// Writes the finished header into the reserved region at the start of the
/// sink: the magic bytes, then the dictionary for the final shape. The bytes
/// of the reservation beyond the preamble stay untouched, so the spaces
/// written when the region was reserved pad the dictionary.
pub fn write_header(out: &mut Vec<u8>, n_rows: u32, n_cols: u32, data_type: &DType)
    requires
        old(out)@.len() >= HEADER_SIZE,
    ensures
        final(out)@.len() == old(out)@.len(),
        final(out)@ == preamble_bytes(*data_type, n_rows, n_cols) + old(out)@.subrange(
            preamble_bytes(*data_type, n_rows, n_cols).len() as int,
            old(out)@.len() as int,
        ),
{
    let mut pre: Vec<u8> = Vec::new();
    put_u8(&mut pre, 147);
    proof {
        reveal_strlit("NUMPY");
        assert(vstd::string::is_ascii("NUMPY"));
    }
    append_ascii(&mut pre, "NUMPY");
    put_u8(&mut pre, 1);
    put_u8(&mut pre, 0);
    put_u16_le(&mut pre, 118);
    proof {
        assert(pre@ =~= magic_bytes());
        reveal_strlit("{'descr': '");
        assert(vstd::string::is_ascii("{'descr': '"));
    }
    append_ascii(&mut pre, "{'descr': '");
    let descr = dtype_to_header_str(data_type);
    let descr_str = descr.as_str();
    proof {
        reveal_strlit("<u4");
        reveal_strlit("<u8");
        reveal_strlit("<i4");
        reveal_strlit("<i8");
        reveal_strlit("<f4");
        reveal_strlit("<f8");
        assert(vstd::string::is_ascii(descr_str));
        assert(ascii_bytes(descr_str@) == descr_bytes(*data_type));
    }
    append_ascii(&mut pre, descr_str);
    proof {
        reveal_strlit("', 'fortran_order': False, 'shape': ");
        assert(vstd::string::is_ascii("', 'fortran_order': False, 'shape': "));
    }
    append_ascii(&mut pre, "', 'fortran_order': False, 'shape': ");
    proof {
        reveal_strlit("(0,)");
        reveal_strlit("(");
        reveal_strlit(",)");
        reveal_strlit(",");
        reveal_strlit(")");
        assert(vstd::string::is_ascii("(0,)"));
        assert(vstd::string::is_ascii("("));
        assert(vstd::string::is_ascii(",)"));
        assert(vstd::string::is_ascii(","));
        assert(vstd::string::is_ascii(")"));
    }
    if n_cols == 0 {
        append_ascii(&mut pre, "(0,)");
    } else if n_cols == 1 {
        append_ascii(&mut pre, "(");
        append_u32_dec(&mut pre, n_rows);
        append_ascii(&mut pre, ",)");
    } else {
        append_ascii(&mut pre, "(");
        append_u32_dec(&mut pre, n_rows);
        append_ascii(&mut pre, ",");
        append_u32_dec(&mut pre, n_cols);
        append_ascii(&mut pre, ")");
    }
    proof {
        reveal_strlit("}");
        assert(vstd::string::is_ascii("}"));
    }
    append_ascii(&mut pre, "}");
    proof {
        assert(pre@ =~= preamble_bytes(*data_type, n_rows, n_cols));
        lemma_preamble_fits(*data_type, n_rows, n_cols);
    }
    let k = pre.len();
    let ghost orig = out@;
    let mut i: usize = 0;
    while i < k
        invariant
            i <= k,
            k == pre@.len(),
            k <= orig.len(),
            out@.len() == orig.len(),
            forall|t: int| 0 <= t < i ==> out@[t] == pre@[t],
            forall|t: int| i <= t < orig.len() ==> out@[t] == orig[t],
        decreases k - i,
    {
        let b = pre[i];
        out[i] = b;
        i = i + 1;
    }
    proof {
        assert(out@ =~= pre@ + orig.subrange(k as int, orig.len() as int));
    }
}

/// Appends the decimal rendering of `n` to `out`.
pub fn append_u32_dec(out: &mut Vec<u8>, n: u32)
    ensures
        final(out)@ == old(out)@ + dec_bytes(n as nat),
{
    let mut rev: Vec<u8> = Vec::new();
    rev.push((n % 10) as u8 + 48);
    let mut m: u32 = n / 10;
    proof {
        assert(rev@.reverse() =~= seq![(48 + (n as nat) % 10) as u8]);
        if n >= 10 {
            assert(dec_bytes(n as nat) == dec_bytes((n as nat) / 10) + seq![
                (48 + (n as nat) % 10) as u8,
            ]);
        }
    }
    while m != 0
        invariant
            dec_bytes(n as nat) == (if m == 0 {
                Seq::<u8>::empty()
            } else {
                dec_bytes(m as nat)
            }) + rev@.reverse(),
        decreases m,
    {
        let d: u8 = (m % 10) as u8 + 48;
        let ghost prev = rev@;
        rev.push(d);
        proof {
            assert(rev@.reverse() =~= seq![d] + prev.reverse());
            if m >= 10 {
                assert(dec_bytes(m as nat) == dec_bytes((m as nat) / 10) + seq![
                    (48 + (m as nat) % 10) as u8,
                ]);
                assert(dec_bytes((m as nat) / 10) + seq![d] + prev.reverse() =~= dec_bytes(
                    (m as nat) / 10,
                ) + (seq![d] + prev.reverse()));
            } else {
                assert(dec_bytes(m as nat) =~= seq![d]);
            }
        }
        m = m / 10;
    }
    let k = rev.len();
    let mut i: usize = 0;
    while i < k
        invariant
            i <= k,
            k == rev@.len(),
            out@.len() == old(out)@.len() + i,
            out@ == old(out)@ + rev@.reverse().take(i as int),
        decreases k - i,
    {
        out.push(rev[k - 1 - i]);
        i = i + 1;
        proof {
            assert(rev@.reverse().take(i as int) =~= rev@.reverse().take(i - 1).push(
                rev@[k - i],
            ));
        }
    }
    proof {
        assert(rev@.reverse().take(k as int) =~= rev@.reverse());
        assert(dec_bytes(n as nat) =~= rev@.reverse());
    }
}

} // verus!
