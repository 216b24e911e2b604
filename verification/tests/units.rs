use npywrite::DType;
use npywrite::NpyError;
use npywrite::convert_data;
use npywrite::convert_line;
use npywrite::dtype_of_arg;
use npywrite::dtype_to_header_str;
use npywrite::parse_i32_token;
use npywrite::parse_i64_token;
use npywrite::parse_u32_token;
use npywrite::parse_u64_token;
use npywrite::split_line;
use npywrite::write_header;

fn tokens(line: &[u8], sep: &[u8]) -> Vec<Vec<u8>> {
    split_line(line, sep)
}

#[test]
fn descriptor_tokens() {
    assert_eq!(dtype_to_header_str(&DType::U32), "<u4");
    assert_eq!(dtype_to_header_str(&DType::U64), "<u8");
    assert_eq!(dtype_to_header_str(&DType::I32), "<i4");
    assert_eq!(dtype_to_header_str(&DType::I64), "<i8");
    assert_eq!(dtype_to_header_str(&DType::F32), "<f4");
    assert_eq!(dtype_to_header_str(&DType::F64), "<f8");
}

#[test]
fn dtype_argument_mapping() {
    assert_eq!(dtype_of_arg(b"u32"), DType::U32);
    assert_eq!(dtype_of_arg(b"u64"), DType::U64);
    assert_eq!(dtype_of_arg(b"i32"), DType::I32);
    assert_eq!(dtype_of_arg(b"i64"), DType::I64);
    assert_eq!(dtype_of_arg(b"f32"), DType::F32);
    assert_eq!(dtype_of_arg(b"f64"), DType::F64);
    assert_eq!(dtype_of_arg(b"whatever"), DType::F32);
    assert_eq!(dtype_of_arg(b""), DType::F32);
}

#[test]
fn split_simple() {
    assert_eq!(tokens(b"1 2 3", b" "), vec![b"1".to_vec(), b"2".to_vec(), b"3".to_vec()]);
}

#[test]
fn split_doubled_separator() {
    assert_eq!(tokens(b"1  2", b" "), vec![b"1".to_vec(), b"".to_vec(), b"2".to_vec()]);
}

#[test]
fn split_leading_and_trailing() {
    assert_eq!(tokens(b",a,", b","), vec![b"".to_vec(), b"a".to_vec(), b"".to_vec()]);
}

#[test]
fn split_empty_line() {
    assert_eq!(tokens(b"", b" "), vec![b"".to_vec()]);
}

#[test]
fn split_non_overlapping() {
    assert_eq!(tokens(b"aaa", b"aa"), vec![b"".to_vec(), b"a".to_vec()]);
}

#[test]
fn split_multibyte_separator() {
    assert_eq!(tokens(b"1::2::3", b"::"), vec![b"1".to_vec(), b"2".to_vec(), b"3".to_vec()]);
}

#[test]
fn parse_unsigned_tokens() {
    assert_eq!(parse_u32_token(b"0"), Some(0));
    assert_eq!(parse_u32_token(b"+17"), Some(17));
    assert_eq!(parse_u32_token(b"4294967295"), Some(u32::MAX));
    assert_eq!(parse_u32_token(b"4294967296"), None);
    assert_eq!(parse_u32_token(b"-1"), None);
    assert_eq!(parse_u32_token(b""), None);
    assert_eq!(parse_u32_token(b"+"), None);
    assert_eq!(parse_u32_token(b"1x"), None);
    assert_eq!(parse_u64_token(b"18446744073709551615"), Some(u64::MAX));
    assert_eq!(parse_u64_token(b"18446744073709551616"), None);
    assert_eq!(parse_u64_token(b"184467440737095516150"), None);
}

#[test]
fn parse_signed_tokens() {
    assert_eq!(parse_i32_token(b"-1"), Some(-1));
    assert_eq!(parse_i32_token(b"+5"), Some(5));
    assert_eq!(parse_i32_token(b"-2147483648"), Some(i32::MIN));
    assert_eq!(parse_i32_token(b"-2147483649"), None);
    assert_eq!(parse_i32_token(b"2147483648"), None);
    assert_eq!(parse_i64_token(b"-9223372036854775808"), Some(i64::MIN));
    assert_eq!(parse_i64_token(b"-9223372036854775809"), None);
    assert_eq!(parse_i64_token(b"9223372036854775807"), Some(i64::MAX));
    assert_eq!(parse_i64_token(b"9223372036854775808"), None);
    assert_eq!(parse_i64_token(b"-"), None);
    assert_eq!(parse_i64_token(b"12 "), None);
}

#[test]
fn convert_line_appends_in_order() {
    let mut out: Vec<u8> = vec![0xAA];
    let n = convert_line(b"258 1", &mut out, &DType::U32, b" ").unwrap();
    assert_eq!(n, 2);
    assert_eq!(out, vec![0xAA, 2, 1, 0, 0, 1, 0, 0, 0]);
}

#[test]
fn convert_line_failure_leaves_sink_unchanged() {
    let mut out: Vec<u8> = vec![1, 2, 3];
    let r = convert_line(b"4 x", &mut out, &DType::U32, b" ");
    assert_eq!(r, Err(NpyError::Parse));
    assert_eq!(out, vec![1, 2, 3]);
}

#[test]
fn convert_data_counts_rows_and_cols() {
    let lines: Vec<Vec<u8>> = vec![b"1 2".to_vec(), b"3 4".to_vec(), b"5 6".to_vec()];
    let mut out: Vec<u8> = Vec::new();
    let rc = convert_data(&lines, &mut out, &DType::U32, b" ").unwrap();
    assert_eq!(rc, (3, 2));
    assert_eq!(out.len(), 6 * 4);
}

#[test]
fn convert_data_failure_keeps_earlier_lines() {
    let lines: Vec<Vec<u8>> = vec![b"9".to_vec(), b"oops".to_vec()];
    let mut out: Vec<u8> = Vec::new();
    let r = convert_data(&lines, &mut out, &DType::U32, b" ");
    assert_eq!(r, Err(NpyError::Parse));
    assert_eq!(out, vec![9, 0, 0, 0]);
}

#[test]
fn write_header_overwrites_reservation_only() {
    let mut out: Vec<u8> = vec![b' '; 128];
    out.push(0xEE);
    write_header(&mut out, 2, 3, &DType::I32);
    assert_eq!(out.len(), 129);
    assert_eq!(out[0], 0x93);
    assert_eq!(&out[1..6], b"NUMPY");
    assert_eq!(out[6], 1);
    assert_eq!(out[7], 0);
    assert_eq!(u16::from_le_bytes([out[8], out[9]]), 118);
    let dict = "{'descr': '<i4', 'fortran_order': False, 'shape': (2,3)}";
    assert_eq!(&out[10..10 + dict.len()], dict.as_bytes());
    for b in &out[10 + dict.len()..128] {
        assert_eq!(*b, b' ');
    }
    assert_eq!(out[128], 0xEE);
}

#[test]
fn header_values_never_depend_on_data() {
    let a = {
        let mut out: Vec<u8> = vec![b' '; 128];
        write_header(&mut out, 5, 1, &DType::U64);
        out
    };
    let b = {
        let mut out: Vec<u8> = vec![b' '; 128];
        write_header(&mut out, 5, 1, &DType::U64);
        out
    };
    assert_eq!(a, b);
    let dict = "{'descr': '<u8', 'fortran_order': False, 'shape': (5,)}";
    assert_eq!(&a[10..10 + dict.len()], dict.as_bytes());
}
