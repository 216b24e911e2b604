use npywrite::DType;
use npywrite::NpyError;
use npywrite::bits_to_npy;
use npywrite::split_line;
use npywrite::txt_to_npy;

fn lines_of(xs: &[&str]) -> Vec<Vec<u8>> {
    let mut v: Vec<Vec<u8>> = Vec::new();
    for x in xs {
        v.push(x.as_bytes().to_vec());
    }
    v
}

fn dict_of(file: &[u8]) -> &[u8] {
    // the dictionary region: bytes 10..128, with its trailing space padding
    &file[10..128]
}

fn expect_dict(file: &[u8], want: &str) {
    let d = dict_of(file);
    assert_eq!(&d[..want.len()], want.as_bytes());
    for b in &d[want.len()..] {
        assert_eq!(*b, b' ');
    }
}

fn expect_magic(file: &[u8]) {
    assert_eq!(file[0], 0x93);
    assert_eq!(&file[1..6], b"NUMPY");
    assert_eq!(file[6], 1);
    assert_eq!(file[7], 0);
    assert_eq!(u16::from_le_bytes([file[8], file[9]]), 118);
}

#[test]
fn two_rows_three_cols_i32() {
    let out = txt_to_npy(&lines_of(&["1 2 3", "4 5 6"]), &DType::I32, b" ").unwrap();
    assert_eq!(out.len(), 128 + 6 * 4);
    expect_magic(&out);
    expect_dict(&out, "{'descr': '<i4', 'fortran_order': False, 'shape': (2,3)}");
    let data: Vec<u8> = vec![
        1, 0, 0, 0, 2, 0, 0, 0, 3, 0, 0, 0, 4, 0, 0, 0, 5, 0, 0, 0, 6, 0, 0, 0,
    ];
    assert_eq!(&out[128..], &data[..]);
}

#[test]
fn three_floats_f32() {
    let mut rows: Vec<Vec<Option<u64>>> = Vec::new();
    for line in lines_of(&["1.5", "2.5", "3.5"]) {
        let mut row: Vec<Option<u64>> = Vec::new();
        for tok in split_line(&line, b" ") {
            let bits = std::str::from_utf8(&tok)
                .ok()
                .and_then(|s| s.parse::<f32>().ok())
                .map(|v| v.to_bits() as u64);
            row.push(bits);
        }
        rows.push(row);
    }
    let out = bits_to_npy(&rows, &DType::F32).unwrap();
    assert_eq!(out.len(), 128 + 3 * 4);
    expect_magic(&out);
    expect_dict(&out, "{'descr': '<f4', 'fortran_order': False, 'shape': (3,)}");
    let data: Vec<u8> = vec![0x00, 0x00, 0xC0, 0x3F, 0x00, 0x00, 0x20, 0x40, 0x00, 0x00, 0x60, 0x40];
    assert_eq!(&out[128..], &data[..]);
}

#[test]
fn empty_input_u64() {
    let out = txt_to_npy(&lines_of(&[]), &DType::U64, b" ").unwrap();
    assert_eq!(out.len(), 128);
    expect_magic(&out);
    expect_dict(&out, "{'descr': '<u8', 'fortran_order': False, 'shape': (0,)}");
}

#[test]
fn one_row_four_cols_u32_comma() {
    let out = txt_to_npy(&lines_of(&["10,20,30,40"]), &DType::U32, b",").unwrap();
    assert_eq!(out.len(), 128 + 4 * 4);
    expect_magic(&out);
    expect_dict(&out, "{'descr': '<u4', 'fortran_order': False, 'shape': (1,4)}");
    let data: Vec<u8> = vec![10, 0, 0, 0, 20, 0, 0, 0, 30, 0, 0, 0, 40, 0, 0, 0];
    assert_eq!(&out[128..], &data[..]);
}

#[test]
fn one_row_one_col() {
    let out = txt_to_npy(&lines_of(&["7"]), &DType::I64, b" ").unwrap();
    assert_eq!(out.len(), 128 + 8);
    expect_dict(&out, "{'descr': '<i8', 'fortran_order': False, 'shape': (1,)}");
}

#[test]
fn one_row_three_cols() {
    let out = txt_to_npy(&lines_of(&["1 2 3"]), &DType::U32, b" ").unwrap();
    assert_eq!(out.len(), 128 + 3 * 4);
    expect_dict(&out, "{'descr': '<u4', 'fortran_order': False, 'shape': (1,3)}");
}

#[test]
fn unparseable_token_i64() {
    let r = txt_to_npy(&lines_of(&["not_a_number"]), &DType::I64, b" ");
    assert_eq!(r, Err(NpyError::Parse));
}

#[test]
fn doubled_separator_gives_empty_field() {
    let r = txt_to_npy(&lines_of(&["1  2"]), &DType::I32, b" ");
    assert_eq!(r, Err(NpyError::Parse));
}

#[test]
fn negative_values_i32() {
    let out = txt_to_npy(&lines_of(&["-1 -2147483648 2147483647"]), &DType::I32, b" ").unwrap();
    let data: Vec<u8> = vec![
        0xFF, 0xFF, 0xFF, 0xFF, 0x00, 0x00, 0x00, 0x80, 0xFF, 0xFF, 0xFF, 0x7F,
    ];
    assert_eq!(&out[128..], &data[..]);
}

#[test]
fn f64_row_encoding() {
    let mut rows: Vec<Vec<Option<u64>>> = Vec::new();
    let mut row: Vec<Option<u64>> = Vec::new();
    for tok in split_line(b"1.5 -2.25", b" ") {
        let bits = std::str::from_utf8(&tok)
            .ok()
            .and_then(|s| s.parse::<f64>().ok())
            .map(|v| v.to_bits());
        row.push(bits);
    }
    rows.push(row);
    let out = bits_to_npy(&rows, &DType::F64).unwrap();
    assert_eq!(out.len(), 128 + 2 * 8);
    expect_dict(&out, "{'descr': '<f8', 'fortran_order': False, 'shape': (1,2)}");
    let mut data: Vec<u8> = Vec::new();
    data.extend_from_slice(&1.5f64.to_le_bytes());
    data.extend_from_slice(&(-2.25f64).to_le_bytes());
    assert_eq!(&out[128..], &data[..]);
}

#[test]
fn float_parse_failure_f32() {
    let mut rows: Vec<Vec<Option<u64>>> = Vec::new();
    rows.push(vec![Some(1.5f32.to_bits() as u64), None]);
    let r = bits_to_npy(&rows, &DType::F32);
    assert_eq!(r, Err(NpyError::Parse));
}

#[test]
fn large_shape_dimensions() {
    let out = txt_to_npy(&lines_of(&["1 2", "3 4", "5 6"]), &DType::U64, b" ").unwrap();
    assert_eq!(out.len(), 128 + 6 * 8);
    expect_dict(&out, "{'descr': '<u8', 'fortran_order': False, 'shape': (3,2)}");
}

#[test]
fn error_keeps_earlier_rows_out_of_result() {
    // a failing later line fails the whole textual run
    let r = txt_to_npy(&lines_of(&["1 2", "3 x"]), &DType::U32, b" ");
    assert_eq!(r, Err(NpyError::Parse));
}

#[test]
fn last_line_sets_cols() {
    // ragged input: the header records the field count of the last line
    let out = txt_to_npy(&lines_of(&["1 2 3", "4 5"]), &DType::U32, b" ").unwrap();
    expect_dict(&out, "{'descr': '<u4', 'fortran_order': False, 'shape': (2,2)}");
    assert_eq!(out.len(), 128 + 5 * 4);
}
