use tiptoe::codec::{decode_data, decode_input, encode_data, encode_input};
use tiptoe::error::PirError;
use tiptoe::matrix::Matrix;
use tiptoe::params::gen_params;
use tiptoe::pir::{gen_hint, generate_query, process_query, recover};
use tiptoe::matrix::Vector;

#[test]
fn test_encode_decode() {
    let data = vec![
        "Lorem ipsum odor amet, consectetuer adipiscing elit".to_string(),
        "Conubia elementum taciti dapibus vestibulum mattis primis".to_string(),
        "Facilisis fames justo ultricies pharetra rhoncus".to_string(),
        "Nam vel mi aptent turpis purus fusce purus".to_string(),
        "Pretium ultrices torquent vulputate venenatis magnis vitae tempor semper torquent"
            .to_string(),
        "Habitant suspendisse nascetur in quis adipiscing".to_string(),
    ];

    let encoded = encode_data(&data).unwrap();
    let decoded = decode_data(&encoded).unwrap();

    assert_eq!(data, decoded);
}

#[test]
fn test_embedding() {
    let expected_idx = 0;

    let text = [
        "Lorem ipsum odor amet, consectetuer adipiscing elit",
        " Conubia elementum taciti dapibus vestibulum mattis primis",
        " Facilisis fames justo ultricies pharetra rhoncus",
        " Nam vel mi aptent turpis purus fusce purus",
        " Pretium ultrices torquent vulputate venenatis magnis vitae tempor semper torquent",
        " Habitant suspendisse nascetur in quis adipiscing",
    ];

    let d = encode_data(&text.map(|x| x.to_string()).to_vec())
        .unwrap()
        .transpose();
    let matrix_height = d.rows();
    let mut v = Vector::zeros(matrix_height);
    v.set(expected_idx, 1);

    let expected: Vec<u64> = (0..matrix_height)
        .map(|i| d.get(i, expected_idx))
        .collect();

    let params = gen_params(matrix_height, 2048, 64);
    let (hint, a) = gen_hint(&params, &d);
    let (s, query) = generate_query(&params, &v, &a);
    let answer = process_query(&d, &query, params.q());
    let result = recover(&hint, &s, &answer, &params);

    println!("result: {:?}", result);
    println!("expected: {:?}", expected);
    println!("decoded: {:?}", decode_input(&result));
    let expected_signed: Vec<i64> = expected.iter().map(|&x| x as i64).collect();
    println!("decoded expected: {:?}", decode_input(&expected_signed));
}

#[test]
fn encoding_round_trip_two_records() {
    // two records pack into a 2 x 2 matrix of 8-byte chunks and decode back
    let records = vec!["alpha".to_string(), "beta gamma".to_string()];
    let encoded = encode_data(&records).unwrap();
    assert_eq!(encoded.rows(), 2);
    assert_eq!(encoded.data[0].len(), 2);
    let decoded = decode_data(&encoded).unwrap();
    assert_eq!(decoded, records);
}

#[test]
fn encode_rejects_empty_record_list() {
    let records: Vec<String> = vec![];
    match encode_data(&records) {
        Err(PirError::InvalidInput(_)) => {}
        other => panic!("expected InvalidInput, got {:?}", other.map(|m| m.rows())),
    }
}

#[test]
fn encode_input_chunks_little_endian() {
    let v = encode_input("ABCDEFGHI");
    // "ABCDEFGH" is one chunk, "I" zero-padded is the next
    assert_eq!(v.data.len(), 2);
    assert_eq!(v.data[0], u64::from_le_bytes(*b"ABCDEFGH"));
    assert_eq!(v.data[1], u64::from_le_bytes([b'I', 0, 0, 0, 0, 0, 0, 0]));
    assert_eq!(encode_input("").data.len(), 0);
}

#[test]
fn decode_input_strips_nul_and_reads_low_bytes() {
    let chunk = i64::from_le_bytes([b'h', b'i', 0, 0, 0, 0, 0, 0]);
    let decoded = decode_input(&vec![chunk]).unwrap();
    assert_eq!(decoded, "hi");
}

#[test]
fn decode_input_rejects_invalid_utf8() {
    // 0xFF is never valid in UTF-8
    let chunk = i64::from_le_bytes([0xFF, 0xFE, 0, 0, 0, 0, 0, 0]);
    match decode_input(&vec![chunk]) {
        Err(PirError::StringConversion(_)) => {}
        other => panic!("expected StringConversion, got {:?}", other),
    }
}

#[test]
fn decode_data_drops_all_zero_columns() {
    // one record, side padded to 2: the unused column decodes to nothing
    let records = vec!["a very long record padding the side".to_string()];
    let encoded = encode_data(&records).unwrap();
    assert!(encoded.rows() > 1);
    let decoded = decode_data(&encoded).unwrap();
    assert_eq!(decoded, records);
}

#[test]
fn decode_data_reports_invalid_column() {
    let m = Matrix {
        data: vec![vec![0xFFFF_FFFF_FFFF_FFFFu64]],
    };
    match decode_data(&m) {
        Err(PirError::StringConversion(_)) => {}
        other => panic!("expected StringConversion, got {:?}", other),
    }
}
