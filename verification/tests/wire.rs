use tiptoe::error::PirError;
use tiptoe::matrix::{Matrix, Vector};
use tiptoe::params::gen_params;
use tiptoe::wire::{
    deserialize_matrix, deserialize_params, deserialize_vector, parse_u64, serialize_matrix,
    serialize_params, serialize_vector, u128_to_decimal, u64_to_decimal, MatrixResponse,
    ParamsData,
};

#[test]
fn decimal_formatting() {
    assert_eq!(u64_to_decimal(0), "0");
    assert_eq!(u64_to_decimal(7), "7");
    assert_eq!(u64_to_decimal(1234567890), "1234567890");
    assert_eq!(u64_to_decimal(u64::MAX), "18446744073709551615");
    assert_eq!(u128_to_decimal(1u128 << 64), "18446744073709551616");
}

#[test]
fn decimal_parsing() {
    assert_eq!(parse_u64("0"), Some(0));
    assert_eq!(parse_u64("18446744073709551615"), Some(u64::MAX));
    assert_eq!(parse_u64("18446744073709551616"), None);
    assert_eq!(parse_u64(""), None);
    assert_eq!(parse_u64("12a"), None);
    assert_eq!(parse_u64("-1"), None);
    assert_eq!(parse_u64(" 1"), None);
}

#[test]
fn vector_wire_round_trip() {
    let v = Vector::new(vec![0, 1, u64::MAX, 42]);
    let wire = serialize_vector(&v);
    assert_eq!(wire, vec!["0", "1", "18446744073709551615", "42"]);
    let back = deserialize_vector(&wire).unwrap();
    assert_eq!(back.data, v.data);
}

#[test]
fn vector_wire_rejects_bad_entry() {
    let wire = vec!["1".to_string(), "x".to_string()];
    match deserialize_vector(&wire) {
        Err(PirError::Serialization(_)) => {}
        _ => panic!("expected Serialization error"),
    }
}

#[test]
fn matrix_wire_round_trip() {
    let m = Matrix {
        data: vec![vec![1, 2, 3], vec![4, 5, u64::MAX]],
    };
    let wire = serialize_matrix(&m);
    assert_eq!(wire.rows, 2);
    assert_eq!(wire.cols, 3);
    // row-major order
    assert_eq!(wire.data[1], "2");
    let back = deserialize_matrix(&wire).unwrap();
    assert_eq!(back.data, m.data);
}

#[test]
fn matrix_wire_rejects_bad_shape() {
    let bad = MatrixResponse {
        rows: 2,
        cols: 2,
        data: vec!["1".to_string(); 3],
    };
    assert!(deserialize_matrix(&bad).is_err());
    let degenerate = MatrixResponse {
        rows: 0,
        cols: 2,
        data: vec![],
    };
    assert!(deserialize_matrix(&degenerate).is_err());
}

#[test]
fn params_wire_round_trip() {
    let params = gen_params(4, 2, 30);
    let wire = serialize_params(&params);
    assert_eq!(wire.m, 4);
    assert_eq!(wire.n, 2);
    assert_eq!(wire.q, "18446744073709551616");
    assert_eq!(wire.p, "1073741824");
    let back = deserialize_params(&wire).unwrap();
    assert_eq!(back.m, 4);
    assert_eq!(back.n, 2);
    assert_eq!(back.mod_power, 30);
}

#[test]
fn params_wire_rejects_bad_modulus() {
    let bad = ParamsData {
        m: 4,
        n: 2,
        q: "18446744073709551616".to_string(),
        p: "0".to_string(),
    };
    assert!(deserialize_params(&bad).is_err());
    let degenerate = ParamsData {
        m: 0,
        n: 2,
        q: "18446744073709551616".to_string(),
        p: "4".to_string(),
    };
    assert!(deserialize_params(&degenerate).is_err());
}
