use tiptoe::client::{adjust_embedding, argmax, top_k_indices, unit_vector, Client};
use tiptoe::codec::decode_input;
use tiptoe::error::PirError;
use tiptoe::matrix::{Matrix, Vector};
use tiptoe::server::{EmbeddingDatabase, EncodingDatabase};

fn record(name: &str) -> String {
    let mut s = String::new();
    s.push_str("{\"name\": \"");
    s.push_str(name);
    s.push_str("\"}");
    s
}

/// A small stand-in for the text embedder: three records with hand-made
/// embeddings, one clearly nearest to the query.
fn demo_client() -> Client {
    let records = vec![record("Bitcoin"), record("Ethereum"), record("Tesla")];
    let embeddings = Matrix {
        data: vec![vec![9, 1, 1], vec![1, 9, 1], vec![1, 1, 9]],
    };
    let mut client = Client::new_local();
    client.update(&records, embeddings).unwrap();
    client
}

#[test]
fn end_to_end_semantic_retrieval() {
    let client = demo_client();
    // a query embedding nearest to the third record
    let query_embedding = Vector::new(vec![0, 1, 8]);
    let result = client.query(&query_embedding).unwrap();
    let output = decode_input(&result).unwrap();
    let json: serde_json::Value = serde_json::from_str(&output).unwrap();
    assert_eq!(json["name"].as_str().unwrap(), "Tesla");
}

#[test]
fn top_k_returns_best_matches_in_order() {
    let client = demo_client();
    let query_embedding = Vector::new(vec![0, 1, 8]);
    let results = client.query_top_k(&query_embedding, 2).unwrap();
    assert_eq!(results.len(), 2);
    let first: serde_json::Value =
        serde_json::from_str(&decode_input(&results[0]).unwrap()).unwrap();
    let second: serde_json::Value =
        serde_json::from_str(&decode_input(&results[1]).unwrap()).unwrap();
    assert_eq!(first["name"].as_str().unwrap(), "Tesla");
    assert_eq!(second["name"].as_str().unwrap(), "Ethereum");
}

#[test]
fn top_k_rejects_zero() {
    let client = demo_client();
    let query_embedding = Vector::new(vec![0, 1, 8]);
    match client.query_top_k(&query_embedding, 0) {
        Err(PirError::InvalidInput(_)) => {}
        other => panic!("expected InvalidInput, got Ok? {:?}", other.is_ok()),
    }
}

#[test]
fn query_before_update_is_rejected() {
    let client = Client::new_local();
    let query_embedding = Vector::new(vec![1, 2, 3]);
    match client.query(&query_embedding) {
        Err(PirError::Database(_)) => {}
        other => panic!("expected Database error, got Ok? {:?}", other.is_ok()),
    }
}

#[test]
fn empty_record_list_fails_and_leaves_state_unchanged() {
    let mut db = EncodingDatabase::new();
    let good = vec![record("Bitcoin")];
    db.update_from_records(&good).unwrap();
    let side = db.db.data.rows();
    // an empty refresh tick fails and the previous generation stays live
    let empty: Vec<String> = vec![];
    assert!(db.update_from_records(&empty).is_err());
    assert_eq!(db.db.data.rows(), side);
    let query = Vector::new(vec![1; side]);
    assert!(db.respond(&query).is_ok());
}

#[test]
fn non_square_embeddings_are_rejected() {
    let mut db = EmbeddingDatabase::new();
    let rect = Matrix {
        data: vec![vec![1, 2, 3], vec![4, 5, 6]],
    };
    match db.update_from_embeddings(rect) {
        Err(PirError::Database(_)) => {}
        _ => panic!("expected Database error"),
    }
    let square = Matrix {
        data: vec![vec![1, 2], vec![3, 4]],
    };
    db.update_from_embeddings(square).unwrap();
}

#[test]
fn adjust_pads_and_truncates() {
    let v = Vector::new(vec![1, 2, 3]);
    assert_eq!(adjust_embedding(&v, 5).data, vec![1, 2, 3, 0, 0]);
    assert_eq!(adjust_embedding(&v, 2).data, vec![1, 2]);
    assert_eq!(adjust_embedding(&v, 3).data, vec![1, 2, 3]);
}

#[test]
fn argmax_takes_first_of_ties() {
    assert_eq!(argmax(&vec![1, 5, 5, 2]), 1);
    assert_eq!(argmax(&vec![-3, -1, -2]), 1);
    assert_eq!(argmax(&vec![7]), 0);
}

#[test]
fn unit_vector_is_one_hot() {
    let u = unit_vector(4, 2);
    assert_eq!(u.data, vec![0, 0, 1, 0]);
}

#[test]
fn top_k_orders_by_value_then_index() {
    let y: Vec<i64> = vec![3, 9, 9, -1, 12];
    assert_eq!(top_k_indices(&y, 3), vec![4, 1, 2]);
    assert_eq!(top_k_indices(&y, 10), vec![4, 1, 2, 0, 3]);
    assert_eq!(top_k_indices(&y, 0), Vec::<usize>::new());
}

#[test]
fn refresh_keeps_queries_consistent() {
    // every query runs against one generation's consistent quadruple; after
    // a refresh the next query sees the new generation
    let mut client = demo_client();
    let query_embedding = Vector::new(vec![8, 1, 0]);
    let result = client.query(&query_embedding).unwrap();
    let output = decode_input(&result).unwrap();
    assert!(output.contains("Bitcoin"));

    let records = vec![record("Solana"), record("Cardano")];
    let embeddings = Matrix {
        data: vec![vec![9, 1], vec![1, 9]],
    };
    client.update(&records, embeddings).unwrap();
    let result = client.query(&Vector::new(vec![9, 0])).unwrap();
    let output = decode_input(&result).unwrap();
    assert!(output.contains("Solana"));
}

#[test]
fn update_replaces_encoding_before_embedding() {
    // the pair is not atomic: a rejected embedding matrix leaves the
    // already-installed encoding generation live and the embedding half
    // untouched, exactly as the contract states
    let mut client = Client::new_local();
    let records = vec![record("Bitcoin")];
    let rect = Matrix {
        data: vec![vec![1, 2, 3], vec![4, 5, 6]],
    };
    assert!(client.update(&records, rect).is_err());
    assert!(client.encoding_db.db.params.is_some());
    assert!(client.embedding_db.db.params.is_none());
}
