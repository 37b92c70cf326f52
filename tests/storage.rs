use swiftide_rag::store::{StoredRecord, VectorStore};

fn record(path: &str, offset: usize, text: &str, vector: Vec<f32>) -> StoredRecord<Vec<f32>> {
    StoredRecord { path: path.to_string(), offset, fingerprint: 1, text: text.to_string(), vector, metadata: Vec::new() }
}

#[test]
fn upsert_same_identifier_keeps_latest() {
    let mut store = VectorStore::new();
    store.upsert(record("a.md", 0, "first", vec![1.0]));
    store.upsert(record("a.md", 0, "second", vec![2.0]));
    assert_eq!(store.len(), 1);
    let got = store.get(&String::from("a.md"), 0).unwrap();
    assert_eq!(got.text, "second");
    assert_eq!(got.vector, vec![2.0]);
}

#[test]
fn distinct_identifiers_are_distinct_records() {
    let mut store = VectorStore::new();
    store.upsert(record("a.md", 0, "x", vec![]));
    store.upsert(record("a.md", 10, "y", vec![]));
    store.upsert(record("b.md", 0, "z", vec![]));
    assert_eq!(store.len(), 3);
    assert_eq!(store.get(&String::from("a.md"), 10).unwrap().text, "y");
    assert!(store.get(&String::from("a.md"), 5).is_none());
}

#[test]
fn clearing_an_empty_store_succeeds() {
    let mut store: VectorStore<Vec<f32>> = VectorStore::new();
    store.clear();
    assert_eq!(store.len(), 0);
    store.upsert(record("a.md", 0, "x", vec![]));
    store.clear();
    assert_eq!(store.len(), 0);
}
