use swiftide_rag::batch::{attach_vectors, into_batches};
use swiftide_rag::chunk::ChunkRange;
use swiftide_rag::dedup::DedupCache;
use swiftide_rag::ingest::{plan_ingest, store_batch, store_embedded};
use swiftide_rag::item::{Loaded, LoadError, SourceItem};
use swiftide_rag::language::Language;
use swiftide_rag::store::VectorStore;

fn python_source(len: usize) -> String {
    let mut s = String::new();
    let mut i = 0;
    while s.len() + 20 < len {
        s.push_str(&format!("value_{:03} = {:05}\n", i, i));
        i += 1;
    }
    while s.len() < len - 1 {
        s.push('#');
    }
    s.push('x');
    s
}

fn corpus() -> Vec<Loaded> {
    vec![
        Ok(SourceItem { path: String::from("a.md"), content: "m".repeat(40), fingerprint: 11 }),
        Ok(SourceItem { path: String::from("b.py"), content: python_source(300), fingerprint: 22 }),
    ]
}

/// Runs a whole ingestion with a stand-in embedder, returning how many
/// embedding calls were made.
fn run(items: Vec<Loaded>, cache: &mut DedupCache, store: &mut VectorStore<Vec<f32>>) -> usize {
    let range = ChunkRange::new(50, 1024).unwrap();
    let plan = plan_ingest(items, cache, Language::Python, range);
    let mut calls = 0;
    for batch in into_batches(plan.chunks, 50) {
        calls += 1;
        let vectors: Vec<Vec<f32>> = batch.iter().map(|c| vec![c.text.len() as f32]).collect();
        assert_eq!(store_batch(store, cache, batch, Ok::<_, ()>(vectors)), 0);
    }
    calls
}

#[test]
fn small_markdown_dropped_code_stored_once() {
    let mut cache = DedupCache::new();
    let mut store = VectorStore::new();
    let plan = plan_ingest(corpus(), &cache, Language::Python, ChunkRange { min: 50, max: 1024 });
    assert_eq!(plan.chunks.len(), 1);
    assert_eq!(plan.chunks[0].path, "b.py");
    assert_eq!(plan.chunks[0].text.len(), 300);
    assert_eq!(plan.stats.chunked, 2);
    let calls = run(corpus(), &mut cache, &mut store);
    assert_eq!(calls, 1);
    assert_eq!(store.len(), 1);
    assert!(cache.contains(22));
}

#[test]
fn cached_fingerprint_skips_everything() {
    let mut cache = DedupCache::new();
    cache.insert(22);
    let mut store = VectorStore::new();
    let plan = plan_ingest(corpus(), &cache, Language::Python, ChunkRange { min: 50, max: 1024 });
    assert!(plan.chunks.is_empty());
    assert_eq!(plan.stats.duplicates, 1);
    let calls = run(corpus(), &mut cache, &mut store);
    assert_eq!(calls, 0);
    assert_eq!(store.len(), 0);
}

#[test]
fn rerun_after_first_run_stores_nothing_new() {
    let mut cache = DedupCache::new();
    let mut store = VectorStore::new();
    run(corpus(), &mut cache, &mut store);
    let mut second = VectorStore::new();
    assert_eq!(run(corpus(), &mut cache, &mut second), 0);
    assert_eq!(second.len(), 0);
}

#[test]
fn cleared_collection_is_repopulated() {
    let mut cache = DedupCache::new();
    let mut store: VectorStore<Vec<f32>> = VectorStore::new();
    store.clear();
    assert_eq!(store.len(), 0);
    run(corpus(), &mut cache, &mut store);
    assert_eq!(store.len(), 1);
}

#[test]
fn failed_batch_stores_nothing_and_is_counted() {
    let mut cache = DedupCache::new();
    let mut store: VectorStore<Vec<f32>> = VectorStore::new();
    let plan = plan_ingest(corpus(), &cache, Language::Python, ChunkRange { min: 50, max: 1024 });
    let outcomes = attach_vectors(plan.chunks, Err::<Vec<Vec<f32>>, &str>("down"));
    assert_eq!(store_embedded(&mut store, &mut cache, outcomes), 1);
    assert_eq!(store.len(), 0);
    assert!(!cache.contains(22));
}

#[test]
fn load_errors_are_counted_not_chunked() {
    let cache = DedupCache::new();
    let items: Vec<Loaded> = vec![Err(LoadError { path: String::from("x.py") })];
    let plan = plan_ingest(items, &cache, Language::Python, ChunkRange { min: 50, max: 1024 });
    assert!(plan.chunks.is_empty());
    assert_eq!(plan.stats.load_errors, 1);
    assert_eq!(plan.stats.items, 1);
}

#[test]
fn store_batch_pairs_vectors_or_fails_whole_batch() {
    let mut cache = DedupCache::new();
    let mut store: VectorStore<Vec<f32>> = VectorStore::new();
    let plan = plan_ingest(corpus(), &cache, Language::Python, ChunkRange { min: 50, max: 1024 });
    let wrong = store_batch(&mut store, &mut cache, plan.chunks, Ok::<_, ()>(vec![vec![1.0f32], vec![2.0]]));
    assert_eq!(wrong, 1);
    assert_eq!(store.len(), 0);
    let plan = plan_ingest(corpus(), &cache, Language::Python, ChunkRange { min: 50, max: 1024 });
    assert_eq!(store_batch(&mut store, &mut cache, plan.chunks, Ok::<_, ()>(vec![vec![7.0f32]])), 0);
    let rec = store.get(&String::from("b.py"), 0).unwrap();
    assert_eq!(rec.vector, vec![7.0]);
    assert_eq!(rec.fingerprint, 22);
    assert!(cache.contains(22));
}

#[test]
fn rerun_without_cache_duplicates_nothing() {
    let mut store = VectorStore::new();
    run(corpus(), &mut DedupCache::new(), &mut store);
    let first = store.get(&String::from("b.py"), 0).unwrap().text.clone();
    run(corpus(), &mut DedupCache::new(), &mut store);
    assert_eq!(store.len(), 1);
    assert_eq!(store.get(&String::from("b.py"), 0).unwrap().text, first);
}

#[test]
fn stored_record_keeps_chunk_metadata() {
    let cache = DedupCache::new();
    let mut plan = plan_ingest(corpus(), &cache, Language::Python, ChunkRange { min: 50, max: 1024 });
    plan.chunks[0].set_metadata(String::from("questions"), String::from("Q"));
    let mut store = VectorStore::new();
    let mut cache = cache;
    store_batch(&mut store, &mut cache, plan.chunks, Ok::<_, ()>(vec![vec![1.0f32]]));
    let rec = store.get(&String::from("b.py"), 0).unwrap();
    assert_eq!(rec.metadata, vec![(String::from("questions"), String::from("Q"))]);
}
