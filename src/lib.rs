//! A verified engine for retrieval-augmented generation pipelines: routing of
//! loaded files, deduplication, chunk selection, batching of embeddings, an
//! upserting record store, and the per-question query state machine with its
//! evaluation dataset.
pub mod batch;
pub mod chunk;
pub mod dedup;
pub mod ingest;
pub mod item;
pub mod language;
pub mod query;
pub mod route;
pub mod store;
pub mod text;
