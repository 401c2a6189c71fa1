//! Ingestion of step-function execution log lines from a container's output
//! stream into an insertion-ordered, key-unique store.
pub mod ingest;
pub mod laws;
pub mod record;
pub mod store;
pub mod text;
