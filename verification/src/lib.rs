//! Event storage core: incremental tool-span projection, span trees, derived
//! artifact indexing, outbox reconciliation and the record framing used by the
//! hot append log.

pub mod text;
pub mod error;
pub mod event;
pub mod event_index;
pub mod tool_span;
pub mod projector_hierarchy;
pub mod projector_spans;
pub mod projector;
pub mod contracts;
pub mod query;
pub mod span_tree;
pub mod table;
pub mod cold_parquet;
pub mod hot_log;
pub mod group;
pub mod rank;
pub mod remote_cache;
pub mod guidance;
pub mod rows;
pub mod outbox;
pub mod event_codec;
pub mod schema;
pub mod session_query;
