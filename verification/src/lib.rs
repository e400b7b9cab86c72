//! A deterministic price-time matching engine with a checked command journal.
pub mod arena;
pub mod async_journal;
pub mod book;
pub mod book_model;
pub mod bytes;
pub mod codec;
pub mod engine;
pub mod engine_model;
pub mod fenwick;
pub mod journal;
pub mod laws_answers;
pub mod laws_best;
pub mod laws_bounds;
pub mod laws_cascade;
pub mod laws_commands;
pub mod laws_groups;
pub mod laws_ledger;
pub mod laws_matching;
pub mod laws_modify;
pub mod laws_orders;
pub mod laws_outcomes;
pub mod laws_priority;
pub mod laws_replay;
pub mod laws_runs;
pub mod laws_stops;
pub mod laws_taking;
pub mod laws_updates;
pub mod levels;
pub mod metrics;
pub mod occupancy;
pub mod order_index;
pub mod pipeline;
pub mod policy;
pub mod record;
pub mod segments;
pub mod sorted;
pub mod sparse_index;
pub mod sparse_levels;
pub mod streaming;
pub mod sums;
pub mod terms;
pub mod types;
pub mod writer;
