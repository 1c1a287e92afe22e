//! An in-memory SQL and key-value engine.
pub mod acceptance;
pub mod aggregates;
pub mod answers;
pub mod apart;
pub mod assoc;
pub mod ast;
pub mod catalog;
pub mod chains;
pub mod codec;
pub mod config;
pub mod constraint;
pub mod covering;
pub mod decimal;
pub mod definitions;
pub mod documents;
pub mod double;
pub mod effects;
pub mod error;
pub mod events;
pub mod exact;
pub mod expr;
pub mod firing;
pub mod fts;
pub mod grouping;
pub mod index;
pub mod integrity;
pub mod json;
pub mod natural;
pub mod numbers;
pub mod operators;
pub mod overflow;
pub mod parameters;
pub mod ranges;
pub mod reading;
pub mod relational;
pub mod replication;
pub mod rollback;
pub mod row;
pub mod scalars;
pub mod schema;
pub mod searching;
pub mod snapshot;
pub mod sparing;
pub mod sql;
pub mod state;
pub mod statements;
pub mod store;
pub mod text;
pub mod transaction;
pub mod triggers;
pub mod view;
pub mod virtual_table;
pub mod wal;
pub mod wording;
pub mod writes;
