//! A small query engine for benchmarking record formats: fixed-width
//! grouping keys, single-owner and sharded aggregators, filter-count and
//! map-reduce operations over decoded record streams, and the rules that
//! locate and interpret a dataset's files.
pub mod aggregator;
pub mod files;
pub mod key;
pub mod query;
