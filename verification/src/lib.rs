//! A small analytical query engine over a columnar, segment-partitioned
//! table: schema and query parsing, the storage codec and writer, the
//! per-segment executor with zone-map pruning, and the coordinator's
//! merge and formatting.
pub mod codec;
pub mod coordinator_cluster;
pub mod coordinator_merge;
pub mod coordinator_route;
pub mod fbits;
pub mod fieldparse;
pub mod minisql_eval;
pub mod minisql_parse;
pub mod minisql_print;
pub mod rpc;
pub mod storage_inspect;
pub mod storage_load;
pub mod storage_schema;
pub mod strutil;
pub mod textscan;
pub mod worker_exec;
