pub mod batch;
pub mod budget;
pub mod channel;
pub mod channel_state;
pub mod clock;
pub mod control;
pub mod desk;
pub mod diag;
pub mod epochs;
pub mod error;
pub mod fleet;
pub mod footer;
pub mod format;
pub mod fsutil;
pub mod intake;
pub mod limits;
pub mod logging;
pub mod losses;
pub mod medium;
pub mod memory;
pub mod metric;
pub mod migrate;
pub mod migration_run;
pub mod namespace;
pub mod pulse;
pub mod queue;
pub mod rewrite;
pub mod rotation;
pub mod scalar;
pub mod schema;
pub mod search;
pub mod segment;
pub mod service;
pub mod staged;
pub mod stats;
pub mod store;
pub mod store_core;
pub mod text;
pub mod upkeep;
pub mod wire;
pub mod writer;
pub mod writer_loop;
