//! A time-series storage engine core: a bit-exact Gorilla-style codec
//! (delta-of-delta timestamps, XOR-compressed values), sealed blocks, and a
//! tiered store whose range queries merge every tier with last-write-wins.
//! Values are carried as their IEEE-754 bit patterns (`u64`).

pub mod error;
pub mod bitstream;
pub mod timestamp;
pub mod value;
pub mod block;
pub mod series;
pub mod store;
pub mod consistency;
pub mod query;
pub mod config;
pub mod cluster;
pub mod framed;
pub mod blockfile;
pub mod archive;
