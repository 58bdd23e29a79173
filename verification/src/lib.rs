//! A Redis-compatible in-memory cache: the RESP wire format, the command set and
//! the sharded keyspace with expiry and approximated LRU eviction.
pub mod number;
pub mod frame;
pub mod frame_laws;
pub mod frame_text;
pub mod glob;
pub mod glob_laws;
pub mod db;
pub mod db_list;
pub mod db_hash;
pub mod db_members;
pub mod db_keys;
pub mod cmd;
pub mod aof;
pub mod laws;
pub mod memory_laws;
pub mod call_laws;
pub mod read_laws;
pub mod metrics;
pub mod web;
