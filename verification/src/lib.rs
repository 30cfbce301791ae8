//! Builds BitTorrent metainfo descriptors: the piece plan of a source, the
//! bookkeeping of a hashing run, and the canonical bencoded output.

pub mod bencode;
pub mod builder;
pub mod canonical;
pub mod clock;
pub mod config;
pub mod digest;
pub mod metainfo;
pub mod order;
pub mod planner;
pub mod progress;
pub mod session;
pub mod source;
pub mod stream;
