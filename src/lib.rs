//! Hybrid (v1 + v2) BitTorrent metainfo construction from a byte stream.
pub mod bencode;
pub mod bytes;
pub mod decode;
pub mod digest;
pub mod hash_v1;
pub mod hash_v2;
pub mod header;
pub mod magnet;
pub mod metainfo;
pub mod trackers;
pub mod util;
