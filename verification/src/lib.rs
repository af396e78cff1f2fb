//! Lists, sets, strings and 64-bit counters laid out over an ordered,
//! byte-keyed key-value store.
//!
//! The library holds the key encoding, the value codecs and the decisions of
//! each operation: which physical keys an operation reads, what it makes of
//! the bytes it finds, and which writes it asks for. It does not touch a store
//! itself: the caller reads and writes, and hands the library plain values.

pub mod codec;
pub mod counter;
pub mod error;
pub mod ints;
pub mod keys;
pub mod list;
pub mod scalar;
pub mod scan;
pub mod set;
pub mod store;

pub use counter::{get_i64, get_u64, inc_i64, inc_u64, set_i64, set_u64};
pub use error::RedrockError;
pub use keys::{data_key, l_idx_key, meta_key, z_key, z_member_key};
pub use list::{
    ldel, lexists, lget, lget_keys, list_meta_key, llen, lmetaget, lmetaset, lpush, ListMeta,
};
pub use scalar::{del, get_str, set_str};
pub use scan::{in_prefix, matching_len, prefix_search, prefix_search_str};
pub use set::{sadd, smembers, srem};
pub use store::{BatchOp, Entry, Fetched};
