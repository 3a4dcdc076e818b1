//! An adaptive, DoS-resistant hash map built on Robin Hood linear probing.
//!
//! The map keys its storage by 64-bit "one-shot" words (keys whose hash is a
//! single chunk of at most eight bytes). It starts out with a fast one-shot
//! mixer; when an insertion's probe displacement grows past a threshold —
//! overwhelmingly likely only under an adversarial key distribution — it
//! either grows the table or switches permanently to a keyed, DoS-resistant
//! hash function and rebuilds.

pub mod adaptive_hashing;
pub mod adaptive_map;
pub mod entry;
pub mod internal_entry;
pub mod sip_hash_state;
pub mod table;

pub use crate::adaptive_map::HashMap;
pub use crate::adaptive_map::OneshotHash;
