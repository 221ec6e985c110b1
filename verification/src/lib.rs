//! Local routing-table core of a Kademlia-style distributed hash table node.
//!
//! The crate keeps, for one node, the set of peers it knows about: a binary
//! trie over identifier bits whose leaves are capacity-bounded,
//! freshness-ordered buckets. Only the region that contains the owning
//! node's own identifier may refine itself by splitting, which bounds the
//! routing state independently of network size.

pub mod id;
pub mod info;
pub mod bucket;
pub mod tree;
pub mod order;
pub mod table;
