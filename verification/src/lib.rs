//! Incremental Merkle-tree hashing.
//!
//! A value's hash tree is kept as one flat byte buffer of 32-byte chunks:
//! the internal nodes in level order, root first, then the leaves. A
//! [`TreeHashCache`] owns such a buffer together with one flag per chunk that
//! records whether the chunk was rewritten; a [`BTreeOverlay`] lays the nodes
//! of one value out over the chunks; [`merkleize`] hashes a whole tree from
//! its leaves; and [`CachedTreeHash`] is what a type implements to have its
//! tree built once and then updated in place from the previous value.

pub mod cache;
pub mod encoding;
pub mod error;
pub mod hashing;
pub mod impls;
pub mod list;
pub mod list_composite;
pub mod list_packed;
pub mod merkle;
pub mod overlay;
pub mod pow2;
pub mod region;
pub mod subtrees;
pub mod tree_hash;
pub mod update;

pub use cache::TreeHashCache;
pub use error::Error;
pub use merkle::{merkleize, pad_leaves};
pub use overlay::BTreeOverlay;
pub use tree_hash::{CachedTreeHash, ItemKind};
pub use update::{process_values, LeafStatus};
