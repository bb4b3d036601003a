//! A slot-based arena ("slab") over a pluggable sequence backend, with a
//! transactional overlay for staging replacements and appends against an
//! immutable base, and a binary codec that round-trips the arena's
//! (key, value) pairs.

pub mod builder;
pub mod codec;
pub mod error;
pub mod list;
pub mod slab;
pub mod tx;

pub use builder::Builder;
pub use codec::{decode_slab, encode_slab};
pub use error::Error;
pub use list::{
    AsSliceListStorage, ClearableListStorage, ItemMut, List, ListStorage, MutRefListStorage,
    VecStorage,
};
pub use slab::{Slab, Slot};
pub use tx::{TxItemMut, TxList, TxListPatch};
