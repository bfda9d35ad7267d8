//! An in-memory key-value store mapping string keys to string values,
//! with set/get/remove operations and a snapshot-based enumerator.

mod laws;
mod store;

pub use laws::lemma_equality_goes_by_view;
pub use laws::lemma_remove_absent;
pub use laws::lemma_remove_unbinds;
pub use laws::lemma_set_overwrites;
pub use laws::lemma_set_then_get;
pub use store::{KvStore, KvStoreIter};
