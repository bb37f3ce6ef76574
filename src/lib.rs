//! A hash map built on the slot state machine of a lock-free open-addressing
//! table: write-once key cells, value cells that only climb a lattice of
//! finality, and a chunked migration protocol that moves every live entry of a
//! full table into a larger successor.
//!
//! Every operation here is given exclusive access to the map (`&mut self`),
//! so the protocol is stated and proved in its sequential form. A resize, once
//! started, stays in flight across operations: each write first helps the
//! migration by one chunk and migrates its own key's slot before writing to
//! the successor; lookups start in the source table and go on in the successor
//! for migrated slots; the successor replaces the source once it is drained.

pub mod key;
pub mod slot;
pub mod table;
pub mod map;

pub use key::{HashKey, KeyHasher};
pub use slot::{KeySlot, ValueSlot};
pub use map::{Keys, LockFreeHashMap, MapOp, DEFAULT_CAPACITY};
pub use table::{COPY_CHUNK_SIZE, MAX_CAPACITY};
