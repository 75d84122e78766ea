//! Fixed-capacity container primitives.
//!
//! Every container in this crate stores its elements in a backing vector
//! whose length is chosen at construction and never changes afterwards; no
//! operation allocates or grows storage. The two structurally interesting
//! types are the open-addressing [`HashMap`]/[`HashSet`] pair, which
//! resolve collisions by linear probing with tombstone deletion, and the
//! [`SearchableList`], which keeps its elements sorted by value while every
//! element stays addressable through a permanent insertion handle. The
//! remaining types — stack, queue, append-only list and priority buffer —
//! are plain sequential array containers.

pub mod hash_map;
pub mod hash_set;
pub mod hasher;
pub mod list;
pub mod priority_queue;
pub mod queue;
pub mod searchable_list;
pub mod stack;

pub use hash_map::HashMap;
pub use hash_map::HashMapEntry;
pub use hash_set::HashSet;
pub use hash_set::HashSetEntry;
pub use hasher::BuildDefaultHasher;
pub use hasher::BuildKeyHasher;
pub use hasher::ConstantHasher;
pub use hasher::DefaultHasher;
pub use list::List;
pub use list::ListIter;
pub use priority_queue::PriorityQueue;
pub use queue::Queue;
pub use queue::QueueIter;
pub use searchable_list::CapacityExceeded;
pub use searchable_list::SearchableList;
pub use stack::Stack;
pub use stack::StackIter;
