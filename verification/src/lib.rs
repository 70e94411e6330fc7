//! A priority queue over byte-sequence payloads, backed by a flat
//! key-value store of encoded keys instead of a tree or heap.
//!
//! Priorities are 64-bit unsigned integers, serialized big-endian into
//! fixed 8-byte keys so that numeric order equals lexicographic byte
//! order.  Each key maps to a bucket: the concatenation of one or more
//! length-prefixed element records, in insertion order, which yields
//! first-in-first-out ordering among payloads that share a priority.
//! Because the store itself keeps no order, the highest-priority entry
//! is found by a linear scan that decodes every key.
//!
//! [`codec`] holds the pure encoders and decoders, [`queue`] the store
//! and the engine, and [`order`] the abstract model of the queue with
//! the ordering guarantees proved about it.

pub mod codec;
pub mod order;
pub mod queue;

pub use codec::QueueError;
pub use queue::PriorityQueue;
pub use queue::PriorityQueueImpl;
pub use queue::get_highest_priority;
