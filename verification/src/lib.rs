//! A double-ended priority queue: unique `(item, priority)` pairs with O(1)
//! access to both the minimum- and the maximum-priority entry, implemented as
//! a min-max heap of slot numbers over an order-preserving map.

pub mod heapshape;
pub mod imap;
pub mod queue;
pub mod store;
