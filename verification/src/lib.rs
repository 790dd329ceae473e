//! A mergeable priority queue (Fibonacci heap) with amortized O(1) insert,
//! find-minimum and decrease-key, and amortized O(log n) extract-minimum.
//! Merging moves the consumed heap's elements into the receiving heap's
//! arena, so it costs time linear in the consumed heap, not the classic
//! amortized O(1) of linked representations.
//!
//! Every tree node lives in a slot arena; callers hold generation-stamped
//! handles that are rejected once the node they named has been removed.

mod fibonacci;
mod heap;
mod laws;
mod model;
mod node;
mod store;

pub use fibonacci::FibonacciHeap;
pub use fibonacci::NodeID;
pub use heap::Heap;
pub use laws::is_minimum_of;
pub use laws::lemma_extraction_monotone;
pub use laws::lemma_insert_minimum;
pub use laws::lemma_merge_empty;
pub use laws::lemma_merge_minimum;
pub use node::TreeNode;
