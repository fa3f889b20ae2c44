//! A fixed-capacity d-ary max-heap over `i32` values.
mod heap;
pub mod order;

pub use heap::{Heap, HeapError, HEAP_MAX_SIZE};
