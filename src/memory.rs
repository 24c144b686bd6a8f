//! Memory management: frames, the heap window and the heap strategies.
pub mod allocator;
pub mod bump;
pub mod fixed;
pub mod frame;
pub mod linked_list;
pub mod paging;
