//! A physical page-frame allocator for a fixed heap region.
//!
//! The heap `[heap_start, heap_start + heap_size)` is carved into 4096-byte
//! frames. One descriptor byte per frame records whether the frame is part of
//! a live allocation (`TAKEN`) and whether it is the final frame of its run
//! (`LAST`). Allocation is first-fit over contiguous free windows;
//! deallocation walks a run from its first frame to the frame marked `LAST`,
//! trapping double frees. The interactive byte-echo protocol that the
//! surrounding kernel speaks over its UART is modelled as a pure state
//! machine in [`echo`].

pub mod echo;
pub mod page;
