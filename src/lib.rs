//! A position-independent buddy-system heap allocator built on an intrusive
//! list with lazy (mark, then unlink) deletion.
//!
//! The allocator works on a word-addressed model of its data segment
//! ([`Memory`]): list links are stored inside the managed blocks as offsets
//! from the segment's base, so the structure stays valid wherever the segment
//! is mapped.
//!
//! Every operation takes the structures it changes by `&mut`, so operations
//! run one at a time; each keeps the steps of the non-blocking protocol (a
//! node is first marked, then unlinked, and a walk unlinks the marked nodes it
//! passes), and the heap keeps its policy of moving on to the next order when
//! a free list turns out empty.
use vstd::prelude::*;

pub mod heap;
pub mod layout;
pub mod linked_list;
pub mod memory;
pub mod pointer;
pub mod stats;

pub use heap::{prev_power_of_two, LockFreeHeap};
pub use layout::{Layout, LayoutError};
pub use linked_list::LinkedList;
pub use memory::Memory;
pub use pointer::{MarkedPtr, NodePtr, DELETE_MARK, NULL_PTR};

verus! {

/// The base address of the data segment that `mem` models: every link stored
/// in it is an offset from this address.
pub fn get_data_base(mem: &Memory) -> (r: usize)
    ensures
        r == mem.base(),
{
    mem.data_base()
}

} // verus!
