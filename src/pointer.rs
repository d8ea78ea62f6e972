//! Position-independent, markable pointers.
//!
//! A link is stored as the offset of its target from the data segment's base,
//! so that it keeps its meaning wherever the segment is mapped. The lowest bit
//! of a stored link is the deletion mark of the node that holds it.
use crate::memory::{Memory, WORD};
use vstd::prelude::*;

verus! {

/// The stored form of "no successor". It is not a multiple of the word size,
/// so it differs from the offset of every word-aligned address.
pub const NULL_PTR: usize = 0x74e;

/// The bit of a stored link that marks its node as logically deleted.
pub const DELETE_MARK: usize = 1;

/// Whether the deletion mark is set in `v`.
pub open spec fn has_mark(v: usize) -> bool {
    v % 2 == 1
}

/// `v` with its deletion mark cleared.
pub open spec fn without_mark(v: usize) -> usize {
    (v - v % 2) as usize
}

/// `v` with its deletion mark set.
pub open spec fn with_mark(v: usize) -> usize {
    (v - v % 2 + 1) as usize
}

/// An address that can hold a list node: word-aligned, at or above the
/// segment's base, with room for the node's two words below the top of the
/// address space.
pub open spec fn node_addr(base: usize, a: usize) -> bool {
    &&& a % WORD == 0
    &&& base <= a
    &&& a + 2 * WORD <= usize::MAX
}

/// The stored (base-relative) form of absolute address `a`.
pub open spec fn stored_of(base: usize, a: usize) -> usize {
    if a == NULL_PTR {
        NULL_PTR
    } else {
        (a - base) as usize
    }
}

/// The absolute address that stored value `s` stands for.
pub open spec fn absolute_of(base: usize, s: usize) -> usize {
    if s == NULL_PTR {
        NULL_PTR
    } else {
        (s + base) as usize
    }
}

/// The handle word for stored link `v`: its target's absolute address, with
/// `v`'s mark.
pub open spec fn handle_of(base: usize, v: usize) -> usize {
    if has_mark(v) {
        with_mark(absolute_of(base, without_mark(v)))
    } else {
        absolute_of(base, without_mark(v))
    }
}

proof fn lemma_mark_bits(v: usize)
    ensures
        v & DELETE_MARK == v % 2,
        v | DELETE_MARK == with_mark(v),
        v & !DELETE_MARK == without_mark(v),
{
    assert(v & 1 == v % 2) by (bit_vector);
    assert(v | 1 == (v - v % 2 + 1) as usize) by (bit_vector);
    assert(v & !1usize == (v - v % 2) as usize) by (bit_vector);
}

/// A link as a node stores it: an offset (or [`NULL_PTR`]) whose lowest bit is
/// the deletion mark.
#[derive(Clone, Copy)]
pub struct MarkedPtr {
    value: usize,
}

impl View for MarkedPtr {
    type V = usize;

    closed spec fn view(&self) -> usize {
        self.value
    }
}

impl MarkedPtr {
    /// The link whose stored word is `value`.
    pub fn from_value(value: usize) -> (r: MarkedPtr)
        ensures
            r@ == value,
    {
        MarkedPtr { value }
    }

    /// The stored word, mark included.
    pub fn value(&self) -> (r: usize)
        ensures
            r == self@,
    {
        self.value
    }

    /// Whether the deletion mark is set.
    pub fn is_marked(&self) -> (r: bool)
        ensures
            r == has_mark(self@),
    {
        proof {
            lemma_mark_bits(self.value);
        }
        self.value & DELETE_MARK != 0
    }

    /// The stored word with the mark set; `self` is unchanged.
    pub fn mark(&self) -> (r: usize)
        ensures
            r == with_mark(self@),
    {
        proof {
            lemma_mark_bits(self.value);
        }
        self.value | DELETE_MARK
    }

    /// The stored word with the mark cleared; `self` is unchanged.
    pub fn unmark(&self) -> (r: usize)
        ensures
            r == without_mark(self@),
    {
        proof {
            lemma_mark_bits(self.value);
        }
        self.value & !DELETE_MARK
    }

    /// Whether the link, mark aside, is [`NULL_PTR`].
    pub fn is_null(&self) -> (r: bool)
        ensures
            r == (without_mark(self@) == NULL_PTR),
    {
        self.unmark() == NULL_PTR
    }

    /// The absolute address that the link stands for, without the mark.
    pub fn ptr(&self, mem: &Memory) -> (r: usize)
        requires
            without_mark(self@) == NULL_PTR || without_mark(self@) + mem.base() <= usize::MAX,
        ensures
            r == absolute_of(mem.base(), without_mark(self@)),
    {
        let s = self.unmark();
        if s == NULL_PTR {
            NULL_PTR
        } else {
            s + mem.data_base()
        }
    }

    /// A handle on the link's target: its absolute address, with this link's
    /// mark carried over.
    pub fn marked_ptr(&self, mem: &Memory) -> (r: NodePtr)
        requires
            mem.wf(),
            without_mark(self@) == NULL_PTR || without_mark(self@) + mem.base() <= usize::MAX,
        ensures
            r@ == handle_of(mem.base(), self@),
    {
        proof {
            mem.lemma_base_aligned();
            lemma_mark_bits(self.value);
        }
        let p = self.ptr(mem);
        let mark = self.value & DELETE_MARK;
        proof {
            lemma_mark_bits(p);
        }
        if mark != 0 {
            NodePtr { value: p | DELETE_MARK }
        } else {
            NodePtr { value: p }
        }
    }
}

/// A handle on a list node: its absolute address (or [`NULL_PTR`]), whose
/// lowest bit carries the deletion mark of the link it was read from.
#[derive(Clone, Copy)]
pub struct NodePtr {
    value: usize,
}

impl View for NodePtr {
    type V = usize;

    closed spec fn view(&self) -> usize {
        self.value
    }
}

impl NodePtr {
    /// The handle whose word is `value`.
    pub fn from_value(value: usize) -> (r: NodePtr)
        ensures
            r@ == value,
    {
        NodePtr { value }
    }

    /// The null handle.
    pub fn null() -> (r: NodePtr)
        ensures
            r@ == NULL_PTR,
    {
        NodePtr { value: NULL_PTR }
    }

    /// The handle's word, mark included.
    pub fn value(&self) -> (r: usize)
        ensures
            r == self@,
    {
        self.value
    }

    /// The absolute address, without the mark.
    pub fn ptr(&self) -> (r: usize)
        ensures
            r == without_mark(self@),
    {
        proof {
            lemma_mark_bits(self.value);
        }
        self.value & !DELETE_MARK
    }

    /// Whether the handle, mark aside, is null.
    pub fn is_null(&self) -> (r: bool)
        ensures
            r == (without_mark(self@) == NULL_PTR),
    {
        self.ptr() == NULL_PTR
    }

    /// Whether the handle carries the deletion mark.
    pub fn is_marked(&self) -> (r: bool)
        ensures
            r == has_mark(self@),
    {
        proof {
            lemma_mark_bits(self.value);
        }
        self.value & DELETE_MARK != 0
    }

    /// The handle's word with the mark set.
    pub fn mark(&self) -> (r: usize)
        ensures
            r == with_mark(self@),
    {
        proof {
            lemma_mark_bits(self.value);
        }
        self.value | DELETE_MARK
    }

    /// The handle's word with the mark cleared.
    pub fn unmark(&self) -> (r: usize)
        ensures
            r == without_mark(self@),
    {
        self.ptr()
    }

    /// A handle on the successor of the node this handle points to, read from
    /// the node's link; `None` for the null handle.
    pub fn next(&self, mem: &Memory) -> (r: Option<NodePtr>)
        requires
            mem.wf(),
            without_mark(self@) == NULL_PTR || ({
                let s = without_mark(mem.word(without_mark(self@)));
                s == NULL_PTR || s + mem.base() <= usize::MAX
            }),
        ensures
            without_mark(self@) == NULL_PTR ==> r is None,
            without_mark(self@) != NULL_PTR ==> r is Some && r->0@ == handle_of(
                mem.base(),
                mem.word(without_mark(self@)),
            ),
    {
        if self.is_null() {
            None
        } else {
            let link = MarkedPtr::from_value(mem.read(self.ptr()));
            Some(link.marked_ptr(mem))
        }
    }

    /// The form in which a node stores a link to this handle's target: the
    /// base-relative offset (or [`NULL_PTR`]), with this handle's mark.
    pub fn linked_value(&self, mem: &Memory) -> (r: usize)
        requires
            mem.wf(),
            without_mark(self@) == NULL_PTR || (mem.base() <= without_mark(self@) && without_mark(
                self@,
            ) % 2 == 0),
        ensures
            r == (if has_mark(self@) {
                with_mark(stored_of(mem.base(), without_mark(self@)))
            } else {
                stored_of(mem.base(), without_mark(self@))
            }),
    {
        let base = mem.data_base();
        proof {
            mem.lemma_base_aligned();
            lemma_mark_bits(self.value);
        }
        let p = self.ptr();
        let s = if p == NULL_PTR {
            NULL_PTR
        } else {
            p - base
        };
        proof {
            lemma_mark_bits(s);
        }
        if self.is_marked() {
            s | DELETE_MARK
        } else {
            s
        }
    }
}

} // verus!
