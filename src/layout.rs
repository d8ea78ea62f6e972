//! Allocation requests: a size and a power-of-two alignment.
use vstd::arithmetic::power2::pow2;
use vstd::prelude::*;

verus! {

/// Whether `x` is a power of two.
pub open spec fn is_power_of_two(x: usize) -> bool {
    exists|e: nat| pow2(e) == x
}

/// A request for memory: `size` bytes aligned to `align`.
#[derive(Clone, Copy, Debug, PartialEq, Eq, Structural)]
pub struct Layout {
    size: usize,
    align: usize,
}

/// A size and alignment that [`Layout::from_size_align`] refuses.
#[derive(Clone, Copy, Debug, PartialEq, Eq, Structural)]
pub struct LayoutError;

/// `align` is a power of two and `size`, rounded up to a multiple of `align`,
/// does not exceed `isize::MAX`.
pub open spec fn valid_layout(size: usize, align: usize) -> bool {
    &&& is_power_of_two(align)
    &&& size <= isize::MAX - (align - 1)
}

impl Layout {
    /// The requested size in bytes.
    pub closed spec fn spec_size(&self) -> usize {
        self.size
    }

    /// The requested alignment in bytes.
    pub closed spec fn spec_align(&self) -> usize {
        self.align
    }

    /// Every layout has a valid size and alignment.
    pub closed spec fn wf(&self) -> bool {
        valid_layout(self.size, self.align)
    }

    /// A layout's size and alignment are valid.
    pub proof fn lemma_valid(&self)
        requires
            self.wf(),
        ensures
            valid_layout(self.spec_size(), self.spec_align()),
    {
    }

    /// The layout of `size` bytes aligned to `align`, or an error when `align`
    /// is not a power of two or the rounded-up size exceeds `isize::MAX`.
    pub fn from_size_align(size: usize, align: usize) -> (r: Result<Layout, LayoutError>)
        ensures
            r is Ok <==> valid_layout(size, align),
            r matches Ok(l) ==> l.spec_size() == size && l.spec_align() == align && l.wf(),
    {
        let mut p: usize = 1;
        let ghost mut e: nat = 0;
        proof {
            vstd::arithmetic::power2::lemma2_to64();
        }
        while p < align
            invariant
                p == pow2(e),
                1 <= p,
                forall|f: nat| f < e ==> #[trigger] pow2(f) < align,
            decreases usize::MAX - p,
        {
            proof {
                vstd::arithmetic::power2::lemma_pow2_unfold(e + 1);
                vstd::arithmetic::power2::lemma_pow2_strictly_increases(e, e + 1);
            }
            if p > usize::MAX / 2 {
                proof {
                    assert forall|f: nat| pow2(f) != align by {
                        if f <= e {
                            if f < e {
                            }
                        } else {
                            vstd::arithmetic::power2::lemma_pow2_strictly_increases(e, f);
                            vstd::arithmetic::power2::lemma_pow2_adds(e, 1);
                            if pow2(f) == align {
                                vstd::arithmetic::power2::lemma_pow2_strictly_increases(e + 1, f);
                            }
                        }
                    }
                }
                return Err(LayoutError);
            }
            p = p * 2;
            proof {
                vstd::arithmetic::power2::lemma_pow2_unfold(e + 1);
                e = e + 1;
            }
        }
        if p != align {
            proof {
                assert forall|f: nat| pow2(f) != align by {
                    if f > e {
                        vstd::arithmetic::power2::lemma_pow2_strictly_increases(e, f);
                    } else if f == e {
                    }
                }
            }
            return Err(LayoutError);
        }
        if align - 1 > isize::MAX as usize || size > isize::MAX as usize - (align - 1) {
            return Err(LayoutError);
        }
        Ok(Layout { size, align })
    }

    /// The requested size in bytes.
    pub fn size(&self) -> (r: usize)
        ensures
            r == self.spec_size(),
    {
        self.size
    }

    /// The requested alignment in bytes.
    pub fn align(&self) -> (r: usize)
        ensures
            r == self.spec_align(),
    {
        self.align
    }
}

} // verus!
