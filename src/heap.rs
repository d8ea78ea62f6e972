//! The buddy heap: one free list per power-of-two block size.
//!
//! A block of order `k` is `2^k` bytes aligned to `2^k`; its buddy is the
//! block of the same order with bit `k` of the address flipped, and the two
//! merge into the block of order `k + 1` that holds both.
use crate::layout::{Layout, valid_layout};
use crate::linked_list::{apart, LinkedList};
use crate::memory::{Memory, WORD};
use vstd::arithmetic::div_mod::{lemma_fundamental_div_mod, lemma_mod_multiples_basic};
use vstd::arithmetic::power2::{
    lemma2_to64, lemma_pow2_adds, lemma_pow2_pos, lemma_pow2_strictly_increases, lemma_pow2_unfold,
    pow2,
};
use vstd::prelude::*;

verus! {

/// The order of the smallest block: `2^4` bytes hold a node's two words.
pub const MIN_ORDER: usize = 4;

/// `k` is the order of the block that serves a request of `size` bytes at
/// alignment `align`: the smallest order, from [`MIN_ORDER`] up, whose block
/// size is at least `size` and at least `align`.
pub open spec fn is_class(size: usize, align: usize, k: nat) -> bool {
    &&& MIN_ORDER <= k
    &&& size <= pow2(k)
    &&& align <= pow2(k)
    &&& (k == MIN_ORDER || pow2((k - 1) as nat) < size || pow2((k - 1) as nat) < align)
}

/// A block of order `k` at `a` in a segment based at `base`, for a heap of
/// `order` free lists: at least 16 bytes, aligned to its size, away from
/// address zero.
pub open spec fn block_ok(base: usize, a: usize, k: nat, order: int) -> bool {
    &&& MIN_ORDER <= k < order
    &&& a as int % pow2(k) as int == 0
    &&& 0 < a
    &&& base <= a
    &&& a + pow2(k) <= usize::MAX
}

/// Blocks `(a, ka)` and `(b, kb)` share no byte.
pub open spec fn disjoint(a: usize, ka: nat, b: usize, kb: nat) -> bool {
    a + pow2(ka) <= b || b + pow2(kb) <= a
}

/// The buddy of the block of order `k` at `a` (the address with bit `k`
/// flipped).
pub open spec fn buddy_of(a: usize, k: nat) -> int {
    if (a as int / pow2(k) as int) % 2 == 0 {
        a + pow2(k)
    } else {
        a - pow2(k)
    }
}

/// `x` rounded down to a multiple of `2^k`: the start of the block of order
/// `k` that holds address `x`.
pub open spec fn round_down(x: usize, k: nat) -> int {
    (x as int / pow2(k) as int) * pow2(k) as int
}

/// The block of order `k` that holds `x` starts at `x` rounded down.
proof fn lemma_round_down(x: usize, a: usize, k: nat)
    requires
        a as int % pow2(k) as int == 0,
        a <= x < a + pow2(k),
    ensures
        round_down(x, k) == a,
{
    lemma_pow2_pos(k);
    let d = pow2(k) as int;
    lemma_fundamental_div_mod(a as int, d);
    let q = a as int / d;
    vstd::arithmetic::div_mod::lemma_fundamental_div_mod_converse(x as int, d, q, x - a);
}

/// Alignment to `2^a` implies alignment to every smaller power of two.
pub proof fn lemma_aligned_down(x: int, a: nat, b: nat)
    requires
        b <= a,
        x % pow2(a) as int == 0,
    ensures
        x % pow2(b) as int == 0,
{
    lemma_pow2_pos(a);
    lemma_pow2_pos(b);
    lemma_pow2_pos((a - b) as nat);
    lemma_pow2_adds(b, (a - b) as nat);
    lemma_fundamental_div_mod(x, pow2(a) as int);
    let q = x / pow2(a) as int;
    let r = pow2((a - b) as nat) as int;
    let s = pow2(b) as int;
    assert(x == (q * r) * s) by (nonlinear_arith)
        requires
            x == pow2(a) as int * q + 0,
            pow2(a) as int == s * r,
    ;
    lemma_mod_multiples_basic(q * r, s);
}

/// The buddy of an aligned block is aligned, and the two halves make up the
/// aligned block of the next order.
pub proof fn lemma_buddy(a: usize, k: nat)
    requires
        a as int % pow2(k) as int == 0,
    ensures
        buddy_of(a, k) % pow2(k) as int == 0,
        (a as int / pow2(k) as int) % 2 == 0 ==> a as int % pow2(k + 1) as int == 0,
        (a as int / pow2(k) as int) % 2 == 1 ==> (a - pow2(k)) % pow2(k + 1) as int == 0,
{
    lemma_pow2_pos(k);
    lemma_pow2_unfold(k + 1);
    let s = pow2(k) as int;
    let ai = a as int;
    let q = ai / s;
    lemma_fundamental_div_mod(ai, s);
    assert(ai == s * q);
    if q % 2 == 0 {
        let h = q / 2;
        assert(ai == (2 * s) * h) by (nonlinear_arith)
            requires
                ai == s * q,
                q == 2 * h,
        ;
        lemma_mod_multiples_basic(h, 2 * s);
        assert((ai + s) == s * (q + 1)) by (nonlinear_arith)
            requires
                ai == s * q,
        ;
        lemma_mod_multiples_basic(q + 1, s);
        assert((ai + s) / s == q + 1) by (nonlinear_arith)
            requires
                ai + s == s * (q + 1),
                s > 0,
        ;
    } else {
        let h = (q - 1) / 2;
        assert(ai - s == (2 * s) * h) by (nonlinear_arith)
            requires
                ai == s * q,
                q - 1 == 2 * h,
        ;
        lemma_mod_multiples_basic(h, 2 * s);
        assert((ai - s) == s * (q - 1)) by (nonlinear_arith)
            requires
                ai == s * q,
        ;
        lemma_mod_multiples_basic(q - 1, s);
        assert((ai - s) / s == q - 1) by (nonlinear_arith)
            requires
                ai - s == s * (q - 1),
                s > 0,
        ;
    }
}

/// Flipping the bit of an aligned address that its block size sets gives the
/// buddy.
#[verifier::spinoff_prover]
#[verifier::rlimit(60)]
proof fn lemma_xor_buddy(a: usize, k: usize)
    requires
        k < usize::BITS,
        a as int % pow2(k as nat) as int == 0,
        a + pow2(k as nat) <= usize::MAX,
    ensures
        (1usize << k) == pow2(k as nat),
        a ^ (1usize << k) == buddy_of(a, k as nat),
{
    vstd::bits::lemma_usize_shl_is_mul(1, k);
    let s = 1usize << k;
    assert(s == pow2(k as nat));
    lemma_pow2_pos(k as nat);
    assert((s & (s - 1usize) as usize) == 0) by (bit_vector)
        requires
            s == 1usize << k,
            k < 64,
    ;
    assert(a ^ s == (if (a / s) % 2 == 0 {
        (a + s) as usize
    } else {
        (a - s) as usize
    })) by (bit_vector)
        requires
            s > 0,
            (s & (s - 1usize) as usize) == 0,
            a % s == 0,
    ;
    if (a / s) % 2 != 0 {
        lemma_buddy_other(a, k as nat);
    }
}

proof fn lemma_buddy_other(a: usize, k: nat)
    ensures
        0 <= buddy_of(a, k),
        buddy_of(a, k) != a,
{
    lemma_pow2_pos(k);
    let s = pow2(k) as int;
    let q = a as int / s;
    if q % 2 != 0 {
        assert(a as int >= s) by (nonlinear_arith)
            requires
                q == a as int / s,
                q % 2 != 0,
                s > 0,
                a >= 0,
        ;
    }
}

/// The largest power of two that does not exceed `num`.
pub fn prev_power_of_two(num: usize) -> (r: usize)
    requires
        num > 0,
    ensures
        exists|e: nat| pow2(e) == r,
        r <= num,
        num < 2 * r,
{
    let mut r: usize = 1;
    let ghost mut e: nat = 0;
    proof {
        lemma2_to64();
    }
    while r <= num / 2
        invariant
            r == pow2(e),
            1 <= r <= num,
        decreases num - r,
    {
        proof {
            lemma_pow2_unfold(e + 1);
        }
        r = r * 2;
        proof {
            e = e + 1;
        }
    }
    r
}

/// The largest power of two, up to `2^limit`, that divides `x` (`2^limit`
/// when `x` is zero).
fn lowbit(x: usize, limit: usize) -> (r: (usize, usize))
    requires
        pow2(limit as nat) <= usize::MAX,
    ensures
        r.0 <= limit,
        r.1 == pow2(r.0 as nat),
        x % r.1 == 0,
        r.0 == limit || x as int % pow2((r.0 + 1) as nat) as int != 0,
{
    let mut k: usize = 0;
    let mut p: usize = 1;
    proof {
        lemma2_to64();
    }
    loop
        invariant
            k <= limit,
            p == pow2(k as nat),
            p >= 1,
            x % p == 0,
            pow2(limit as nat) <= usize::MAX,
        ensures
            k <= limit,
            p == pow2(k as nat),
            x % p == 0,
            k == limit || x as int % pow2((k + 1) as nat) as int != 0,
        decreases limit - k,
    {
        if k >= limit {
            break;
        }
        proof {
            lemma_pow2_unfold((k + 1) as nat);
            if k + 1 < limit {
                lemma_pow2_strictly_increases((k + 1) as nat, limit as nat);
            }
        }
        if x % (2 * p) != 0 {
            break;
        }
        p = p * 2;
        k = k + 1;
    }
    (k, p)
}

/// The order of the block that serves `layout`, and that block's size.
fn size_class(layout: &Layout) -> (r: (usize, usize))
    requires
        layout.wf(),
    ensures
        is_class(layout.spec_size(), layout.spec_align(), r.0 as nat),
        r.1 == pow2(r.0 as nat),
{
    let size = layout.size();
    let align = layout.align();
    let mut k: usize = MIN_ORDER;
    let mut p: usize = 16;
    proof {
        lemma2_to64();
        layout.lemma_valid();
    }
    while p < size || p < align
        invariant
            MIN_ORDER <= k,
            p == pow2(k as nat),
            valid_layout(size, align),
            k < p,
            k == MIN_ORDER || pow2((k - 1) as nat) < size || pow2((k - 1) as nat) < align,
        decreases usize::MAX - p,
    {
        proof {
            lemma_pow2_unfold((k + 1) as nat);
        }
        p = p * 2;
        k = k + 1;
    }
    (k, p)
}

/// Every list is well formed over the heap's memory and holds no marked
/// node.
#[verifier::opaque]
spec fn lists_ok(lists: Seq<LinkedList>, mem: Memory) -> bool {
    forall|k: int|
        #![trigger lists[k]]
        0 <= k < lists.len() ==> lists[k].wf(mem) && lists[k].clean(mem)
}

/// Each free block of order `k` is a managed block of order `k`.
#[verifier::opaque]
spec fn free_known(lists: Seq<LinkedList>, mem: Memory, blocks: Map<usize, nat>) -> bool {
    forall|k: int, a: usize|
        0 <= k < lists.len() && #[trigger] lists[k].view(mem).contains(a) ==> blocks.contains_key(
            a,
        ) && blocks[a] == k
}

/// Each managed block is aligned to its size and lies above the base.
#[verifier::opaque]
spec fn blocks_ok(blocks: Map<usize, nat>, base: usize, order: int) -> bool {
    forall|a: usize| #[trigger]
        blocks.contains_key(a) ==> block_ok(base, a, blocks[a], order)
}

/// No two managed blocks share a byte.
#[verifier::opaque]
spec fn blocks_disjoint(blocks: Map<usize, nat>) -> bool {
    forall|a: usize, b: usize|
        #[trigger] blocks.contains_key(a) && #[trigger] blocks.contains_key(b) && a != b
            ==> disjoint(a, blocks[a], b, blocks[b])
}


/// The order of the block that serves a request of `size` bytes at alignment
/// `align` (see [`is_class`]).
pub open spec fn class_of(size: usize, align: usize) -> nat {
    choose|k: nat| is_class(size, align, k)
}

proof fn lemma_class_unique(size: usize, align: usize, k: nat)
    requires
        is_class(size, align, k),
    ensures
        class_of(size, align) == k,
{
    let c = class_of(size, align);
    assert(is_class(size, align, c));
    if c < k {
        lemma_pow2_increases_le(c, (k - 1) as nat);
    } else if k < c {
        lemma_pow2_increases_le(k, (c - 1) as nat);
    }
}

proof fn lemma_pow2_increases_le(a: nat, b: nat)
    requires
        a <= b,
    ensures
        pow2(a) <= pow2(b),
{
    if a < b {
        lemma_pow2_strictly_increases(a, b);
    }
}

/// A node of one free list is not a node of another.
proof fn lemma_lists_apart(
    lists: Seq<LinkedList>,
    mem: Memory,
    blocks: Map<usize, nat>,
    j: int,
    k: int,
    n: usize,
)
    requires
        lists_ok(lists, mem),
        free_known(lists, mem, blocks),
        0 <= j < lists.len(),
        0 <= k < lists.len(),
        j != k,
        lists[j].nodes().contains(n),
    ensures
        !lists[k].nodes().contains(n),
        lists[j].view(mem).contains(n),
        blocks.contains_key(n) && blocks[n] == j,
{
    reveal(lists_ok);
    reveal(free_known);
    assert(lists[j].wf(mem));
        assert(lists[j].clean(mem));
    assert(lists[k].wf(mem));
        assert(lists[k].clean(mem));
    lists[j].lemma_wf(mem);
    lists[k].lemma_wf(mem);
    assert(lists[j].view(mem).contains(n));
    if lists[k].nodes().contains(n) {
        assert(lists[k].view(mem).contains(n));
    }
}

/// Lists other than `k` stay as they were when memory changes only outside
/// their nodes, and list `k` is replaced by a well-formed clean list.
proof fn lemma_replace_list(
    lists1: Seq<LinkedList>,
    m1: Memory,
    lists2: Seq<LinkedList>,
    m2: Memory,
    k: int,
)
    requires
        lists_ok(lists1, m1),
        lists2.len() == lists1.len(),
        0 <= k < lists1.len(),
        forall|j: int| 0 <= j < lists1.len() && j != k ==> lists2[j] == lists1[j],
        lists2[k].wf(m2),
        lists2[k].clean(m2),
        m2.wf(),
        m2.base() == m1.base(),
        forall|j: int, i: int|
            0 <= j < lists1.len() && j != k && 0 <= i < lists1[j].nodes().len() ==> m2.word(
                #[trigger] lists1[j].nodes()[i],
            ) == m1.word(lists1[j].nodes()[i]),
    ensures
        lists_ok(lists2, m2),
        forall|j: int| 0 <= j < lists1.len() && j != k ==> #[trigger] lists2[j].view(m2) == lists1[j].view(m1),
{
    reveal(lists_ok);
    assert forall|j: int| 0 <= j < lists1.len() && j != k implies #[trigger] lists2[j].view(m2)
        == lists1[j].view(m1) && lists2[j].wf(m2) && lists2[j].clean(m2) by {
        assert(lists1[j].wf(m1));
        assert(lists1[j].clean(m1));
        assert forall|i: int| 0 <= i < lists1[j].nodes().len() implies m2.word(
            #[trigger] lists1[j].nodes()[i],
        ) == m1.word(lists1[j].nodes()[i]) by {}
        lists1[j].lemma_frame(m1, m2);
    }
    assert forall|j: int| 0 <= j < lists2.len() implies #[trigger] lists2[j].wf(m2) && lists2[j].clean(
        m2,
    ) by {
        if j != k {
            assert(lists2[j].view(m2) == lists1[j].view(m1));
        }
    }
}

/// Every list stays as it is when memory changes only outside their nodes.
proof fn lemma_write_frame(lists: Seq<LinkedList>, m1: Memory, m2: Memory)
    requires
        lists_ok(lists, m1),
        m2.wf(),
        m2.base() == m1.base(),
        forall|j: int, i: int|
            0 <= j < lists.len() && 0 <= i < lists[j].nodes().len() ==> m2.word(
                #[trigger] lists[j].nodes()[i],
            ) == m1.word(lists[j].nodes()[i]),
    ensures
        lists_ok(lists, m2),
        forall|j: int| 0 <= j < lists.len() ==> #[trigger] lists[j].view(m2) == lists[j].view(m1),
{
    reveal(lists_ok);
    assert forall|j: int| 0 <= j < lists.len() implies #[trigger] lists[j].view(m2) == lists[j].view(
        m1,
    ) && lists[j].wf(m2) && lists[j].clean(m2) by {
        assert(lists[j].wf(m1));
        assert(lists[j].clean(m1));
        assert forall|i: int| 0 <= i < lists[j].nodes().len() implies m2.word(
            #[trigger] lists[j].nodes()[i],
        ) == m1.word(lists[j].nodes()[i]) by {}
        lists[j].lemma_frame(m1, m2);
    }
    assert forall|j: int| 0 <= j < lists.len() implies lists[j].wf(m2) && lists[j].clean(m2) by {
        assert(lists[j].view(m2) == lists[j].view(m1));
    }
}

proof fn lemma_sum_aligned(a: int, b: int, m: int)
    requires
        m > 0,
        a % m == 0,
        b % m == 0,
    ensures
        (a + b) % m == 0,
{
    lemma_fundamental_div_mod(a, m);
    lemma_fundamental_div_mod(b, m);
    let qa = a / m;
    let qb = b / m;
    assert(a + b == (qa + qb) * m) by (nonlinear_arith)
        requires
            a == m * qa + 0,
            b == m * qb + 0,
    ;
    lemma_mod_multiples_basic(qa + qb, m);
}

proof fn lemma_add_aligned(a: int, s: int)
    requires
        s > 0,
        a % s == 0,
    ensures
        (a + s) % s == 0,
{
    lemma_fundamental_div_mod(a, s);
    let q = a / s;
    assert(a + s == (q + 1) * s) by (nonlinear_arith)
        requires
            a == s * q + 0,
    ;
    lemma_mod_multiples_basic(q + 1, s);
}

/// In a sequence without duplicates, removing `v` removes exactly `v`.
proof fn lemma_remove_value_contains(s: Seq<usize>, v: usize, x: usize)
    requires
        s.no_duplicates(),
    ensures
        s.remove_value(v).contains(x) <==> (s.contains(x) && x != v),
{
    s.index_of_first_ensures(v);
    match s.index_of_first(v) {
        Some(i) => {
            let r = s.remove(i);
            if r.contains(x) {
                let t = choose|t: int| 0 <= t < r.len() && #[trigger] r[t] == x;
                if t < i {
                    assert(s[t] == x);
                } else {
                    assert(s[t + 1] == x);
                }
            }
            if s.contains(x) && x != v {
                let t = choose|t: int| 0 <= t < s.len() && #[trigger] s[t] == x;
                if t < i {
                    assert(r[t] == x);
                } else {
                    assert(t != i);
                    assert(r[t - 1] == x);
                }
            }
        },
        None => {},
    }
}

/// The exponent of the power of two `p`.
fn log2_exact(p: usize) -> (r: usize)
    requires
        exists|e: nat| pow2(e) == p,
    ensures
        pow2(r as nat) == p,
{
    let ghost e = choose|e: nat| pow2(e) == p;
    let mut k: usize = 0;
    let mut q: usize = 1;
    proof {
        lemma2_to64();
        lemma_pow2_pos(e);
    }
    while q < p
        invariant
            q == pow2(k as nat),
            pow2(e) == p,
            k <= e,
            k < q,
            q <= p,
        decreases p - q,
    {
        proof {
            lemma_pow2_unfold((k + 1) as nat);
            assert(k != e);
            lemma_pow2_increases_le((k + 1) as nat, e);
        }
        q = q * 2;
        k = k + 1;
    }
    proof {
        if k < e {
            lemma_pow2_strictly_increases(k as nat, e);
        }
    }
    k
}

/// `start` rounded up to the node header size (16 bytes): where carving
/// starts.
pub open spec fn carve_start(start: usize) -> int {
    (start + 15) / 16 * 16
}

/// `end` rounded down to the node header size: where carving stops.
pub open spec fn carve_end(end: usize) -> int {
    end / 16 * 16
}

/// `k` is the order of the block carved at `b` when carving stops at `e`, on
/// a heap of `order` free lists: the order of the smallest of the lowest set
/// bit of `b`, the largest power of two up to `e - b`, and `2^(order - 1)`.
/// That is the largest order below `order` whose block is aligned at `b` and
/// ends by `e`.
pub open spec fn carve_order(b: usize, e: int, order: int, k: nat) -> bool {
    &&& k < order
    &&& b as int % pow2(k) as int == 0
    &&& b + pow2(k) <= e
    &&& (k == order - 1 || b as int % pow2(k + 1) as int != 0 || b + pow2(k + 1) > e)
}

/// The number of bytes that `add_to_heap(start, end)` carves into blocks on
/// a heap of `order` free lists: the bytes from [`carve_start`] to
/// [`carve_end`], none when no block of the smallest order exists.
pub open spec fn carved_bytes(start: usize, end: usize, order: int) -> int {
    if order <= MIN_ORDER || start > usize::MAX - 15 || carve_start(start) >= carve_end(end) {
        0
    } else {
        carve_end(end) - carve_start(start)
    }
}

/// An address aligned to `2^(j + 1)` is an even multiple of `2^j`.
proof fn lemma_even_quotient(a: usize, j: nat)
    requires
        a as int % pow2(j + 1) as int == 0,
    ensures
        (a as int / pow2(j) as int) % 2 == 0,
{
    lemma_pow2_pos(j);
    lemma_pow2_unfold(j + 1);
    let d = pow2(j) as int;
    lemma_fundamental_div_mod(a as int, 2 * d);
    let q = a as int / (2 * d);
    assert(a as int == (2 * q) * d + 0) by (nonlinear_arith)
        requires
            a as int == (2 * d) * q + 0,
    ;
    vstd::arithmetic::div_mod::lemma_fundamental_div_mod_converse(a as int, d, 2 * q, 0);
}

proof fn lemma_wrapping_round_trip(x: usize, y: usize)
    ensures
        x.wrapping_add(y).wrapping_sub(y) == x,
{
}

/// A buddy-system heap with `ORDER` free lists, working on a [`Memory`].
///
/// `free_list[k]` holds the free blocks of order `k`; each free block carries
/// its list node in its first two words.
pub struct LockFreeHeap<const ORDER: usize> {
    free_list: Vec<LinkedList>,
    mem: Memory,
    user: usize,
    allocated: usize,
    total: usize,
    /// Every block the heap manages, free or handed out, by start address,
    /// with its order.
    blocks: Ghost<Map<usize, nat>>,
}

impl<const ORDER: usize> LockFreeHeap<ORDER> {
    /// The memory the heap's blocks live in.
    pub closed spec fn memory(&self) -> Memory {
        self.mem
    }

    /// Every block the heap manages, free or handed out: start address to
    /// order.
    pub closed spec fn blocks(&self) -> Map<usize, nat> {
        self.blocks@
    }

    /// The heap's free lists.
    pub closed spec fn lists(&self) -> Seq<LinkedList> {
        self.free_list@
    }

    /// Bytes requested by the allocations that are outstanding.
    pub closed spec fn user_bytes(&self) -> usize {
        self.user
    }

    /// Bytes in the blocks handed out for the outstanding allocations.
    pub closed spec fn allocated_bytes(&self) -> usize {
        self.allocated
    }

    /// Bytes added to the heap.
    pub closed spec fn total_bytes(&self) -> usize {
        self.total
    }

    /// Byte `x` lies in a block that the heap manages and that is not a block
    /// of `before`.
    pub open spec fn holds_new(&self, before: Map<usize, nat>, x: int) -> bool {
        exists|b: usize| #[trigger]
            self.blocks().contains_key(b) && !before.contains_key(b) && b <= x < b + pow2(
                self.blocks()[b],
            )
    }

    /// The order at which returning the block of order `k` that holds `ptr`
    /// stops merging: the first order from `k` up that is the top order, or
    /// whose free list lacks the buddy of the block of that order holding
    /// `ptr`.
    pub open spec fn merge_order(&self, ptr: usize, k: int) -> int
        decreases ORDER - k,
    {
        if k >= ORDER - 1 || !self.free(k).contains(
            buddy_of(round_down(ptr, k as nat) as usize, k as nat) as usize,
        ) {
            k
        } else {
            self.merge_order(ptr, k + 1)
        }
    }

    /// The free blocks of order `k`, in list order.
    pub open spec fn free(&self, k: int) -> Seq<usize> {
        self.lists()[k].view(self.memory())
    }

    /// The block of order `k` at `a` is handed out.
    pub open spec fn is_allocated(&self, a: usize, k: nat) -> bool {
        &&& self.blocks().contains_key(a)
        &&& self.blocks()[a] == k
        &&& !self.free(k as int).contains(a)
    }

    /// The heap's invariant.
    pub closed spec fn wf(&self) -> bool {
        &&& self.free_list@.len() == ORDER
        &&& self.mem.wf()
        &&& lists_ok(self.free_list@, self.mem)
        &&& free_known(self.free_list@, self.mem, self.blocks@)
        &&& blocks_ok(self.blocks@, self.mem.base(), ORDER as int)
        &&& blocks_disjoint(self.blocks@)
    }

    /// An empty heap whose data segment is based at `base`.
    pub fn with_data_base(base: usize) -> (r: Self)
        requires
            base % WORD == 0,
        ensures
            r.wf(),
            r.memory().base() == base,
            r.blocks() == Map::<usize, nat>::empty(),
            forall|k: int| 0 <= k < ORDER ==> r.free(k).len() == 0,
            r.user_bytes() == 0,
            r.allocated_bytes() == 0,
            r.total_bytes() == 0,
    {
        let mem = Memory::new(base);
        let mut free_list: Vec<LinkedList> = Vec::new();
        while free_list.len() < ORDER
            invariant
                mem.wf(),
                free_list@.len() <= ORDER,
                forall|k: int|
                    0 <= k < free_list@.len() ==> #[trigger] free_list@[k].wf(mem)
                        && free_list@[k].nodes() == Seq::<usize>::empty(),
            decreases ORDER - free_list@.len(),
        {
            free_list.push(LinkedList::new());
        }
        let r = LockFreeHeap {
            free_list,
            mem,
            user: 0,
            allocated: 0,
            total: 0,
            blocks: Ghost(Map::empty()),
        };
        proof {
            reveal(lists_ok);
            reveal(free_known);
            reveal(blocks_ok);
            reveal(blocks_disjoint);
            assert forall|k: int| 0 <= k < ORDER implies r.free(k).len() == 0 by {
                assert(r.free_list@[k].wf(mem));
                assert(r.free_list@[k].nodes() == Seq::<usize>::empty());
            }
            assert forall|k: int, a: usize|
                0 <= k < r.free_list@.len() && #[trigger] r.free_list@[k].view(r.mem).contains(
                    a,
                ) implies r.blocks@.contains_key(a) && r.blocks@[a] == k by {
                assert(r.free_list@[k].wf(mem));
                assert(r.free_list@[k].nodes() == Seq::<usize>::empty());
                assert(r.free_list@[k].view(r.mem).len() == 0);
            }
        }
        r
    }

    /// An empty heap whose data segment is based at address zero.
    pub fn new() -> (r: Self)
        ensures
            r.wf(),
            r.memory().base() == 0,
            r.blocks() == Map::<usize, nat>::empty(),
            forall|k: int| 0 <= k < ORDER ==> r.free(k).len() == 0,
            r.user_bytes() == 0,
            r.allocated_bytes() == 0,
            r.total_bytes() == 0,
    {
        Self::with_data_base(0)
    }

    /// An empty heap whose data segment is based at address zero.
    pub fn empty() -> (r: Self)
        ensures
            r.wf(),
            r.memory().base() == 0,
            r.blocks() == Map::<usize, nat>::empty(),
            forall|k: int| 0 <= k < ORDER ==> r.free(k).len() == 0,
            r.user_bytes() == 0,
            r.allocated_bytes() == 0,
            r.total_bytes() == 0,
    {
        Self::new()
    }

    /// Bytes requested by the allocations that are outstanding.
    pub fn stats_alloc_user(&self) -> (r: usize)
        ensures
            r == self.user_bytes(),
    {
        self.user
    }

    /// Bytes in the blocks handed out for the outstanding allocations.
    pub fn stats_alloc_actual(&self) -> (r: usize)
        ensures
            r == self.allocated_bytes(),
    {
        self.allocated
    }

    /// Bytes added to the heap.
    pub fn stats_total_bytes(&self) -> (r: usize)
        ensures
            r == self.total_bytes(),
    {
        self.total
    }

    /// The heap's state apart from the free lists of orders other than `k`
    /// is unchanged, and those lists hold the same blocks.
    pub open spec fn same_except(&self, other: &Self, k: int) -> bool {
        &&& self.memory().base() == other.memory().base()
        &&& self.user_bytes() == other.user_bytes()
        &&& self.allocated_bytes() == other.allocated_bytes()
        &&& self.total_bytes() == other.total_bytes()
        &&& forall|j: int| 0 <= j < ORDER && j != k ==> #[trigger] self.free(j) == other.free(j)
    }

    /// Takes the first free block of order `i`, if there is one.
    fn take_free(&mut self, i: usize) -> (r: Option<usize>)
        requires
            old(self).wf(),
            i < ORDER,
        ensures
            final(self).wf(),
            final(self).same_except(&*old(self), i as int),
            final(self).blocks() == old(self).blocks(),
            old(self).free(i as int).len() == 0 ==> r is None && final(self).free(i as int) == old(self).free(i as int),
            old(self).free(i as int).len() > 0 ==> r == Some(old(self).free(i as int)[0])
                && final(self).free(i as int) == old(self).free(i as int).drop_first(),
    {
        let ghost lists0 = self.free_list@;
        let ghost m0 = self.mem;
        proof {
            assert(lists_ok(lists0, m0));
            reveal(lists_ok);
            assert(lists0[i as int].wf(m0));
            assert(lists0[i as int].clean(m0));
        }
        let empty = self.free_list[i].is_empty(&mut self.mem);
        let ghost lists1 = self.free_list@;
        let ghost m1 = self.mem;
        proof {
            lists1[i as int].lemma_wf(m1);
            assert forall|j: int, n: int|
                0 <= j < ORDER && j != i && 0 <= n < lists0[j].nodes().len() implies m1.word(
                #[trigger] lists0[j].nodes()[n],
            ) == m0.word(lists0[j].nodes()[n]) by {
                assert(lists0[j].nodes().contains(lists0[j].nodes()[n]));
                lemma_lists_apart(lists0, m0, self.blocks@, j, i as int, lists0[j].nodes()[n]);
            }
            lemma_replace_list(lists0, m0, lists1, m1, i as int);
        }
        if empty {
            proof {
                assert forall|k: int, a: usize|
                    0 <= k < lists1.len() && #[trigger] lists1[k].view(m1).contains(a) implies self.blocks@.contains_key(a) && self.blocks@[a] == k by {
                    reveal(free_known);
                    assert(lists0[k].view(m0).contains(a));
                }
                reveal(free_known);
            }
            return None;
        }
        let r = self.free_list[i].pop(&mut self.mem);
        proof {
            let lists2 = self.free_list@;
            let m2 = self.mem;
            lists2[i as int].lemma_wf(m2);
            reveal(lists_ok);
            assert(lists1[i as int].wf(m1));
        assert(lists1[i as int].clean(m1));
            assert forall|j: int, n: int|
                0 <= j < ORDER && j != i && 0 <= n < lists1[j].nodes().len() implies m2.word(
                #[trigger] lists1[j].nodes()[n],
            ) == m1.word(lists1[j].nodes()[n]) by {
                assert(lists1[j].nodes().contains(lists1[j].nodes()[n]));
                assert(lists1[j] == lists0[j]);
                lemma_lists_apart(lists0, m0, self.blocks@, j, i as int, lists1[j].nodes()[n]);
                lists0[i as int].lemma_wf(m0);
                if lists1[i as int].nodes().contains(lists1[j].nodes()[n]) {
                    assert(lists0[i as int].nodes().contains(lists1[j].nodes()[n]));
                }
            }
            lemma_replace_list(lists1, m1, lists2, m2, i as int);
            reveal(free_known);
            assert forall|k: int, a: usize|
                0 <= k < lists2.len() && #[trigger] lists2[k].view(m2).contains(a) implies self.blocks@.contains_key(a) && self.blocks@[a] == k by {
                if k == i {
                    assert(lists0[k].view(m0).drop_first().contains(a));
                    assert(lists0[k].view(m0).contains(a));
                } else {
                    assert(lists0[k].view(m0).contains(a));
                }
            }
        }
        r
    }

    /// Splits the handed-out block of order `j` at `a` in two: the lower half,
    /// of order `j - 1`, stays handed out; the upper half goes to the front of
    /// `free_list[j - 1]`.
    fn split(&mut self, a: usize, j: usize, half: usize)
        requires
            old(self).wf(),
            old(self).is_allocated(a, j as nat),
            MIN_ORDER < j < ORDER,
            half == pow2((j - 1) as nat),
        ensures
            final(self).wf(),
            final(self).same_except(&*old(self), j - 1),
            final(self).free(j - 1) == seq![(a + half) as usize] + old(self).free(j - 1),
            final(self).blocks() == old(self).blocks().insert(a, (j - 1) as nat).insert(
                (a + half) as usize,
                (j - 1) as nat,
            ),
    {
        let ghost lists0 = self.free_list@;
        let ghost m0 = self.mem;
        let ghost blocks0 = self.blocks@;
        let ghost k = (j - 1) as int;
        proof {
            reveal(blocks_ok);
            reveal(blocks_disjoint);
            reveal(free_known);
            lemma2_to64();
            lemma_pow2_unfold(j as nat);
            lemma_pow2_increases_le(4, k as nat);
            assert(block_ok(m0.base(), a, j as nat, ORDER as int));
            lemma_aligned_down(a as int, j as nat, k as nat);
            lemma_add_aligned(a as int, half as int);
            lemma_aligned_down((a + half) as int, k as nat, 3);
        }
        let u = a + half;
        proof {
            // no free node lies inside the block at `a`
            assert forall|kk: int, n: usize|
                0 <= kk < ORDER && #[trigger] lists0[kk].view(m0).contains(n) implies n + pow2(
                kk as nat,
            ) <= a || a + pow2(j as nat) <= n by {
                assert(blocks0.contains_key(n) && blocks0[n] == kk);
                if n == a {
                    assert(kk == j);
                }
                assert(disjoint(a, j as nat, n, kk as nat));
            }
            reveal(lists_ok);
            assert forall|jj: int, i: int|
                0 <= jj < ORDER && 0 <= i < lists0[jj].nodes().len() implies #[trigger] lists0[jj].nodes()[i]
                != u + WORD && lists0[jj].nodes()[i] != u by {
                let n = lists0[jj].nodes()[i];
                assert(lists0[jj].wf(m0));
        assert(lists0[jj].clean(m0));
                lists0[jj].lemma_wf(m0);
                assert(lists0[jj].view(m0).contains(n));
                lemma_pow2_increases_le(0, jj as nat);
            }
        }
        self.mem.write(u + WORD, 0);
        let ghost m1 = self.mem;
        proof {
            lemma_write_frame(lists0, m0, m1);
            reveal(lists_ok);
            assert(lists0[k].wf(m1));
        assert(lists0[k].clean(m1));
            lists0[k].lemma_wf(m1);
            assert forall|i: int| 0 <= i < lists0[k].nodes().len() implies apart(
                u,
                #[trigger] lists0[k].nodes()[i],
            ) by {
                let n = lists0[k].nodes()[i];
                assert(lists0[k].view(m1).contains(n));
                assert(lists0[k].view(m0).contains(n));
                assert(n + pow2(k as nat) <= a || a + pow2(j as nat) <= n);
            }
        }
        self.free_list[j - 1].push(&mut self.mem, u);
        let ghost m2 = self.mem;
        let ghost lists2 = self.free_list@;
        proof {
            lists2[k].lemma_wf(m2);
            assert forall|jj: int, i: int|
                0 <= jj < ORDER && jj != k && 0 <= i < lists0[jj].nodes().len() implies m2.word(
                #[trigger] lists0[jj].nodes()[i],
            ) == m1.word(lists0[jj].nodes()[i]) by {
                let n = lists0[jj].nodes()[i];
                assert(lists0[jj].nodes().contains(n));
                lemma_lists_apart(lists0, m1, blocks0, jj, k, n);
                assert(n != u);
            }
            lemma_replace_list(lists0, m1, lists2, m2, k);
            let blocks2 = blocks0.insert(a, k as nat).insert(u, k as nat);
            assert(!blocks0.contains_key(u)) by {
                if blocks0.contains_key(u) {
                    assert(disjoint(a, j as nat, u, blocks0[u]));
                }
            }
            self.blocks = Ghost(blocks2);
            assert forall|b: usize| #[trigger] blocks2.contains_key(b) implies block_ok(
                m2.base(),
                b,
                blocks2[b],
                ORDER as int,
            ) by {
                if b != a && b != u {
                    assert(blocks0.contains_key(b));
                }
            }
            assert forall|b: usize, c: usize|
                #[trigger] blocks2.contains_key(b) && #[trigger] blocks2.contains_key(c) && b != c
                    implies disjoint(b, blocks2[b], c, blocks2[c]) by {
                if b != a && b != u && c != a && c != u {
                    assert(disjoint(b, blocks0[b], c, blocks0[c]));
                } else if b == a && c != u {
                    assert(disjoint(a, j as nat, c, blocks0[c]));
                } else if c == a && b != u {
                    assert(disjoint(a, j as nat, b, blocks0[b]));
                } else if b == u && c != a {
                    assert(disjoint(a, j as nat, c, blocks0[c]));
                } else if c == u && b != a {
                    assert(disjoint(a, j as nat, b, blocks0[b]));
                }
            }
            assert forall|kk: int, b: usize|
                0 <= kk < lists2.len() && #[trigger] lists2[kk].view(m2).contains(b) implies blocks2.contains_key(b) && blocks2[b] == kk by {
                if kk == k {
                    if b != u {
                        let v = lists0[k].view(m1);
                        assert(lists2[kk].view(m2) == seq![u] + v);
                        let i = choose|i: int| 0 <= i < lists2[kk].view(m2).len() && lists2[kk].view(m2)[i] == b;
                        assert(v[i - 1] == b);
                        assert(lists0[k].view(m0).contains(b));
                        assert(b != a);
                    }
                } else {
                    assert(lists0[kk].view(m0).contains(b));
                    if b == a {
                        assert(kk == j);
                        assert(lists0[j as int].view(m0).contains(a));
                    }
                }
            }
        }
    }

    /// The first order from `from` up whose free list is not empty; `ORDER`
    /// when there is none.
    pub open spec fn first_nonempty(&self, from: int) -> int
        decreases ORDER - from,
    {
        if from >= ORDER {
            ORDER as int
        } else if self.free(from).len() > 0 {
            from
        } else {
            self.first_nonempty(from + 1)
        }
    }

    proof fn lemma_first_nonempty_is(&self, from: int, i: int)
        requires
            0 <= from <= i,
            forall|j: int| from <= j < i ==> #[trigger] self.free(j).len() == 0,
            i >= ORDER || self.free(i).len() > 0,
        ensures
            self.first_nonempty(from) == if i >= ORDER {
                ORDER as int
            } else {
                i
            },
        decreases i - from,
    {
        if from < i && from < ORDER {
            assert(self.free(from).len() == 0);
            self.lemma_first_nonempty_is(from + 1, i);
        }
    }

    proof fn lemma_block_ok(&self, a: usize)
        requires
            self.wf(),
            self.blocks().contains_key(a),
        ensures
            block_ok(self.memory().base(), a, self.blocks()[a], ORDER as int),
    {
        reveal(blocks_ok);
    }

    /// Allocates a block for `layout`: the first free block of the lowest
    /// non-empty order from the request's class up, split down to the class,
    /// each upper half going to the front of the free list of its order.
    /// Fails, changing nothing, when every free list from the class up is
    /// empty.
    pub fn alloc_(&mut self, layout: Layout) -> (r: Result<usize, ()>)
        requires
            old(self).wf(),
            layout.wf(),
        ensures
            final(self).wf(),
            ({
                let k = class_of(layout.spec_size(), layout.spec_align());
                let i = old(self).first_nonempty(k as int);
                &&& (r is Err <==> i >= ORDER)
                &&& r is Err ==> final(self).same_except(&*old(self), -1) && final(self).blocks()
                    == old(self).blocks()
                &&& r is Ok ==> ({
                    let a = old(self).free(i)[0];
                    &&& r == Ok::<usize, ()>(a)
                    &&& a != 0
                    &&& final(self).is_allocated(a, k)
                    &&& a as int % pow2(k) as int == 0
                    &&& final(self).free(i) == old(self).free(i).drop_first()
                    &&& forall|j: int|
                        k <= j < i ==> #[trigger] final(self).free(j) == seq![
                            (a + pow2(j as nat)) as usize,
                        ] + old(self).free(j)
                    &&& forall|j: int|
                        0 <= j < ORDER && (j < k || j > i) ==> #[trigger] final(self).free(j)
                            == old(self).free(j)
                    &&& forall|b: usize, kb: nat|
                        old(self).is_allocated(b, kb) ==> #[trigger] final(self).is_allocated(b, kb)
                    &&& final(self).user_bytes() == old(self).user_bytes().wrapping_add(
                        layout.spec_size(),
                    )
                    &&& final(self).allocated_bytes() == old(self).allocated_bytes().wrapping_add(
                        pow2(k) as usize,
                    )
                    &&& final(self).total_bytes() == old(self).total_bytes()
                    &&& final(self).memory().base() == old(self).memory().base()
                })
            }),
    {
        let ghost s0 = *self;
        let (class, bsize) = size_class(&layout);
        proof {
            lemma_class_unique(layout.spec_size(), layout.spec_align(), class as nat);
        }
        let mut i: usize = class;
        while i < self.free_list.len()
            invariant
                self.wf(),
                s0.wf(),
                s0 == *old(self),
                self.same_except(&s0, -1),
                self.blocks() == s0.blocks(),
                self.free_list@.len() == ORDER,
                class <= i,
                bsize == pow2(class as nat),
                MIN_ORDER <= class,
                class as nat == class_of(layout.spec_size(), layout.spec_align()),
                forall|j: int| class <= j < i ==> #[trigger] s0.free(j).len() == 0,
            decreases ORDER - i,
        {
            let popped = self.take_free(i);
            match popped {
                None => {
                    i = i + 1;
                },
                Some(block) => {
                    let ghost fi = i as int;
                    let ghost s1 = *self;
                    proof {
                        s0.lemma_first_nonempty_is(class as int, fi);
                        assert(fi == s0.first_nonempty(class as int));
                        assert(s1.blocks().contains_key(block) && s1.blocks()[block] == fi) by {
                            reveal(free_known);
                            assert(s0.free(fi).contains(block));
                            assert(s0.free_list@[fi].view(s0.mem).contains(block));
                        }
                        s1.lemma_block_ok(block);
                        reveal(free_known);
                        assert(!s1.free(fi).contains(block)) by {
                            reveal(lists_ok);
                            assert(s0.free_list@[fi].wf(s0.mem));
                            s0.free_list@[fi].lemma_wf(s0.mem);
                            if s1.free(fi).contains(block) {
                                let t = choose|t: int| 0 <= t < s1.free(fi).len() && #[trigger] s1.free(fi)[t] == block;
                                assert(s0.free(fi)[t + 1] == block);
                            }
                        }
                        lemma2_to64();
                    }
                    proof {
                        assert forall|b: usize, kb: nat| s0.is_allocated(b, kb) implies #[trigger] s1.is_allocated(b, kb) by {
                            s0.lemma_block_ok(b);
                            if kb == fi && s1.free(fi).contains(b) {
                                let t = choose|t: int| 0 <= t < s1.free(fi).len() && #[trigger] s1.free(fi)[t] == b;
                                assert(s0.free(fi)[t + 1] == b);
                            }
                        }
                    }
                    // the size of a block of order `i`
                    let mut size: usize = bsize;
                    let mut t: usize = class;
                    while t < i
                        invariant
                            class <= t <= i,
                            fi == i,
                            fi == s0.first_nonempty(class as int),
                            s0 == *old(self),
                            size == pow2(t as nat),
                            pow2(i as nat) <= usize::MAX,
                        decreases i - t,
                    {
                        proof {
                            lemma_pow2_unfold((t + 1) as nat);
                            lemma_pow2_increases_le((t + 1) as nat, i as nat);
                        }
                        size = size * 2;
                        t = t + 1;
                    }
                    let mut j: usize = i;
                    while j > class
                        invariant
                            self.wf(),
                            self.is_allocated(block, j as nat),
                            class <= j <= i,
                            i < ORDER,
                            fi == i,
                            fi == s0.first_nonempty(class as int),
                            s0 == *old(self),
                            class as nat == class_of(layout.spec_size(), layout.spec_align()),
                            size == pow2(j as nat),
                            self.memory().base() == s0.memory().base(),
                            self.user_bytes() == s0.user_bytes(),
                            self.allocated_bytes() == s0.allocated_bytes(),
                            self.total_bytes() == s0.total_bytes(),
                            self.free(fi) == s0.free(fi).drop_first(),
                            forall|tt: int|
                                j <= tt < i ==> #[trigger] self.free(tt) == seq![
                                    (block + pow2(tt as nat)) as usize,
                                ] + s0.free(tt),
                            forall|tt: int|
                                0 <= tt < ORDER && (tt < j || tt > i) ==> #[trigger] self.free(tt)
                                    == s0.free(tt),
                            forall|b: usize, kb: nat|
                                s0.is_allocated(b, kb) ==> #[trigger] self.is_allocated(b, kb),
                            s0.free(fi)[0] == block,
                            s0.free(fi).contains(block),
                            s0.blocks().contains_key(block) && s0.blocks()[block] == fi,
                            MIN_ORDER <= class,
                        decreases j,
                    {
                        proof {
                            lemma_pow2_unfold(j as nat);
                        }
                        let half = size / 2;
                        let ghost s2 = *self;
                        proof {
                            s2.lemma_block_ok(block);
                            lemma_pow2_pos((j - 1) as nat);
                        }
                        self.split(block, j, half);
                        proof {
                            assert forall|b: usize, kb: nat| s0.is_allocated(b, kb) implies #[trigger] self.is_allocated(b, kb) by {
                                assert(s2.is_allocated(b, kb));
                                s2.lemma_block_ok(b);
                                assert(b != block) by {
                                    if b == block {
                                        reveal(free_known);
                                        assert(s0.free_list@[fi].view(s0.mem).contains(block));
                                    }
                                }
                                assert(b != (block + half) as usize) by {
                                    reveal(blocks_disjoint);
                                    s2.lemma_block_ok(block);
                                    if b == (block + half) as usize {
                                        assert(disjoint(block, j as nat, b, kb));
                                    }
                                }
                                if kb == j - 1 {
                                    assert(self.free(kb as int) == seq![(block + half) as usize] + s2.free(kb as int));
                                    if self.free(kb as int).contains(b) {
                                        let t = choose|t: int| 0 <= t < self.free(kb as int).len() && #[trigger] self.free(kb as int)[t] == b;
                                        assert(s2.free(kb as int)[t - 1] == b);
                                    }
                                }
                            }
                        }
                        proof {
                            assert(!s2.free(j - 1).contains(block)) by {
                                reveal(free_known);
                                if s2.free(j - 1).contains(block) {
                                    assert(s2.free_list@[j - 1].view(s2.mem).contains(block));
                                }
                            }
                            assert(block != (block + half) as usize) by {
                                lemma_pow2_pos((j - 1) as nat);
                            }
                            if self.free(j - 1).contains(block) {
                                let t = choose|t: int| 0 <= t < self.free(j - 1).len() && #[trigger] self.free(j - 1)[t] == block;
                                assert(s2.free(j - 1)[t - 1] == block);
                            }
                        }
                        size = half;
                        j = j - 1;
                    }
                    let ghost s3 = *self;
                    self.user = self.user.wrapping_add(layout.size());
                    self.allocated = self.allocated.wrapping_add(size);
                    proof {
                        self.lemma_block_ok(block);
                        assert(self.free(fi) == s3.free(fi));
                        assert(self.free(class as int) == s3.free(class as int));
                        assert(self.is_allocated(block, class as nat));
                        assert forall|jj: int| class <= jj < fi implies #[trigger] self.free(jj) == seq![
                            (block + pow2(jj as nat)) as usize,
                        ] + s0.free(jj) by {
                            assert(s3.free(jj) == seq![(block + pow2(jj as nat)) as usize] + s0.free(jj));
                        }
                        assert forall|jj: int| 0 <= jj < ORDER && (jj < class || jj > fi) implies #[trigger] self.free(jj)
                            == s0.free(jj) by {
                            assert(s3.free(jj) == s0.free(jj));
                        }
                        assert forall|b: usize, kb: nat| s0.is_allocated(b, kb) implies #[trigger] self.is_allocated(b, kb) by {
                            assert(s3.is_allocated(b, kb));
                        }
                        assert(self.blocks()[block] == class);
                        assert(self.is_allocated(block, class as nat));
                        assert(self.free(fi) == s0.free(fi).drop_first());
                        self.lemma_block_ok(block);
                        reveal(lists_ok);
                        reveal(free_known);
                        reveal(blocks_ok);
                        reveal(blocks_disjoint);
                    }
                    return Ok(block);
                },
            }
        }
        proof {
            s0.lemma_first_nonempty_is(class as int, i as int);
            reveal(lists_ok);
            reveal(free_known);
            reveal(blocks_ok);
            reveal(blocks_disjoint);
        }
        Err(())
    }

    /// Puts the handed-out block of order `k` at `a` at the front of
    /// `free_list[k]`, with a fresh node header.
    fn free_block(&mut self, a: usize, k: usize)
        requires
            old(self).wf(),
            old(self).is_allocated(a, k as nat),
        ensures
            final(self).wf(),
            final(self).same_except(&*old(self), k as int),
            final(self).blocks() == old(self).blocks(),
            final(self).free(k as int) == seq![a] + old(self).free(k as int),
    {
        let ghost lists0 = self.free_list@;
        let ghost m0 = self.mem;
        let ghost blocks0 = self.blocks@;
        proof {
            reveal(blocks_ok);
            reveal(blocks_disjoint);
            reveal(free_known);
            lemma2_to64();
            assert(block_ok(m0.base(), a, k as nat, ORDER as int));
            lemma_pow2_increases_le(4, k as nat);
            lemma_aligned_down(a as int, k as nat, 3);
            assert forall|kk: int, n: usize|
                0 <= kk < ORDER && #[trigger] lists0[kk].view(m0).contains(n) implies n + pow2(
                kk as nat,
            ) <= a || a + pow2(k as nat) <= n by {
                assert(blocks0.contains_key(n) && blocks0[n] == kk);
                if n == a {
                    assert(kk == k);
                }
                assert(disjoint(a, k as nat, n, kk as nat));
            }
            reveal(lists_ok);
            assert forall|jj: int, i: int|
                0 <= jj < ORDER && 0 <= i < lists0[jj].nodes().len() implies #[trigger] lists0[jj].nodes()[i]
                != a + WORD by {
                let n = lists0[jj].nodes()[i];
                assert(lists0[jj].wf(m0));
                assert(lists0[jj].clean(m0));
                lists0[jj].lemma_wf(m0);
                assert(lists0[jj].view(m0).contains(n));
                lemma_pow2_increases_le(0, jj as nat);
            }
        }
        self.mem.write(a + WORD, 0);
        let ghost m1 = self.mem;
        proof {
            lemma_write_frame(lists0, m0, m1);
            reveal(lists_ok);
            assert(lists0[k as int].wf(m1));
            assert(lists0[k as int].clean(m1));
            lists0[k as int].lemma_wf(m1);
            assert forall|i: int| 0 <= i < lists0[k as int].nodes().len() implies apart(
                a,
                #[trigger] lists0[k as int].nodes()[i],
            ) by {
                let n = lists0[k as int].nodes()[i];
                assert(lists0[k as int].view(m1).contains(n));
                assert(lists0[k as int].view(m0).contains(n));
                if n == a {
                    assert(old(self).free(k as int).contains(a));
                }
            }
        }
        self.free_list[k].push(&mut self.mem, a);
        let ghost m2 = self.mem;
        let ghost lists2 = self.free_list@;
        proof {
            lists2[k as int].lemma_wf(m2);
            assert forall|jj: int, i: int|
                0 <= jj < ORDER && jj != k && 0 <= i < lists0[jj].nodes().len() implies m2.word(
                #[trigger] lists0[jj].nodes()[i],
            ) == m1.word(lists0[jj].nodes()[i]) by {
                let n = lists0[jj].nodes()[i];
                assert(lists0[jj].nodes().contains(n));
                lemma_lists_apart(lists0, m1, blocks0, jj, k as int, n);
                if n == a {
                    assert(jj == k);
                }
            }
            lemma_replace_list(lists0, m1, lists2, m2, k as int);
            assert forall|kk: int, b: usize|
                0 <= kk < lists2.len() && #[trigger] lists2[kk].view(m2).contains(b) implies blocks0.contains_key(b) && blocks0[b] == kk by {
                if kk == k {
                    if b != a {
                        let v = lists0[kk].view(m1);
                        let i = choose|i: int| 0 <= i < lists2[kk].view(m2).len() && #[trigger] lists2[kk].view(m2)[i] == b;
                        assert(v[i - 1] == b);
                        assert(lists0[kk].view(m0).contains(b));
                    }
                } else {
                    assert(lists0[kk].view(m0).contains(b));
                }
            }
        }
    }

    /// Looks for the buddy of the handed-out block of order `k` at `a` in
    /// `free_list[k]`. If it is there, takes it out and returns the block of
    /// order `k + 1` that the two make up, now handed out in their place.
    fn merge_buddy(&mut self, a: usize, k: usize, size: usize) -> (r: Option<usize>)
        requires
            old(self).wf(),
            old(self).is_allocated(a, k as nat),
            k + 1 < ORDER,
            size == pow2(k as nat),
        ensures
            final(self).wf(),
            final(self).same_except(&*old(self), k as int),
            old(self).free(k as int).contains(buddy_of(a, k as nat) as usize) <==> r is Some,
            r is None ==> final(self).blocks() == old(self).blocks() && final(self).free(k as int)
                == old(self).free(k as int),
            r matches Some(m) ==> {
                let b = buddy_of(a, k as nat) as usize;
                &&& m == if a < b {
                    a
                } else {
                    b
                }
                &&& final(self).free(k as int) == old(self).free(k as int).remove_value(b)
                &&& final(self).blocks() == old(self).blocks().remove(a).remove(b).insert(
                    m,
                    (k + 1) as nat,
                )
                &&& final(self).is_allocated(m, (k + 1) as nat)
                &&& m <= a && a + pow2(k as nat) <= m + pow2((k + 1) as nat)
            },
    {
        let ghost s0 = *self;
        let ghost lists0 = self.free_list@;
        let ghost m0 = self.mem;
        let ghost blocks0 = self.blocks@;
        proof {
            reveal(blocks_ok);
            assert(block_ok(m0.base(), a, k as nat, ORDER as int));
            lemma_buddy(a, k as nat);
            lemma_pow2_unfold((k + 1) as nat);
            lemma_pow2_pos(k as nat);
        }
        proof {
            lemma2_to64();
            if k >= usize::BITS {
                lemma_pow2_increases_le(usize::BITS as nat, k as nat);
            }
            lemma_xor_buddy(a, k);
        }
        let buddy = a ^ size;
        proof {
            reveal(lists_ok);
            assert(lists0[k as int].wf(m0));
            assert(lists0[k as int].clean(m0));
        }
        let found = self.free_list[k].delete(&mut self.mem, buddy);
        let ghost m1 = self.mem;
        let ghost lists1 = self.free_list@;
        proof {
            lists1[k as int].lemma_wf(m1);
            lists0[k as int].lemma_wf(m0);
            assert forall|jj: int, i: int|
                0 <= jj < ORDER && jj != k && 0 <= i < lists0[jj].nodes().len() implies m1.word(
                #[trigger] lists0[jj].nodes()[i],
            ) == m0.word(lists0[jj].nodes()[i]) by {
                let n = lists0[jj].nodes()[i];
                assert(lists0[jj].nodes().contains(n));
                lemma_lists_apart(lists0, m0, blocks0, jj, k as int, n);
            }
            lemma_replace_list(lists0, m0, lists1, m1, k as int);
            assert forall|x: usize| #[trigger] lists1[k as int].view(m1).contains(x) <==> (lists0[k as int].view(m0).contains(x) && x != buddy) by {
                lemma_remove_value_contains(lists0[k as int].view(m0), buddy, x);
            }
        }
        if !found {
            proof {
                reveal(free_known);
                lists0[k as int].view(m0).index_of_first_ensures(buddy);
                assert(lists1[k as int].view(m1) == lists0[k as int].view(m0));
            }
            return None;
        }
        let m = if a < buddy {
            a
        } else {
            buddy
        };
        proof {
            reveal(free_known);
            reveal(blocks_disjoint);
            assert(lists0[k as int].view(m0).contains(buddy));
            assert(blocks0.contains_key(buddy) && blocks0[buddy] == k);
            assert(buddy != a);
            assert(disjoint(a, k as nat, buddy, k as nat));
            let blocks1 = blocks0.remove(a).remove(buddy).insert(m, (k + 1) as nat);
            self.blocks = Ghost(blocks1);
            // the merged block covers exactly the two halves
            assert forall|c: usize| #[trigger] blocks1.contains_key(c) implies block_ok(
                m1.base(),
                c,
                blocks1[c],
                ORDER as int,
            ) by {
                if c != m {
                    assert(blocks0.contains_key(c));
                } else {
                    assert(block_ok(m0.base(), buddy, k as nat, ORDER as int));
                }
            }
            assert forall|b: usize, c: usize|
                #[trigger] blocks1.contains_key(b) && #[trigger] blocks1.contains_key(c) && b != c
                    implies disjoint(b, blocks1[b], c, blocks1[c]) by {
                if b == m {
                    assert(disjoint(a, k as nat, c, blocks0[c]));
                    assert(disjoint(buddy, k as nat, c, blocks0[c]));
                } else if c == m {
                    assert(disjoint(a, k as nat, b, blocks0[b]));
                    assert(disjoint(buddy, k as nat, b, blocks0[b]));
                } else {
                    assert(disjoint(b, blocks0[b], c, blocks0[c]));
                }
            }
            assert forall|kk: int, b: usize|
                0 <= kk < lists1.len() && #[trigger] lists1[kk].view(m1).contains(b) implies blocks1.contains_key(b) && blocks1[b] == kk by {
                if kk == k {
                    assert(lists0[kk].view(m0).contains(b));
                    if b == a {
                        assert(s0.free(k as int).contains(a));
                    }
                } else {
                    assert(lists0[kk].view(m0).contains(b));
                    assert(blocks0[b] == kk);
                    if b == a {
                        assert(kk == k);
                    }
                    if b == buddy {
                        assert(kk == k);
                    }
                }
            }
            reveal(blocks_ok);
            assert(self.free((k + 1) as int) == s0.free((k + 1) as int));
            if s0.free((k + 1) as int).contains(m) {
                assert(lists0[k + 1].view(m0).contains(m));
                assert(blocks0[m] == k + 1);
            }
            assert(self.free(k as int) =~= s0.free(k as int).remove_value(buddy));
        }
        Some(m)
    }

    /// Returns the block handed out at `ptr` for `layout`. While the block's
    /// buddy is free and the next order exists, the buddy is taken out of its
    /// free list and the two merge; the resulting block goes to the front of
    /// the free list of its order.
    pub fn dealloc_(&mut self, ptr: usize, layout: Layout)
        requires
            old(self).wf(),
            layout.wf(),
            old(self).is_allocated(ptr, class_of(layout.spec_size(), layout.spec_align())),
        ensures
            final(self).wf(),
            ({
                let k = class_of(layout.spec_size(), layout.spec_align());
                let top = old(self).merge_order(ptr, k as int);
                &&& k <= top < ORDER
                &&& forall|j: int|
                    k <= j < top ==> #[trigger] final(self).free(j) == old(self).free(j).remove_value(
                        buddy_of(round_down(ptr, j as nat) as usize, j as nat) as usize,
                    )
                &&& final(self).free(top) == seq![round_down(ptr, top as nat) as usize] + old(
                    self,
                ).free(top)
                &&& forall|j: int|
                    0 <= j < ORDER && (j < k || j > top) ==> #[trigger] final(self).free(j) == old(
                        self,
                    ).free(j)
                &&& exists|j: int, m: usize|
                    0 <= j < ORDER && #[trigger] final(self).free(j).contains(m) && m <= ptr && ptr
                        + pow2(k) <= m + pow2(j as nat) && final(self).free(j)[0] == m && (j
                        == ORDER - 1 || !final(self).free(j).contains(
                        buddy_of(m, j as nat) as usize,
                    ))
                &&& forall|b: usize, kb: nat|
                    old(self).is_allocated(b, kb) && b != ptr ==> #[trigger] final(self).is_allocated(
                        b,
                        kb,
                    )
                &&& forall|b: usize, kb: nat| #[trigger]
                    final(self).is_allocated(b, kb) ==> old(self).is_allocated(b, kb) && b != ptr
                &&& final(self).user_bytes() == old(self).user_bytes().wrapping_sub(
                    layout.spec_size(),
                )
                &&& final(self).allocated_bytes() == old(self).allocated_bytes().wrapping_sub(
                    pow2(k) as usize,
                )
                &&& final(self).total_bytes() == old(self).total_bytes()
                &&& final(self).memory().base() == old(self).memory().base()
            }),
    {
        let ghost s0 = *self;
        let (class, bsize) = size_class(&layout);
        proof {
            lemma_class_unique(layout.spec_size(), layout.spec_align(), class as nat);
            s0.lemma_block_ok(ptr);
        }
        let mut cur: usize = ptr;
        let mut k: usize = class;
        let mut size: usize = bsize;
        let top = self.free_list.len() - 1;
        let mut done = false;
        proof {
            lemma_pow2_pos(class as nat);
            lemma_round_down(ptr, ptr, class as nat);
        }
        while !done && k < top
            invariant
                self.wf(),
                s0.wf(),
                s0 == *old(self),
                top == ORDER - 1,
                class as nat == class_of(layout.spec_size(), layout.spec_align()),
                class <= k <= top,
                size == pow2(k as nat),
                !done ==> self.is_allocated(cur, k as nat),
                done ==> k < top && self.free(k as int).contains(cur) && self.free(k as int)[0]
                    == cur && !self.free(k as int).contains(buddy_of(cur, k as nat) as usize),
                cur <= ptr,
                ptr + pow2(class as nat) <= cur + pow2(k as nat),
                cur == round_down(ptr, k as nat),
                !done ==> s0.merge_order(ptr, class as int) == s0.merge_order(ptr, k as int),
                done ==> s0.merge_order(ptr, class as int) == k,
                forall|j: int|
                    class <= j < k ==> #[trigger] self.free(j) == s0.free(j).remove_value(
                        buddy_of(round_down(ptr, j as nat) as usize, j as nat) as usize,
                    ),
                forall|j: int|
                    0 <= j < ORDER && (j < class || j > k || (j == k && !done)) ==> #[trigger] self.free(j)
                        == s0.free(j),
                done ==> self.free(k as int) == seq![cur] + s0.free(k as int),
                self.memory().base() == s0.memory().base(),
                self.user_bytes() == s0.user_bytes(),
                self.allocated_bytes() == s0.allocated_bytes(),
                self.total_bytes() == s0.total_bytes(),
                bsize == pow2(class as nat),
                forall|b: usize, kb: nat|
                    s0.is_allocated(b, kb) && b != ptr ==> #[trigger] self.is_allocated(b, kb),
                forall|b: usize, kb: nat| #[trigger] s0.is_allocated(b, kb) && b != ptr ==> b != cur,
                forall|b: usize, kb: nat| #[trigger]
                    self.is_allocated(b, kb) ==> (b == cur && kb == k && !done) || (s0.is_allocated(
                        b,
                        kb,
                    ) && b != ptr),
            decreases top - k + if done {
                0int
            } else {
                1int
            },
        {
            let ghost s1 = *self;
            let ghost buddy = buddy_of(cur, k as nat) as usize;
            proof {
                s1.lemma_block_ok(cur);
            }
            match self.merge_buddy(cur, k, size) {
                Some(m) => {
                    proof {
                        lemma_pow2_unfold((k + 1) as nat);
                        s1.lemma_view_no_dups(k as int);
                        self.lemma_block_ok(m);
                        assert forall|b: usize, kb: nat|
                            #![trigger self.is_allocated(b, kb)]
                            s0.is_allocated(b, kb) && b != ptr implies self.is_allocated(b, kb) && b != m by {
                            assert(s1.is_allocated(b, kb));
                            assert(b != cur);
                            s1.lemma_free_aligned(k as int, buddy);
                            assert(b != buddy);
                            s1.lemma_block_ok(b);
                            if kb == k {
                                lemma_remove_value_contains(s1.free(k as int), buddy, b);
                            }
                            assert(b != m);
                            assert(self.blocks().contains_key(b));
                            assert(self.blocks()[b] == kb);
                            assert(!self.free(kb as int).contains(b));
                        }
                        assert forall|b: usize, kb: nat| #[trigger] s0.is_allocated(b, kb) && b != ptr implies b != m by {
                            assert(self.is_allocated(b, kb) && b != m);
                        }
                        assert forall|b: usize, kb: nat| #[trigger] self.is_allocated(b, kb) implies (b == m && kb == k + 1) || (s0.is_allocated(b, kb) && b != ptr) by {
                            if b != m {
                                assert(self.blocks().contains_key(b));
                                assert(b != cur && b != buddy);
                                assert(s1.blocks().contains_key(b) && s1.blocks()[b] == kb);
                                s1.lemma_block_ok(b);
                                if kb == k {
                                    lemma_remove_value_contains(s1.free(k as int), buddy, b);
                                }
                                assert(s1.is_allocated(b, kb));
                            }
                        }
                    }
                    let ghost k0 = k as int;
                    let ghost b0 = buddy_of(cur, k as nat) as usize;
                    proof {
                        assert(s1.free(k0) == s0.free(k0));
                        assert(s0.free(k0).contains(b0));
                        assert(s0.merge_order(ptr, k0) == s0.merge_order(ptr, k0 + 1));
                        self.lemma_block_ok(m);
                        lemma_pow2_pos(class as nat);
                        lemma_round_down(ptr, m, (k + 1) as nat);
                        assert forall|j: int|
                            class <= j < k0 + 1 implies #[trigger] self.free(j) == s0.free(j).remove_value(
                                buddy_of(round_down(ptr, j as nat) as usize, j as nat) as usize,
                            ) by {
                            if j < k0 {
                                assert(s1.free(j) == s0.free(j).remove_value(
                                    buddy_of(round_down(ptr, j as nat) as usize, j as nat) as usize,
                                ));
                            }
                        }
                        assert forall|j: int|
                            0 <= j < ORDER && (j < class || j > k0 + 1 || j == k0 + 1) implies #[trigger] self.free(j)
                                == s0.free(j) by {
                            assert(s1.free(j) == s0.free(j));
                        }
                    }
                    cur = m;
                    k = k + 1;
                    size = size * 2;

                },
                None => {
                    proof {
                        assert(s1.free(k as int) == s0.free(k as int));
                    }
                    self.free_block(cur, k);
                    done = true;
                    proof {
                        assert(self.free(k as int) == seq![cur] + s0.free(k as int));
                        assert forall|j: int|
                            class <= j < k implies #[trigger] self.free(j) == s0.free(j).remove_value(
                                buddy_of(round_down(ptr, j as nat) as usize, j as nat) as usize,
                            ) by {
                            assert(s1.free(j) == s0.free(j).remove_value(
                                buddy_of(round_down(ptr, j as nat) as usize, j as nat) as usize,
                            ));
                        }
                        assert forall|j: int|
                            0 <= j < ORDER && (j < class || j > k) implies #[trigger] self.free(j)
                                == s0.free(j) by {
                            assert(s1.free(j) == s0.free(j));
                        }
                        s1.lemma_block_ok(cur);
                        assert(self.free(k as int)[0] == cur);
                        lemma_pow2_pos(k as nat);
                        lemma_buddy_other(cur, k as nat);
                        assert(!s1.free(k as int).contains(buddy));
                        if self.free(k as int).contains(buddy) {
                            let t = choose|t: int| 0 <= t < self.free(k as int).len() && #[trigger] self.free(k as int)[t] == buddy;
                            if t > 0 {
                                assert(s1.free(k as int)[t - 1] == buddy);
                            }
                        }
                        assert forall|b: usize, kb: nat|
                            #![trigger self.is_allocated(b, kb)]
                            s0.is_allocated(b, kb) && b != ptr implies self.is_allocated(b, kb) && b != cur by {
                            assert(s1.is_allocated(b, kb));
                            s1.lemma_block_ok(b);
                            if kb == k && self.free(k as int).contains(b) {
                                let t = choose|t: int| 0 <= t < self.free(k as int).len() && #[trigger] self.free(k as int)[t] == b;
                                assert(s1.free(k as int)[t - 1] == b);
                            }
                        }
                        assert forall|b: usize, kb: nat| #[trigger] s0.is_allocated(b, kb) && b != ptr implies b != cur by {
                            assert(self.is_allocated(b, kb) && b != cur);
                        }
                        assert forall|b: usize, kb: nat| #[trigger] self.is_allocated(b, kb) implies (s0.is_allocated(b, kb) && b != ptr) by {
                            assert(b != cur);
                            s1.lemma_block_ok(b);
                            if kb == k {
                                assert(s1.free(k as int).contains(b) ==> self.free(k as int).contains(b)) by {
                                    if s1.free(k as int).contains(b) {
                                        let t = choose|t: int| 0 <= t < s1.free(k as int).len() && #[trigger] s1.free(k as int)[t] == b;
                                        assert(self.free(k as int)[t + 1] == b);
                                    }
                                }
                            }
                            assert(s1.is_allocated(b, kb));
                        }
                    }
                },
            }
        }
        if k == top {
            let ghost s1 = *self;
            proof {
                assert(s1.free(k as int) == s0.free(k as int));
            }
            self.free_block(cur, k);
            proof {
                assert(self.free(k as int) == seq![cur] + s0.free(k as int));
                assert forall|j: int|
                    class <= j < k implies #[trigger] self.free(j) == s0.free(j).remove_value(
                        buddy_of(round_down(ptr, j as nat) as usize, j as nat) as usize,
                    ) by {
                    assert(s1.free(j) == s0.free(j).remove_value(
                        buddy_of(round_down(ptr, j as nat) as usize, j as nat) as usize,
                    ));
                }
                assert forall|j: int|
                    0 <= j < ORDER && (j < class || j > k) implies #[trigger] self.free(j) == s0.free(j) by {
                    assert(s1.free(j) == s0.free(j));
                }
                assert(self.free(k as int)[0] == cur);
                assert forall|b: usize, kb: nat| s0.is_allocated(b, kb) && b != ptr implies #[trigger] self.is_allocated(b, kb) by {
                    assert(s1.is_allocated(b, kb));
                    s1.lemma_block_ok(b);
                    if kb == k && self.free(k as int).contains(b) {
                        let t = choose|t: int| 0 <= t < self.free(k as int).len() && #[trigger] self.free(k as int)[t] == b;
                        assert(s1.free(k as int)[t - 1] == b);
                    }
                }
                assert forall|b: usize, kb: nat| #[trigger] self.is_allocated(b, kb) implies (s0.is_allocated(b, kb) && b != ptr) by {
                    assert(b != cur);
                    s1.lemma_block_ok(b);
                    if kb == k {
                        if s1.free(k as int).contains(b) {
                            let t = choose|t: int| 0 <= t < s1.free(k as int).len() && #[trigger] s1.free(k as int)[t] == b;
                            assert(self.free(k as int)[t + 1] == b);
                        }
                    }
                    assert(s1.is_allocated(b, kb));
                }
            }
        }
        let ghost s2 = *self;
        self.user = self.user.wrapping_sub(layout.size());
        self.allocated = self.allocated.wrapping_sub(bsize);
        proof {
            assert(s0.merge_order(ptr, class as int) == k);
            assert(self.free(k as int) == s2.free(k as int));
            assert forall|j: int|
                class <= j < k implies #[trigger] self.free(j) == s0.free(j).remove_value(
                    buddy_of(round_down(ptr, j as nat) as usize, j as nat) as usize,
                ) by {
                assert(s2.free(j) == s0.free(j).remove_value(
                    buddy_of(round_down(ptr, j as nat) as usize, j as nat) as usize,
                ));
            }
            assert forall|j: int|
                0 <= j < ORDER && (j < class || j > k) implies #[trigger] self.free(j) == s0.free(j) by {
                assert(s2.free(j) == s0.free(j));
            }
            assert(self.free(k as int) == s2.free(k as int));
            assert(self.free(k as int).contains(cur));
            assert(self.free(k as int)[0] == cur);
            if k != top {
                assert(!self.free(k as int).contains(buddy_of(cur, k as nat) as usize));
            }
            assert forall|b: usize, kb: nat| s0.is_allocated(b, kb) && b != ptr implies #[trigger] self.is_allocated(b, kb) by {
                assert(s2.is_allocated(b, kb));
            }
            assert forall|b: usize, kb: nat| #[trigger] self.is_allocated(b, kb) implies s0.is_allocated(b, kb) && b != ptr by {
                assert(s2.is_allocated(b, kb));
            }
            reveal(lists_ok);
            reveal(free_known);
            reveal(blocks_ok);
            reveal(blocks_disjoint);
        }
    }

    /// The free blocks of one order are distinct.
    proof fn lemma_view_no_dups(&self, k: int)
        requires
            self.wf(),
            0 <= k < ORDER,
        ensures
            self.free(k).no_duplicates(),
    {
        reveal(lists_ok);
        assert(self.free_list@[k].wf(self.mem));
        self.free_list@[k].lemma_wf(self.mem);
    }

    /// Takes the block of order `k` at `a`, which overlaps no managed block,
    /// under management as a handed-out block.
    fn adopt_block(&mut self, a: usize, k: usize)
        requires
            old(self).wf(),
            block_ok(old(self).memory().base(), a, k as nat, ORDER as int),
            forall|b: usize| #[trigger]
                old(self).blocks().contains_key(b) ==> disjoint(a, k as nat, b, old(self).blocks()[b]),
        ensures
            final(self).wf(),
            final(self).same_except(&*old(self), -1),
            final(self).blocks() == old(self).blocks().insert(a, k as nat),
            final(self).is_allocated(a, k as nat),
    {
        proof {
            lemma_pow2_pos(k as nat);
            let blocks0 = self.blocks@;
            assert(old(self).blocks() == blocks0);
            assert(!blocks0.contains_key(a)) by {
                if old(self).blocks().contains_key(a) {
                    assert(disjoint(a, k as nat, a, old(self).blocks()[a]));
                    lemma_pow2_pos(blocks0[a]);
                }
            }
            let blocks1 = blocks0.insert(a, k as nat);
            reveal(free_known);
            reveal(blocks_ok);
            reveal(blocks_disjoint);
            self.blocks = Ghost(blocks1);
            assert forall|b: usize| #[trigger] blocks1.contains_key(b) implies block_ok(
                self.mem.base(),
                b,
                blocks1[b],
                ORDER as int,
            ) by {
                if b != a {
                    assert(blocks0.contains_key(b));
                }
            }
            assert forall|b: usize, c: usize|
                #[trigger] blocks1.contains_key(b) && #[trigger] blocks1.contains_key(c) && b != c
                    implies disjoint(b, blocks1[b], c, blocks1[c]) by {
                if b == a {
                    assert(old(self).blocks().contains_key(c));
                    assert(disjoint(a, k as nat, c, blocks0[c]));
                } else if c == a {
                    assert(old(self).blocks().contains_key(b));
                    assert(disjoint(a, k as nat, b, blocks0[b]));
                } else {
                    assert(disjoint(b, blocks0[b], c, blocks0[c]));
                }
            }
            if self.free(k as int).contains(a) {
                assert(self.free_list@[k as int].view(self.mem).contains(a));
            }
        }
    }

    /// Adds the memory `[start, end)` to the heap: from `start` rounded up to
    /// the node header size, it is carved into the largest blocks that are
    /// aligned to their size, fit before `end` and have an order below
    /// `ORDER`, each put on the free list of its order.
    pub fn add_to_heap(&mut self, start: usize, end: usize)
        requires
            old(self).wf(),
            0 < start <= end,
            old(self).memory().base() <= start,
            forall|b: usize| #[trigger]
                old(self).blocks().contains_key(b) ==> b + pow2(old(self).blocks()[b]) <= start
                    || end <= b,
        ensures
            final(self).wf(),
            forall|b: usize, kb: nat| #[trigger]
                final(self).is_allocated(b, kb) == old(self).is_allocated(b, kb),
            forall|j: int, a: usize|
                0 <= j < ORDER && old(self).free(j).contains(a) ==> #[trigger] final(self).free(
                    j,
                ).contains(a),
            forall|b: usize| #[trigger]
                old(self).blocks().contains_key(b) ==> final(self).blocks().contains_key(b)
                    && final(self).blocks()[b] == old(self).blocks()[b],
            forall|b: usize| #[trigger]
                final(self).blocks().contains_key(b) && !old(self).blocks().contains_key(b) ==> start
                    <= b && b + pow2(final(self).blocks()[b]) <= end && final(self).free(
                    final(self).blocks()[b] as int,
                ).contains(b),
            forall|b: usize| #[trigger]
                final(self).blocks().contains_key(b) && !old(self).blocks().contains_key(b)
                    ==> carve_start(start) <= b && MIN_ORDER <= final(self).blocks()[b]
                    && carve_order(b, carve_end(end), ORDER as int, final(self).blocks()[b]),
            carved_bytes(start, end, ORDER as int) > 0 ==> forall|x: int|
                carve_start(start) <= x < carve_end(end) ==> #[trigger] final(self).holds_new(
                    old(self).blocks(),
                    x,
                ),
            final(self).total_bytes() == old(self).total_bytes().wrapping_add(
                carved_bytes(start, end, ORDER as int) as usize,
            ),
            final(self).user_bytes() == old(self).user_bytes(),
            final(self).allocated_bytes() == old(self).allocated_bytes(),
            final(self).memory().base() == old(self).memory().base(),
    {
        let ghost s0 = *self;
        if ORDER <= MIN_ORDER || start > usize::MAX - 15 {
            return;
        }
        let s = (start + 15) / 16 * 16;
        let e = end / 16 * 16;
        let limit: usize = if ORDER - 1 < (usize::BITS - 1) as usize {
            ORDER - 1
        } else {
            (usize::BITS - 1) as usize
        };
        proof {
            vstd::bits::lemma_usize_pow2_no_overflow(limit as nat);
            lemma2_to64();
        }
        let mut current = s;
        let mut added: usize = 0;
        while current < e
            invariant
                self.wf(),
                s0.wf(),
                s0 == *old(self),
                ORDER > MIN_ORDER,
                MIN_ORDER <= limit < ORDER,
                limit == ORDER - 1 || limit == usize::BITS - 1,
                pow2(limit as nat) <= usize::MAX,
                0 < start <= s <= current,
                e <= end,
                current <= e || current == s,
                s % 16 == 0,
                e % 16 == 0,
                current % 16 == 0,
                added == current - s,
                start <= end,
                s0.memory().base() <= start,
                forall|b: usize| #[trigger]
                    s0.blocks().contains_key(b) ==> b + pow2(s0.blocks()[b]) <= start || end <= b,
                forall|b: usize| #[trigger]
                    s0.blocks().contains_key(b) ==> self.blocks().contains_key(b) && self.blocks()[b]
                        == s0.blocks()[b],
                forall|b: usize| #[trigger]
                    self.blocks().contains_key(b) && !s0.blocks().contains_key(b) ==> s <= b && b
                        + pow2(self.blocks()[b]) <= current && self.free(
                        self.blocks()[b] as int,
                    ).contains(b),
                forall|b: usize| #[trigger]
                    self.blocks().contains_key(b) && !s0.blocks().contains_key(b) ==> MIN_ORDER
                        <= self.blocks()[b] && carve_order(b, e as int, ORDER as int, self.blocks()[b]),
                forall|x: int| s <= x < current ==> #[trigger] self.holds_new(s0.blocks(), x),
                s == carve_start(start),
                e == carve_end(end),
                forall|b: usize, kb: nat| #[trigger]
                    self.is_allocated(b, kb) == s0.is_allocated(b, kb),
                forall|j: int, a: usize|
                    0 <= j < ORDER && s0.free(j).contains(a) ==> #[trigger] self.free(j).contains(a),
                self.user_bytes() == s0.user_bytes(),
                self.allocated_bytes() == s0.allocated_bytes(),
                self.total_bytes() == s0.total_bytes(),
                self.memory().base() == s0.memory().base(),
            decreases e - current,
        {
            let (low_order, low_size) = lowbit(current, limit);
            let p = prev_power_of_two(e - current);
            let order: usize;
            let size: usize;
            if p < low_size {
                order = log2_exact(p);
                size = p;
            } else {
                order = low_order;
                size = low_size;
            }
            proof {
                lemma2_to64();
                lemma_aligned_down(current as int, 4, 4);
                if low_order < 4 && low_order < limit {
                    lemma_aligned_down(current as int, 4, (low_order + 1) as nat);
                }
                if p < low_size {
                    if order >= low_order {
                        lemma_pow2_increases_le(low_order as nat, order as nat);
                    }
                    lemma_aligned_down(current as int, low_order as nat, order as nat);
                    if order < 4 {
                        lemma_pow2_increases_le(order as nat, 3);
                    }
                }
                assert(MIN_ORDER <= order);
                lemma_pow2_increases_le(4, order as nat);
                assert(size >= 16);
                lemma_mod_multiples_basic(1, size as int);
                lemma_aligned_down(size as int, order as nat, 4);
                lemma_sum_aligned(current as int, size as int, 16);
                assert(current as int % pow2(order as nat) as int == 0);
                assert(current + size <= e);
                assert forall|b: usize| #[trigger] self.blocks().contains_key(b) implies disjoint(
                    current,
                    order as nat,
                    b,
                    self.blocks()[b],
                ) by {
                    if s0.blocks().contains_key(b) {
                        assert(b + pow2(s0.blocks()[b]) <= start || end <= b);
                    }
                }
            }
            proof {
                if p < low_size {
                    lemma_pow2_unfold((order + 1) as nat);
                } else if low_order == limit && limit != ORDER - 1 {
                    assert(limit == usize::BITS - 1);
                    lemma_pow2_unfold(usize::BITS as nat);
                    assert(pow2(usize::BITS as nat) > usize::MAX);
                }
                assert(carve_order(current, e as int, ORDER as int, order as nat));
            }
            let ghost s1 = *self;
            self.adopt_block(current, order);
            self.free_block(current, order);
            proof {
                assert(!s0.blocks().contains_key(current)) by {
                    if s0.blocks().contains_key(current) {
                        lemma_pow2_pos(s0.blocks()[current]);
                    }
                }
                assert(self.blocks().contains_key(current));
                assert forall|x: int| s <= x < current + size implies #[trigger] self.holds_new(
                    s0.blocks(),
                    x,
                ) by {
                    if x < current {
                        assert(s1.holds_new(s0.blocks(), x));
                        let b = choose|b: usize| #[trigger]
                            s1.blocks().contains_key(b) && !s0.blocks().contains_key(b) && b <= x < b
                                + pow2(s1.blocks()[b]);
                        assert(b != current);
                        assert(self.blocks().contains_key(b) && self.blocks()[b] == s1.blocks()[b]);
                    } else {
                        assert(self.blocks().contains_key(current) && !s0.blocks().contains_key(
                            current,
                        ));
                    }
                }
                assert forall|b: usize| #[trigger]
                    self.blocks().contains_key(b) && !s0.blocks().contains_key(b) implies MIN_ORDER
                        <= self.blocks()[b] && carve_order(b, e as int, ORDER as int, self.blocks()[b]) by {
                    if b != current {
                        assert(s1.blocks().contains_key(b));
                    }
                }
                assert(self.free(order as int)[0] == current);
                assert forall|b: usize| #[trigger] s0.blocks().contains_key(b) implies self.blocks().contains_key(b) && self.blocks()[b]
                        == s0.blocks()[b] by {
                    lemma_pow2_pos(s0.blocks()[b]);
                    assert(s1.blocks().contains_key(b));
                    assert(b != current);
                }
                assert forall|b: usize, kb: nat| #[trigger] self.is_allocated(b, kb) == s0.is_allocated(b, kb) by {
                    if b != current {
                        assert(s1.is_allocated(b, kb) == s0.is_allocated(b, kb));
                        if self.blocks().contains_key(b) {
                            let kk = self.blocks()[b];
                            self.lemma_block_ok(b);
                            if self.free(kk as int).contains(b) != s1.free(kk as int).contains(b) {
                                assert(kk == order);
                                if self.free(kk as int).contains(b) {
                                    let t = choose|t: int| 0 <= t < self.free(kk as int).len() && #[trigger] self.free(kk as int)[t] == b;
                                    assert(s1.free(kk as int)[t - 1] == b);
                                } else {
                                    let t = choose|t: int| 0 <= t < s1.free(kk as int).len() && #[trigger] s1.free(kk as int)[t] == b;
                                    assert(self.free(kk as int)[t + 1] == b);
                                }
                            }
                        }
                    } else {
                        assert(!s0.blocks().contains_key(current)) by {
                            if s0.blocks().contains_key(current) {
                                lemma_pow2_pos(s0.blocks()[current]);
                                assert(s1.blocks().contains_key(current));
                            }
                        }
                    }
                }
                assert forall|j: int, a: usize| 0 <= j < ORDER && s0.free(j).contains(a) implies #[trigger] self.free(j).contains(a) by {
                    assert(s1.free(j).contains(a));
                    if j == order {
                        let t = choose|t: int| 0 <= t < s1.free(j).len() && #[trigger] s1.free(j)[t] == a;
                        assert(self.free(j)[t + 1] == a);
                    }
                }
                assert forall|b: usize| #[trigger] self.blocks().contains_key(b) && !s0.blocks().contains_key(b) implies s <= b && b
                        + pow2(self.blocks()[b]) <= current + size && self.free(
                        self.blocks()[b] as int,
                    ).contains(b) by {
                    if b != current {
                        let kk = self.blocks()[b];
                        assert(s1.blocks().contains_key(b));
                        s1.lemma_block_ok(b);
                        assert(s1.free(kk as int).contains(b));
                        if kk == order {
                            let t = choose|t: int| 0 <= t < s1.free(kk as int).len() && #[trigger] s1.free(kk as int)[t] == b;
                            assert(self.free(kk as int)[t + 1] == b);
                        }
                    }
                }
            }
            added = added + size;
            current = current + size;
        }
        let ghost s2 = *self;
        self.total = self.total.wrapping_add(added);
        proof {
            assert forall|b: usize, kb: nat| #[trigger] self.is_allocated(b, kb) == s0.is_allocated(b, kb) by {
                assert(s2.is_allocated(b, kb) == s0.is_allocated(b, kb));
            }
            assert forall|j: int, a: usize| 0 <= j < ORDER && s0.free(j).contains(a) implies #[trigger] self.free(j).contains(a) by {
                assert(s2.free(j).contains(a));
            }
            assert forall|b: usize| #[trigger]
                self.blocks().contains_key(b) && !s0.blocks().contains_key(b) implies carve_start(
                start,
            ) <= b && MIN_ORDER <= self.blocks()[b] && carve_order(
                b,
                carve_end(end),
                ORDER as int,
                self.blocks()[b],
            ) by {
                assert(s2.blocks().contains_key(b));
            }
            if carved_bytes(start, end, ORDER as int) > 0 {
                assert(current == e);
                assert forall|x: int| carve_start(start) <= x < carve_end(end) implies #[trigger] self.holds_new(
                    s0.blocks(),
                    x,
                ) by {
                    assert(s2.holds_new(s0.blocks(), x));
                    let b = choose|b: usize| #[trigger]
                        s2.blocks().contains_key(b) && !s0.blocks().contains_key(b) && b <= x < b
                            + pow2(s2.blocks()[b]);
                    assert(self.blocks().contains_key(b));
                }
            }
            assert forall|b: usize| #[trigger] self.blocks().contains_key(b) && !s0.blocks().contains_key(b) implies start
                    <= b && b + pow2(self.blocks()[b]) <= end && self.free(
                    self.blocks()[b] as int,
                ).contains(b) by {
                assert(s2.free(s2.blocks()[b] as int).contains(b));
                lemma_pow2_pos(self.blocks()[b]);
            }
            if s >= e {
                assert(added == 0);
            }
        }
    }

    /// Adds the memory `[start, start + size)` to the heap.
    pub fn init(&mut self, start: usize, size: usize)
        requires
            old(self).wf(),
            0 < start,
            start + size <= usize::MAX,
            old(self).memory().base() <= start,
            forall|b: usize| #[trigger]
                old(self).blocks().contains_key(b) ==> b + pow2(old(self).blocks()[b]) <= start
                    || start + size <= b,
        ensures
            final(self).wf(),
            forall|b: usize, kb: nat| #[trigger]
                final(self).is_allocated(b, kb) == old(self).is_allocated(b, kb),
            forall|j: int, a: usize|
                0 <= j < ORDER && old(self).free(j).contains(a) ==> #[trigger] final(self).free(
                    j,
                ).contains(a),
            forall|b: usize| #[trigger]
                old(self).blocks().contains_key(b) ==> final(self).blocks().contains_key(b)
                    && final(self).blocks()[b] == old(self).blocks()[b],
            forall|b: usize| #[trigger]
                final(self).blocks().contains_key(b) && !old(self).blocks().contains_key(b) ==> start
                    <= b && b + pow2(final(self).blocks()[b]) <= (start + size) as usize && final(self).free(
                    final(self).blocks()[b] as int,
                ).contains(b),
            forall|b: usize| #[trigger]
                final(self).blocks().contains_key(b) && !old(self).blocks().contains_key(b)
                    ==> carve_start(start) <= b && MIN_ORDER <= final(self).blocks()[b]
                    && carve_order(b, carve_end((start + size) as usize), ORDER as int, final(self).blocks()[b]),
            carved_bytes(start, (start + size) as usize, ORDER as int) > 0 ==> forall|x: int|
                carve_start(start) <= x < carve_end((start + size) as usize) ==> #[trigger] final(self).holds_new(
                    old(self).blocks(),
                    x,
                ),
            final(self).total_bytes() == old(self).total_bytes().wrapping_add(
                carved_bytes(start, (start + size) as usize, ORDER as int) as usize,
            ),
            final(self).user_bytes() == old(self).user_bytes(),
            final(self).allocated_bytes() == old(self).allocated_bytes(),
            final(self).memory().base() == old(self).memory().base(),
    {
        self.add_to_heap(start, start + size);
    }

    /// Reads the word at `addr` of the heap's memory.
    pub fn read_word(&self, addr: usize) -> (r: usize)
        ensures
            r == self.memory().word(addr),
    {
        self.mem.read(addr)
    }

    /// Writes `value` to the word at `addr`, which lies in a handed-out block.
    pub fn write_word(&mut self, addr: usize, value: usize)
        requires
            old(self).wf(),
            exists|a: usize, k: nat|
                old(self).is_allocated(a, k) && a <= addr && addr < a + pow2(k),
        ensures
            final(self).wf(),
            final(self).memory().word(addr) == value,
            final(self).same_except(&*old(self), -1),
            final(self).blocks() == old(self).blocks(),
    {
        let ghost lists0 = self.free_list@;
        let ghost m0 = self.mem;
        proof {
            let (a, k) = choose|a: usize, k: nat|
                old(self).is_allocated(a, k) && a <= addr && addr < a + pow2(k);
            reveal(lists_ok);
            reveal(free_known);
            reveal(blocks_disjoint);
            assert forall|j: int, i: int|
                0 <= j < ORDER && 0 <= i < lists0[j].nodes().len() implies #[trigger] lists0[j].nodes()[i]
                != addr by {
                let n = lists0[j].nodes()[i];
                assert(lists0[j].wf(m0));
                assert(lists0[j].clean(m0));
                lists0[j].lemma_wf(m0);
                assert(lists0[j].view(m0).contains(n));
                assert(self.blocks@.contains_key(n) && self.blocks@[n] == j);
                if n == a {
                    assert(old(self).free(k as int).contains(a));
                }
                assert(disjoint(a, k, n, j as nat));
            }
        }
        self.mem.write(addr, value);
        proof {
            lemma_write_frame(lists0, m0, self.mem);
            reveal(free_known);
        }
    }

    /// No free list below the top order holds a block together with its
    /// buddy: every pair of free buddies has been merged.
    pub open spec fn canonical(&self) -> bool {
        forall|j: int, b: usize|
            0 <= j < ORDER - 1 && #[trigger] self.free(j).contains(b) ==> !self.free(j).contains(
                buddy_of(b, j as nat) as usize,
            )
    }

    proof fn lemma_first_nonempty_ge(&self, from: int)
        requires
            self.first_nonempty(from) < ORDER,
        ensures
            from <= self.first_nonempty(from),
            self.free(self.first_nonempty(from)).len() > 0,
        decreases ORDER - from,
    {
        if from < ORDER && self.free(from).len() == 0 {
            self.lemma_first_nonempty_ge(from + 1);
        }
    }

    proof fn lemma_merge_order_from(&self, a: usize, j: int, i: int)
        requires
            0 <= j <= i < ORDER,
            forall|t: int|
                j <= t < i ==> #[trigger] self.free(t).contains(
                    buddy_of(round_down(a, t as nat) as usize, t as nat) as usize,
                ),
            i < ORDER - 1 ==> !self.free(i).contains(
                buddy_of(round_down(a, i as nat) as usize, i as nat) as usize,
            ),
        ensures
            self.merge_order(a, j) == i,
        decreases i - j,
    {
        if j < i {
            self.lemma_merge_order_from(a, j + 1, i);
        }
    }

    /// Returning a block undoes its allocation: on a heap where every pair of
    /// free buddies below the top order is merged, `alloc_(layout)` turning
    /// `h0` into `h1` with the block at `a`, then `dealloc_(a, layout)` turning
    /// `h1` into `h2`, leaves every free list and both byte counters as in
    /// `h0`.
    pub proof fn lemma_round_trip(h0: Self, h1: Self, h2: Self, layout: Layout, a: usize)
        requires
            h0.wf(),
            h0.canonical(),
            layout.wf(),
            ({
                let k = class_of(layout.spec_size(), layout.spec_align());
                let i = h0.first_nonempty(k as int);
                &&& i < ORDER
                &&& a == h0.free(i)[0]
                &&& h1.free(i) == h0.free(i).drop_first()
                &&& forall|j: int|
                    k <= j < i ==> #[trigger] h1.free(j) == seq![(a + pow2(j as nat)) as usize]
                        + h0.free(j)
                &&& forall|j: int|
                    0 <= j < ORDER && (j < k || j > i) ==> #[trigger] h1.free(j) == h0.free(j)
                &&& h1.user_bytes() == h0.user_bytes().wrapping_add(layout.spec_size())
                &&& h1.allocated_bytes() == h0.allocated_bytes().wrapping_add(pow2(k) as usize)
            }),
            ({
                let k = class_of(layout.spec_size(), layout.spec_align());
                let top = h1.merge_order(a, k as int);
                &&& forall|j: int|
                    k <= j < top ==> #[trigger] h2.free(j) == h1.free(j).remove_value(
                        buddy_of(round_down(a, j as nat) as usize, j as nat) as usize,
                    )
                &&& h2.free(top) == seq![round_down(a, top as nat) as usize] + h1.free(top)
                &&& forall|j: int|
                    0 <= j < ORDER && (j < k || j > top) ==> #[trigger] h2.free(j) == h1.free(j)
                &&& h2.user_bytes() == h1.user_bytes().wrapping_sub(layout.spec_size())
                &&& h2.allocated_bytes() == h1.allocated_bytes().wrapping_sub(pow2(k) as usize)
            }),
        ensures
            forall|j: int| 0 <= j < ORDER ==> #[trigger] h2.free(j) == h0.free(j),
            h2.user_bytes() == h0.user_bytes(),
            h2.allocated_bytes() == h0.allocated_bytes(),
    {
        let k = class_of(layout.spec_size(), layout.spec_align());
        let i = h0.first_nonempty(k as int);
        h0.lemma_first_nonempty_ge(k as int);
        assert(h0.free(i).contains(a));
        h0.lemma_free_aligned(i, a);
        assert forall|t: int| k <= t <= i implies #[trigger] round_down(a, t as nat) == a by {
            lemma_aligned_down(a as int, i as nat, t as nat);
            lemma_pow2_pos(t as nat);
            lemma_round_down(a, a, t as nat);
        }
        assert forall|t: int| k <= t < i implies #[trigger] buddy_of(a, t as nat) == a + pow2(t as nat) by {
            lemma_aligned_down(a as int, i as nat, (t + 1) as nat);
            lemma_even_quotient(a, t as nat);
        }
        assert forall|t: int| k <= t < i implies #[trigger] h1.free(t).contains(
            buddy_of(round_down(a, t as nat) as usize, t as nat) as usize,
        ) by {
            assert(round_down(a, t as nat) == a);
            assert(buddy_of(a, t as nat) == a + pow2(t as nat));
            assert(h1.free(t)[0] == (a + pow2(t as nat)) as usize);
        }
        if i < ORDER - 1 {
            assert(round_down(a, i as nat) == a);
            if h1.free(i).contains(buddy_of(a, i as nat) as usize) {
                let t = choose|t: int| 0 <= t < h1.free(i).len() && #[trigger] h1.free(i)[t] == buddy_of(a, i as nat) as usize;
                assert(h0.free(i)[t + 1] == buddy_of(a, i as nat) as usize);
                assert(h0.free(i).contains(buddy_of(a, i as nat) as usize));
            }
        }
        h1.lemma_merge_order_from(a, k as int, i);
        assert forall|j: int| 0 <= j < ORDER implies #[trigger] h2.free(j) == h0.free(j) by {
            if k <= j < i {
                let x = (a + pow2(j as nat)) as usize;
                assert(round_down(a, j as nat) == a);
                assert(buddy_of(a, j as nat) == a + pow2(j as nat));
                let s1 = seq![x] + h0.free(j);
                assert(s1[0] == x);
                assert(s1.contains(x));
                s1.index_of_first_ensures(x);
                let idx = s1.index_of_first(x)->0;
                assert(idx == 0) by {
                    if idx > 0 {
                        assert(s1[0] == x);
                    }
                }
                assert(s1.remove(0) =~= h0.free(j));
            } else if j == i {
                assert(round_down(a, i as nat) == a);
                assert(seq![a] + h0.free(i).drop_first() =~= h0.free(i));
            }
        }
        lemma_wrapping_round_trip(h0.user_bytes(), layout.spec_size());
        lemma_wrapping_round_trip(h0.allocated_bytes(), pow2(k) as usize);
    }

    /// No two blocks that the heap manages overlap; in particular no two
    /// outstanding allocations do, and none overlaps a free block.
    pub proof fn lemma_no_overlap(&self, a: usize, ka: nat, b: usize, kb: nat)
        requires
            self.wf(),
            self.blocks().contains_key(a) && self.blocks()[a] == ka,
            self.blocks().contains_key(b) && self.blocks()[b] == kb,
            a != b,
        ensures
            disjoint(a, ka, b, kb),
    {
        reveal(blocks_disjoint);
    }

    /// Every block in `free(k)` is a block of order `k`: its address is a
    /// multiple of `2^k`.
    pub proof fn lemma_free_aligned(&self, k: int, a: usize)
        requires
            self.wf(),
            0 <= k < ORDER,
            self.free(k).contains(a),
        ensures
            a as int % pow2(k as nat) as int == 0,
            MIN_ORDER <= k,
            0 < a,
            self.blocks().contains_key(a) && self.blocks()[a] == k,
    {
        reveal(free_known);
        reveal(blocks_ok);
        assert(self.free_list@[k].view(self.mem).contains(a));
        assert(self.blocks@.contains_key(a));
    }
}

} // verus!
