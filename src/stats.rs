//! The heap's byte counters over a run of allocations and releases.
//!
//! `alloc_` adds the bytes it hands out to a counter and `dealloc_` takes the
//! same amount away, both wrapping at the word size as atomic counters do. An
//! event `(true, n)` stands for the first, `(false, n)` for the second.
use vstd::arithmetic::div_mod::{
    lemma_add_mod_noop, lemma_small_mod, lemma_sub_mod_noop,
};
use vstd::prelude::*;

verus! {

broadcast use vstd::seq_lib::group_seq_properties;

/// The value of a counter that starts at `c` after `events`, in order.
pub open spec fn counter_after(c: usize, events: Seq<(bool, usize)>) -> usize
    decreases events.len(),
{
    if events.len() == 0 {
        c
    } else {
        let e = events.last();
        let prev = counter_after(c, events.drop_last());
        if e.0 {
            prev.wrapping_add(e.1)
        } else {
            prev.wrapping_sub(e.1)
        }
    }
}

/// The amounts of the events of one kind (`true`: allocations, `false`:
/// releases), in order.
pub open spec fn amounts(events: Seq<(bool, usize)>, kind: bool) -> Seq<usize>
    decreases events.len(),
{
    if events.len() == 0 {
        Seq::empty()
    } else {
        let rest = amounts(events.drop_last(), kind);
        if events.last().0 == kind {
            rest.push(events.last().1)
        } else {
            rest
        }
    }
}

/// The sum of `s`.
pub open spec fn sum(s: Seq<usize>) -> int
    decreases s.len(),
{
    if s.len() == 0 {
        0
    } else {
        sum(s.drop_last()) + s.last()
    }
}

/// Every amount allocated is released as often as it is allocated.
pub open spec fn balanced(events: Seq<(bool, usize)>) -> bool {
    amounts(events, true).to_multiset() == amounts(events, false).to_multiset()
}

proof fn lemma_sum_remove(s: Seq<usize>, i: int)
    requires
        0 <= i < s.len(),
    ensures
        sum(s) == sum(s.remove(i)) + s[i],
    decreases s.len(),
{
    if i < s.len() - 1 {
        lemma_sum_remove(s.drop_last(), i);
        assert(s.remove(i).drop_last() =~= s.drop_last().remove(i));
        assert(s.remove(i).last() == s.last());
    } else {
        assert(s.remove(i) =~= s.drop_last());
    }
}

proof fn lemma_sum_permutation(a: Seq<usize>, b: Seq<usize>)
    requires
        a.to_multiset() == b.to_multiset(),
    ensures
        sum(a) == sum(b),
    decreases a.len(),
{
    a.to_multiset_ensures();
    b.to_multiset_ensures();
    if a.len() == 0 {
        assert(b.len() == 0);
    } else {
        let x = a.last();
        let a1 = a.drop_last();
        a1.to_multiset_ensures();
        assert(a1.push(x) =~= a);
        assert(a.contains(x));
        assert(a.to_multiset().count(x) > 0);
        assert(b.contains(x));
        let i = choose|i: int| 0 <= i < b.len() && b[i] == x;
        let b1 = b.remove(i);
        assert(b1.to_multiset() =~= b.to_multiset().remove(x));
        assert(a1.to_multiset() =~= a.to_multiset().remove(x));
        lemma_sum_permutation(a1, b1);
        lemma_sum_remove(b, i);
    }
}

proof fn lemma_counter_after(c: usize, events: Seq<(bool, usize)>)
    ensures
        counter_after(c, events) as int == (c + sum(amounts(events, true)) - sum(
            amounts(events, false),
        )) % (usize::MAX as int + 1),
    decreases events.len(),
{
    let m = usize::MAX as int + 1;
    if events.len() == 0 {
        lemma_small_mod(c as nat, m as nat);
    } else {
        let e = events.last();
        let rest = events.drop_last();
        lemma_counter_after(c, rest);
        let prev = counter_after(c, rest);
        let base = c + sum(amounts(rest, true)) - sum(amounts(rest, false));
        lemma_small_mod(prev as nat, m as nat);
        if e.0 {
            assert(amounts(events, true) == amounts(rest, true).push(e.1));
            assert(amounts(events, true).drop_last() =~= amounts(rest, true));
            lemma_add_mod_noop(base, e.1 as int, m);
            lemma_small_mod(e.1 as nat, m as nat);
            let r = prev + e.1;
            if r > usize::MAX {
                assert((r - m) % m == r % m) by {
                    vstd::arithmetic::div_mod::lemma_mod_sub_multiples_vanish(r, m);
                }
                lemma_small_mod((r - m) as nat, m as nat);
            } else {
                lemma_small_mod(r as nat, m as nat);
            }
        } else {
            assert(amounts(events, false) == amounts(rest, false).push(e.1));
            assert(amounts(events, false).drop_last() =~= amounts(rest, false));
            lemma_sub_mod_noop(base, e.1 as int, m);
            lemma_small_mod(e.1 as nat, m as nat);
            let r = prev - e.1;
            if r < 0 {
                assert((r + m) % m == r % m) by {
                    vstd::arithmetic::div_mod::lemma_mod_add_multiples_vanish(r, m);
                }
                lemma_small_mod((r + m) as nat, m as nat);
            } else {
                lemma_small_mod(r as nat, m as nat);
            }
        }
    }
}

/// Conservation: after any run of allocations and releases in which every
/// amount allocated is released as often as it is allocated, a counter is
/// back at its starting value.
pub proof fn lemma_conservation(c: usize, events: Seq<(bool, usize)>)
    requires
        balanced(events),
    ensures
        counter_after(c, events) == c,
{
    lemma_counter_after(c, events);
    lemma_sum_permutation(amounts(events, true), amounts(events, false));
    lemma_small_mod(c as nat, usize::MAX as nat + 1);
}

} // verus!
