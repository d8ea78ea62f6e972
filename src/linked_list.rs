//! An intrusive singly-linked list with lazy deletion.
//!
//! Each node lives at the start of a block of the data segment: its first word
//! is the link to its successor, stored base-relative, whose lowest bit marks
//! the node as logically deleted; its second word is the node's reference
//! count. Removal first marks a node, then unlinks it; a traversal splices out
//! the marked nodes it passes.
use crate::memory::{Memory, WORD};
use crate::pointer::{
    handle_of, has_mark, node_addr, with_mark, without_mark, MarkedPtr, NodePtr, NULL_PTR,
};
use vstd::prelude::*;

verus! {

/// The nodes of `nodes` whose links are not marked in `mem`, in order.
pub open spec fn live(nodes: Seq<usize>, mem: Memory) -> Seq<usize>
    decreases nodes.len(),
{
    if nodes.len() == 0 {
        Seq::empty()
    } else {
        let rest = live(nodes.drop_first(), mem);
        if has_mark(mem.word(nodes[0])) {
            rest
        } else {
            seq![nodes[0]] + rest
        }
    }
}

/// Whether node `nodes[i]` is marked as deleted in `mem`.
pub open spec fn marked_at(nodes: Seq<usize>, mem: Memory, i: int) -> bool {
    has_mark(mem.word(nodes[i]))
}

/// The index of the first node at or after `i` that is not marked, or the
/// length of `nodes` if there is none.
pub open spec fn first_live_from(nodes: Seq<usize>, mem: Memory, i: int) -> int
    decreases nodes.len() - i,
{
    if i >= nodes.len() {
        nodes.len() as int
    } else if !marked_at(nodes, mem, i) {
        i
    } else {
        first_live_from(nodes, mem, i + 1)
    }
}

/// The index of the last node before `j` that is not marked, or -1 (the head)
/// if there is none.
pub open spec fn last_live_before(nodes: Seq<usize>, mem: Memory, j: int) -> int
    decreases j,
{
    if j <= 0 {
        -1
    } else if !marked_at(nodes, mem, j - 1) {
        j - 1
    } else {
        last_live_before(nodes, mem, j - 1)
    }
}

/// The index at which a search for `key` stops: the first unmarked node at or
/// after `key` (at or after the first node when there is no key), or the length
/// of `nodes` when there is none or `key` is not in `nodes`.
pub open spec fn right_index(nodes: Seq<usize>, mem: Memory, key: Option<usize>) -> int {
    match key {
        None => first_live_from(nodes, mem, 0),
        Some(k) => if nodes.contains(k) {
            first_live_from(nodes, mem, nodes.index_of(k))
        } else {
            nodes.len() as int
        },
    }
}

/// The stored link to position `q` of `nodes`: the offset of `nodes[q]`, or
/// [`NULL_PTR`] past the end.
pub open spec fn link_to(base: usize, nodes: Seq<usize>, q: int) -> usize {
    if 0 <= q < nodes.len() {
        (nodes[q] - base) as usize
    } else {
        NULL_PTR
    }
}

/// Node headers at `a` and `b` do not overlap.
pub open spec fn apart(a: usize, b: usize) -> bool {
    a + 2 * WORD <= b || b + 2 * WORD <= a
}

proof fn lemma_live_append(s1: Seq<usize>, s2: Seq<usize>, mem: Memory)
    ensures
        live(s1 + s2, mem) == live(s1, mem) + live(s2, mem),
    decreases s1.len(),
{
    if s1.len() == 0 {
        assert(s1 + s2 =~= s2);
        assert(live(s1, mem) + live(s2, mem) =~= live(s2, mem));
    } else {
        lemma_live_append(s1.drop_first(), s2, mem);
        assert((s1 + s2).drop_first() =~= s1.drop_first() + s2);
        if has_mark(mem.word(s1[0])) {
        } else {
            assert(seq![s1[0]] + (live(s1.drop_first(), mem) + live(s2, mem)) =~= (seq![s1[0]]
                + live(s1.drop_first(), mem)) + live(s2, mem));
        }
    }
}

proof fn lemma_live_all_marked(s: Seq<usize>, mem: Memory)
    requires
        forall|i: int| 0 <= i < s.len() ==> marked_at(s, mem, i),
    ensures
        live(s, mem) == Seq::<usize>::empty(),
    decreases s.len(),
{
    if s.len() > 0 {
        assert(marked_at(s, mem, 0));
        assert forall|i: int| 0 <= i < s.drop_first().len() implies marked_at(
            s.drop_first(),
            mem,
            i,
        ) by {
            assert(marked_at(s, mem, i + 1));
        }
        lemma_live_all_marked(s.drop_first(), mem);
    }
}

proof fn lemma_live_none_marked(s: Seq<usize>, mem: Memory)
    requires
        forall|i: int| 0 <= i < s.len() ==> !marked_at(s, mem, i),
    ensures
        live(s, mem) == s,
    decreases s.len(),
{
    if s.len() > 0 {
        assert(!marked_at(s, mem, 0));
        assert forall|i: int| 0 <= i < s.drop_first().len() implies !marked_at(
            s.drop_first(),
            mem,
            i,
        ) by {
            assert(!marked_at(s, mem, i + 1));
        }
        lemma_live_none_marked(s.drop_first(), mem);
        assert(seq![s[0]] + s.drop_first() =~= s);
    } else {
        assert(s =~= Seq::<usize>::empty());
    }
}

proof fn lemma_live_frame(s: Seq<usize>, m1: Memory, m2: Memory)
    requires
        forall|i: int| 0 <= i < s.len() ==> marked_at(s, m1, i) == marked_at(s, m2, i),
    ensures
        live(s, m1) == live(s, m2),
    decreases s.len(),
{
    if s.len() > 0 {
        assert(marked_at(s, m1, 0) == marked_at(s, m2, 0));
        assert forall|i: int| 0 <= i < s.drop_first().len() implies marked_at(
            s.drop_first(),
            m1,
            i,
        ) == marked_at(s.drop_first(), m2, i) by {
            assert(marked_at(s, m1, i + 1) == marked_at(s, m2, i + 1));
        }
        lemma_live_frame(s.drop_first(), m1, m2);
    }
}

proof fn lemma_live_contains(s: Seq<usize>, mem: Memory, x: usize)
    ensures
        live(s, mem).contains(x) <==> exists|i: int|
            0 <= i < s.len() && s[i] == x && !marked_at(s, mem, i),
    decreases s.len(),
{
    if s.len() > 0 {
        lemma_live_contains(s.drop_first(), mem, x);
        let rest = s.drop_first();
        if live(s, mem).contains(x) {
            if !has_mark(mem.word(s[0])) && x == s[0] {
                assert(0 <= 0 < s.len() && s[0] == x && !marked_at(s, mem, 0));
            } else {
                if !has_mark(mem.word(s[0])) {
                    let j = choose|j: int| 0 <= j < live(s, mem).len() && live(s, mem)[j] == x;
                    assert(live(rest, mem)[j - 1] == x);
                    assert(live(rest, mem).contains(x));
                }
                let i = choose|i: int|
                    0 <= i < rest.len() && rest[i] == x && !marked_at(rest, mem, i);
                assert(s[i + 1] == x && !marked_at(s, mem, i + 1));
            }
        }
        if exists|i: int| 0 <= i < s.len() && s[i] == x && !marked_at(s, mem, i) {
            let i = choose|i: int| 0 <= i < s.len() && s[i] == x && !marked_at(s, mem, i);
            if i == 0 {
                assert(live(s, mem)[0] == x);
            } else {
                assert(rest[i - 1] == x && !marked_at(rest, mem, i - 1));
                let j = choose|j: int| 0 <= j < live(rest, mem).len() && live(rest, mem)[j] == x;
                if has_mark(mem.word(s[0])) {
                    assert(live(s, mem)[j] == x);
                } else {
                    assert(live(s, mem)[j + 1] == x);
                }
            }
        }
    }
}

proof fn lemma_live_no_dups(s: Seq<usize>, mem: Memory)
    requires
        s.no_duplicates(),
    ensures
        live(s, mem).no_duplicates(),
    decreases s.len(),
{
    if s.len() > 0 {
        let rest = s.drop_first();
        assert(rest.no_duplicates());
        lemma_live_no_dups(rest, mem);
        if !has_mark(mem.word(s[0])) {
            lemma_live_contains(rest, mem, s[0]);
            if live(rest, mem).contains(s[0]) {
                let i = choose|i: int|
                    0 <= i < rest.len() && rest[i] == s[0] && !marked_at(rest, mem, i);
                assert(s[i + 1] == s[0]);
            }
            let l = seq![s[0]] + live(rest, mem);
            assert forall|i: int, j: int| 0 <= i < l.len() && 0 <= j < l.len() && i != j implies l[i]
                != l[j] by {
                if i == 0 && j > 0 {
                    assert(l[j] == live(rest, mem)[j - 1]);
                } else if j == 0 && i > 0 {
                    assert(l[i] == live(rest, mem)[i - 1]);
                }
            }
        }
    }
}

proof fn lemma_first_live_bounds(s: Seq<usize>, mem: Memory, k: int)
    requires
        0 <= k <= s.len(),
    ensures
        k <= first_live_from(s, mem, k) <= s.len(),
        first_live_from(s, mem, k) < s.len() ==> !marked_at(s, mem, first_live_from(s, mem, k)),
        forall|i: int| k <= i < first_live_from(s, mem, k) ==> marked_at(s, mem, i),
    decreases s.len() - k,
{
    if k < s.len() && marked_at(s, mem, k) {
        lemma_first_live_bounds(s, mem, k + 1);
    }
}

proof fn lemma_last_live_bounds(s: Seq<usize>, mem: Memory, j: int)
    requires
        0 <= j <= s.len(),
    ensures
        -1 <= last_live_before(s, mem, j) < j || (j == 0 && last_live_before(s, mem, j) == -1),
        last_live_before(s, mem, j) >= 0 ==> !marked_at(s, mem, last_live_before(s, mem, j)),
        forall|i: int| last_live_before(s, mem, j) < i < j ==> marked_at(s, mem, i),
    decreases j,
{
    if j > 0 && marked_at(s, mem, j - 1) {
        lemma_last_live_bounds(s, mem, j - 1);
    }
}

proof fn lemma_index_of(nodes: Seq<usize>, k: usize, i: int)
    requires
        nodes.no_duplicates(),
        0 <= i < nodes.len(),
        nodes[i] == k,
    ensures
        nodes.contains(k),
        nodes.index_of(k) == i,
{
    assert(nodes.contains(k));
}

proof fn lemma_right_index(nodes: Seq<usize>, mem: Memory, key: Option<usize>)
    ensures
        0 <= right_index(nodes, mem, key) <= nodes.len(),
        right_index(nodes, mem, key) < nodes.len() ==> !marked_at(
            nodes,
            mem,
            right_index(nodes, mem, key),
        ),
{
    match key {
        None => lemma_first_live_bounds(nodes, mem, 0),
        Some(k) => if nodes.contains(k) {
            lemma_first_live_bounds(nodes, mem, nodes.index_of(k));
        },
    }
}

/// Splicing out a run of marked nodes leaves the unmarked ones as they were.
proof fn lemma_live_splice(nodes: Seq<usize>, m1: Memory, m2: Memory, l: int, r: int)
    requires
        -1 <= l < r <= nodes.len() || (l == -1 && r == 0),
        l + 1 <= r,
        forall|i: int| l < i < r ==> marked_at(nodes, m1, i),
        forall|i: int|
            0 <= i < nodes.len() && (i <= l || r <= i) ==> marked_at(nodes, m1, i) == marked_at(
                nodes,
                m2,
                i,
            ),
    ensures
        live(nodes.subrange(0, l + 1) + nodes.subrange(r, nodes.len() as int), m2) == live(
            nodes,
            m1,
        ),
{
    let a = nodes.subrange(0, l + 1);
    let b = nodes.subrange(l + 1, r);
    let c = nodes.subrange(r, nodes.len() as int);
    assert(nodes =~= a + b + c);
    lemma_live_append(a + b, c, m1);
    lemma_live_append(a, b, m1);
    lemma_live_append(a, c, m2);
    assert forall|i: int| 0 <= i < b.len() implies marked_at(b, m1, i) by {
        assert(b[i] == nodes[l + 1 + i]);
        assert(marked_at(nodes, m1, l + 1 + i));
    }
    lemma_live_all_marked(b, m1);
    assert forall|i: int| 0 <= i < a.len() implies marked_at(a, m1, i) == marked_at(a, m2, i) by {
        assert(a[i] == nodes[i]);
        assert(marked_at(nodes, m1, i) == marked_at(nodes, m2, i));
    }
    lemma_live_frame(a, m1, m2);
    assert forall|i: int| 0 <= i < c.len() implies marked_at(c, m1, i) == marked_at(c, m2, i) by {
        assert(c[i] == nodes[r + i]);
        assert(marked_at(nodes, m1, r + i) == marked_at(nodes, m2, r + i));
    }
    lemma_live_frame(c, m1, m2);
    assert(live(a, m1) + live(b, m1) =~= live(a, m1));
}

/// Every node is at a valid node address.
#[verifier::opaque]
spec fn nodes_ok(base: usize, nodes: Seq<usize>) -> bool {
    forall|i: int| 0 <= i < nodes.len() ==> node_addr(base, #[trigger] nodes[i])
}

/// No two node headers overlap.
#[verifier::opaque]
spec fn headers_apart(nodes: Seq<usize>) -> bool {
    forall|i: int, j: int|
        0 <= i < nodes.len() && 0 <= j < nodes.len() && i != j ==> apart(
            #[trigger] nodes[i],
            #[trigger] nodes[j],
        )
}

/// The head's link and each node's link, mark aside, point at the next node.
#[verifier::opaque]
spec fn links_ok(head: usize, mem: Memory, nodes: Seq<usize>) -> bool {
    &&& head == link_to(mem.base(), nodes, 0)
    &&& forall|i: int|
        0 <= i < nodes.len() ==> without_mark(mem.word(#[trigger] nodes[i])) == link_to(
            mem.base(),
            nodes,
            i + 1,
        )
}

proof fn lemma_prefix_contains(nodes: Seq<usize>, p: int, k: usize)
    requires
        0 <= p < nodes.len(),
    ensures
        nodes.subrange(0, p + 1).contains(k) == (nodes.subrange(0, p).contains(k) || nodes[p]
            == k),
{
    if nodes.subrange(0, p + 1).contains(k) {
        let j = choose|j: int| 0 <= j < p + 1 && #[trigger] nodes.subrange(0, p + 1)[j] == k;
        if j < p {
            assert(nodes.subrange(0, p)[j] == k);
        }
    }
    if nodes.subrange(0, p).contains(k) {
        let j = choose|j: int| 0 <= j < p && #[trigger] nodes.subrange(0, p)[j] == k;
        assert(nodes.subrange(0, p + 1)[j] == k);
    }
    if nodes[p] == k {
        assert(nodes.subrange(0, p + 1)[p] == k);
    }
}

proof fn lemma_link_word(head: usize, mem: Memory, nodes: Seq<usize>, i: int)
    requires
        links_ok(head, mem, nodes),
        0 <= i < nodes.len(),
    ensures
        without_mark(mem.word(nodes[i])) == link_to(mem.base(), nodes, i + 1),
{
    reveal(links_ok);
}

proof fn lemma_head_link(head: usize, mem: Memory, nodes: Seq<usize>)
    requires
        links_ok(head, mem, nodes),
    ensures
        head == link_to(mem.base(), nodes, 0),
{
    reveal(links_ok);
}

#[verifier::spinoff_prover]
#[verifier::rlimit(50)]
proof fn lemma_splice_wf(
    nodes: Seq<usize>,
    m1: Memory,
    m2: Memory,
    head1: usize,
    head2: usize,
    l: int,
    r: int,
)
    requires
        m2.base() == m1.base(),
        nodes_ok(m1.base(), nodes),
        headers_apart(nodes),
        links_ok(head1, m1, nodes),
        -1 <= l < r <= nodes.len(),
        l >= 0 ==> without_mark(m2.word(nodes[l])) == link_to(m1.base(), nodes, r),
        l < 0 ==> head2 == link_to(m1.base(), nodes, r),
        l >= 0 ==> head2 == head1,
        forall|i: int|
            0 <= i < nodes.len() && i != l && (i <= l || r <= i) ==> #[trigger] m2.word(nodes[i])
                == m1.word(nodes[i]),
    ensures
        ({
            let n2 = nodes.subrange(0, l + 1) + nodes.subrange(r, nodes.len() as int);
            &&& nodes_ok(m1.base(), n2)
            &&& headers_apart(n2)
            &&& links_ok(head2, m2, n2)
        }),
{
    reveal(nodes_ok);
    reveal(headers_apart);
    reveal(links_ok);
    let base = m1.base();
    let n2 = nodes.subrange(0, l + 1) + nodes.subrange(r, nodes.len() as int);
    let len = nodes.len() as int;
    // position i of n2 is position idx(i) of nodes
    assert forall|i: int| 0 <= i < n2.len() implies n2[i] == nodes[if i <= l {
        i
    } else {
        i - l - 1 + r
    }] by {}
    assert forall|i: int| 0 <= i < n2.len() implies node_addr(base, #[trigger] n2[i]) by {
        let j = if i <= l {
            i
        } else {
            i - l - 1 + r
        };
        assert(node_addr(base, nodes[j]));
    }
    assert forall|i: int, j: int|
        0 <= i < n2.len() && 0 <= j < n2.len() && i != j implies apart(
        #[trigger] n2[i],
        #[trigger] n2[j],
    ) by {
        let a = if i <= l {
            i
        } else {
            i - l - 1 + r
        };
        let b = if j <= l {
            j
        } else {
            j - l - 1 + r
        };
        assert(apart(nodes[a], nodes[b]));
    }
    assert(head2 == link_to(base, n2, 0));
    assert forall|i: int| 0 <= i < n2.len() implies without_mark(m2.word(#[trigger] n2[i]))
        == link_to(base, n2, i + 1) by {
        let a = if i <= l {
            i
        } else {
            i - l - 1 + r
        };
        if i == l {
        } else {
            assert(m2.word(nodes[a]) == m1.word(nodes[a]));
            assert(without_mark(m1.word(nodes[a])) == link_to(base, nodes, a + 1));
        }
    }
}

proof fn lemma_last_live_none(nodes: Seq<usize>, mem: Memory, j: int)
    requires
        0 <= j <= nodes.len(),
        forall|i: int| 0 <= i < j ==> marked_at(nodes, mem, i),
    ensures
        last_live_before(nodes, mem, j) == -1,
    decreases j,
{
    if j > 0 {
        assert(marked_at(nodes, mem, j - 1));
        lemma_last_live_none(nodes, mem, j - 1);
    }
}

/// Removing an unmarked node removes it from the unmarked ones, at its place.
proof fn lemma_live_remove(nodes: Seq<usize>, m1: Memory, m2: Memory, k: int)
    requires
        0 <= k < nodes.len(),
        !marked_at(nodes, m1, k),
        forall|i: int|
            0 <= i < nodes.len() && i != k ==> marked_at(nodes, m1, i) == marked_at(nodes, m2, i),
    ensures
        ({
            let j = live(nodes.subrange(0, k), m1).len() as int;
            &&& 0 <= j < live(nodes, m1).len()
            &&& live(nodes, m1)[j] == nodes[k]
            &&& live(nodes.remove(k), m2) == live(nodes, m1).remove(j)
        }),
{
    let a = nodes.subrange(0, k);
    let b = nodes.subrange(k, k + 1);
    let c = nodes.subrange(k + 1, nodes.len() as int);
    assert(nodes =~= a + b + c);
    assert(nodes.remove(k) =~= a + c);
    lemma_live_append(a + b, c, m1);
    lemma_live_append(a, b, m1);
    lemma_live_append(a, c, m2);
    assert(b.drop_first() =~= Seq::<usize>::empty());
    assert(live(b.drop_first(), m1) =~= Seq::<usize>::empty());
    assert(b[0] == nodes[k]);
    assert(!marked_at(b, m1, 0));
    assert(live(b, m1) =~= seq![nodes[k]]);
    assert forall|i: int| 0 <= i < a.len() implies marked_at(a, m1, i) == marked_at(a, m2, i) by {
        assert(a[i] == nodes[i]);
        assert(marked_at(nodes, m1, i) == marked_at(nodes, m2, i));
    }
    lemma_live_frame(a, m1, m2);
    assert forall|i: int| 0 <= i < c.len() implies marked_at(c, m1, i) == marked_at(c, m2, i) by {
        assert(c[i] == nodes[k + 1 + i]);
        assert(marked_at(nodes, m1, k + 1 + i) == marked_at(nodes, m2, k + 1 + i));
    }
    lemma_live_frame(c, m1, m2);
    let j = live(a, m1).len() as int;
    assert((live(a, m1) + seq![nodes[k]] + live(c, m1)).remove(j) =~= live(a, m1) + live(c, m1));
}

/// Putting a node in front of a well-formed chain.
proof fn lemma_push_wf(
    nodes: Seq<usize>,
    m1: Memory,
    m2: Memory,
    head1: usize,
    item: usize,
)
    requires
        m1.wf(),
        m2.base() == m1.base(),
        nodes_ok(m1.base(), nodes),
        headers_apart(nodes),
        links_ok(head1, m1, nodes),
        node_addr(m1.base(), item),
        forall|i: int| 0 <= i < nodes.len() ==> apart(item, #[trigger] nodes[i]),
        m2.word(item) == head1,
        forall|x: usize| x != item ==> #[trigger] m2.word(x) == m1.word(x),
    ensures
        nodes_ok(m1.base(), seq![item] + nodes),
        headers_apart(seq![item] + nodes),
        links_ok((item - m1.base()) as usize, m2, seq![item] + nodes),
        live(seq![item] + nodes, m2) == seq![item] + live(nodes, m1),
{
    reveal(nodes_ok);
    reveal(headers_apart);
    reveal(links_ok);
    let n2 = seq![item] + nodes;
    let base = m1.base();
    assert forall|i: int| 0 <= i < n2.len() implies node_addr(base, #[trigger] n2[i]) by {
        if i > 0 {
            assert(n2[i] == nodes[i - 1]);
        }
    }
    assert forall|i: int, j: int|
        0 <= i < n2.len() && 0 <= j < n2.len() && i != j implies apart(
        #[trigger] n2[i],
        #[trigger] n2[j],
    ) by {
        if i > 0 && j > 0 {
            assert(apart(nodes[i - 1], nodes[j - 1]));
        } else if i > 0 {
            assert(apart(item, nodes[i - 1]));
        } else {
            assert(apart(item, nodes[j - 1]));
        }
    }
    assert forall|i: int| 0 <= i < n2.len() implies without_mark(m2.word(#[trigger] n2[i]))
        == link_to(base, n2, i + 1) by {
        if i > 0 {
            assert(n2[i] == nodes[i - 1]);
            assert(apart(item, nodes[i - 1]));
            assert(m2.word(nodes[i - 1]) == m1.word(nodes[i - 1]));
        } else {
            m1.lemma_base_aligned();
            if nodes.len() > 0 {
                assert(node_addr(base, nodes[0]));
            }
        }
    }
    assert(n2.drop_first() =~= nodes);
    assert forall|i: int| 0 <= i < nodes.len() implies marked_at(nodes, m1, i) == marked_at(
        nodes,
        m2,
        i,
    ) by {
        assert(apart(item, nodes[i]));
    }
    lemma_live_frame(nodes, m1, m2);
    m1.lemma_base_aligned();
    if nodes.len() > 0 {
        assert(node_addr(base, nodes[0]));
    }
    assert(!has_mark(m2.word(item)));
}

/// A list of nodes that live in a [`Memory`].
pub struct LinkedList {
    /// The link held by the list's sentinel head: stored like any node's link.
    head: usize,
    /// The nodes reachable from the head, in order, marked ones included.
    nodes: Ghost<Seq<usize>>,
}

impl LinkedList {
    /// The nodes reachable from the head, in order, logically deleted ones
    /// included.
    pub closed spec fn nodes(&self) -> Seq<usize> {
        self.nodes@
    }

    /// The link held by the head.
    pub closed spec fn head_link(&self) -> usize {
        self.head
    }

    /// The chain from the head through `mem` visits exactly `nodes()`: every
    /// node is a valid node address, headers do not overlap, and each link,
    /// mark aside, points at the next node (the last at [`NULL_PTR`]).
    pub closed spec fn wf(&self, mem: Memory) -> bool {
        &&& mem.wf()
        &&& nodes_ok(mem.base(), self.nodes@)
        &&& headers_apart(self.nodes@)
        &&& links_ok(self.head, mem, self.nodes@)
    }

    /// The link that precedes position `q` of the chain: the head's link for
    /// `q == 0`, else the link stored in `nodes()[q - 1]`.
    pub open spec fn link_at(&self, mem: Memory, q: int) -> usize {
        if q == 0 {
            self.head_link()
        } else {
            mem.word(self.nodes()[q - 1])
        }
    }

    /// The elements of the list: the reachable nodes that are not marked.
    pub open spec fn view(&self, mem: Memory) -> Seq<usize> {
        live(self.nodes(), mem)
    }

    /// No reachable node is marked.
    pub open spec fn clean(&self, mem: Memory) -> bool {
        forall|i: int| 0 <= i < self.nodes().len() ==> !marked_at(self.nodes(), mem, i)
    }

    /// Facts that hold of every well-formed list.
    pub proof fn lemma_wf(&self, mem: Memory)
        requires
            self.wf(mem),
        ensures
            mem.wf(),
            forall|i: int|
                0 <= i < self.nodes().len() ==> node_addr(mem.base(), #[trigger] self.nodes()[i]),
            forall|i: int, j: int|
                0 <= i < self.nodes().len() && 0 <= j < self.nodes().len() && i != j ==> apart(
                    #[trigger] self.nodes()[i],
                    #[trigger] self.nodes()[j],
                ),
            self.nodes().no_duplicates(),
            self.clean(mem) ==> self.view(mem) == self.nodes(),
            forall|x: usize| #[trigger]
                self.view(mem).contains(x) ==> self.nodes().contains(x),
            self.view(mem).no_duplicates(),
    {
        reveal(nodes_ok);
        reveal(headers_apart);
        reveal(links_ok);
        if self.clean(mem) {
            lemma_live_none_marked(self.nodes(), mem);
        }
        assert forall|i: int, j: int|
            0 <= i < self.nodes().len() && 0 <= j < self.nodes().len() && i != j implies self.nodes()[i]
            != self.nodes()[j] by {
            assert(apart(self.nodes()[i], self.nodes()[j]));
        }
        lemma_live_no_dups(self.nodes(), mem);
        assert forall|x: usize| #[trigger] self.view(mem).contains(x) implies self.nodes().contains(
            x,
        ) by {
            lemma_live_contains(self.nodes(), mem, x);
            let i = choose|i: int|
                0 <= i < self.nodes().len() && self.nodes()[i] == x && !marked_at(
                    self.nodes(),
                    mem,
                    i,
                );
            assert(self.nodes()[i] == x);
        }
    }

    /// The links of a well-formed list, as stored: the head holds the offset
    /// of the first node from the base, and each node's link, mark aside,
    /// holds the offset of the next node ([`NULL_PTR`] after the last).
    pub proof fn lemma_links(&self, mem: Memory)
        requires
            self.wf(mem),
        ensures
            self.head_link() == link_to(mem.base(), self.nodes(), 0),
            forall|i: int|
                0 <= i < self.nodes().len() ==> without_mark(mem.word(#[trigger] self.nodes()[i]))
                    == link_to(mem.base(), self.nodes(), i + 1),
    {
        reveal(links_ok);
    }

    proof fn lemma_mark_wf(&self, m1: Memory, m2: Memory, i: int)
        requires
            self.wf(m1),
            0 <= i < self.nodes().len(),
            m2.wf(),
            m2.base() == m1.base(),
            m2.word(self.nodes()[i]) == with_mark(m1.word(self.nodes()[i])),
            forall|x: usize| x != self.nodes()[i] ==> #[trigger] m2.word(x) == m1.word(x),
        ensures
            self.wf(m2),
    {
        let nodes = self.nodes();
        self.lemma_wf(m1);
        self.lemma_links(m1);
        assert forall|j: int| 0 <= j < nodes.len() implies without_mark(m2.word(#[trigger] nodes[j]))
            == link_to(m2.base(), nodes, j + 1) by {
            if j != i {
                assert(apart(nodes[j], nodes[i]));
            }
        }
        assert(links_ok(self.head, m2, nodes)) by {
            reveal(links_ok);
        }
    }

    /// Setting the deletion mark in the link of `nodes()[i]`, and changing no
    /// other word, keeps the list well formed with the same nodes, and takes
    /// that node out of the list's elements.
    pub proof fn lemma_mark(&self, m1: Memory, m2: Memory, i: int)
        requires
            self.wf(m1),
            0 <= i < self.nodes().len(),
            m2.wf(),
            m2.base() == m1.base(),
            m2.word(self.nodes()[i]) == with_mark(m1.word(self.nodes()[i])),
            forall|x: usize| x != self.nodes()[i] ==> #[trigger] m2.word(x) == m1.word(x),
        ensures
            self.wf(m2),
            self.view(m2) == self.view(m1).remove_value(self.nodes()[i]),
    {
        self.lemma_mark_wf(m1, m2, i);
        let nodes = self.nodes();
        let x = nodes[i];
        self.lemma_wf(m1);
        let v1 = self.view(m1);
        // the list with `x` cut out, under either memory
        let a = nodes.subrange(0, i);
        let b = nodes.subrange(i, i + 1);
        let c = nodes.subrange(i + 1, nodes.len() as int);
        assert(nodes =~= a + b + c);
        lemma_live_append(a + b, c, m2);
        lemma_live_append(a, b, m2);
        assert(b.drop_first() =~= Seq::<usize>::empty());
        assert(b[0] == x);
        assert(live(b.drop_first(), m2) =~= Seq::<usize>::empty());
        assert(live(b, m2) =~= Seq::<usize>::empty());
        assert forall|j: int| 0 <= j < nodes.len() && j != i implies marked_at(nodes, m1, j)
            == marked_at(nodes, m2, j) by {
            assert(apart(nodes[j], nodes[i]));
        }
        if has_mark(m1.word(x)) {
            lemma_live_frame(nodes, m1, m2);
            lemma_live_contains(nodes, m1, x);
            if v1.contains(x) {
                let t = choose|t: int| 0 <= t < nodes.len() && nodes[t] == x && !marked_at(nodes, m1, t);
                if t != i {
                    assert(apart(nodes[t], nodes[i]));
                }
            }
            v1.index_of_first_ensures(x);
            assert(live(a, m2) + live(b, m2) =~= live(a, m2));
            assert(nodes.remove(i) =~= a + c);
            lemma_live_append(a, c, m2);
            assert(self.view(m2) == v1);
        } else {
            lemma_live_remove(nodes, m1, m2, i);
            assert(nodes.remove(i) =~= a + c);
            lemma_live_append(a, c, m2);
            assert(live(a, m2) + live(b, m2) =~= live(a, m2));
            let j = live(a, m1).len() as int;
            assert(v1[j] == x);
            v1.index_of_first_ensures(x);
            let k = v1.index_of_first(x)->0;
            assert(k == j);
        }
    }

    /// The list stays as it is when words other than its nodes' links change.
    pub proof fn lemma_frame(&self, m1: Memory, m2: Memory)
        requires
            self.wf(m1),
            m2.wf(),
            m2.base() == m1.base(),
            forall|i: int|
                0 <= i < self.nodes().len() ==> m2.word(#[trigger] self.nodes()[i]) == m1.word(
                    self.nodes()[i],
                ),
        ensures
            self.wf(m2),
            self.view(m2) == self.view(m1),
            self.clean(m2) == self.clean(m1),
    {
        reveal(nodes_ok);
        reveal(headers_apart);
        reveal(links_ok);
        assert forall|i: int| 0 <= i < self.nodes().len() implies marked_at(self.nodes(), m1, i)
            == marked_at(self.nodes(), m2, i) by {
            assert(m2.word(self.nodes()[i]) == m1.word(self.nodes()[i]));
        }
        lemma_live_frame(self.nodes(), m1, m2);
    }

    /// What the link before position `q` says, read as a handle.
    proof fn lemma_link(&self, mem: Memory, q: int)
        requires
            self.wf(mem),
            0 <= q <= self.nodes().len(),
        ensures
            without_mark(handle_of(mem.base(), self.link_at(mem, q))) == (if q < self.nodes().len() {
                self.nodes()[q]
            } else {
                NULL_PTR
            }),
            has_mark(handle_of(mem.base(), self.link_at(mem, q))) == (q > 0 && marked_at(
                self.nodes(),
                mem,
                q - 1,
            )),
            q < self.nodes().len() ==> self.nodes()[q] != NULL_PTR,
            ({
                let s = without_mark(self.link_at(mem, q));
                s == NULL_PTR || s + mem.base() <= usize::MAX
            }),
            q < self.nodes().len() ==> ({
                let s = without_mark(mem.word(self.nodes()[q]));
                s == NULL_PTR || s + mem.base() <= usize::MAX
            }),
    {
        reveal(nodes_ok);
        let nodes = self.nodes();
        let base = mem.base();
        mem.lemma_base_aligned();
        if q == 0 {
            lemma_head_link(self.head, mem, nodes);
        } else {
            lemma_link_word(self.head, mem, nodes, q - 1);
        }
        let v = self.link_at(mem, q);
        assert(without_mark(v) == link_to(base, nodes, q));
        if q < nodes.len() {
            assert(node_addr(base, nodes[q]));
            assert((nodes[q] - base) % 2 == 0);
            lemma_link_word(self.head, mem, nodes, q);
            if q + 1 < nodes.len() {
                assert(node_addr(base, nodes[q + 1]));
            }
        }
    }

    /// Walks from the head towards `key` (towards the first node when `key` is
    /// `None`) and returns `(left, right)`: `right` is the first unmarked node
    /// at or after `key` ([`NULL_PTR`] if there is none, or `key` is not in the
    /// list), `left` the last unmarked node before it (`None` for the head).
    /// The marked nodes between the two are unlinked.
    fn search(&mut self, mem: &mut Memory, key: Option<usize>) -> (res: (Option<usize>, NodePtr))
        requires
            old(self).wf(*old(mem)),
        ensures
            ({
                let nodes = old(self).nodes();
                let m = *old(mem);
                let r = right_index(nodes, m, key);
                let l = last_live_before(nodes, m, r);
                &&& -1 <= l < r <= nodes.len()
                &&& final(self).wf(*final(mem))
                &&& final(self).nodes() == nodes.subrange(0, l + 1) + nodes.subrange(
                    r,
                    nodes.len() as int,
                )
                &&& res.1@ == (if r < nodes.len() {
                    nodes[r]
                } else {
                    NULL_PTR
                })
                &&& res.0 == (if l < 0 {
                    None
                } else {
                    Some(nodes[l])
                })
                &&& final(mem).base() == m.base()
                &&& forall|x: usize|
                    (l < 0 || x != nodes[l]) ==> #[trigger] final(mem).word(x) == m.word(x)
                &&& l >= 0 ==> !has_mark(final(mem).word(nodes[l]))
                &&& r < nodes.len() ==> !marked_at(nodes, m, r)
                &&& forall|i: int| l < i < r ==> marked_at(nodes, m, i)
                &&& final(self).view(*final(mem)) == old(self).view(m)
                &&& forall|x: usize| #[trigger]
                    final(self).nodes().contains(x) ==> nodes.contains(x)
                &&& old(self).clean(m) ==> final(self).clean(*final(mem))
            }),
    {
        let ghost nodes = self.nodes@;
        let ghost m = *mem;
        let ghost head0 = self.head;
        let ghost len = nodes.len() as int;
        proof {
            self.lemma_wf(m);
            mem.lemma_base_aligned();
        }
        let base = crate::get_data_base(mem);
        proof {
            self.lemma_link(m, 0);
        }
        let mut left: Option<usize> = None;
        let mut left_next: NodePtr = MarkedPtr::from_value(self.head).marked_ptr(mem);
        let mut t_next: NodePtr = MarkedPtr::from_value(self.head).marked_ptr(mem);
        let mut cur: Option<usize> = None;
        let mut found: bool = key.is_none();
        let ghost mut p: int = 0;
        let ghost mut kidx: int = 0;
        let ghost mut lidx: int = -1;
        let ghost mut ridx: int = 0;
        let mut t: NodePtr;
        proof {
            lemma_first_live_bounds(nodes, m, 0);
            self.lemma_link(m, 0);
            self.lemma_wf(m);
        }
        loop
            invariant_except_break
                0 <= p <= len,
                t_next@ == handle_of(base, self.link_at(m, p)),
                cur == (if p == 0 {
                    None
                } else {
                    Some(nodes[p - 1])
                }),
                lidx == last_live_before(nodes, m, p - 1),
                left == (if lidx < 0 {
                    None
                } else {
                    Some(nodes[lidx])
                }),
                left_next@ == (if lidx + 1 < len {
                    nodes[lidx + 1]
                } else {
                    NULL_PTR
                }),
                found == (key is None || nodes.subrange(0, p).contains(key->0)),
                0 <= kidx <= len,
                key is None ==> kidx == 0,
                found && key is Some ==> kidx < p,
                found ==> 0 <= kidx < len || (key is None && kidx == 0),
                found && key is Some ==> nodes[kidx] == key->0,
                found ==> first_live_from(nodes, m, kidx) >= p,
            invariant
                self.wf(*mem),
                self.nodes() == nodes,
                mem.wf(),
                nodes.no_duplicates(),
                *mem == m,
                base == m.base(),
                base % WORD == 0,
                len == nodes.len(),
            ensures
                ridx == right_index(nodes, m, key),
                lidx == last_live_before(nodes, m, ridx),
                0 <= ridx <= len,
                t@ == (if ridx < len {
                    nodes[ridx]
                } else {
                    NULL_PTR
                }),
                left == (if lidx < 0 {
                    None
                } else {
                    Some(nodes[lidx])
                }),
                left_next@ == (if lidx + 1 < len {
                    nodes[lidx + 1]
                } else {
                    NULL_PTR
                }),
            decreases len - p,
        {
            proof {
                self.lemma_link(m, p);
                lemma_last_live_bounds(nodes, m, p);
            }
            if !t_next.is_marked() {
                left = cur;
                left_next = t_next;
                proof {
                    lidx = p - 1;
                }
            }
            assert(lidx == last_live_before(nodes, m, p));
            t = NodePtr::from_value(t_next.unmark());
            if t.is_null() {
                proof {
                    ridx = len;
                    assert(nodes.subrange(0, p) =~= nodes);
                    if found {
                        lemma_first_live_bounds(nodes, m, kidx);
                    }
                    if key is Some && found {
                        lemma_index_of(nodes, key->0, kidx);
                    }
                    assert(p == len);
                    if found {
                        assert(first_live_from(nodes, m, kidx) == len);
                    } else {
                        assert(!nodes.contains(key->0));
                    }
                }
                break;
            }
            proof {
                p = p + 1;
                self.lemma_link(m, p);
                lemma_prefix_contains(nodes, p - 1, if key is Some {
                    key->0
                } else {
                    0
                });
            }
            t_next = t.next(mem).unwrap();
            cur = Some(t.ptr());
            match key {
                Some(k) => if t.ptr() == k {
                    found = true;
                    proof {
                        kidx = p - 1;
                    }
                },
                None => {},
            }
            proof {
                lemma_first_live_bounds(nodes, m, kidx);
            }
            if !t_next.is_marked() && found {
                proof {
                    ridx = p - 1;
                    if key is Some {
                        lemma_index_of(nodes, key->0, kidx);
                    }
                    assert(!marked_at(nodes, m, p - 1));
                    assert(first_live_from(nodes, m, kidx) == p - 1);
                }
                break;
            }
        }
        let right = t;
        proof {
            lemma_last_live_bounds(nodes, m, ridx);
            lemma_right_index(nodes, m, key);
        }
        if left_next.value() != right.value() {
            let v = right.linked_value(mem);
            match left {
                None => {
                    self.head = v;
                },
                Some(l) => {
                    mem.write(l, v);
                },
            }
        }
        proof {
            if lidx >= 0 {
                assert(!marked_at(nodes, m, lidx));
                lemma_link_word(head0, m, nodes, lidx);
            }
            if ridx < len {
                assert(node_addr(base, nodes[ridx]));
            }
            lemma_head_link(head0, m, nodes);
            assert(link_to(base, nodes, ridx) % 2 == 0);
            assert forall|i: int|
                0 <= i < len && i != lidx && (i <= lidx || ridx <= i) implies #[trigger] mem.word(
                nodes[i],
            ) == m.word(nodes[i]) by {
                if lidx >= 0 {
                    assert(nodes[i] != nodes[lidx]);
                }
            }
            lemma_splice_wf(nodes, m, *mem, head0, self.head, lidx, ridx);
            self.nodes = Ghost(nodes.subrange(0, lidx + 1) + nodes.subrange(ridx, len));
            lemma_live_splice(nodes, m, *mem, lidx, ridx);
            let n1 = self.nodes();
            assert forall|i: int| 0 <= i < n1.len() implies n1[i] == nodes[if i <= lidx {
                i
            } else {
                i - lidx - 1 + ridx
            }] by {}
            assert forall|x: usize| #[trigger] n1.contains(x) implies nodes.contains(x) by {
                let i = choose|i: int| 0 <= i < n1.len() && n1[i] == x;
                let a = if i <= lidx {
                    i
                } else {
                    i - lidx - 1 + ridx
                };
                assert(nodes[a] == x);
            }
            if old(self).clean(m) {
                assert forall|i: int| 0 <= i < n1.len() implies !marked_at(n1, *mem, i) by {
                    let a = if i <= lidx {
                        i
                    } else {
                        i - lidx - 1 + ridx
                    };
                    assert(!marked_at(nodes, m, a));
                    if a != lidx {
                        assert(lidx < 0 || nodes[a] != nodes[lidx]);
                    }
                }
            }
        }
        (left, right)
    }

    /// Marks `right`, the successor of `left` (`None` for the head), as
    /// deleted, then unlinks it.
    fn unlink(
        &mut self,
        mem: &mut Memory,
        left: Option<usize>,
        right: NodePtr,
        Ghost(l): Ghost<int>,
    )
        requires
            old(self).wf(*old(mem)),
            -1 <= l,
            l + 1 < old(self).nodes().len(),
            left == (if l < 0 {
                None
            } else {
                Some(old(self).nodes()[l])
            }),
            right@ == old(self).nodes()[l + 1],
            !marked_at(old(self).nodes(), *old(mem), l + 1),
            l >= 0 ==> !marked_at(old(self).nodes(), *old(mem), l),
        ensures
            ({
                let nodes = old(self).nodes();
                let m = *old(mem);
                let j = live(nodes.subrange(0, l + 1), m).len() as int;
                &&& final(self).wf(*final(mem))
                &&& final(self).nodes() == nodes.remove(l + 1)
                &&& !final(self).nodes().contains(nodes[l + 1])
                &&& has_mark(final(mem).word(nodes[l + 1]))
                &&& 0 <= j < old(self).view(m).len()
                &&& old(self).view(m)[j] == nodes[l + 1]
                &&& final(self).view(*final(mem)) == old(self).view(m).remove(j)
                &&& final(mem).base() == m.base()
                &&& forall|x: usize|
                    !nodes.contains(x) ==> #[trigger] final(mem).word(x) == m.word(x)
                &&& old(self).clean(m) ==> final(self).clean(*final(mem))
            }),
    {
        let ghost nodes = self.nodes@;
        let ghost m = *mem;
        let ghost head0 = self.head;
        proof {
            self.lemma_wf(m);
            self.lemma_link(m, l + 2);
            lemma_link_word(head0, m, nodes, l + 1);
            m.lemma_base_aligned();
            if l + 2 < nodes.len() {
                assert(node_addr(m.base(), nodes[l + 2]));
            }
        }
        let rp = right.ptr();
        let right_link = MarkedPtr::from_value(mem.read(rp));
        let marked = right_link.mark();
        mem.write(rp, marked);
        let v = right_link.value();
        match left {
            None => {
                self.head = v;
            },
            Some(a) => {
                mem.write(a, v);
            },
        }
        proof {
            assert(!has_mark(v));
            assert forall|i: int|
                0 <= i < nodes.len() && i != l && (i <= l || l + 2 <= i) implies #[trigger] mem.word(
                nodes[i],
            ) == m.word(nodes[i]) by {
                assert(nodes[i] != nodes[l + 1]);
                if l >= 0 {
                    assert(nodes[i] != nodes[l]);
                }
            }
            lemma_splice_wf(nodes, m, *mem, head0, self.head, l, l + 2);
            assert(nodes.subrange(0, l + 1) + nodes.subrange(l + 2, nodes.len() as int)
                =~= nodes.remove(l + 1));
            self.nodes = Ghost(nodes.remove(l + 1));
            assert forall|i: int| 0 <= i < nodes.len() && i != l + 1 implies marked_at(
                nodes,
                m,
                i,
            ) == marked_at(nodes, *mem, i) by {
                assert(nodes[i] != nodes[l + 1]);
                if l >= 0 && i != l {
                    assert(nodes[i] != nodes[l]);
                }
            }
            lemma_live_remove(nodes, m, *mem, l + 1);
            if self.nodes().contains(nodes[l + 1]) {
                let t = choose|t: int| 0 <= t < self.nodes().len() && #[trigger] self.nodes()[t] == nodes[l + 1];
                if t <= l {
                    assert(nodes[t] == nodes[l + 1]);
                } else {
                    assert(nodes[t + 1] == nodes[l + 1]);
                }
            }
            assert(mem.word(nodes[l + 1]) == marked);
            assert forall|x: usize| !nodes.contains(x) implies #[trigger] mem.word(x) == m.word(
                x,
            ) by {
                assert(x != nodes[l + 1]);
                if l >= 0 {
                    assert(x != nodes[l]);
                }
            }
            if old(self).clean(m) {
                assert forall|i: int| 0 <= i < self.nodes().len() implies !marked_at(
                    self.nodes(),
                    *mem,
                    i,
                ) by {
                    let a = if i <= l {
                        i
                    } else {
                        i + 1
                    };
                    assert(self.nodes()[i] == nodes[a]);
                    assert(!marked_at(nodes, m, a));
                }
            }
        }
    }

    /// The link held by the list's head, as stored.
    pub fn head_value(&self) -> (r: usize)
        ensures
            r == self.head_link(),
    {
        self.head
    }

    /// Whether the list has no element.
    pub fn is_empty(&mut self, mem: &mut Memory) -> (r: bool)
        requires
            old(self).wf(*old(mem)),
        ensures
            final(self).wf(*final(mem)),
            r == (old(self).view(*old(mem)).len() == 0),
            final(self).view(*final(mem)) == old(self).view(*old(mem)),
            final(mem).base() == old(mem).base(),
            forall|x: usize| #[trigger]
                final(self).nodes().contains(x) ==> old(self).nodes().contains(x),
            forall|x: usize|
                !old(self).nodes().contains(x) ==> #[trigger] final(mem).word(x) == old(mem).word(x),
            old(self).clean(*old(mem)) ==> final(self).clean(*final(mem)),
    {
        let ghost m = *mem;
        let ghost nodes0 = self.nodes@;
        let (_, right) = self.search(mem, None);
        proof {
            self.lemma_wf(*mem);
            let n1 = self.nodes();
            let r = right_index(nodes0, m, None);
            lemma_first_live_bounds(nodes0, m, 0);
            lemma_last_live_none(nodes0, m, r);
            if n1.len() > 0 {
                assert(n1[0] == nodes0[r]);
                assert(node_addr(mem.base(), n1[0]));
                assert(!marked_at(n1, *mem, 0));
            } else {
                assert(live(n1, *mem) =~= Seq::<usize>::empty());
            }
        }
        right.is_null()
    }

    /// Puts the node at `item` in front of the list. Its reference count (the
    /// node's second word) must be zero, and its header must not overlap a node
    /// of the list.
    pub fn push(&mut self, mem: &mut Memory, item: usize)
        requires
            old(self).wf(*old(mem)),
            node_addr(old(mem).base(), item),
            forall|i: int|
                0 <= i < old(self).nodes().len() ==> apart(item, #[trigger] old(self).nodes()[i]),
            old(mem).word((item + WORD) as usize) == 0,
        ensures
            final(self).wf(*final(mem)),
            final(self).view(*final(mem)) == seq![item] + old(self).view(*old(mem)),
            final(self).nodes().len() > 0 && final(self).nodes()[0] == item,
            final(mem).base() == old(mem).base(),
            forall|x: usize| #[trigger]
                final(self).nodes().contains(x) ==> old(self).nodes().contains(x) || x == item,
            forall|x: usize|
                !old(self).nodes().contains(x) && x != item ==> #[trigger] final(mem).word(x)
                    == old(mem).word(x),
            old(self).clean(*old(mem)) ==> final(self).clean(*final(mem)),
    {
        let ghost m0 = *mem;
        let ghost nodes0 = self.nodes@;
        let (_, right) = self.search(mem, None);
        let ghost m1 = *mem;
        let ghost n1 = self.nodes@;
        let ghost head1 = self.head;
        proof {
            self.lemma_wf(m1);
            m1.lemma_base_aligned();
            let r = right_index(nodes0, m0, None);
            lemma_first_live_bounds(nodes0, m0, 0);
            lemma_last_live_none(nodes0, m0, r);
            lemma_head_link(head1, m1, n1);
            if n1.len() > 0 {
                assert(node_addr(m1.base(), n1[0]));
            }
            assert forall|i: int| 0 <= i < n1.len() implies apart(item, #[trigger] n1[i]) by {
                assert(n1.contains(n1[i]));
                let k = choose|k: int| 0 <= k < nodes0.len() && nodes0[k] == n1[i];
                assert(apart(item, nodes0[k]));
            }
        }
        let link = right.linked_value(mem);
        mem.write(item, link);
        let new_node = NodePtr::from_value(item);
        proof {
            assert(without_mark(item) == item);
        }
        self.head = new_node.linked_value(mem);
        proof {
            lemma_push_wf(n1, m1, *mem, head1, item);
            self.nodes = Ghost(seq![item] + n1);
            assert forall|x: usize| #[trigger] self.nodes().contains(x) implies nodes0.contains(x)
                || x == item by {
                let i = choose|i: int| 0 <= i < self.nodes().len() && self.nodes()[i] == x;
                if i > 0 {
                    assert(n1[i - 1] == x);
                    assert(n1.contains(x));
                }
            }
            assert forall|x: usize| !nodes0.contains(x) && x != item implies #[trigger] mem.word(x)
                == m0.word(x) by {
                if n1.contains(x) {
                }
            }
            if old(self).clean(m0) {
                assert forall|i: int| 0 <= i < self.nodes().len() implies !marked_at(
                    self.nodes(),
                    *mem,
                    i,
                ) by {
                    if i > 0 {
                        assert(self.nodes()[i] == n1[i - 1]);
                        assert(!marked_at(n1, m1, i - 1));
                        assert(apart(item, n1[i - 1]));
                    }
                }
            }
        }
    }

    /// Takes the first element off the list; `None` when the list is empty.
    pub fn pop(&mut self, mem: &mut Memory) -> (r: Option<usize>)
        requires
            old(self).wf(*old(mem)),
        ensures
            final(self).wf(*final(mem)),
            old(self).view(*old(mem)).len() == 0 ==> r is None && final(self).view(*final(mem))
                == old(self).view(*old(mem)),
            old(self).view(*old(mem)).len() > 0 ==> r == Some(old(self).view(*old(mem))[0])
                && final(self).view(*final(mem)) == old(self).view(*old(mem)).drop_first(),
            r matches Some(f) ==> !final(self).nodes().contains(f) && has_mark(final(mem).word(f)),
            final(mem).base() == old(mem).base(),
            forall|x: usize| #[trigger]
                final(self).nodes().contains(x) ==> old(self).nodes().contains(x),
            forall|x: usize|
                !old(self).nodes().contains(x) ==> #[trigger] final(mem).word(x) == old(mem).word(x),
            old(self).clean(*old(mem)) ==> final(self).clean(*final(mem)),
    {
        let ghost m0 = *mem;
        let ghost nodes0 = self.nodes@;
        let (left, right) = self.search(mem, None);
        let ghost m1 = *mem;
        let ghost n1 = self.nodes@;
        proof {
            self.lemma_wf(m1);
            let r = right_index(nodes0, m0, None);
            lemma_first_live_bounds(nodes0, m0, 0);
            lemma_last_live_none(nodes0, m0, r);
            if n1.len() > 0 {
                assert(n1[0] == nodes0[r]);
                assert(node_addr(m1.base(), n1[0]));
                assert(!marked_at(n1, m1, 0));
            } else {
                assert(live(n1, m1) =~= Seq::<usize>::empty());
            }
        }
        if right.is_null() {
            return None;
        }
        self.unlink(mem, left, right, Ghost(-1));
        proof {
            assert(n1.subrange(0, 0) =~= Seq::<usize>::empty());
            assert(live(n1.subrange(0, 0), m1) =~= Seq::<usize>::empty());
            assert(old(self).view(m0).remove(0) =~= old(self).view(m0).drop_first());
            assert forall|x: usize| #[trigger] self.nodes().contains(x) implies nodes0.contains(
                x,
            ) by {
                let i = choose|i: int| 0 <= i < self.nodes().len() && self.nodes()[i] == x;
                assert(n1[i + 1] == x);
                assert(n1.contains(x));
            }
            assert forall|x: usize| !nodes0.contains(x) implies #[trigger] mem.word(x) == m0.word(
                x,
            ) by {
                if n1.contains(x) {
                }
            }
        }
        Some(right.ptr())
    }

    /// Removes `item` from the list. Returns whether it was an element: each
    /// element is removed by exactly one call.
    pub fn delete(&mut self, mem: &mut Memory, item: usize) -> (r: bool)
        requires
            old(self).wf(*old(mem)),
        ensures
            final(self).wf(*final(mem)),
            r == old(self).view(*old(mem)).contains(item),
            final(self).view(*final(mem)) == old(self).view(*old(mem)).remove_value(item),
            r ==> !final(self).nodes().contains(item) && has_mark(final(mem).word(item)),
            final(mem).base() == old(mem).base(),
            forall|x: usize| #[trigger]
                final(self).nodes().contains(x) ==> old(self).nodes().contains(x),
            forall|x: usize|
                !old(self).nodes().contains(x) ==> #[trigger] final(mem).word(x) == old(mem).word(x),
            old(self).clean(*old(mem)) ==> final(self).clean(*final(mem)),
    {
        let ghost m0 = *mem;
        let ghost nodes0 = self.nodes@;
        let ghost view0 = self.view(m0);
        proof {
            self.lemma_wf(m0);
            lemma_live_contains(nodes0, m0, item);
            lemma_right_index(nodes0, m0, Some(item));
        }
        let (left, right) = self.search(mem, Some(item));
        let ghost m1 = *mem;
        let ghost n1 = self.nodes@;
        let ghost r = right_index(nodes0, m0, Some(item));
        let ghost l = last_live_before(nodes0, m0, r);
        proof {
            self.lemma_wf(m1);
            if r < nodes0.len() {
                assert(node_addr(m0.base(), nodes0[r]));
            }
            if view0.contains(item) {
                let i = choose|i: int|
                    0 <= i < nodes0.len() && nodes0[i] == item && !marked_at(nodes0, m0, i);
                lemma_index_of(nodes0, item, i);
                lemma_first_live_bounds(nodes0, m0, i);
                assert(r == i);
            } else if r < nodes0.len() && nodes0[r] == item {
                assert(!marked_at(nodes0, m0, r));
            }
        }
        if right.is_null() || right.ptr() != item {
            proof {
                view0.index_of_first_ensures(item);
            }
            return false;
        }
        proof {
            lemma_last_live_bounds(nodes0, m0, r);
            assert(n1[l + 1] == nodes0[r]);
            assert(!marked_at(n1, m1, l + 1));
            if l >= 0 {
                assert(n1[l] == nodes0[l]);
                assert(!marked_at(n1, m1, l));
            }
        }
        self.unlink(mem, left, right, Ghost(l));
        proof {
            view0.index_of_first_ensures(item);
            let j = live(n1.subrange(0, l + 1), m1).len() as int;
            let k = view0.index_of_first(item)->0;
            assert(view0[k] == item && view0[j] == item);
            assert(k == j);
            assert forall|x: usize| #[trigger] self.nodes().contains(x) implies nodes0.contains(
                x,
            ) by {
                let i = choose|i: int| 0 <= i < self.nodes().len() && self.nodes()[i] == x;
                let a = if i <= l {
                    i
                } else {
                    i + 1
                };
                assert(n1[a] == x);
                assert(n1.contains(x));
            }
            assert forall|x: usize| !nodes0.contains(x) implies #[trigger] mem.word(x) == m0.word(
                x,
            ) by {
                if n1.contains(x) {
                }
            }
        }
        true
    }

    /// The search that `delete` makes, on its own: walks from the head towards
    /// `item` and returns `(left, right)`, where `right` is the first unmarked
    /// node at or after `item` ([`NULL_PTR`] if there is none, or `item` is not
    /// in the list) and `left` the last unmarked node before it (`None` for the
    /// head). The marked nodes between the two are unlinked.
    pub fn search_with_ptr(&mut self, mem: &mut Memory, item: usize) -> (res: (Option<usize>, NodePtr))
        requires
            old(self).wf(*old(mem)),
        ensures
            ({
                let nodes = old(self).nodes();
                let m = *old(mem);
                let r = right_index(nodes, m, Some(item));
                let l = last_live_before(nodes, m, r);
                &&& -1 <= l < r <= nodes.len()
                &&& final(self).wf(*final(mem))
                &&& final(self).nodes() == nodes.subrange(0, l + 1) + nodes.subrange(
                    r,
                    nodes.len() as int,
                )
                &&& res.1@ == (if r < nodes.len() {
                    nodes[r]
                } else {
                    NULL_PTR
                })
                &&& res.0 == (if l < 0 {
                    None
                } else {
                    Some(nodes[l])
                })
                &&& final(mem).base() == m.base()
                &&& forall|x: usize|
                    (l < 0 || x != nodes[l]) ==> #[trigger] final(mem).word(x) == m.word(x)
                &&& l >= 0 ==> !has_mark(final(mem).word(nodes[l]))
                &&& r < nodes.len() ==> !marked_at(nodes, m, r)
                &&& forall|i: int| l < i < r ==> marked_at(nodes, m, i)
                &&& final(self).view(*final(mem)) == old(self).view(m)
            }),
    {
        self.search(mem, Some(item))
    }

    /// An empty list.
    pub fn new() -> (r: LinkedList)
        ensures
            r.nodes() == Seq::<usize>::empty(),
            forall|mem: Memory| mem.wf() ==> r.wf(mem),
    {
        let r = LinkedList { head: NULL_PTR, nodes: Ghost(Seq::empty()) };
        assert forall|mem: Memory| mem.wf() implies r.wf(mem) by {
            reveal(nodes_ok);
        reveal(headers_apart);
        reveal(links_ok);
        }
        r
    }
}

/// Each pushed element is taken out by exactly one call: after `push(item)`
/// turns `l0` into `l1`, `pop` would return `item` and `delete(item)` finds it;
/// once a `delete(item)` has turned `l1` into `l2`, the list is as before the
/// push and a further `delete(item)` finds nothing.
pub proof fn lemma_delete_exactly_once(
    l0: LinkedList,
    m0: Memory,
    l1: LinkedList,
    m1: Memory,
    l2: LinkedList,
    m2: Memory,
    item: usize,
)
    requires
        !l0.view(m0).contains(item),
        l1.view(m1) == seq![item] + l0.view(m0),
        l2.view(m2) == l1.view(m1).remove_value(item),
    ensures
        l1.view(m1)[0] == item,
        l1.view(m1).contains(item),
        l2.view(m2) == l0.view(m0),
        !l2.view(m2).contains(item),
{
    let v0 = l0.view(m0);
    let v1 = l1.view(m1);
    assert(v1[0] == item);
    v1.index_of_first_ensures(item);
    let i = v1.index_of_first(item)->0;
    assert(i == 0);
    assert(v1.remove(0) =~= v0);
}

} // verus!
