use vstd::prelude::*;

use crate::arena::{ArenaView, INVALID_INDEX};
use crate::node::{active, Node, NodeBuffer, NodeStatus};

verus! {

/// A node reached by the traversal, with the node it was reached from (the sentinel for
/// a root).
#[derive(Clone, Copy, Debug, PartialEq, Eq, Structural)]
pub struct Visit {
    pub node: u32,
    pub from: u32,
}

/// A root: an active node (allocated and not garbage, the rule the growth pass uses too)
/// without a parent.
pub open spec fn is_root(v: ArenaView<Node>, i: u32) -> bool {
    active(v, i) && v.slots[i as int].parent == INVALID_INDEX
}

/// `c` is an active child of the active node `p`.
pub open spec fn child_edge(v: ArenaView<Node>, p: u32, c: u32) -> bool {
    &&& active(v, p)
    &&& c != INVALID_INDEX
    &&& active(v, c)
    &&& (v.slots[p as int].left_child == c || v.slots[p as int].right_child == c)
}

/// `i` is reached from some root in at most `k` child steps.
pub open spec fn reach_within(v: ArenaView<Node>, i: u32, k: nat) -> bool
    decreases k,
{
    is_root(v, i) || (k > 0 && exists|p: u32| #[trigger] child_edge(v, p, i) && reach_within(v, p, (k - 1) as nat))
}

pub open spec fn reachable(v: ArenaView<Node>, i: u32) -> bool {
    exists|k: nat| reach_within(v, i, k)
}

pub open spec fn visited(s: Seq<Visit>, i: u32) -> bool {
    exists|t: int| 0 <= t < s.len() && #[trigger] s[t].node == i
}

pub open spec fn distinct_nodes(s: Seq<Visit>) -> bool {
    forall|a: int, b: int| 0 <= a < s.len() && 0 <= b < s.len() && a != b ==> s[a].node != s[b].node
}

/// Each entry is a root reached from nowhere, or a child of an earlier entry.
pub open spec fn entries_justified(v: ArenaView<Node>, s: Seq<Visit>) -> bool {
    forall|t: int|
        0 <= t < s.len() ==> {
            &&& (#[trigger] s[t]).from == INVALID_INDEX ==> is_root(v, s[t].node)
            &&& s[t].from != INVALID_INDEX ==> child_edge(v, s[t].from, s[t].node) && exists|u: int|
                0 <= u < t && s[u].node == s[t].from
        }
}

/// A depth-first visit order of the forest: no node twice, every entry justified, every
/// root present, and with each entry all its in-use children.
pub open spec fn is_traversal(v: ArenaView<Node>, s: Seq<Visit>) -> bool {
    &&& distinct_nodes(s)
    &&& entries_justified(v, s)
    &&& forall|i: u32| is_root(v, i) ==> visited(s, i)
    &&& forall|t: int, c: u32| 0 <= t < s.len() && #[trigger] child_edge(v, s[t].node, c) ==> visited(s, c)
}

/// Entries reached from nowhere come in increasing index order.
pub open spec fn roots_in_order(s: Seq<Visit>) -> bool {
    forall|t1: int, t2: int|
        0 <= t1 < t2 < s.len() && (#[trigger] s[t1]).from == INVALID_INDEX && (#[trigger] s[t2]).from
            == INVALID_INDEX ==> s[t1].node < s[t2].node
}

/// `e` was reached as the left child of the node it came from.
pub open spec fn is_left_of(v: ArenaView<Node>, e: Visit) -> bool {
    e.from != INVALID_INDEX && v.in_range(e.from) && e.node == v.slots[e.from as int].left_child
}

/// `e` was reached as the right child, and only the right child, of the node it came from.
pub open spec fn is_right_of(v: ArenaView<Node>, e: Visit) -> bool {
    &&& e.from != INVALID_INDEX
    &&& v.in_range(e.from)
    &&& e.node == v.slots[e.from as int].right_child
    &&& e.node != v.slots[e.from as int].left_child
}

/// The left child of a node comes before its right child.
pub open spec fn left_before_right(v: ArenaView<Node>, s: Seq<Visit>) -> bool {
    forall|t1: int, t2: int|
        0 <= t1 < s.len() && 0 <= t2 < s.len() && s[t1].from == s[t2].from && is_left_of(v, #[trigger] s[t1])
            && is_right_of(v, #[trigger] s[t2]) ==> t1 < t2
}

/// On the stack, a right child waits below the left child of the same node.
pub open spec fn right_below_left(v: ArenaView<Node>, s: Seq<Visit>) -> bool {
    forall|k1: int, k2: int|
        0 <= k1 < s.len() && 0 <= k2 < s.len() && s[k1].from == s[k2].from && is_right_of(v, #[trigger] s[k1])
            && is_left_of(v, #[trigger] s[k2]) ==> k1 < k2
}

/// No right child has been visited while the left child of the same node still waits.
pub open spec fn no_pending_left(v: ArenaView<Node>, out: Seq<Visit>, stack: Seq<Visit>) -> bool {
    forall|t: int, k: int|
        0 <= t < out.len() && 0 <= k < stack.len() && out[t].from == stack[k].from && is_right_of(
            v,
            #[trigger] out[t],
        ) ==> !is_left_of(v, #[trigger] stack[k])
}

/// Position of the entry that entry `w` was reached from.
pub open spec fn from_pos(s: Seq<Visit>, w: int) -> int {
    choose|u: int| 0 <= u < w && s[u].node == s[w].from
}

/// Position of node `i` among the entries.
pub open spec fn pos_in(s: Seq<Visit>, i: u32) -> int {
    choose|u: int| 0 <= u < s.len() && s[u].node == i
}

/// Entry `w` lies in the subtree entered at entry `u`: following the entries each was
/// reached from leads from `w` to `u`.
pub open spec fn descends(s: Seq<Visit>, w: int, u: int) -> bool
    decreases w,
{
    if w <= u {
        w == u
    } else if s[w].from == INVALID_INDEX || !(0 <= from_pos(s, w) < w) {
        false
    } else {
        descends(s, from_pos(s, w), u)
    }
}

/// Every entry between a node and any child reached from it lies in that node's
/// subtree: subtrees are visited without interruption.
pub open spec fn subtrees_contiguous(s: Seq<Visit>) -> bool {
    forall|t: int, w: int|
        #![trigger from_pos(s, t), s[w]]
        0 <= t < s.len() && s[t].from != INVALID_INDEX && from_pos(s, t) < w < t ==> descends(s, w, from_pos(s, t))
}

/// The stack waits on entries in the order a depth-first walk meets them: a root only at
/// the bottom, the origins of waiting entries visited in stack order, and everything
/// visited since an origin lying in that origin's subtree.
pub open spec fn stack_in_order(out: Seq<Visit>, stack: Seq<Visit>) -> bool {
    &&& forall|k: int| 0 <= k < stack.len() && (#[trigger] stack[k]).from == INVALID_INDEX ==> k == 0
    &&& forall|k: int, w: int|
        #![trigger stack[k], out[w]]
        0 <= k < stack.len() && stack[k].from != INVALID_INDEX && pos_in(out, stack[k].from) < w < out.len()
            ==> descends(out, w, pos_in(out, stack[k].from))
    &&& forall|k1: int, k2: int|
        #![trigger stack[k1], stack[k2]]
        0 <= k1 < k2 < stack.len() && stack[k1].from != INVALID_INDEX ==> pos_in(out, stack[k1].from) <= pos_in(
            out,
            stack[k2].from,
        )
}

proof fn lemma_from_pos(v: ArenaView<Node>, s: Seq<Visit>, w: int)
    requires
        distinct_nodes(s),
        entries_justified(v, s),
        0 <= w < s.len(),
        s[w].from != INVALID_INDEX,
    ensures
        0 <= from_pos(s, w) < w,
        s[from_pos(s, w)].node == s[w].from,
        forall|u: int| 0 <= u < s.len() && s[u].node == s[w].from ==> u == from_pos(s, w),
{
    assert(s[w] == s[w]);
}

proof fn lemma_pos_in(s: Seq<Visit>, i: u32)
    requires
        distinct_nodes(s),
        visited(s, i),
    ensures
        0 <= pos_in(s, i) < s.len(),
        s[pos_in(s, i)].node == i,
        forall|u: int| 0 <= u < s.len() && s[u].node == i ==> u == pos_in(s, i),
{
}

/// Appending an entry changes neither where earlier entries came from nor their subtrees.
proof fn lemma_descends_extend(v: ArenaView<Node>, s: Seq<Visit>, x: Visit, w: int, u: int)
    requires
        distinct_nodes(s.push(x)),
        entries_justified(v, s.push(x)),
        0 <= w < s.len(),
    ensures
        descends(s.push(x), w, u) == descends(s, w, u),
        s[w].from != INVALID_INDEX ==> from_pos(s.push(x), w) == from_pos(s, w),
    decreases w,
{
    let s2 = s.push(x);
    assert(distinct_nodes(s)) by {
        assert forall|a: int, b: int| 0 <= a < s.len() && 0 <= b < s.len() && a != b implies s[a].node != s[b].node by {
            assert(s2[a] == s[a] && s2[b] == s[b]);
        }
    }
    assert(entries_justified(v, s)) by {
        assert forall|t: int| 0 <= t < s.len() implies {
            &&& (#[trigger] s[t]).from == INVALID_INDEX ==> is_root(v, s[t].node)
            &&& s[t].from != INVALID_INDEX ==> child_edge(v, s[t].from, s[t].node) && exists|q: int|
                0 <= q < t && s[q].node == s[t].from
        } by {
            assert(s2[t] == s[t]);
            if s[t].from != INVALID_INDEX {
                let q = choose|q: int| 0 <= q < t && s2[q].node == s2[t].from;
                assert(s2[q] == s[q]);
            }
        }
    }
    if s[w].from != INVALID_INDEX {
        assert(s2[w] == s[w]);
        lemma_from_pos(v, s2, w);
        lemma_from_pos(v, s, w);
        assert(s2[from_pos(s, w)] == s[from_pos(s, w)]);
        if w > u {
            lemma_descends_extend(v, s, x, from_pos(s, w), u);
        }
    }
}

/// Moving the top of the stack to the end of the visit list keeps subtrees contiguous and
/// the stack in depth-first order.
proof fn lemma_pop_order(v: ArenaView<Node>, o0: Seq<Visit>, s0: Seq<Visit>)
    requires
        s0.len() > 0,
        distinct_nodes(o0.push(s0.last())),
        entries_justified(v, o0.push(s0.last())),
        distinct_nodes(o0),
        subtrees_contiguous(o0),
        stack_in_order(o0, s0),
        forall|t: int| 0 <= t < s0.len() && (#[trigger] s0[t]).from != INVALID_INDEX ==> visited(o0, s0[t].from),
    ensures
        subtrees_contiguous(o0.push(s0.last())),
        stack_in_order(o0.push(s0.last()), s0.drop_last()),
{
    let top = s0.last();
    let o1 = o0.push(top);
    let s1 = s0.drop_last();
    let n = o0.len() as int;
    let lt = s0.len() - 1;
    assert forall|w: int, u: int| 0 <= w < n implies #[trigger] descends(o1, w, u) == descends(o0, w, u)
        && (o0[w].from != INVALID_INDEX ==> from_pos(o1, w) == from_pos(o0, w)) by {
        lemma_descends_extend(v, o0, top, w, u);
    }
    assert forall|k: int| 0 <= k < s0.len() && (#[trigger] s0[k]).from != INVALID_INDEX implies pos_in(o1, s0[k].from)
        == pos_in(o0, s0[k].from) && 0 <= pos_in(o0, s0[k].from) < n by {
        lemma_pos_in(o0, s0[k].from);
        let q = pos_in(o0, s0[k].from);
        assert(o1[q] == o0[q]);
        lemma_pos_in(o1, s0[k].from);
    }
    if top.from != INVALID_INDEX {
        let u = pos_in(o0, top.from);
        lemma_pos_in(o0, top.from);
        assert(o1[u] == o0[u]);
        lemma_from_pos(v, o1, n);
        assert(from_pos(o1, n) == u);
    }
    assert forall|t: int, w: int|
        #![trigger from_pos(o1, t), o1[w]]
        0 <= t < o1.len() && o1[t].from != INVALID_INDEX && from_pos(o1, t) < w < t implies descends(
            o1,
            w,
            from_pos(o1, t),
        ) by {
        if t < n {
            assert(o1[t] == o0[t]);
            assert(descends(o0, w, from_pos(o0, t)));
        } else {
            assert(s0[lt] == top);
            lemma_pos_in(o0, top.from);
            assert(o1[pos_in(o0, top.from)] == o0[pos_in(o0, top.from)]);
            assert(o1[n] == top);
            assert(t == n);
            lemma_from_pos(v, o1, n);
            assert(from_pos(o1, n) == pos_in(o0, top.from));
            assert(pos_in(o0, s0[lt].from) < w < o0.len());
            assert(o0[w] == o1[w]);
            assert(descends(o0, w, pos_in(o0, s0[lt].from)));
        }
    }
    assert forall|k: int, w: int|
        #![trigger s1[k], o1[w]]
        0 <= k < s1.len() && s1[k].from != INVALID_INDEX && pos_in(o1, s1[k].from) < w < o1.len()
            implies descends(o1, w, pos_in(o1, s1[k].from)) by {
        assert(s1[k] == s0[k]);
        let u2 = pos_in(o0, s0[k].from);
        assert(u2 == pos_in(o1, s1[k].from));
        if w < n {
            assert(o0[w] == o1[w]);
            assert(descends(o0, w, u2));
            assert(descends(o1, w, u2) == descends(o0, w, u2));
        } else {
            assert(s0[lt] == top);
            assert(top.from != INVALID_INDEX);
            let u = pos_in(o0, top.from);
            lemma_pos_in(o0, top.from);
            assert(o1[u] == o0[u]);
            assert(o1[n] == top);
            lemma_from_pos(v, o1, n);
            assert(from_pos(o1, n) == u);
            assert(u2 <= u);
            if u2 < u {
                assert(o0[u] == o1[u]);
                assert(descends(o0, u, u2));
                assert(descends(o1, u, u2) == descends(o0, u, u2));
            }
            assert(descends(o1, n, u2) == descends(o1, u, u2));
        }
    }
    assert forall|k1: int, k2: int|
        #![trigger s1[k1], s1[k2]]
        0 <= k1 < k2 < s1.len() && s1[k1].from != INVALID_INDEX implies pos_in(o1, s1[k1].from) <= pos_in(
            o1,
            s1[k2].from,
        ) by {
        assert(s1[k1] == s0[k1] && s1[k2] == s0[k2]);
        assert(s0[k2].from != INVALID_INDEX);
    }
    assert forall|k: int| 0 <= k < s1.len() && (#[trigger] s1[k]).from == INVALID_INDEX implies k == 0 by {
        assert(s1[k] == s0[k]);
    }
}

/// Children pushed while visiting the last entry keep the stack in depth-first order.
proof fn lemma_push_order(o1: Seq<Visit>, s1: Seq<Visit>, s3: Seq<Visit>, p: u32)
    requires
        o1.len() > 0,
        o1.last().node == p,
        distinct_nodes(o1),
        stack_in_order(o1, s1),
        forall|t: int| 0 <= t < s1.len() && (#[trigger] s1[t]).from != INVALID_INDEX ==> visited(o1, s1[t].from),
        s1.len() <= s3.len(),
        forall|t: int| 0 <= t < s1.len() ==> s3[t] == s1[t],
        forall|t: int| s1.len() <= t < s3.len() ==> (#[trigger] s3[t]).from == p,
        p != INVALID_INDEX,
    ensures
        stack_in_order(o1, s3),
{
    let n = o1.len() - 1;
    assert(o1[n].node == p);
    lemma_pos_in(o1, p);
    assert(pos_in(o1, p) == n);
    assert forall|t: int| s1.len() <= t < s3.len() implies (#[trigger] s3[t]).from == p by {}
    assert forall|k: int| 0 <= k < s1.len() && (#[trigger] s1[k]).from != INVALID_INDEX implies 0 <= pos_in(o1, s1[k].from)
        <= n by {
        lemma_pos_in(o1, s1[k].from);
    }
    assert forall|k: int, w: int|
        #![trigger s3[k], o1[w]]
        0 <= k < s3.len() && s3[k].from != INVALID_INDEX && pos_in(o1, s3[k].from) < w < o1.len()
            implies descends(o1, w, pos_in(o1, s3[k].from)) by {
        if k < s1.len() {
            assert(s3[k] == s1[k]);
        }
    }
    assert forall|k1: int, k2: int|
        #![trigger s3[k1], s3[k2]]
        0 <= k1 < k2 < s3.len() && s3[k1].from != INVALID_INDEX implies pos_in(o1, s3[k1].from) <= pos_in(
            o1,
            s3[k2].from,
        ) by {
        if k2 < s1.len() {
            assert(s3[k1] == s1[k1] && s3[k2] == s1[k2]);
        } else if k1 < s1.len() {
            assert(s3[k1] == s1[k1]);
        }
    }
    assert forall|k: int| 0 <= k < s3.len() && (#[trigger] s3[k]).from == INVALID_INDEX implies k == 0 by {
        if k < s1.len() {
            assert(s3[k] == s1[k]);
        }
    }
}

proof fn lemma_reach_mono(v: ArenaView<Node>, i: u32, k: nat, m: nat)
    requires
        reach_within(v, i, k),
        k <= m,
    ensures
        reach_within(v, i, m),
    decreases k,
{
    if !is_root(v, i) {
        let p = choose|p: u32| #[trigger] child_edge(v, p, i) && reach_within(v, p, (k - 1) as nat);
        lemma_reach_mono(v, p, (k - 1) as nat, (m - 1) as nat);
    }
}

proof fn lemma_visited_reachable(v: ArenaView<Node>, s: Seq<Visit>, t: int)
    requires
        entries_justified(v, s),
        0 <= t < s.len(),
    ensures
        reach_within(v, s[t].node, t as nat),
    decreases t,
{
    if s[t].from != INVALID_INDEX {
        let u = choose|u: int| 0 <= u < t && s[u].node == s[t].from;
        lemma_visited_reachable(v, s, u);
        lemma_reach_mono(v, s[u].node, u as nat, (t - 1) as nat);
        assert(child_edge(v, s[u].node, s[t].node));
    }
}

proof fn lemma_reachable_visited(v: ArenaView<Node>, s: Seq<Visit>, i: u32, k: nat)
    requires
        is_traversal(v, s),
        reach_within(v, i, k),
    ensures
        visited(s, i),
    decreases k,
{
    if !is_root(v, i) {
        let p = choose|p: u32| #[trigger] child_edge(v, p, i) && reach_within(v, p, (k - 1) as nat);
        lemma_reachable_visited(v, s, p, (k - 1) as nat);
        let t = choose|t: int| 0 <= t < s.len() && #[trigger] s[t].node == p;
        assert(child_edge(v, s[t].node, i));
    }
}

/// A traversal visits exactly the in-use nodes reachable from a root, each once; garbage
/// is never visited.
pub proof fn lemma_traversal_complete(v: ArenaView<Node>, s: Seq<Visit>)
    requires
        is_traversal(v, s),
    ensures
        forall|i: u32| visited(s, i) <==> reachable(v, i),
        forall|a: int, b: int| 0 <= a < s.len() && 0 <= b < s.len() && s[a].node == s[b].node ==> a == b,
        forall|t: int| 0 <= t < s.len() ==> v.slots[s[t].node as int].status != NodeStatus::Garbage,
{
    assert forall|i: u32| visited(s, i) <==> reachable(v, i) by {
        if visited(s, i) {
            let t = choose|t: int| 0 <= t < s.len() && #[trigger] s[t].node == i;
            lemma_visited_reachable(v, s, t);
        }
        if reachable(v, i) {
            let k = choose|k: nat| reach_within(v, i, k);
            lemma_reachable_visited(v, s, i, k);
        }
    }
    assert forall|t: int| 0 <= t < s.len() implies v.slots[s[t].node as int].status != NodeStatus::Garbage by {
        assert(s[t] == s[t]);
    }
}

/// A sequence of distinct indices below `cap` has at most `cap` entries.
proof fn lemma_distinct_bound(s: Seq<Visit>, cap: nat)
    requires
        distinct_nodes(s),
        forall|t: int| 0 <= t < s.len() ==> (#[trigger] s[t].node as nat) < cap,
    ensures
        s.len() <= cap,
{
    let m = s.map_values(|x: Visit| x.node as int);
    let range = vstd::set_lib::set_int_range(0, cap as int);
    vstd::set_lib::lemma_int_range(0, cap as int);
    assert(m.no_duplicates()) by {
        assert forall|a: int, b: int| 0 <= a < m.len() && 0 <= b < m.len() && a != b implies m[a] != m[b] by {
            assert(s[a].node != s[b].node);
        }
    }
    m.unique_seq_to_set();
    assert forall|x: int| m.to_set().contains(x) implies range.contains(x) by {
        let k = choose|k: int| 0 <= k < m.len() && m[k] == x;
        assert((s[k].node as nat) < cap);
    }
    vstd::set_lib::lemma_len_subset(m.to_set(), range);
}

/// The state of the traversal loop: `marked` holds exactly the nodes that are visited or
/// waiting on the stack, the stack waits only on justified entries whose origin is
/// visited, every visited node has its children marked, and every root below `r` is
/// marked.
pub open spec fn loop_state(v: ArenaView<Node>, out: Seq<Visit>, stack: Seq<Visit>, marked: Seq<bool>, r: int) -> bool {
    &&& marked.len() == v.capacity
    &&& forall|j: u32| v.in_range(j) ==> (#[trigger] marked[j as int] <==> (visited(out, j) || visited(stack, j)))
    &&& distinct_nodes(out)
    &&& distinct_nodes(stack)
    &&& forall|a: int, b: int| 0 <= a < out.len() && 0 <= b < stack.len() ==> out[a].node != stack[b].node
    &&& entries_justified(v, out)
    &&& forall|t: int|
        0 <= t < stack.len() ==> {
            &&& v.in_range((#[trigger] stack[t]).node)
            &&& stack[t].from == INVALID_INDEX ==> is_root(v, stack[t].node)
            &&& stack[t].from != INVALID_INDEX ==> child_edge(v, stack[t].from, stack[t].node) && visited(
                out,
                stack[t].from,
            )
        }
    &&& forall|t: int| 0 <= t < out.len() ==> v.in_range((#[trigger] out[t]).node)
    &&& forall|t: int, c: u32| 0 <= t < out.len() && #[trigger] child_edge(v, out[t].node, c) ==> marked[c as int]
    &&& forall|i: u32| 0 <= i < r && #[trigger] is_root(v, i) ==> marked[i as int]
}

impl NodeBuffer {
    /// Queues `c`, reached from `p`, unless it is the sentinel, out of range, garbage or
    /// already marked.
    fn push_child(&self, c: u32, p: u32, marked: &mut Vec<bool>, stack: &mut Vec<Visit>)
        requires
            self.wf(),
            old(marked)@.len() == self@.capacity,
        ensures
            ({
                let fresh = c != INVALID_INDEX && active(self@, c) && !old(marked)@[c as int];
                &&& fresh ==> final(marked)@ == old(marked)@.update(c as int, true) && final(stack)@ == old(
                    stack,
                )@.push(Visit { node: c, from: p })
                &&& !fresh ==> final(marked)@ == old(marked)@ && final(stack)@ == old(stack)@
            }),
    {
        if c != INVALID_INDEX && c < self.size() {
            let n = self.get(c);
            if !self.is_free(c) && n.status != NodeStatus::Garbage && !marked[c as usize] {
                marked.set(c as usize, true);
                stack.push(Visit { node: c, from: p });
            }
        }
    }

    /// The nodes reachable from the roots, in depth-first order: roots by index, then
    /// each node before its left subtree and its left subtree before its right one. Each
    /// comes with the node it was reached from, which precedes it.
    pub fn visit_order(&self) -> (r: Vec<Visit>)
        requires
            self.wf(),
        ensures
            is_traversal(self@, r@),
            roots_in_order(r@),
            left_before_right(self@, r@),
            subtrees_contiguous(r@),
    {
        proof {
            self.lemma_wf();
        }
        let ghost v = self@;
        let cap = self.size();
        let mut marked: Vec<bool> = Vec::new();
        let mut k: u32 = 0;
        while k < cap
            invariant
                k <= cap,
                marked@ == Seq::new(k as nat, |q: int| false),
            decreases cap - k,
        {
            marked.push(false);
            k = k + 1;
            assert(marked@ =~= Seq::new(k as nat, |q: int| false));
        }
        let mut out: Vec<Visit> = Vec::new();
        let mut stack: Vec<Visit> = Vec::new();
        let mut r: u32 = 0;
        while r < cap
            invariant
                self.wf(),
                v == self@,
                v.wf(),
                cap == v.capacity,
                r <= cap,
                stack@.len() == 0,
                loop_state(v, out@, stack@, marked@, r as int),
                roots_in_order(out@),
                left_before_right(v, out@),
                subtrees_contiguous(out@),
                forall|t: int| 0 <= t < out@.len() && (#[trigger] out@[t]).from == INVALID_INDEX ==> out@[t].node < r,
            decreases cap - r,
        {
            let n = self.get(r);
            if !self.is_free(r) && n.status != NodeStatus::Garbage && n.parent == INVALID_INDEX && !marked[r as usize] {
                let ghost m0 = marked@;
                let ghost s0 = stack@;
                marked.set(r as usize, true);
                stack.push(Visit { node: r, from: INVALID_INDEX });
                proof {
                    assert forall|j: u32| v.in_range(j) implies (#[trigger] marked@[j as int] <==> (visited(out@, j)
                        || visited(stack@, j))) by {
                        if j == r {
                            assert(stack@[0].node == r);
                        } else {
                            assert(marked@[j as int] == m0[j as int]);
                            if visited(stack@, j) {
                                let t = choose|t: int| 0 <= t < stack@.len() && #[trigger] stack@[t].node == j;
                                assert(t == 0);
                            }
                        }
                    }
                    assert forall|a: int, b: int| 0 <= a < out@.len() && 0 <= b < stack@.len() implies out@[a].node
                        != stack@[b].node by {
                        assert(b == 0);
                        if out@[a].node == r {
                            assert(visited(out@, r));
                        }
                    }
                }
            }
            assert(loop_state(v, out@, stack@, marked@, r as int + 1)) by {
                assert forall|i: u32| 0 <= i < r + 1 && #[trigger] is_root(v, i) implies marked@[i as int] by {
                    if i == r {
                    }
                }
            }
            proof {
                lemma_distinct_bound(out@, v.capacity);
            }
            while stack.len() > 0
                invariant
                    self.wf(),
                    v == self@,
                    v.wf(),
                    cap == v.capacity,
                    r < cap,
                    loop_state(v, out@, stack@, marked@, r as int + 1),
                    out@.len() <= cap,
                    roots_in_order(out@),
                    left_before_right(v, out@),
                    right_below_left(v, stack@),
                    subtrees_contiguous(out@),
                    stack_in_order(out@, stack@),
                    no_pending_left(v, out@, stack@),
                    forall|t: int| 0 <= t < out@.len() && (#[trigger] out@[t]).from == INVALID_INDEX ==> out@[t].node <= r,
                    forall|k: int| 0 <= k < stack@.len() && (#[trigger] stack@[k]).from == INVALID_INDEX ==> stack@[k].node == r,
                decreases cap - out@.len(),
            {
                let ghost o0 = out@;
                let ghost s0 = stack@;
                let ghost m0 = marked@;
                let top = match stack.pop() {
                    Some(t) => t,
                    None => Visit { node: INVALID_INDEX, from: INVALID_INDEX },
                };
                assert(top == s0.last());
                assert(stack@ =~= s0.drop_last());
                out.push(top);
                let ghost s1 = stack@;
                let ghost o1 = out@;
                proof {
                    let lt = s0.len() - 1;
                    assert(s0[lt] == top);
                    assert forall|a: int, b: int| 0 <= a < o1.len() && 0 <= b < o1.len() && a != b implies o1[a].node
                        != o1[b].node by {
                        if a < o0.len() && b < o0.len() {
                        } else if a < o0.len() {
                            assert(o0[a].node != s0[lt].node);
                        } else {
                            assert(o0[b].node != s0[lt].node);
                        }
                    }
                    assert forall|t: int| 0 <= t < o1.len() implies v.in_range((#[trigger] o1[t]).node) by {
                        if t == o0.len() {
                            assert(v.in_range(s0[lt].node));
                        }
                    }
                    lemma_distinct_bound(o1, v.capacity);
                    assert(entries_justified(v, o1)) by {
                        assert forall|t: int| 0 <= t < o1.len() implies {
                            &&& (#[trigger] o1[t]).from == INVALID_INDEX ==> is_root(v, o1[t].node)
                            &&& o1[t].from != INVALID_INDEX ==> child_edge(v, o1[t].from, o1[t].node) && exists|u: int|
                                0 <= u < t && o1[u].node == o1[t].from
                        } by {
                            if t < o0.len() {
                                assert(o1[t] == o0[t]);
                                if o1[t].from != INVALID_INDEX {
                                    let u = choose|u: int| 0 <= u < t && o0[u].node == o0[t].from;
                                    assert(o1[u] == o0[u]);
                                }
                            } else {
                                assert(o1[t] == s0[lt]);
                                if s0[lt].from != INVALID_INDEX {
                                    assert(visited(o0, s0[lt].from));
                                    let u = choose|u: int| 0 <= u < o0.len() && #[trigger] o0[u].node == s0[lt].from;
                                    assert(o1[u] == o0[u]);
                                }
                            }
                        }
                    }
                }
                proof {
                    assert(o1 =~= o0.push(top));
                    assert(s1 =~= s0.drop_last());
                    lemma_pop_order(v, o0, s0);
                }
                let m = self.get(top.node);
                self.push_child(m.right_child, top.node, &mut marked, &mut stack);
                let ghost s2 = stack@;
                let ghost m2 = marked@;
                self.push_child(m.left_child, top.node, &mut marked, &mut stack);
                proof {
                    let s3 = stack@;
                    assert forall|t: int| 0 <= t < s1.len() implies s3[t] == s1[t] by {
                        assert(s2[t] == s1[t]);
                    }
                    assert forall|t: int| s1.len() <= t < s3.len() implies (#[trigger] s3[t]).from == top.node by {
                        if t < s2.len() {
                            assert(s2[t].from == top.node);
                        }
                    }
                    assert forall|t: int| 0 <= t < s1.len() && (#[trigger] s1[t]).from != INVALID_INDEX implies visited(
                        o1,
                        s1[t].from,
                    ) by {
                        assert(s1[t] == s0[t]);
                        let u = choose|u: int| 0 <= u < o0.len() && #[trigger] o0[u].node == s0[t].from;
                        assert(o1[u] == o0[u]);
                    }
                    assert(v.in_range(top.node));
                    lemma_push_order(o1, s1, s3, top.node);
                }
                proof {
                    let s3 = stack@;
                    let m3 = marked@;
                    let lt = s0.len() - 1;
                    let p = top.node;
                    // Stack entries: the old ones below, then at most two fresh children of `p`.
                    assert(s3.len() >= s1.len());
                    assert forall|t: int| 0 <= t < s1.len() implies s3[t] == s1[t] by {
                        assert(s2[t] == s1[t]);
                    }
                    assert forall|t: int| s1.len() <= t < s3.len() implies s3[t].from == p && (#[trigger] s3[t]).node
                        != INVALID_INDEX && active(v, s3[t].node) && (s3[t].node == m.left_child || s3[t].node == m.right_child)
                        && !m0[s3[t].node as int] && m3[s3[t].node as int] by {}
                    assert(s3.len() == s1.len() + 2 ==> s3[s1.len() as int].node != s3[s1.len() as int + 1].node);
                    assert(visited(o1, p)) by {
                        assert(o1[o0.len() as int].node == p);
                    }
                    assert(v.slots[p as int].status != NodeStatus::Garbage) by {
                        if s0[lt].from == INVALID_INDEX {
                        } else {
                        }
                    }
                    // Marks change only at fresh children.
                    assert forall|j: u32| v.in_range(j) implies (#[trigger] m3[j as int] <==> (visited(o1, j) || visited(
                        s3,
                        j,
                    ))) by {
                        let fresh = exists|t: int| s1.len() <= t < s3.len() && #[trigger] s3[t].node == j;
                        if fresh {
                            let t = choose|t: int| s1.len() <= t < s3.len() && #[trigger] s3[t].node == j;
                            assert(visited(s3, j));
                        } else {
                            assert(m3[j as int] == m0[j as int]) by {
                                if m2[j as int] != m0[j as int] {
                                    assert(s2[s1.len() as int].node == j);
                                    assert(s3[s1.len() as int] == s2[s1.len() as int]);
                                }
                                if m3[j as int] != m2[j as int] {
                                    assert(s3[s2.len() as int].node == j);
                                }
                            }
                            if visited(o1, j) {
                                let t = choose|t: int| 0 <= t < o1.len() && #[trigger] o1[t].node == j;
                                if t < o0.len() {
                                    assert(o0[t].node == j);
                                } else {
                                    assert(s0[lt].node == j);
                                }
                            }
                            if visited(s3, j) {
                                let t = choose|t: int| 0 <= t < s3.len() && #[trigger] s3[t].node == j;
                                assert(t < s1.len());
                                assert(s0[t].node == j);
                            }
                            if m0[j as int] {
                                if visited(o0, j) {
                                    let t = choose|t: int| 0 <= t < o0.len() && #[trigger] o0[t].node == j;
                                    assert(o1[t].node == j);
                                } else {
                                    let t = choose|t: int| 0 <= t < s0.len() && #[trigger] s0[t].node == j;
                                    if t == lt {
                                        assert(o1[o0.len() as int].node == j);
                                    } else {
                                        assert(s3[t].node == j);
                                    }
                                }
                            }
                        }
                    }
                    assert forall|a: int, b: int| 0 <= a < s3.len() && 0 <= b < s3.len() && a != b implies s3[a].node
                        != s3[b].node by {
                        if a < s1.len() && b < s1.len() {
                            assert(s0[a].node != s0[b].node);
                        } else if a < s1.len() {
                            assert(m0[s0[a].node as int]) by {
                                assert(visited(s0, s0[a].node));
                            }
                        } else if b < s1.len() {
                            assert(m0[s0[b].node as int]) by {
                                assert(visited(s0, s0[b].node));
                            }
                        }
                    }
                    assert forall|a: int, b: int| 0 <= a < o1.len() && 0 <= b < s3.len() implies o1[a].node
                        != s3[b].node by {
                        if b < s1.len() {
                            if a < o0.len() {
                                assert(o0[a].node != s0[b].node);
                            } else {
                                assert(s0[lt].node != s0[b].node);
                            }
                        } else {
                            if a < o0.len() {
                                assert(m0[o0[a].node as int]) by {
                                    assert(visited(o0, o0[a].node));
                                }
                            } else {
                                assert(m0[s0[lt].node as int]) by {
                                    assert(visited(s0, s0[lt].node));
                                }
                            }
                        }
                    }
                    assert forall|t: int| 0 <= t < s3.len() implies {
                        &&& v.in_range((#[trigger] s3[t]).node)
                        &&& s3[t].from == INVALID_INDEX ==> is_root(v, s3[t].node)
                        &&& s3[t].from != INVALID_INDEX ==> child_edge(v, s3[t].from, s3[t].node) && visited(
                            o1,
                            s3[t].from,
                        )
                    } by {
                        if t < s1.len() {
                            assert(s3[t] == s0[t]);
                            if s0[t].from != INVALID_INDEX {
                                let u = choose|u: int| 0 <= u < o0.len() && #[trigger] o0[u].node == s0[t].from;
                                assert(o1[u].node == s0[t].from);
                            }
                        } else {
                            assert(child_edge(v, p, s3[t].node));
                        }
                    }
                    assert forall|t: int, c: u32| 0 <= t < o1.len() && #[trigger] child_edge(v, o1[t].node, c) implies m3[c
                        as int] by {
                        if t < o0.len() {
                            assert(o1[t] == o0[t]);
                            assert(m0[c as int]);
                            if visited(o0, c) {
                                let u = choose|u: int| 0 <= u < o0.len() && #[trigger] o0[u].node == c;
                                assert(o1[u].node == c);
                            } else {
                                let u = choose|u: int| 0 <= u < s0.len() && #[trigger] s0[u].node == c;
                                if u == lt {
                                    assert(o1[o0.len() as int].node == c);
                                } else {
                                    assert(s3[u].node == c);
                                }
                            }
                        } else {
                            assert(o1[t].node == p);
                        }
                    }
                    assert forall|i: u32| 0 <= i < r + 1 && #[trigger] is_root(v, i) implies m3[i as int] by {
                        assert(m0[i as int]);
                        if visited(o0, i) {
                            let u = choose|u: int| 0 <= u < o0.len() && #[trigger] o0[u].node == i;
                            assert(o1[u].node == i);
                        } else {
                            let u = choose|u: int| 0 <= u < s0.len() && #[trigger] s0[u].node == i;
                            if u == lt {
                                assert(o1[o0.len() as int].node == i);
                            } else {
                                assert(s3[u].node == i);
                            }
                        }
                    }
                }
            }
            r = r + 1;
        }
        proof {
            let o = out@;
            assert forall|i: u32| is_root(v, i) implies visited(o, i) by {
                assert(marked@[i as int]);
            }
            assert forall|t: int, c: u32| 0 <= t < o.len() && #[trigger] child_edge(v, o[t].node, c) implies visited(
                o,
                c,
            ) by {
                assert(marked@[c as int]);
            }
        }
        out
    }
}

} // verus!
