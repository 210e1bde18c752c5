//! The BK-tree: nodes, insertion, and pruned range search.
//!
//! Each node stores one key and a list of child subtrees, ordered by the
//! child's distance from the node's own key; among the direct children
//! those distances are unique. Every key inside the subtree hanging at
//! distance `d` lies at distance exactly `d` from the node's key, which is
//! what lets a range query skip whole subtrees by the triangle inequality.

use core::marker::PhantomData;

use crate::metric::Distance;
use crate::metric::Metric;
use crate::metric::Simple;
use vstd::prelude::*;

verus! {

/// One tree vertex: a stored key plus child subtrees keyed by their
/// distance from this key, held sorted by ascending distance.
pub struct Node<M> {
    hash: crate::metric::Hash,
    children: Vec<(Distance, Node<M>)>,
    metric: PhantomData<M>,
}

/// The public handle: either empty or a whole tree of stored keys.
pub enum BKTree<M = Simple> {
    Empty,
    NonEmpty(Node<M>),
}

/// Holds on keys whose distance to `needle` is at most `tol`: the
/// range-query acceptance test.
pub open spec fn within_tol<M: Metric>(needle: crate::metric::Hash, tol: Distance) -> spec_fn(u64) -> bool {
    |k: u64| M::distance_spec(k, needle) <= tol
}

impl<M: Metric> Node<M> {
    /// All keys stored under `self`, in pre-order, children in ascending
    /// order of their distance from the parent.
    pub closed spec fn keys(self) -> Seq<u64>
        decreases self,
    {
        seq![self.hash] + Node::<M>::children_keys(self.children@)
    }

    /// The keys of a run of child subtrees, concatenated in order.
    pub closed spec fn children_keys(cs: Seq<(u32, Node<M>)>) -> Seq<u64>
        decreases cs,
    {
        if cs.len() == 0 {
            Seq::empty()
        } else {
            cs[0].1.keys() + Node::<M>::children_keys(cs.drop_first())
        }
    }

    /// The set of keys stored under `self`.
    pub closed spec fn key_set(self) -> Set<u64> {
        self.keys().to_set()
    }

    /// The key stored in this node itself: the pivot its children are
    /// measured against.
    pub closed spec fn pivot(self) -> u64 {
        self.hash
    }

    /// Structural invariant: child distances strictly increase (so they
    /// are unique and sorted), every child subtree is itself well-formed,
    /// and every key below a child at distance `d` lies at distance
    /// exactly `d` from this node's key and differs from it.
    pub closed spec fn wf(self) -> bool
        decreases self,
    {
        &&& (forall|i: int, j: int|
            0 <= i < j < self.children@.len() ==> (#[trigger] self.children@[i].0) < (
            #[trigger] self.children@[j].0))
        &&& (forall|i: int|
            0 <= i < self.children@.len() ==> (#[trigger] self.children@[i].1).wf())
        &&& (forall|i: int, k: u64|
            0 <= i < self.children@.len() && (#[trigger] self.children@[i].1.keys().contains(k))
                ==> M::distance_spec(k, self.hash) == self.children@[i].0 && k != self.hash)
    }

    proof fn lemma_children_keys_push(cs: Seq<(u32, Node<M>)>, p: (u32, Node<M>))
        ensures
            Node::<M>::children_keys(cs.push(p)) == Node::<M>::children_keys(cs) + p.1.keys(),
        decreases cs.len(),
    {
        let all = cs.push(p);
        assert(Node::<M>::children_keys(all) == all[0].1.keys() + Node::<M>::children_keys(
            all.drop_first(),
        ));
        if cs.len() == 0 {
            assert(all[0] == p);
            assert(all.drop_first() =~= Seq::<(u32, Node<M>)>::empty());
            assert(Node::<M>::children_keys(all.drop_first()) == Seq::<u64>::empty());
            assert(p.1.keys() + Seq::<u64>::empty() =~= p.1.keys());
            assert(Node::<M>::children_keys(cs) + p.1.keys() =~= p.1.keys());
        } else {
            assert(all[0] == cs[0]);
            assert(all.drop_first() =~= cs.drop_first().push(p));
            Self::lemma_children_keys_push(cs.drop_first(), p);
            assert(Node::<M>::children_keys(cs) == cs[0].1.keys() + Node::<M>::children_keys(
                cs.drop_first(),
            ));
            assert(cs[0].1.keys() + (Node::<M>::children_keys(cs.drop_first()) + p.1.keys()) =~= (
            cs[0].1.keys() + Node::<M>::children_keys(cs.drop_first())) + p.1.keys());
        }
    }

    proof fn lemma_children_keys_take_succ(cs: Seq<(u32, Node<M>)>, j: int)
        requires
            0 <= j < cs.len(),
        ensures
            Node::<M>::children_keys(cs.take(j + 1)) == Node::<M>::children_keys(cs.take(j))
                + cs[j].1.keys(),
    {
        assert(cs.take(j + 1) =~= cs.take(j).push(cs[j]));
        Self::lemma_children_keys_push(cs.take(j), cs[j]);
    }

    proof fn lemma_children_keys_skip_head(cs: Seq<(u32, Node<M>)>, i: int)
        requires
            0 <= i < cs.len(),
        ensures
            Node::<M>::children_keys(cs.skip(i)) == cs[i].1.keys() + Node::<M>::children_keys(
                cs.skip(i + 1),
            ),
    {
        let s = cs.skip(i);
        assert(s[0] == cs[i]);
        assert(s.drop_first() =~= cs.skip(i + 1));
    }

    proof fn lemma_children_keys_split(cs: Seq<(u32, Node<M>)>, i: int)
        requires
            0 <= i <= cs.len(),
        ensures
            Node::<M>::children_keys(cs) == Node::<M>::children_keys(cs.take(i))
                + Node::<M>::children_keys(cs.skip(i)),
        decreases cs.len() - i,
    {
        if i == cs.len() {
            assert(cs.take(i) =~= cs);
            assert(cs.skip(i) =~= Seq::<(u32, Node<M>)>::empty());
            assert(Node::<M>::children_keys(cs) + Seq::<u64>::empty() =~= Node::<M>::children_keys(
                cs,
            ));
        } else {
            Self::lemma_children_keys_split(cs, i + 1);
            Self::lemma_children_keys_take_succ(cs, i);
            Self::lemma_children_keys_skip_head(cs, i);
            assert((Node::<M>::children_keys(cs.take(i)) + cs[i].1.keys())
                + Node::<M>::children_keys(cs.skip(i + 1)) =~= Node::<M>::children_keys(cs.take(i))
                + (cs[i].1.keys() + Node::<M>::children_keys(cs.skip(i + 1))));
        }
    }

    proof fn lemma_children_keys_contains(cs: Seq<(u32, Node<M>)>, k: u64)
        ensures
            Node::<M>::children_keys(cs).contains(k) <==> exists|i: int|
                0 <= i < cs.len() && (#[trigger] cs[i].1.keys().contains(k)),
        decreases cs.len(),
    {
        if cs.len() > 0 {
            Self::lemma_children_keys_contains(cs.drop_first(), k);
            let head = cs[0].1.keys();
            let tail = Node::<M>::children_keys(cs.drop_first());
            assert(Node::<M>::children_keys(cs) == head + tail);
            if (head + tail).contains(k) {
                let idx = choose|idx: int| 0 <= idx < (head + tail).len() && (head + tail)[idx]
                    == k;
                if idx < head.len() {
                    assert(head[idx] == k);
                    assert(cs[0].1.keys().contains(k));
                } else {
                    assert(tail[idx - head.len()] == k);
                    assert(tail.contains(k));
                    let i = choose|i: int|
                        0 <= i < cs.drop_first().len() && cs.drop_first()[i].1.keys().contains(k);
                    assert(cs[i + 1].1.keys().contains(k));
                }
            }
            if exists|i: int| 0 <= i < cs.len() && (#[trigger] cs[i].1.keys().contains(k)) {
                let i = choose|i: int| 0 <= i < cs.len() && (#[trigger] cs[i].1.keys().contains(k));
                if i == 0 {
                    let hi = choose|hi: int| 0 <= hi < head.len() && head[hi] == k;
                    assert((head + tail)[hi] == k);
                } else {
                    assert(cs.drop_first()[i - 1].1.keys().contains(k));
                    assert(tail.contains(k));
                    let ti = choose|ti: int| 0 <= ti < tail.len() && tail[ti] == k;
                    assert((head + tail)[head.len() + ti] == k);
                }
            }
        }
    }

    /// Membership in a node's key sequence: the node's own key, or a key
    /// of one of its child subtrees.
    proof fn lemma_node_contains(n: Node<M>, k: u64)
        ensures
            n.keys().contains(k) <==> (k == n.hash || exists|i: int|
                0 <= i < n.children@.len() && (#[trigger] n.children@[i].1.keys().contains(k))),
    {
        Self::lemma_children_keys_contains(n.children@, k);
        let s0 = seq![n.hash];
        let rest = Node::<M>::children_keys(n.children@);
        assert(n.keys() == s0 + rest);
        if n.keys().contains(k) {
            let idx = choose|idx: int| 0 <= idx < (s0 + rest).len() && (s0 + rest)[idx] == k;
            if idx == 0 {
                assert(k == n.hash);
            } else {
                assert(rest[idx - 1] == k);
                assert(rest.contains(k));
            }
        }
        if k == n.hash {
            assert((s0 + rest)[0] == k);
        }
        if rest.contains(k) {
            let ti = choose|ti: int| 0 <= ti < rest.len() && rest[ti] == k;
            assert((s0 + rest)[1 + ti] == k);
        }
    }

    /// A leaf holding exactly `hash`.
    pub fn single(hash: crate::metric::Hash) -> (n: Self)
        ensures
            n.wf(),
            n.keys() == seq![hash],
            n.key_set() == Set::empty().insert(hash),
    {
        let n = Node { hash, children: Vec::new(), metric: PhantomData };
        proof {
            assert(n.keys() =~= seq![hash]);
            assert(seq![hash].contains(hash)) by {
                assert(seq![hash][0] == hash);
            }
            assert(n.key_set() =~= Set::empty().insert(hash));
        }
        n
    }

    /// Re-establishes the parent's invariant and key accounting after a
    /// recursive insertion into the child that already sits at slot `d`.
    proof fn lemma_insert_into_slot(
        pre: Node<M>,
        post: Node<M>,
        child: (u32, Node<M>),
        pos: int,
        new: u64,
        d: u32,
    )
        requires
            pre.wf(),
            0 <= pos < pre.children@.len(),
            pre.children@[pos].0 == d,
            d == M::distance_spec(new, pre.hash),
            new != pre.hash,
            post.hash == pre.hash,
            post.children@ == pre.children@.update(pos, child),
            child.0 == d,
            child.1.wf(),
            child.1.key_set() == pre.children@[pos].1.key_set().insert(new),
            pre.children@[pos].1.key_set().contains(new) ==> child.1.keys()
                == pre.children@[pos].1.keys(),
        ensures
            post.wf(),
            post.key_set() == pre.key_set().insert(new),
            pre.key_set().contains(new) ==> post.keys() == pre.keys(),
    {
        let cs = pre.children@;
        let cs2 = post.children@;
        let old_child = cs[pos].1;
        assert forall|k: u64| #[trigger]
            child.1.keys().contains(k) <==> (old_child.keys().contains(k) || k == new) by {
            assert(child.1.key_set().contains(k) == child.1.keys().contains(k));
            assert(old_child.key_set().contains(k) == old_child.keys().contains(k));
        }
        // The invariant survives: distances did not move, the grown child
        // is well-formed, and its one new key lies at distance `d`.
        assert forall|i: int, j: int| 0 <= i < j < cs2.len() implies (#[trigger] cs2[i].0) < (
        #[trigger] cs2[j].0) by {
            assert(cs2[i].0 == cs[i].0);
            assert(cs2[j].0 == cs[j].0);
        }
        assert forall|i: int, k: u64|
            0 <= i < cs2.len() && (#[trigger] cs2[i].1.keys().contains(k)) implies M::distance_spec(
            k,
            post.hash,
        ) == cs2[i].0 && k != post.hash by {
            if i == pos {
                if k != new {
                    assert(old_child.keys().contains(k));
                }
            }
        }
        assert(post.wf());
        // Key accounting: membership changes by exactly `new`.
        assert forall|k: u64| #[trigger]
            post.keys().contains(k) <==> (pre.keys().contains(k) || k == new) by {
            Self::lemma_node_contains(pre, k);
            Self::lemma_node_contains(post, k);
            if post.keys().contains(k) && k != post.hash {
                let i = choose|i: int| 0 <= i < cs2.len() && (#[trigger] cs2[i].1.keys().contains(
                    k,
                ));
                if i == pos {
                    if k != new {
                        assert(cs[pos].1.keys().contains(k));
                    }
                } else {
                    assert(cs[i].1.keys().contains(k));
                }
            }
            if pre.keys().contains(k) && k != pre.hash {
                let i = choose|i: int| 0 <= i < cs.len() && (#[trigger] cs[i].1.keys().contains(
                    k,
                ));
                if i == pos {
                    assert(cs2[pos].1.keys().contains(k));
                } else {
                    assert(cs2[i].1.keys().contains(k));
                }
            }
            if k == new {
                assert(cs2[pos].1.keys().contains(new));
            }
        }
        assert(post.key_set() =~= pre.key_set().insert(new));
        // Re-inserting a stored key changed nothing anywhere.
        if pre.key_set().contains(new) {
            Self::lemma_node_contains(pre, new);
            let i = choose|i: int| 0 <= i < cs.len() && (#[trigger] cs[i].1.keys().contains(new));
            assert(cs[i].0 == d);
            if i < pos {
                assert(cs[i].0 < cs[pos].0);
            }
            if i > pos {
                assert(cs[pos].0 < cs[i].0);
            }
            assert(i == pos);
            assert(old_child.key_set().contains(new));
            assert(child.1.keys() == old_child.keys());
            Self::lemma_children_keys_split(cs, pos);
            Self::lemma_children_keys_skip_head(cs, pos);
            Self::lemma_children_keys_split(cs2, pos);
            Self::lemma_children_keys_skip_head(cs2, pos);
            assert(cs2.take(pos) =~= cs.take(pos));
            assert(cs2.skip(pos + 1) =~= cs.skip(pos + 1));
            assert(post.keys() == pre.keys());
        }
    }

    /// Establishes the parent's invariant and key accounting after hanging
    /// a fresh leaf at the previously unoccupied slot `d`.
    proof fn lemma_insert_fresh_slot(
        pre: Node<M>,
        post: Node<M>,
        leaf: Node<M>,
        pos: int,
        new: u64,
        d: u32,
    )
        requires
            pre.wf(),
            0 <= pos <= pre.children@.len(),
            forall|m: int| 0 <= m < pos ==> (#[trigger] pre.children@[m].0) < d,
            pos < pre.children@.len() ==> pre.children@[pos].0 > d,
            d == M::distance_spec(new, pre.hash),
            new != pre.hash,
            post.hash == pre.hash,
            post.children@ == pre.children@.insert(pos, (d, leaf)),
            leaf.wf(),
            leaf.keys() == seq![new],
        ensures
            post.wf(),
            post.key_set() == pre.key_set().insert(new),
            !pre.key_set().contains(new),
    {
        let cs = pre.children@;
        let cs2 = post.children@;
        cs.insert_ensures(pos, (d, leaf));
        assert forall|k: u64| #[trigger] leaf.keys().contains(k) implies k == new by {
            let idx = choose|idx: int| 0 <= idx < leaf.keys().len() && leaf.keys()[idx] == k;
            assert(leaf.keys()[idx] == new);
        }
        assert(leaf.keys()[0] == new);
        // `new` was nowhere: any slot holding it would be labelled `d`,
        // and the slots straddling `pos` are labelled away from `d`.
        assert(!pre.key_set().contains(new)) by {
            Self::lemma_node_contains(pre, new);
            if pre.keys().contains(new) {
                let i = choose|i: int| 0 <= i < cs.len() && (#[trigger] cs[i].1.keys().contains(
                    new,
                ));
                assert(cs[i].0 == d);
                if i >= pos {
                    assert(cs[pos].0 <= cs[i].0);
                }
            }
        }
        // Sortedness around the new slot, and the invariant for the leaf.
        assert forall|i: int, j: int| 0 <= i < j < cs2.len() implies (#[trigger] cs2[i].0) < (
        #[trigger] cs2[j].0) by {
            if i < pos && j > pos {
                assert(cs2[i].0 == cs[i].0 && cs2[j].0 == cs[j - 1].0);
                assert(cs[pos].0 <= cs[j - 1].0);
            } else if i == pos && j > pos {
                assert(cs2[j].0 == cs[j - 1].0);
                assert(cs[pos].0 <= cs[j - 1].0);
            }
        }
        assert forall|i: int, k: u64|
            0 <= i < cs2.len() && (#[trigger] cs2[i].1.keys().contains(k)) implies M::distance_spec(
            k,
            post.hash,
        ) == cs2[i].0 && k != post.hash by {
            if i == pos {
                assert(k == new);
            } else if i < pos {
                assert(cs[i].1.keys().contains(k));
            } else {
                assert(cs[i - 1].1.keys().contains(k));
            }
        }
        assert(post.wf());
        // Key accounting.
        assert forall|k: u64| #[trigger]
            post.keys().contains(k) <==> (pre.keys().contains(k) || k == new) by {
            Self::lemma_node_contains(pre, k);
            Self::lemma_node_contains(post, k);
            if post.keys().contains(k) && k != post.hash {
                let i = choose|i: int| 0 <= i < cs2.len() && (#[trigger] cs2[i].1.keys().contains(
                    k,
                ));
                if i < pos {
                    assert(cs[i].1.keys().contains(k));
                } else if i > pos {
                    assert(cs[i - 1].1.keys().contains(k));
                }
            }
            if pre.keys().contains(k) && k != pre.hash {
                let i = choose|i: int| 0 <= i < cs.len() && (#[trigger] cs[i].1.keys().contains(
                    k,
                ));
                if i < pos {
                    assert(cs2[i].1.keys().contains(k));
                } else {
                    assert(cs2[i + 1].1.keys().contains(k));
                }
            }
            if k == new {
                assert(cs2[pos].1.keys().contains(new));
            }
        }
        assert(post.key_set() =~= pre.key_set().insert(new));
    }

    /// Distinct slots hold keys at distinct distances from the pivot, so
    /// the concatenation of the children's key runs has no repeats.
    proof fn lemma_ck_no_dup(h: u64, cs: Seq<(u32, Node<M>)>)
        requires
            forall|i: int| 0 <= i < cs.len() ==> (#[trigger] cs[i].1).wf(),
            forall|i: int, k: u64|
                0 <= i < cs.len() && (#[trigger] cs[i].1.keys().contains(k))
                    ==> M::distance_spec(k, h) == cs[i].0,
            forall|i: int, j: int|
                0 <= i < j < cs.len() ==> (#[trigger] cs[i].0) < (#[trigger] cs[j].0),
        ensures
            Node::<M>::children_keys(cs).no_duplicates(),
        decreases cs,
    {
        if cs.len() > 0 {
            Self::lemma_node_no_dup(cs[0].1);
            let tl = cs.drop_first();
            assert forall|i: int| 0 <= i < tl.len() implies (#[trigger] tl[i].1).wf() by {
                assert(tl[i] == cs[i + 1]);
            }
            assert forall|i: int, k: u64|
                0 <= i < tl.len() && (#[trigger] tl[i].1.keys().contains(k)) implies
                M::distance_spec(k, h) == tl[i].0 by {
                assert(tl[i] == cs[i + 1]);
                assert(cs[i + 1].1.keys().contains(k));
            }
            assert forall|i: int, j: int| 0 <= i < j < tl.len() implies (#[trigger] tl[i].0) < (
            #[trigger] tl[j].0) by {
                assert(tl[i] == cs[i + 1] && tl[j] == cs[j + 1]);
            }
            Self::lemma_ck_no_dup(h, tl);
            let head = cs[0].1.keys();
            let tail = Node::<M>::children_keys(tl);
            assert(Node::<M>::children_keys(cs) == head + tail);
            assert forall|a: int, b: int|
                0 <= a < (head + tail).len() && 0 <= b < (head + tail).len() && a != b implies (head
                + tail)[a] != (head + tail)[b] by {
                if a < head.len() && b >= head.len() {
                    Self::lemma_head_tail_distinct(h, cs, a, b);
                } else if b < head.len() && a >= head.len() {
                    Self::lemma_head_tail_distinct(h, cs, b, a);
                }
            }
        }
    }

    /// A key of the first child's subtree cannot reappear in a later
    /// child's subtree: their distances from the pivot differ.
    proof fn lemma_head_tail_distinct(h: u64, cs: Seq<(u32, Node<M>)>, a: int, b: int)
        requires
            cs.len() > 0,
            forall|i: int, k: u64|
                0 <= i < cs.len() && (#[trigger] cs[i].1.keys().contains(k))
                    ==> M::distance_spec(k, h) == cs[i].0,
            forall|i: int, j: int|
                0 <= i < j < cs.len() ==> (#[trigger] cs[i].0) < (#[trigger] cs[j].0),
            0 <= a < cs[0].1.keys().len(),
            cs[0].1.keys().len() <= b < cs[0].1.keys().len() + Node::<M>::children_keys(
                cs.drop_first(),
            ).len(),
        ensures
            (cs[0].1.keys() + Node::<M>::children_keys(cs.drop_first()))[a] != (cs[0].1.keys()
                + Node::<M>::children_keys(cs.drop_first()))[b],
    {
        let head = cs[0].1.keys();
        let tail = Node::<M>::children_keys(cs.drop_first());
        let x = head[a];
        let y = tail[b - head.len()];
        assert(head.contains(x));
        assert(tail.contains(y));
        Self::lemma_children_keys_contains(cs.drop_first(), y);
        let i = choose|i: int|
            0 <= i < cs.drop_first().len() && (#[trigger] cs.drop_first()[i].1.keys().contains(y));
        assert(cs[i + 1].1.keys().contains(y));
        assert(M::distance_spec(y, h) == cs[i + 1].0);
        assert(M::distance_spec(x, h) == cs[0].0);
        assert(cs[0].0 < cs[i + 1].0);
    }

    /// A well-formed subtree stores each key at most once.
    proof fn lemma_node_no_dup(n: Node<M>)
        requires
            n.wf(),
        ensures
            n.keys().no_duplicates(),
        decreases n,
    {
        Self::lemma_ck_no_dup(n.hash, n.children@);
        let s0 = seq![n.hash];
        let rest = Node::<M>::children_keys(n.children@);
        assert(n.keys() == s0 + rest);
        Self::lemma_children_keys_contains(n.children@, n.hash);
        assert(!rest.contains(n.hash));
        assert forall|a: int, b: int|
            0 <= a < (s0 + rest).len() && 0 <= b < (s0 + rest).len() && a != b implies (s0
            + rest)[a] != (s0 + rest)[b] by {
            if a == 0 {
                assert(rest.contains(rest[b - 1]));
            } else if b == 0 {
                assert(rest.contains(rest[a - 1]));
            }
        }
    }

    proof fn lemma_filter_singleton(h: u64, pred: spec_fn(u64) -> bool)
        ensures
            seq![h].filter(pred) == if pred(h) {
                seq![h]
            } else {
                Seq::<u64>::empty()
            },
    {
        reveal_with_fuel(Seq::<_>::filter, 2);
        assert(seq![h].drop_last() =~= Seq::<u64>::empty());
        assert(seq![h].last() == h);
        assert(Seq::<u64>::empty().filter(pred) == Seq::<u64>::empty());
        if pred(h) {
            assert(Seq::<u64>::empty().filter(pred).push(h) =~= seq![h]);
        }
    }

    /// The heart of pruning: if every key of the subtree `c` lies at
    /// distance exactly `d` from the pivot `h`, and `d` is outside
    /// `[dist(h, needle) - tol, dist(h, needle) + tol]`, then the triangle
    /// inequality puts every key of `c` out of tolerance, so the whole
    /// subtree contributes nothing.
    proof fn lemma_prune(c: Node<M>, h: u64, d: u32, needle: u64, tol: u32)
        requires
            forall|k: u64| (#[trigger] c.keys().contains(k)) ==> M::distance_spec(k, h) == d,
            (d as int) + (tol as int) < M::distance_spec(h, needle) || (M::distance_spec(h, needle)
                as int) + (tol as int) < d,
        ensures
            c.keys().filter(within_tol::<M>(needle, tol)) == Seq::<u64>::empty(),
    {
        let pred = within_tol::<M>(needle, tol);
        assert forall|k: u64| (#[trigger] c.keys().contains(k)) implies !pred(k) by {
            M::metric_laws(h, k, needle);
            M::metric_laws(k, needle, h);
            M::metric_laws(h, needle, k);
        }
        assert forall|i: int| 0 <= i < c.keys().len() implies !pred(c.keys()[i]) by {
            assert(c.keys().contains(c.keys()[i]));
        }
        assert(c.keys().all(|x: u64| !pred(x)));
        c.keys().lemma_all_neg_filter_empty(pred);
        assert(c.keys().filter(pred) =~= Seq::<u64>::empty());
    }

    /// Collect, in pre-order with children visited in ascending distance
    /// order, every stored key whose distance to `needle` is at most
    /// `tol`. Equivalent to filtering a linear scan of all stored keys.
    pub fn find(&self, needle: crate::metric::Hash, tol: Distance) -> (r: Vec<crate::metric::Hash>)
        requires
            self.wf(),
        ensures
            r@ == self.keys().filter(within_tol::<M>(needle, tol)),
        decreases *self,
    {
        let ghost pred = within_tol::<M>(needle, tol);
        let mut result: Vec<u64> = Vec::new();
        let nd = M::distance(self.hash, needle);
        if nd <= tol {
            result.push(self.hash);
        }
        proof {
            Self::lemma_filter_singleton(self.hash, pred);
            assert(self.children@.take(0) =~= Seq::<(u32, Node<M>)>::empty());
            assert(seq![self.hash] + Seq::<u64>::empty() =~= seq![self.hash]);
        }
        let mut j: usize = 0;
        while j < self.children.len()
            invariant
                self.wf(),
                nd == M::distance_spec(self.hash, needle),
                pred == within_tol::<M>(needle, tol),
                j <= self.children@.len(),
                result@ == (seq![self.hash] + Node::<M>::children_keys(
                    self.children@.take(j as int),
                )).filter(pred),
            decreases self.children@.len() - j,
        {
            let ghost prefix = seq![self.hash] + Node::<M>::children_keys(
                self.children@.take(j as int),
            );
            let c = &self.children[j];
            let d = c.0;
            proof {
                assert(*c == self.children@[j as int]);
            }
            if (d as u64) + (tol as u64) >= (nd as u64) && (nd as u64) + (tol as u64) >= (
            d as u64) {
                let mut sub = c.1.find(needle, tol);
                result.append(&mut sub);
            } else {
                proof {
                    assert forall|k: u64| (#[trigger] c.1.keys().contains(k)) implies
                        M::distance_spec(k, self.hash) == d by {
                        assert(self.children@[j as int].1.keys().contains(k));
                    }
                    Self::lemma_prune(c.1, self.hash, d, needle, tol);
                }
            }
            proof {
                Self::lemma_children_keys_take_succ(self.children@, j as int);
                Seq::filter_distributes_over_add(
                    prefix,
                    self.children@[j as int].1.keys(),
                    pred,
                );
                assert(seq![self.hash] + Node::<M>::children_keys(
                    self.children@.take(j + 1),
                ) =~= prefix + self.children@[j as int].1.keys());
                assert(result@ + Seq::<u64>::empty() =~= result@);
            }
            j = j + 1;
        }
        proof {
            assert(self.children@.take(self.children@.len() as int) =~= self.children@);
        }
        result
    }

    /// Insert `new` into the subtree rooted at `self`. Re-inserting a key
    /// that is already stored leaves the tree unchanged; otherwise the key
    /// descends along its distance-from-pivot labels until a free slot is
    /// found, so the stored key set grows by exactly `new`.
    pub fn insert(&mut self, new: crate::metric::Hash)
        requires
            old(self).wf(),
        ensures
            final(self).wf(),
            final(self).pivot() == old(self).pivot(),
            final(self).key_set() == old(self).key_set().insert(new),
            old(self).key_set().contains(new) ==> final(self).keys() == old(self).keys(),
        decreases *old(self),
    {
        proof {
            assert(self.keys()[0] == self.hash);
        }
        if self.hash == new {
            proof {
                assert(self.keys().contains(new));
                assert(self.key_set() =~= self.key_set().insert(new));
            }
            return;
        }
        let d = M::distance(new, self.hash);
        let mut pos: usize = 0;
        while pos < self.children.len() && self.children[pos].0 < d
            invariant
                pos <= self.children@.len(),
                forall|m: int| 0 <= m < pos ==> (#[trigger] self.children@[m].0) < d,
            decreases self.children@.len() - pos,
        {
            pos = pos + 1;
        }
        let ghost pre = *self;
        let ghost cs = pre.children@;
        if pos < self.children.len() && self.children[pos].0 == d {
            let mut child = self.children.remove(pos);
            proof {
                assert(child == cs[pos as int]);
            }
            child.1.insert(new);
            let ghost gchild = child;
            self.children.insert(pos, child);
            proof {
                assert(self.children@ =~= cs.update(pos as int, gchild)) by {
                    cs.remove_ensures(pos as int);
                    cs.remove(pos as int).insert_ensures(pos as int, gchild);
                }
                Self::lemma_insert_into_slot(pre, *self, gchild, pos as int, new, d);
            }
        } else {
            let leaf = Node::single(new);
            let ghost gleaf = leaf;
            self.children.insert(pos, (d, leaf));
            proof {
                assert(self.children@ == cs.insert(pos as int, (d, gleaf)));
                Self::lemma_insert_fresh_slot(pre, *self, gleaf, pos as int, new, d);
            }
        }
    }
}

impl<M: Metric> BKTree<M> {
    /// All keys stored in the tree, in deterministic traversal order.
    pub closed spec fn keys(self) -> Seq<u64> {
        match self {
            BKTree::Empty => Seq::empty(),
            BKTree::NonEmpty(root) => root.keys(),
        }
    }

    /// The set of keys stored in the tree.
    pub closed spec fn key_set(self) -> Set<u64> {
        self.keys().to_set()
    }

    /// Structural invariant, established by `new` and kept by `insert`.
    pub closed spec fn wf(self) -> bool {
        match self {
            BKTree::Empty => true,
            BKTree::NonEmpty(root) => root.wf(),
        }
    }

    /// An empty tree: well-formed and holding no keys.
    pub fn new() -> (t: Self)
        ensures
            t.wf(),
            t.keys() == Seq::<u64>::empty(),
            t.key_set() == Set::<u64>::empty(),
            t is Empty,
    {
        BKTree::Empty
    }

    /// Insert a key: an empty tree gains a root, otherwise the root node
    /// absorbs the key. The stored key set grows by exactly `new`, and
    /// re-inserting a stored key changes nothing.
    pub fn insert(&mut self, new: crate::metric::Hash)
        requires
            old(self).wf(),
        ensures
            final(self).wf(),
            final(self).key_set() == old(self).key_set().insert(new),
            old(self).key_set().contains(new) ==> final(self).keys() == old(self).keys(),
            (*final(self)) is NonEmpty,
    {
        match self {
            BKTree::Empty => {
                *self = BKTree::NonEmpty(Node::single(new));
                proof {
                    assert(old(self).key_set() =~= Set::<u64>::empty());
                    assert(self.key_set() =~= old(self).key_set().insert(new));
                }
            },
            BKTree::NonEmpty(node) => {
                node.insert(new);
            },
        }
    }

    /// Find every stored key within distance `tol` of `needle`, in the
    /// tree's deterministic traversal order: exactly what a linear scan of
    /// all stored keys filtered by the metric would keep.
    pub fn find(&self, needle: crate::metric::Hash, tol: Distance) -> (r: Vec<crate::metric::Hash>)
        requires
            self.wf(),
        ensures
            r@ == self.keys().filter(within_tol::<M>(needle, tol)),
            self is Empty ==> r@ == Seq::<u64>::empty(),
    {
        match self {
            BKTree::Empty => {
                let r: Vec<u64> = Vec::new();
                proof {
                    assert(Seq::<u64>::empty().filter(within_tol::<M>(needle, tol))
                        == Seq::<u64>::empty());
                }
                r
            },
            BKTree::NonEmpty(node) => node.find(needle, tol),
        }
    }
}

proof fn lemma_filter_no_dup(s: Seq<u64>, pred: spec_fn(u64) -> bool)
    requires
        s.no_duplicates(),
    ensures
        s.filter(pred).no_duplicates(),
    decreases s.len(),
{
    reveal_with_fuel(Seq::<_>::filter, 2);
    if s.len() > 0 {
        let dl = s.drop_last();
        assert(dl.no_duplicates());
        lemma_filter_no_dup(dl, pred);
        if pred(s.last()) {
            let f = dl.filter(pred);
            assert(!f.contains(s.last())) by {
                if f.contains(s.last()) {
                    dl.lemma_filter_contains_rev(pred, s.last());
                    let i = choose|i: int| 0 <= i < dl.len() && dl[i] == s.last();
                    assert(s[i] == s[s.len() - 1]);
                }
            }
            let g = f.push(s.last());
            assert forall|a: int, b: int|
                0 <= a < g.len() && 0 <= b < g.len() && a != b implies g[a] != g[b] by {
                if b == f.len() && a < f.len() {
                    assert(f.contains(f[a]));
                } else if a == f.len() && b < f.len() {
                    assert(f.contains(f[b]));
                }
            }
        }
    }
}

/// A well-formed tree stores each key at most once, so a range query
/// never reports a key twice.
pub proof fn lemma_find_no_duplicates<M: Metric>(t: BKTree<M>, needle: crate::metric::Hash, tol: Distance)
    requires
        t.wf(),
    ensures
        t.keys().no_duplicates(),
        t.keys().filter(within_tol::<M>(needle, tol)).no_duplicates(),
{
    match t {
        BKTree::Empty => {
            assert(t.keys().no_duplicates());
        },
        BKTree::NonEmpty(root) => {
            Node::<M>::lemma_node_no_dup(root);
        },
    }
    lemma_filter_no_dup(t.keys(), within_tol::<M>(needle, tol));
}

/// A key is reported by a range query exactly when it is stored and its
/// distance to the needle is within tolerance: `find` agrees with a
/// brute-force linear scan over all stored keys.
pub proof fn lemma_find_equals_linear_scan<M: Metric>(
    t: BKTree<M>,
    needle: crate::metric::Hash,
    tol: Distance,
    x: crate::metric::Hash,
)
    ensures
        t.keys().filter(within_tol::<M>(needle, tol)).contains(x) <==> (t.key_set().contains(x)
            && M::distance_spec(x, needle) <= tol),
{
    let s = t.keys();
    let pred = within_tol::<M>(needle, tol);
    if s.filter(pred).contains(x) {
        s.lemma_filter_contains_rev(pred, x);
        let i = choose|i: int| 0 <= i < s.filter(pred).len() && s.filter(pred)[i] == x;
        s.lemma_filter_pred(pred, i);
    }
    if s.contains(x) && pred(x) {
        let i = choose|i: int| 0 <= i < s.len() && s[i] == x;
        s.lemma_filter_contains(pred, i);
    }
}

/// A stored key is always reported when queried for itself, even at
/// tolerance 0, because every metric puts a key at distance 0 from
/// itself.
pub proof fn lemma_find_self<M: Metric>(t: BKTree<M>, k: crate::metric::Hash)
    requires
        t.key_set().contains(k),
    ensures
        t.keys().filter(within_tol::<M>(k, 0)).contains(k),
{
    M::metric_laws(k, k, k);
    lemma_find_equals_linear_scan::<M>(t, k, 0, k);
}

/// Widening the tolerance only adds results: for a fixed needle,
/// everything reported at tolerance `t1 <= t2` is also reported at `t2`.
pub proof fn lemma_find_monotone<M: Metric>(t: BKTree<M>, needle: crate::metric::Hash, t1: Distance, t2: Distance)
    requires
        t1 <= t2,
    ensures
        forall|x: u64|
            (#[trigger] t.keys().filter(within_tol::<M>(needle, t1)).contains(x)) ==> t.keys()
                .filter(within_tol::<M>(needle, t2)).contains(x),
{
    assert forall|x: u64|
        (#[trigger] t.keys().filter(within_tol::<M>(needle, t1)).contains(x)) implies t.keys()
        .filter(within_tol::<M>(needle, t2)).contains(x) by {
        lemma_find_equals_linear_scan::<M>(t, needle, t1, x);
        lemma_find_equals_linear_scan::<M>(t, needle, t2, x);
    }
}

} // verus!
