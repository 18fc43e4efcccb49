//! An indexed binary min-heap.
//!
//! The heap stores (identity, priority) pairs in the usual array layout and
//! additionally keeps a map from identity to current array position, so a
//! priority can be lowered by identity without a linear scan.  The map is
//! kept consistent with every swap performed while restoring heap order.

use std::collections::HashMap;
use vstd::prelude::*;

verus! {

broadcast use vstd::std_specs::hash::group_hash_axioms;

/// Parent position in the array layout of a binary heap.
pub open spec fn parent(i: int) -> int {
    (i - 1) / 2
}

proof fn lemma_parent_bounds(i: int)
    requires
        i >= 1,
    ensures
        0 <= parent(i) < i,
        i == 2 * parent(i) + 1 || i == 2 * parent(i) + 2,
{
    vstd::arithmetic::div_mod::lemma_fundamental_div_mod(i - 1, 2);
    vstd::arithmetic::div_mod::lemma_mod_pos_bound(i - 1, 2);
}

proof fn lemma_child_parent(j: int)
    requires
        j >= 0,
    ensures
        parent(2 * j + 1) == j,
        parent(2 * j + 2) == j,
{
    vstd::arithmetic::div_mod::lemma_fundamental_div_mod_converse(2 * j, 2, j, 0);
    vstd::arithmetic::div_mod::lemma_fundamental_div_mod_converse(2 * j + 1, 2, j, 1);
}

/// An indexed binary min-heap of (identity, priority) entries.
pub struct MinHeap {
    entries: Vec<(usize, i32)>,
    pos: HashMap<usize, usize>,
}

impl View for MinHeap {
    type V = Map<usize, i32>;

    /// The contents: a map from each present identity to its priority.
    open spec fn view(&self) -> Map<usize, i32> {
        Map::new(
            |id: usize| self.pos_map().contains_key(id),
            |id: usize| self.entry_seq()[self.pos_map()[id] as int].1,
        )
    }
}

impl MinHeap {
    pub closed spec fn entry_seq(self) -> Seq<(usize, i32)> {
        self.entries@
    }

    pub closed spec fn pos_map(self) -> Map<usize, usize> {
        self.pos@
    }

    pub open spec fn len(self) -> nat {
        self.entry_seq().len()
    }

    /// The identity stored at array position `i`.
    pub open spec fn id_at(self, i: int) -> usize {
        self.entry_seq()[i].0
    }

    /// The priority stored at array position `i`.
    pub open spec fn prio_at(self, i: int) -> i32 {
        self.entry_seq()[i].1
    }

    /// The position map is a bijection between stored identities and
    /// positions.
    pub open spec fn pos_consistent(self) -> bool {
        &&& (forall|i: int|
            0 <= i < self.entry_seq().len() ==> self.pos_map().contains_key(
                (#[trigger] self.entry_seq()[i]).0,
            ) && self.pos_map()[self.entry_seq()[i].0] == i)
        &&& (forall|k: usize|
            #[trigger] self.pos_map().contains_key(k) ==> self.pos_map()[k]
                < self.entry_seq().len() && self.entry_seq()[self.pos_map()[k] as int].0 == k)
    }

    /// The binary-heap order property: no entry is below its parent.
    pub open spec fn heap_ordered(self) -> bool {
        forall|i: int|
            1 <= i < self.entry_seq().len() ==> (#[trigger] self.entry_seq()[i]).1
                >= self.entry_seq()[parent(i)].1
    }

    pub open spec fn wf(self) -> bool {
        self.pos_consistent() && self.heap_ordered()
    }

    /// Heap order everywhere except possibly on the edge into position `j`.
    spec fn heap_except_up(self, j: int) -> bool {
        forall|i: int|
            1 <= i < self.entry_seq().len() && i != j ==> (#[trigger] self.entry_seq()[i]).1
                >= self.entry_seq()[parent(i)].1
    }

    /// Heap order everywhere except possibly on the edges out of position
    /// `j`.
    spec fn heap_except_down(self, j: int) -> bool {
        forall|i: int|
            1 <= i < self.entry_seq().len() && parent(i) != j ==> (#[trigger] self.entry_seq()[i]).1
                >= self.entry_seq()[parent(i)].1
    }

    /// The children of position `j` are bounded below by `j`'s parent.
    spec fn hole_children_bound(self, j: int) -> bool {
        j >= 1 ==> (forall|c: int|
            0 <= c < self.entry_seq().len() && parent(c) == j ==> (
            #[trigger] self.entry_seq()[c]).1 >= self.entry_seq()[parent(j)].1)
    }
}

/// The root of an ordered heap is a minimum.
proof fn lemma_root_min(h: MinHeap, i: int)
    requires
        h.heap_ordered(),
        0 <= i < h.len(),
    ensures
        h.prio_at(0) <= h.prio_at(i),
    decreases i,
{
    if i >= 1 {
        lemma_parent_bounds(i);
        lemma_root_min(h, parent(i));
    }
}

/// One upward swap keeps the sift-up invariants, with the hole moved to the
/// parent position.
proof fn lemma_sift_up_step(pre: MinHeap, post: MinHeap, j: int)
    requires
        1 <= j < pre.entry_seq().len(),
        pre.heap_except_up(j),
        pre.hole_children_bound(j),
        pre.entry_seq()[parent(j)].1 > pre.entry_seq()[j].1,
        post.entry_seq() == pre.entry_seq().update(parent(j), pre.entry_seq()[j]).update(
            j,
            pre.entry_seq()[parent(j)],
        ),
    ensures
        post.heap_except_up(parent(j)),
        post.hole_children_bound(parent(j)),
{
    let pi = parent(j);
    lemma_parent_bounds(j);
    let s0 = pre.entry_seq();
    let s1 = post.entry_seq();
    assert(s1[pi] == s0[j] && s1[j] == s0[pi]);
    assert(forall|x: int| 0 <= x < s1.len() && x != pi && x != j ==> s1[x] == s0[x]);
    assert forall|x: int| 1 <= x < s1.len() && x != pi implies (#[trigger] s1[x]).1 >= s1[parent(
        x,
    )].1 by {
        lemma_parent_bounds(x);
        if x == j {
        } else if parent(x) == pi {
            assert(s0[x].1 >= s0[pi].1);
        } else if parent(x) == j {
            assert(s0[x].1 >= s0[parent(j)].1);
        } else {
            assert(s1[x] == s0[x] && s1[parent(x)] == s0[parent(x)]);
            assert(s0[x].1 >= s0[parent(x)].1);
        }
    }
    if pi >= 1 {
        assert forall|c: int| 0 <= c < s1.len() && parent(c) == pi implies (#[trigger] s1[c]).1
            >= s1[parent(pi)].1 by {
            lemma_parent_bounds(pi);
            assert(s1[parent(pi)] == s0[parent(pi)]);
            if c == j {
                assert(s0[pi].1 >= s0[parent(pi)].1);
            } else {
                assert(c != pi && c != j);
                assert(s1[c] == s0[c]);
                assert(s0[c].1 >= s0[pi].1);
                assert(s0[pi].1 >= s0[parent(pi)].1);
            }
        }
    }
}

/// When the edge into the hole holds, sifting up is finished.
proof fn lemma_sift_up_done(h: MinHeap, j: int)
    requires
        0 <= j < h.entry_seq().len(),
        h.heap_except_up(j),
        j == 0 || h.entry_seq()[j].1 >= h.entry_seq()[parent(j)].1,
    ensures
        h.heap_ordered(),
{
}

/// One downward swap keeps the sift-down invariants, with the hole moved to
/// the least child `c`.
proof fn lemma_sift_down_step(pre: MinHeap, post: MinHeap, j: int, c: int)
    requires
        0 <= j < pre.entry_seq().len(),
        c == 2 * j + 1 || c == 2 * j + 2,
        c < pre.entry_seq().len(),
        pre.heap_except_down(j),
        pre.hole_children_bound(j),
        forall|x: int|
            0 <= x < pre.entry_seq().len() && parent(x) == j ==> (#[trigger] pre.entry_seq()[x]).1
                >= pre.entry_seq()[c].1,
        pre.entry_seq()[j].1 > pre.entry_seq()[c].1,
        post.entry_seq() == pre.entry_seq().update(j, pre.entry_seq()[c]).update(
            c,
            pre.entry_seq()[j],
        ),
    ensures
        post.heap_except_down(c),
        post.hole_children_bound(c),
{
    let s0 = pre.entry_seq();
    let s1 = post.entry_seq();
    lemma_child_parent(j);
    assert(parent(c) == j);
    assert(s1[j] == s0[c] && s1[c] == s0[j]);
    assert(forall|x: int| 0 <= x < s1.len() && x != j && x != c ==> s1[x] == s0[x]);
    assert forall|x: int| 1 <= x < s1.len() && parent(x) != c implies (#[trigger] s1[x]).1
        >= s1[parent(x)].1 by {
        lemma_parent_bounds(x);
        if x == c {
        } else if x == j {
            assert(s0[c].1 >= s0[parent(j)].1);
            assert(s1[parent(j)] == s0[parent(j)]);
        } else if parent(x) == j {
            assert(s0[x].1 >= s0[c].1);
        } else {
            assert(s1[x] == s0[x] && s1[parent(x)] == s0[parent(x)]);
            assert(s0[x].1 >= s0[parent(x)].1);
        }
    }
    assert forall|g: int| 0 <= g < s1.len() && parent(g) == c implies (#[trigger] s1[g]).1
        >= s1[parent(c)].1 by {
        lemma_parent_bounds(g);
        assert(g != j && g != c);
        assert(s1[g] == s0[g]);
        assert(s0[g].1 >= s0[c].1);
    }
}

/// A hole with no children closes the sift-down.
proof fn lemma_sift_down_done_leaf(h: MinHeap, j: int)
    requires
        0 <= j < h.entry_seq().len(),
        h.heap_except_down(j),
        2 * j + 1 >= h.entry_seq().len(),
    ensures
        h.heap_ordered(),
{
    assert forall|i: int| 1 <= i < h.entry_seq().len() implies (#[trigger] h.entry_seq()[i]).1
        >= h.entry_seq()[parent(i)].1 by {
        lemma_parent_bounds(i);
    }
}

/// A hole no larger than its least child closes the sift-down.
proof fn lemma_sift_down_done_inner(h: MinHeap, j: int, c: int)
    requires
        0 <= j < h.entry_seq().len(),
        h.heap_except_down(j),
        c < h.entry_seq().len(),
        forall|x: int|
            0 <= x < h.entry_seq().len() && parent(x) == j ==> (#[trigger] h.entry_seq()[x]).1
                >= h.entry_seq()[c].1,
        h.entry_seq()[j].1 <= h.entry_seq()[c].1,
    ensures
        h.heap_ordered(),
{
    assert forall|i: int| 1 <= i < h.entry_seq().len() implies (#[trigger] h.entry_seq()[i]).1
        >= h.entry_seq()[parent(i)].1 by {
        if parent(i) == j {
            assert(h.entry_seq()[i].1 >= h.entry_seq()[c].1);
        }
    }
}

impl MinHeap {
    pub fn new() -> (h: MinHeap)
        ensures
            h.wf(),
            h@ == Map::<usize, i32>::empty(),
            h.len() == 0,
    {
        let h = MinHeap { entries: Vec::new(), pos: HashMap::new() };
        proof {
            assert(h@ =~= Map::<usize, i32>::empty());
        }
        h
    }

    /// Swap the entries at two distinct positions, keeping the index map in
    /// step.
    fn swap_entries(&mut self, a: usize, b: usize)
        requires
            old(self).pos_consistent(),
            a < old(self).len(),
            b < old(self).len(),
            a != b,
        ensures
            final(self).pos_consistent(),
            final(self).entry_seq() == old(self).entry_seq().update(
                a as int,
                old(self).entry_seq()[b as int],
            ).update(b as int, old(self).entry_seq()[a as int]),
            final(self)@ == old(self)@,
            final(self).len() == old(self).len(),
    {
        let ea = self.entries[a];
        let eb = self.entries[b];
        proof {
            assert(ea.0 != eb.0) by {
                assert(self.pos_map()[ea.0] == a as int && self.pos_map()[eb.0] == b as int);
            }
        }
        self.entries.set(a, eb);
        self.entries.set(b, ea);
        self.pos.insert(eb.0, a);
        self.pos.insert(ea.0, b);
        proof {
            let g0 = *old(self);
            let s0 = g0.entry_seq();
            let s1 = self.entry_seq();
            assert forall|i: int|
                0 <= i < s1.len() implies self.pos_map().contains_key((#[trigger] s1[i]).0)
                    && self.pos_map()[s1[i].0] == i by {
                if i == a as int {
                } else if i == b as int {
                } else {
                    assert(s1[i] == s0[i]);
                    assert(g0.pos_map()[s0[i].0] == i);
                    assert(s0[i].0 != ea.0 && s0[i].0 != eb.0);
                }
            }
            assert forall|k: usize|
                #[trigger] self.pos_map().contains_key(k) implies self.pos_map()[k] < s1.len()
                    && s1[self.pos_map()[k] as int].0 == k by {
                if k == ea.0 {
                } else if k == eb.0 {
                } else {
                    assert(g0.pos_map().contains_key(k));
                    assert(g0.pos_map()[k] != a as int && g0.pos_map()[k] != b as int);
                    assert(s1[g0.pos_map()[k] as int] == s0[g0.pos_map()[k] as int]);
                }
            }
            assert(self@ =~= g0@) by {
                assert forall|k: usize| #[trigger] g0@.contains_key(k) implies self@.contains_key(
                    k,
                ) && self@[k] == g0@[k] by {
                    if k == ea.0 {
                        assert(s1[b as int].1 == ea.1);
                    } else if k == eb.0 {
                        assert(s1[a as int].1 == eb.1);
                    } else {
                        assert(g0.pos_map()[k] != a as int && g0.pos_map()[k] != b as int);
                    }
                }
                assert(forall|k: usize|
                    #[trigger] self@.contains_key(k) ==> g0@.contains_key(k));
            }
        }
    }

    /// Restore heap order by moving the entry at `start` towards the root.
    fn sift_up(&mut self, start: usize)
        requires
            old(self).pos_consistent(),
            start < old(self).len(),
            old(self).heap_except_up(start as int),
            old(self).hole_children_bound(start as int),
        ensures
            final(self).wf(),
            final(self)@ == old(self)@,
            final(self).len() == old(self).len(),
    {
        let mut j = start;
        while j > 0 && self.entries[(j - 1) / 2].1 > self.entries[j].1
            invariant
                self.pos_consistent(),
                j < self.len(),
                self.len() == old(self).len(),
                self@ == old(self)@,
                self.heap_except_up(j as int),
                self.hole_children_bound(j as int),
            decreases j,
        {
            let p = (j - 1) / 2;
            let ghost pre = *self;
            proof {
                lemma_parent_bounds(j as int);
                assert(p as int == parent(j as int));
            }
            self.swap_entries(p, j);
            proof {
                lemma_sift_up_step(pre, *self, j as int);
            }
            j = p;
        }
        proof {
            if j > 0 {
                lemma_parent_bounds(j as int);
            }
            lemma_sift_up_done(*self, j as int);
        }
    }

    /// Restore heap order by moving the entry at `start` towards the leaves.
    fn sift_down(&mut self, start: usize)
        requires
            old(self).pos_consistent(),
            start < old(self).len(),
            old(self).heap_except_down(start as int),
            old(self).hole_children_bound(start as int),
        ensures
            final(self).wf(),
            final(self)@ == old(self)@,
            final(self).len() == old(self).len(),
    {
        let mut j = start;
        loop
            invariant_except_break
                self.pos_consistent(),
                j < self.len(),
                self.len() == old(self).len(),
                self@ == old(self)@,
                self.heap_except_down(j as int),
                self.hole_children_bound(j as int),
            ensures
                self.wf(),
                self@ == old(self)@,
                self.len() == old(self).len(),
            decreases self.len() - j,
        {
            let n = self.entries.len();
            proof {
                vstd::arithmetic::div_mod::lemma_fundamental_div_mod(n as int, 2);
                vstd::arithmetic::div_mod::lemma_mod_pos_bound(n as int, 2);
            }
            if j >= n / 2 {
                proof {
                    lemma_sift_down_done_leaf(*self, j as int);
                }
                break;
            }
            let l = 2 * j + 1;
            let r = 2 * j + 2;
            proof {
                lemma_child_parent(j as int);
                assert(l < n && r <= n);
            }
            let mut c = l;
            if r < n && self.entries[r].1 < self.entries[l].1 {
                c = r;
            }
            let ghost ci = c as int;
            let ghost ji = j as int;
            proof {
                // c is a least child of j
                assert forall|x: int|
                    0 <= x < n && parent(x) == ji implies (#[trigger] self.entry_seq()[x]).1
                        >= self.entry_seq()[ci].1 by {
                    lemma_parent_bounds(x);
                    assert(x == l as int || x == r as int);
                }
            }
            if self.entries[j].1 <= self.entries[c].1 {
                proof {
                    lemma_sift_down_done_inner(*self, ji, ci);
                }
                break;
            }
            let ghost pre = *self;
            self.swap_entries(j, c);
            proof {
                lemma_sift_down_step(pre, *self, ji, ci);
            }
            j = c;
        }
    }

    /// Insert a new identity at the given priority.  The identity must not
    /// already be present.
    pub fn insert(&mut self, identity: usize, priority: i32)
        requires
            old(self).wf(),
            !old(self)@.contains_key(identity),
            old(self).len() < usize::MAX,
        ensures
            final(self).wf(),
            final(self)@ == old(self)@.insert(identity, priority),
            final(self).len() == old(self).len() + 1,
    {
        let ghost g0 = *self;
        let n = self.entries.len();
        self.entries.push((identity, priority));
        self.pos.insert(identity, n);
        proof {
            let s0 = g0.entry_seq();
            let s1 = self.entry_seq();
            let ni = n as int;
            assert(s1 == s0.push((identity, priority)));
            assert forall|i: int|
                0 <= i < s1.len() implies self.pos_map().contains_key((#[trigger] s1[i]).0)
                    && self.pos_map()[s1[i].0] == i by {
                if i == ni {
                } else {
                    assert(s1[i] == s0[i]);
                    assert(g0.pos_map().contains_key(s0[i].0));
                    assert(s0[i].0 != identity);
                }
            }
            assert forall|k: usize|
                #[trigger] self.pos_map().contains_key(k) implies self.pos_map()[k] < s1.len()
                    && s1[self.pos_map()[k] as int].0 == k by {
                if k == identity {
                } else {
                    assert(g0.pos_map().contains_key(k));
                    assert(s1[g0.pos_map()[k] as int] == s0[g0.pos_map()[k] as int]);
                }
            }
            assert(self.pos_consistent());
            assert(self.heap_except_up(ni)) by {
                assert(forall|i: int| 1 <= i < ni ==> (#[trigger] s1[i]) == s0[i]);
                assert forall|i: int| 1 <= i < s1.len() && i != ni implies (#[trigger] s1[i]).1
                    >= s1[parent(i)].1 by {
                    lemma_parent_bounds(i);
                    assert(s1[i] == s0[i] && s1[parent(i)] == s0[parent(i)]);
                }
            }
            assert(self.hole_children_bound(ni)) by {
                if ni >= 1 {
                    assert forall|c: int|
                        0 <= c < s1.len() && parent(c) == ni implies (#[trigger] s1[c]).1
                            >= s1[parent(ni)].1 by {
                        lemma_parent_bounds(c);
                        assert(c >= 2 * ni + 1);
                        assert(c < ni + 1);
                    }
                }
            }
            assert(self@ =~= g0@.insert(identity, priority)) by {
                assert(self@.contains_key(identity) && self@[identity] == priority);
                assert forall|k: usize| k != identity && #[trigger] g0@.contains_key(
                    k,
                ) implies self@.contains_key(k) && self@[k] == g0@[k] by {
                    assert(g0.pos_map()[k] < ni);
                }
                assert(forall|k: usize|
                    k != identity && #[trigger] self@.contains_key(k) ==> g0@.contains_key(k));
            }
        }
        let ghost mid = *self;
        self.sift_up(n);
        proof {
            assert(self@ == mid@);
        }
    }

    /// The current priority of a still-present identity, without removing
    /// it; `None` when the identity is absent.
    pub fn peek_priority_by_identity(&self, identity: usize) -> (r: Option<i32>)
        requires
            self.wf(),
        ensures
            r == if self@.contains_key(identity) {
                Some(self@[identity])
            } else {
                None::<i32>
            },
    {
        match self.pos.get(&identity) {
            Some(i) => {
                proof {
                    assert(self.pos_map().contains_key(identity));
                    assert(self.pos_map()[identity] == *i);
                }
                Some(self.entries[*i].1)
            },
            None => None,
        }
    }

    /// The current array position of a present identity, or `None`.
    pub fn position_of(&self, identity: usize) -> (r: Option<usize>)
        requires
            self.wf(),
        ensures
            match r {
                Some(i) => self@.contains_key(identity) && i < self.len() && self.id_at(i as int)
                    == identity && self.prio_at(i as int) == self@[identity],
                None => !self@.contains_key(identity),
            },
    {
        match self.pos.get(&identity) {
            Some(i) => Some(*i),
            None => None,
        }
    }

    /// Lower the priority of the entry at `position` and restore heap order
    /// by sifting up.  Callable only with a priority no larger than the
    /// current one.
    #[verifier::rlimit(100)]
    pub fn decrease_priority_at(&mut self, position: usize, new_priority: i32)
        requires
            old(self).wf(),
            position < old(self).len(),
            new_priority <= old(self).prio_at(position as int),
        ensures
            final(self).wf(),
            final(self)@ == old(self)@.insert(old(self).id_at(position as int), new_priority),
            final(self).len() == old(self).len(),
    {
        let ghost g0 = *self;
        let ghost pi = position as int;
        let id = self.entries[position].0;
        self.entries.set(position, (id, new_priority));
        proof {
            let s0 = g0.entry_seq();
            let s1 = self.entry_seq();
            assert(s1 == s0.update(pi, (id, new_priority)));
            assert(forall|i: int| 0 <= i < s1.len() ==> (#[trigger] s1[i]).0 == s0[i].0);
            assert forall|i: int|
                0 <= i < s1.len() implies self.pos_map().contains_key((#[trigger] s1[i]).0)
                    && self.pos_map()[s1[i].0] == i by {
                assert(s1[i].0 == s0[i].0);
            }
            assert(self.pos_consistent());
            assert forall|x: int| 1 <= x < s1.len() && x != pi implies (#[trigger] s1[x]).1
                >= s1[parent(x)].1 by {
                lemma_parent_bounds(x);
                if parent(x) == pi {
                    assert(s0[x].1 >= s0[pi].1);
                } else {
                    assert(s1[x] == s0[x] && s1[parent(x)] == s0[parent(x)]);
                }
            }
            assert(self.heap_except_up(pi));
            if pi >= 1 {
                assert forall|c: int| 0 <= c < s1.len() && parent(c) == pi implies (
                #[trigger] s1[c]).1 >= s1[parent(pi)].1 by {
                    lemma_parent_bounds(pi);
                    lemma_parent_bounds(c);
                    assert(s1[c] == s0[c]);
                    assert(s0[c].1 >= s0[pi].1);
                    assert(s0[pi].1 >= s0[parent(pi)].1);
                }
            }
            assert(self.hole_children_bound(pi));
            assert(self@ =~= g0@.insert(id, new_priority)) by {
                assert(self@.contains_key(id) && self@[id] == new_priority);
                assert forall|k: usize| k != id && #[trigger] g0@.contains_key(
                    k,
                ) implies self@.contains_key(k) && self@[k] == g0@[k] by {
                    assert(g0.pos_map()[k] != pi);
                }
                assert(forall|k: usize|
                    k != id && #[trigger] self@.contains_key(k) ==> g0@.contains_key(k));
            }
        }
        let ghost mid = *self;
        self.sift_up(position);
        proof {
            assert(self@ == mid@);
        }
    }

    /// Remove the entry at an arbitrary position and restore heap order.
    #[verifier::rlimit(100)]
    pub fn delete_at(&mut self, position: usize)
        requires
            old(self).wf(),
            position < old(self).len(),
        ensures
            final(self).wf(),
            final(self)@ == old(self)@.remove(old(self).id_at(position as int)),
            final(self).len() == old(self).len() - 1,
    {
        let ghost g0 = *self;
        let ghost pi = position as int;
        let n = self.entries.len();
        let last = n - 1;
        if position == last {
            let e = self.entries.pop().unwrap();
            self.pos.remove(&e.0);
            proof {
                let s0 = g0.entry_seq();
                let s1 = self.entry_seq();
                assert(s1 =~= s0.subrange(0, last as int));
                assert forall|i: int|
                    0 <= i < s1.len() implies self.pos_map().contains_key((#[trigger] s1[i]).0)
                        && self.pos_map()[s1[i].0] == i by {
                    assert(s1[i] == s0[i]);
                    assert(g0.pos_map()[s0[i].0] == i);
                    assert(s0[i].0 != e.0);
                }
                assert forall|k: usize|
                    #[trigger] self.pos_map().contains_key(k) implies self.pos_map()[k] < s1.len()
                        && s1[self.pos_map()[k] as int].0 == k by {
                    assert(g0.pos_map().contains_key(k) && k != e.0);
                    assert(g0.pos_map()[k] != last as int);
                }
                assert forall|i: int| 1 <= i < s1.len() implies (#[trigger] s1[i]).1 >= s1[parent(
                    i,
                )].1 by {
                    lemma_parent_bounds(i);
                    assert(s1[i] == s0[i] && s1[parent(i)] == s0[parent(i)]);
                }
                assert(self@ =~= g0@.remove(e.0)) by {
                    assert forall|k: usize| k != e.0 && #[trigger] g0@.contains_key(
                        k,
                    ) implies self@.contains_key(k) && self@[k] == g0@[k] by {
                        assert(g0.pos_map()[k] != last as int);
                    }
                    assert(forall|k: usize|
                        #[trigger] self@.contains_key(k) ==> g0@.contains_key(k) && k != e.0);
                }
            }
        } else {
            let moved = self.entries[last];
            let e = self.entries[position];
            proof {
                assert(e.0 != moved.0) by {
                    assert(g0.pos_map()[e.0] == pi && g0.pos_map()[moved.0] == last as int);
                }
            }
            self.entries.set(position, moved);
            self.entries.pop();
            self.pos.remove(&e.0);
            self.pos.insert(moved.0, position);
            proof {
                let s0 = g0.entry_seq();
                let s1 = self.entry_seq();
                assert(s1 =~= s0.update(pi, moved).subrange(0, last as int));
                assert(s1[pi] == moved);
                assert(forall|i: int| 0 <= i < s1.len() && i != pi ==> s1[i] == s0[i]);
                assert forall|i: int|
                    0 <= i < s1.len() implies self.pos_map().contains_key((#[trigger] s1[i]).0)
                        && self.pos_map()[s1[i].0] == i by {
                    if i == pi {
                    } else {
                        assert(s1[i] == s0[i]);
                        assert(g0.pos_map()[s0[i].0] == i);
                        assert(s0[i].0 != e.0 && s0[i].0 != moved.0);
                    }
                }
                assert forall|k: usize|
                    #[trigger] self.pos_map().contains_key(k) implies self.pos_map()[k] < s1.len()
                        && s1[self.pos_map()[k] as int].0 == k by {
                    if k == moved.0 {
                    } else {
                        assert(g0.pos_map().contains_key(k) && k != e.0);
                        assert(g0.pos_map()[k] != pi && g0.pos_map()[k] != last as int);
                    }
                }
                assert(self.pos_consistent());
                assert(self@ =~= g0@.remove(e.0)) by {
                    assert(self@.contains_key(moved.0) && self@[moved.0] == moved.1);
                    assert forall|k: usize| k != e.0 && k != moved.0 && #[trigger] g0@.contains_key(
                        k,
                    ) implies self@.contains_key(k) && self@[k] == g0@[k] by {
                        assert(g0.pos_map()[k] != pi && g0.pos_map()[k] != last as int);
                    }
                    assert(forall|k: usize|
                        #[trigger] self@.contains_key(k) ==> g0@.contains_key(k) && k != e.0);
                }
                // order holds except around the replaced position
                assert forall|x: int| 1 <= x < s1.len() && x != pi && parent(x) != pi implies (
                #[trigger] s1[x]).1 >= s1[parent(x)].1 by {
                    lemma_parent_bounds(x);
                    assert(s1[x] == s0[x] && s1[parent(x)] == s0[parent(x)]);
                }
            }
            let ghost mid = *self;
            if position > 0 && self.entries[(position - 1) / 2].1 > self.entries[position].1 {
                proof {
                    let s0 = g0.entry_seq();
                    let s1 = mid.entry_seq();
                    assert forall|x: int| 1 <= x < s1.len() && x != pi implies (#[trigger] s1[x]).1
                        >= s1[parent(x)].1 by {
                        lemma_parent_bounds(x);
                        if parent(x) == pi {
                            // a child of the hole is above the old entry
                            // there, which was above the hole's parent only;
                            // here it must be above the moved value:
                            // moved < parent(hole) <= old entry <= child
                            lemma_parent_bounds(pi);
                            assert(s0[x].1 >= s0[pi].1);
                            assert(s0[pi].1 >= s0[parent(pi)].1);
                            assert(s1[pi].1 < s1[parent(pi)].1);
                            assert(s1[parent(pi)] == s0[parent(pi)]);
                        }
                    }
                    assert(mid.heap_except_up(pi));
                    if pi >= 1 {
                        assert forall|c: int| 0 <= c < s1.len() && parent(c) == pi implies (
                        #[trigger] s1[c]).1 >= s1[parent(pi)].1 by {
                            lemma_parent_bounds(pi);
                            lemma_parent_bounds(c);
                            assert(s1[c] == s0[c]);
                            assert(s0[c].1 >= s0[pi].1);
                            assert(s0[pi].1 >= s0[parent(pi)].1);
                        }
                    }
                    assert(mid.hole_children_bound(pi));
                }
                self.sift_up(position);
            } else {
                proof {
                    let s0 = g0.entry_seq();
                    let s1 = mid.entry_seq();
                    assert forall|x: int| 1 <= x < s1.len() && parent(x) != pi implies (
                    #[trigger] s1[x]).1 >= s1[parent(x)].1 by {
                        lemma_parent_bounds(x);
                        if x == pi {
                            // the edge into the hole holds by the case split
                            assert(pi == 0 || s1[parent(pi)].1 <= s1[pi].1);
                        } else {
                            assert(s1[x] == s0[x] && s1[parent(x)] == s0[parent(x)]);
                        }
                    }
                    assert(mid.heap_except_down(pi));
                    if pi >= 1 {
                        assert forall|c: int| 0 <= c < s1.len() && parent(c) == pi implies (
                        #[trigger] s1[c]).1 >= s1[parent(pi)].1 by {
                            lemma_parent_bounds(pi);
                            lemma_parent_bounds(c);
                            assert(s1[c] == s0[c]);
                            assert(s0[c].1 >= s0[pi].1);
                            assert(s0[pi].1 >= s0[parent(pi)].1);
                        }
                    }
                    assert(mid.hole_children_bound(pi));
                }
                self.sift_down(position);
            }
        }
    }

    /// Remove and return a pair with the smallest priority, or `None` when
    /// the heap is empty.
    pub fn extract_min(&mut self) -> (r: Option<(usize, i32)>)
        requires
            old(self).wf(),
        ensures
            final(self).wf(),
            old(self).len() == 0 ==> r == None::<(usize, i32)> && final(self)@ == old(self)@
                && final(self).len() == 0,
            old(self).len() > 0 ==> (r matches Some(p) && {
                &&& old(self)@.contains_key(p.0)
                &&& old(self)@[p.0] == p.1
                &&& (forall|k: usize| #[trigger] old(self)@.contains_key(k) ==> p.1 <= old(self)@[k])
                &&& final(self)@ == old(self)@.remove(p.0)
                &&& final(self).len() == old(self).len() - 1
            }),
    {
        if self.entries.len() == 0 {
            return None;
        }
        let e = self.entries[0];
        proof {
            assert(self.entry_seq()[0] == e);
            assert(self.pos_map().contains_key(e.0) && self.pos_map()[e.0] == 0);
            assert(self@.contains_key(e.0) && self@[e.0] == e.1);
            assert forall|k: usize| #[trigger] self@.contains_key(k) implies e.1 <= self@[k] by {
                lemma_root_min(*self, self.pos_map()[k] as int);
            }
        }
        self.delete_at(0);
        Some(e)
    }
}

} // verus!
