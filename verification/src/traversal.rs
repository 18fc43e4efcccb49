//! The traversal engine shared by Dijkstra and Prim.
//!
//! Both algorithms drain an indexed min-heap that was seeded with every
//! vertex at a sentinel priority: remove the start vertex, record it at
//! score zero, then repeatedly extract the minimum, record it, and relax its
//! neighbors.  They differ only in the candidate priority offered to a
//! frontier vertex: the accumulated distance for shortest paths, the raw
//! edge weight for a minimum spanning tree.

use crate::graph::{lemma_out_edges_props, Edge, Graph};
use crate::min_heap::MinHeap;
use std::collections::HashMap;
use vstd::prelude::*;

verus! {

broadcast use vstd::std_specs::hash::group_hash_axioms;

/// The reserved priority standing in for an infinite / unknown distance.
/// A vertex that is never relaxed keeps this value, so callers must treat
/// it as an "unreachable" marker, not as a true distance.
pub const SENTINEL: i32 = 100000000;

/// The relaxation rule a traversal runs under.
#[derive(Debug, Clone, Copy, PartialEq, Eq, Structural)]
pub enum ScoringRule {
    /// Offer the recorded score of the finalized vertex plus the edge
    /// weight: single-source shortest paths.
    Distance,
    /// Offer the raw edge weight: cheapest edge into the spanning tree.
    EdgeWeight,
}

/// The candidate priority offered along an edge of weight `w` out of a
/// vertex whose recorded score is `base`.
pub open spec fn candidate(rule: ScoringRule, base: i32, w: i32) -> int {
    match rule {
        ScoringRule::Distance => base + w,
        ScoringRule::EdgeWeight => w as int,
    }
}

/// Every recorded edge weight is nonnegative and small enough that a score
/// below the sentinel plus a weight still fits in an `i32`.
pub open spec fn weights_ok(g: Graph) -> bool {
    forall|u: usize, e: Edge|
        #[trigger] g.out_mult(u, e) > 0 ==> 0 <= e.weight <= i32::MAX - SENTINEL
}

/// Every identity in the heap is a vertex of the graph.
pub open spec fn heap_in_graph(h: Map<usize, i32>, g: Graph) -> bool {
    forall|k: usize| #[trigger] h.contains_key(k) ==> g.contains_vertex(k)
}

/// Every priority in the heap lies between zero and the sentinel.
pub open spec fn priorities_in_range(h: Map<usize, i32>) -> bool {
    forall|k: usize| #[trigger] h.contains_key(k) ==> 0 <= h[k] <= SENTINEL
}

/// What one relaxation pass from `id` does to the heap contents: no
/// identity appears or disappears, every edge out of `id` has been offered,
/// no priority rises, and a priority falls only to a candidate along an
/// actual edge out of `id`.
pub open spec fn relaxed(
    h0: Map<usize, i32>,
    h1: Map<usize, i32>,
    g: Graph,
    base: i32,
    id: usize,
    rule: ScoringRule,
) -> bool {
    &&& h1.dom() == h0.dom()
    &&& (forall|k: usize, w: i32|
        h1.contains_key(k) && #[trigger] g.out_mult(id, Edge { vertex: k, weight: w }) > 0
            ==> h1[k] <= candidate(rule, base, w))
    &&& (forall|k: usize| #[trigger] h1.contains_key(k) ==> h1[k] <= h0[k])
    &&& (forall|k: usize|
        #[trigger] h1.contains_key(k) ==> h1[k] == h0[k] || (exists|w: i32|
            #[trigger] g.out_mult(id, Edge { vertex: k, weight: w }) > 0 && h1[k] == candidate(
                rule,
                base,
                w,
            ) && candidate(rule, base, w) < h0[k]))
}

/// Offer every edge out of `id` to the still-unprocessed heap entries,
/// lowering a priority whenever the candidate is smaller.
pub fn relax_neighbors(
    heap: &mut MinHeap,
    processed: &HashMap<usize, i32>,
    graph: &Graph,
    id: usize,
    rule: ScoringRule,
)
    requires
        graph.wf(),
        graph.contains_vertex(id),
        old(heap).wf(),
        rule == ScoringRule::Distance ==> processed@.contains_key(id),
        forall|e: Edge|
            #[trigger] graph.out_mult(id, e) > 0 ==> i32::MIN <= candidate(
                rule,
                processed@[id],
                e.weight,
            ) <= i32::MAX,
    ensures
        final(heap).wf(),
        final(heap).len() == old(heap).len(),
        relaxed(old(heap)@, final(heap)@, *graph, processed@[id], id, rule),
{
    let adj = graph.get_outgoing(id);
    let base: i32 = match rule {
        ScoringRule::Distance => *processed.get(&id).unwrap(),
        ScoringRule::EdgeWeight => 0,
    };
    proof {
        lemma_out_edges_props(*graph, id);
        assert(forall|w: i32|
            candidate(rule, base, w) == candidate(rule, processed@[id], w));
    }
    let ghost h0 = heap@;
    let mut i: usize = 0;
    let n = adj.len();
    while i < n
        invariant
            heap.wf(),
            heap@.dom() == h0.dom(),
            heap.len() == old(heap).len(),
            h0 == old(heap)@,
            n == adj@.len(),
            i <= n,
            adj@ == graph.out_edges(id),
            graph.wf(),
            graph.contains_vertex(id),
            forall|w: i32| candidate(rule, base, w) == candidate(rule, processed@[id], w),
            forall|e: Edge|
                #[trigger] graph.out_mult(id, e) > 0 ==> i32::MIN <= candidate(
                    rule,
                    base,
                    e.weight,
                ) <= i32::MAX,
            forall|e: Edge| graph.out_edges(id).contains(e) <==> graph.out_mult(id, e) > 0,
            forall|j: int|
                0 <= j < i && heap@.contains_key((#[trigger] adj@[j]).vertex) ==> heap@[adj@[j].vertex]
                    <= candidate(rule, base, adj@[j].weight),
            forall|k: usize| #[trigger] heap@.contains_key(k) ==> heap@[k] <= h0[k],
            forall|k: usize|
                #[trigger] heap@.contains_key(k) ==> heap@[k] == h0[k] || (exists|w: i32|
                    #[trigger] graph.out_mult(id, Edge { vertex: k, weight: w }) > 0 && heap@[k]
                        == candidate(rule, base, w) && candidate(rule, base, w) < h0[k]),
        decreases n - i,
    {
        let e = adj[i];
        proof {
            assert(adj@.contains(e));
            assert(graph.out_mult(id, e) > 0);
        }
        let got = heap.peek_priority_by_identity(e.vertex);
        if let Some(cur) = got {
            let cand: i32 = match rule {
                ScoringRule::Distance => base + e.weight,
                ScoringRule::EdgeWeight => e.weight,
            };
            if cand < cur {
                let ghost hmid = heap@;
                let idx = heap.position_of(e.vertex).unwrap();
                heap.decrease_priority_at(idx, cand);
                proof {
                    assert(heap@ == hmid.insert(e.vertex, cand));
                    assert(heap@.dom() =~= hmid.dom());
                    assert forall|k: usize| #[trigger] heap@.contains_key(k) implies heap@[k]
                        <= h0[k] by {
                        if k != e.vertex {
                            assert(heap@[k] == hmid[k]);
                        }
                    }
                    assert forall|j: int|
                        0 <= j < i + 1 && heap@.contains_key(
                            (#[trigger] adj@[j]).vertex,
                        ) implies heap@[adj@[j].vertex] <= candidate(
                        rule,
                        base,
                        adj@[j].weight,
                    ) by {
                        if adj@[j].vertex != e.vertex {
                            assert(heap@[adj@[j].vertex] == hmid[adj@[j].vertex]);
                        } else if j < i {
                            assert(hmid[adj@[j].vertex] <= candidate(rule, base, adj@[j].weight));
                        }
                    }
                }
            } else {
                proof {
                    assert(heap@[e.vertex] <= candidate(rule, base, e.weight));
                    assert forall|j: int|
                        0 <= j < i + 1 && heap@.contains_key(
                            (#[trigger] adj@[j]).vertex,
                        ) implies heap@[adj@[j].vertex] <= candidate(
                        rule,
                        base,
                        adj@[j].weight,
                    ) by {}
                }
            }
        } else {
            proof {
                assert forall|j: int|
                    0 <= j < i + 1 && heap@.contains_key(
                        (#[trigger] adj@[j]).vertex,
                    ) implies heap@[adj@[j].vertex] <= candidate(rule, base, adj@[j].weight) by {}
            }
        }
        i += 1;
    }
    proof {
        assert forall|k: usize, w: i32|
            final(heap)@.contains_key(k) && #[trigger] graph.out_mult(
                id,
                Edge { vertex: k, weight: w },
            ) > 0 implies final(heap)@[k] <= candidate(rule, processed@[id], w) by {
            let e = Edge { vertex: k, weight: w };
            assert(graph.out_edges(id).contains(e));
            let j = choose|j: int| 0 <= j < adj@.len() && adj@[j] == e;
            assert(adj@[j].vertex == k && adj@[j].weight == w);
        }
    }
}


/// An extraction record for one run: the finalized vertices in the order
/// they left the heap, the start vertex first, each exactly once, together
/// covering the recorded score map.
pub open spec fn run_order_ok(p: Map<usize, i32>, start: usize, ord: Seq<usize>) -> bool {
    &&& ord.len() >= 1 && ord[0] == start
    &&& (forall|j: int, l: int| 0 <= j < l < ord.len() ==> ord[j] != ord[l])
    &&& (forall|j: int| 0 <= j < ord.len() ==> p.dom().contains(#[trigger] ord[j]))
    &&& (forall|k: usize|
        #[trigger] p.dom().contains(k) ==> exists|j: int| 0 <= j < ord.len() && ord[j] == k)
}

/// Every recorded score after the first is the seed priority or a candidate
/// offered by an earlier-finalized vertex, and undercuts every such offer.
pub open spec fn scores_relaxation_correct(
    g: Graph,
    p: Map<usize, i32>,
    init: Map<usize, i32>,
    ord: Seq<usize>,
    rule: ScoringRule,
) -> bool {
    forall|j: int|
        #![trigger ord[j]]
        1 <= j < ord.len() ==> {
            &&& p[ord[j]] <= init[ord[j]]
            &&& (forall|i: int, w: i32|
                0 <= i < j && #[trigger] g.out_mult(ord[i], Edge { vertex: ord[j], weight: w })
                    > 0 ==> p[ord[j]] <= candidate(rule, p[ord[i]], w))
            &&& (p[ord[j]] == init[ord[j]] || (exists|i: int, w: i32|
                0 <= i < j && #[trigger] g.out_mult(ord[i], Edge { vertex: ord[j], weight: w })
                    > 0 && p[ord[j]] == candidate(rule, p[ord[i]], w)))
        }
}

/// The recorded scores never decrease along the extraction order.
pub open spec fn scores_monotone(p: Map<usize, i32>, ord: Seq<usize>) -> bool {
    forall|j: int, l: int|
        #![trigger ord[j], ord[l]]
        0 <= j < l < ord.len() ==> p[ord[j]] <= p[ord[l]]
}

/// Each finalized score was a minimum of the frontier at the moment it was
/// recorded: it undercuts the seed priority of every later-finalized
/// vertex, and every offer that a still-earlier-finalized vertex had
/// standing on a later-finalized vertex.
pub open spec fn extraction_minimal(
    g: Graph,
    p: Map<usize, i32>,
    init: Map<usize, i32>,
    ord: Seq<usize>,
    rule: ScoringRule,
) -> bool {
    forall|j: int, l: int|
        #![trigger ord[j], ord[l]]
        1 <= j < l < ord.len() ==> {
            &&& p[ord[j]] <= init[ord[l]]
            &&& (forall|i: int, w: i32|
                0 <= i < j && #[trigger] g.out_mult(ord[i], Edge { vertex: ord[l], weight: w })
                    > 0 ==> p[ord[j]] <= candidate(rule, p[ord[i]], w))
        }
}

/// The carrier of that minimality during a run: every already-finalized
/// score (after the start) undercuts, for every identity still in the
/// frontier, both its seed priority and every offer standing on it.
spec fn finalized_below_frontier(
    g: Graph,
    p: Map<usize, i32>,
    init: Map<usize, i32>,
    ord: Seq<usize>,
    h: Map<usize, i32>,
    rule: ScoringRule,
) -> bool {
    forall|j: int, k: usize|
        #![trigger ord[j], h.contains_key(k)]
        1 <= j < ord.len() && h.contains_key(k) ==> {
            &&& p[ord[j]] <= init[k]
            &&& (forall|i: int, w: i32|
                0 <= i < j && #[trigger] g.out_mult(ord[i], Edge { vertex: k, weight: w }) > 0
                    ==> p[ord[j]] <= candidate(rule, p[ord[i]], w))
        }
}

/// The standing obligation on the frontier: every still-heaped priority is
/// at most its seed, undercuts every candidate offered so far, and differs
/// from its seed only by having accepted such a candidate.
spec fn frontier_relaxed(
    g: Graph,
    p: Map<usize, i32>,
    init: Map<usize, i32>,
    ord: Seq<usize>,
    h: Map<usize, i32>,
    rule: ScoringRule,
) -> bool {
    forall|k: usize|
        #[trigger] h.contains_key(k) ==> {
            &&& h[k] <= init[k]
            &&& (forall|i: int, w: i32|
                0 <= i < ord.len() && #[trigger] g.out_mult(ord[i], Edge { vertex: k, weight: w })
                    > 0 ==> h[k] <= candidate(rule, p[ord[i]], w))
            &&& (h[k] == init[k] || (exists|i: int, w: i32|
                0 <= i < ord.len() && #[trigger] g.out_mult(ord[i], Edge { vertex: k, weight: w })
                    > 0 && h[k] == candidate(rule, p[ord[i]], w)))
        }
}

/// Recording one extracted vertex keeps the order bookkeeping and the
/// relaxation-correctness of the recorded scores.
proof fn lemma_step_record(
    g: Graph,
    p0: Map<usize, i32>,
    p1: Map<usize, i32>,
    init: Map<usize, i32>,
    ord0: Seq<usize>,
    ord1: Seq<usize>,
    h: Map<usize, i32>,
    v: usize,
    s: i32,
    start: usize,
    rule: ScoringRule,
)
    requires
        run_order_ok(p0, start, ord0),
        scores_relaxation_correct(g, p0, init, ord0, rule),
        frontier_relaxed(g, p0, init, ord0, h, rule),
        h.contains_key(v),
        !p0.dom().contains(v),
        s == h[v],
        p1 == p0.insert(v, s),
        ord1 == ord0.push(v),
    ensures
        run_order_ok(p1, start, ord1),
        scores_relaxation_correct(g, p1, init, ord1, rule),
{
    let n0 = ord0.len() as int;
    assert(forall|i: int| 0 <= i < n0 ==> ord1[i] == ord0[i]);
    assert(forall|i: int| 0 <= i < n0 ==> (#[trigger] ord0[i]) != v);
    assert(forall|i: int| 0 <= i < n0 ==> p1[#[trigger] ord0[i]] == p0[ord0[i]]);
    assert forall|k: usize| #[trigger] p1.dom().contains(k) implies exists|j: int|
        0 <= j < ord1.len() && ord1[j] == k by {
        if k == v {
            assert(ord1[n0] == k);
        } else {
            let j = choose|j: int| 0 <= j < ord0.len() && ord0[j] == k;
            assert(ord1[j] == k);
        }
    }
    assert(run_order_ok(p1, start, ord1));
    assert forall|j: int|
        #![trigger ord1[j]]
        1 <= j < ord1.len() implies {
        &&& p1[ord1[j]] <= init[ord1[j]]
        &&& (forall|i: int, w: i32|
            0 <= i < j && #[trigger] g.out_mult(ord1[i], Edge { vertex: ord1[j], weight: w }) > 0
                ==> p1[ord1[j]] <= candidate(rule, p1[ord1[i]], w))
        &&& (p1[ord1[j]] == init[ord1[j]] || (exists|i: int, w: i32|
            0 <= i < j && #[trigger] g.out_mult(ord1[i], Edge { vertex: ord1[j], weight: w }) > 0
                && p1[ord1[j]] == candidate(rule, p1[ord1[i]], w)))
    } by {
        if j < n0 {
            assert(ord1[j] == ord0[j]);
            assert(p1[ord1[j]] == p0[ord0[j]]);
            assert(p0[ord0[j]] <= init[ord0[j]]);
            assert forall|i: int, w: i32|
                0 <= i < j && #[trigger] g.out_mult(ord1[i], Edge { vertex: ord1[j], weight: w })
                    > 0 implies p1[ord1[j]] <= candidate(rule, p1[ord1[i]], w) by {
                assert(g.out_mult(ord0[i], Edge { vertex: ord0[j], weight: w }) > 0);
                assert(p0[ord0[j]] <= candidate(rule, p0[ord0[i]], w));
            }
            if p0[ord0[j]] != init[ord0[j]] {
                let (i, w) = choose|i: int, w: i32|
                    0 <= i < j && #[trigger] g.out_mult(
                        ord0[i],
                        Edge { vertex: ord0[j], weight: w },
                    ) > 0 && p0[ord0[j]] == candidate(rule, p0[ord0[i]], w);
                assert(g.out_mult(ord1[i], Edge { vertex: ord1[j], weight: w }) > 0 && p1[ord1[j]]
                    == candidate(rule, p1[ord1[i]], w));
            }
        } else {
            assert(j == n0 && ord1[j] == v && p1[ord1[j]] == s);
            assert(h[v] <= init[v]);
            assert forall|i: int, w: i32|
                0 <= i < j && #[trigger] g.out_mult(ord1[i], Edge { vertex: v, weight: w })
                    > 0 implies p1[v] <= candidate(rule, p1[ord1[i]], w) by {
                assert(g.out_mult(ord0[i], Edge { vertex: v, weight: w }) > 0);
                assert(h[v] <= candidate(rule, p0[ord0[i]], w));
            }
            if h[v] != init[v] {
                let (i, w) = choose|i: int, w: i32|
                    0 <= i < ord0.len() && #[trigger] g.out_mult(
                        ord0[i],
                        Edge { vertex: v, weight: w },
                    ) > 0 && h[v] == candidate(rule, p0[ord0[i]], w);
                assert(g.out_mult(ord1[i], Edge { vertex: ord1[j], weight: w }) > 0 && p1[ord1[j]]
                    == candidate(rule, p1[ord1[i]], w));
            }
        }
    }
}

/// Recording a minimum of the frontier keeps the scores non-decreasing.
proof fn lemma_step_monotone(
    p0: Map<usize, i32>,
    p1: Map<usize, i32>,
    ord0: Seq<usize>,
    ord1: Seq<usize>,
    h: Map<usize, i32>,
    v: usize,
    s: i32,
)
    requires
        scores_monotone(p0, ord0),
        ord0.len() >= 1,
        forall|j: int| 0 <= j < ord0.len() ==> (#[trigger] ord0[j]) != v,
        forall|k: usize| #[trigger] h.contains_key(k) ==> p0[ord0.last()] <= h[k],
        h.contains_key(v),
        s == h[v],
        p1 == p0.insert(v, s),
        ord1 == ord0.push(v),
    ensures
        scores_monotone(p1, ord1),
{
    let n0 = ord0.len() as int;
    assert forall|j: int, l: int|
        #![trigger ord1[j], ord1[l]]
        0 <= j < l < ord1.len() implies p1[ord1[j]] <= p1[ord1[l]] by {
        if l < n0 {
            assert(ord1[j] == ord0[j] && ord1[l] == ord0[l]);
            assert(p0[ord0[j]] <= p0[ord0[l]]);
        } else {
            assert(ord1[l] == v && p1[ord1[l]] == s);
            assert(ord1[j] == ord0[j] && p1[ord1[j]] == p0[ord0[j]]);
            assert(p0[ord0[j]] <= p0[ord0[n0 - 1]]);
            assert(p0[ord0.last()] <= s);
        }
    }
}

/// Extracting `v` and relaxing its neighbors keeps the frontier obligation,
/// now extended by the offers made from `v`.
proof fn lemma_step_frontier(
    g: Graph,
    p0: Map<usize, i32>,
    p1: Map<usize, i32>,
    init: Map<usize, i32>,
    ord0: Seq<usize>,
    ord1: Seq<usize>,
    h0: Map<usize, i32>,
    h1: Map<usize, i32>,
    h2: Map<usize, i32>,
    v: usize,
    s: i32,
    rule: ScoringRule,
)
    requires
        frontier_relaxed(g, p0, init, ord0, h0, rule),
        h1 == h0.remove(v),
        relaxed(h1, h2, g, s, v, rule),
        p1 == p0.insert(v, s),
        ord1 == ord0.push(v),
        forall|j: int| 0 <= j < ord0.len() ==> (#[trigger] ord0[j]) != v,
    ensures
        frontier_relaxed(g, p1, init, ord1, h2, rule),
{
    let n0 = ord0.len() as int;
    assert(forall|i: int| 0 <= i < n0 ==> ord1[i] == ord0[i]);
    assert(forall|i: int| 0 <= i < n0 ==> p1[#[trigger] ord0[i]] == p0[ord0[i]]);
    assert(ord1[n0] == v && p1[v] == s);
    assert forall|k: usize| #[trigger] h2.contains_key(k) implies {
        &&& h2[k] <= init[k]
        &&& (forall|i: int, w: i32|
            0 <= i < ord1.len() && #[trigger] g.out_mult(ord1[i], Edge { vertex: k, weight: w })
                > 0 ==> h2[k] <= candidate(rule, p1[ord1[i]], w))
        &&& (h2[k] == init[k] || (exists|i: int, w: i32|
            0 <= i < ord1.len() && #[trigger] g.out_mult(ord1[i], Edge { vertex: k, weight: w })
                > 0 && h2[k] == candidate(rule, p1[ord1[i]], w)))
    } by {
        assert(h1.contains_key(k));
        assert(h0.contains_key(k) && h1[k] == h0[k]);
        assert(h2[k] <= h1[k]);
        assert forall|i: int, w: i32|
            0 <= i < ord1.len() && #[trigger] g.out_mult(ord1[i], Edge { vertex: k, weight: w })
                > 0 implies h2[k] <= candidate(rule, p1[ord1[i]], w) by {
            if i < n0 {
                assert(g.out_mult(ord0[i], Edge { vertex: k, weight: w }) > 0);
                assert(h0[k] <= candidate(rule, p0[ord0[i]], w));
            } else {
                assert(ord1[i] == v);
                assert(h2[k] <= candidate(rule, s, w));
            }
        }
        if h2[k] == h1[k] {
            if h0[k] != init[k] {
                let (i, w) = choose|i: int, w: i32|
                    0 <= i < ord0.len() && #[trigger] g.out_mult(
                        ord0[i],
                        Edge { vertex: k, weight: w },
                    ) > 0 && h0[k] == candidate(rule, p0[ord0[i]], w);
                assert(g.out_mult(ord1[i], Edge { vertex: k, weight: w }) > 0 && h2[k]
                    == candidate(rule, p1[ord1[i]], w));
            }
        } else {
            let w = choose|w: i32|
                #[trigger] g.out_mult(v, Edge { vertex: k, weight: w }) > 0 && h2[k] == candidate(
                    rule,
                    s,
                    w,
                ) && candidate(rule, s, w) < h1[k];
            assert(g.out_mult(ord1[n0], Edge { vertex: k, weight: w }) > 0 && h2[k] == candidate(
                rule,
                p1[ord1[n0]],
                w,
            ));
        }
    }
}

/// Under the distance rule the relaxed frontier never drops below the score
/// just recorded.
proof fn lemma_step_bound(
    g: Graph,
    h0: Map<usize, i32>,
    h1: Map<usize, i32>,
    h2: Map<usize, i32>,
    v: usize,
    s: i32,
    rule: ScoringRule,
)
    requires
        rule == ScoringRule::Distance,
        weights_ok(g),
        forall|k: usize| #[trigger] h0.contains_key(k) ==> s <= h0[k],
        h1 == h0.remove(v),
        relaxed(h1, h2, g, s, v, rule),
    ensures
        forall|k: usize| #[trigger] h2.contains_key(k) ==> s <= h2[k],
{
    assert forall|k: usize| #[trigger] h2.contains_key(k) implies s <= h2[k] by {
        assert(h1.contains_key(k));
        assert(h0.contains_key(k) && h1[k] == h0[k]);
        if h2[k] != h1[k] {
            let w = choose|w: i32|
                #[trigger] g.out_mult(v, Edge { vertex: k, weight: w }) > 0 && h2[k] == candidate(
                    rule,
                    s,
                    w,
                ) && candidate(rule, s, w) < h1[k];
            assert(0 <= w);
        }
    }
}

/// Recording a minimum of the frontier extends the minimality record: the
/// new score undercuts the seed and every standing offer of everything
/// still unprocessed, because the extracted priority was the least one and
/// every frontier priority already undercut those quantities.
proof fn lemma_step_minimal(
    g: Graph,
    p0: Map<usize, i32>,
    p1: Map<usize, i32>,
    init: Map<usize, i32>,
    ord0: Seq<usize>,
    ord1: Seq<usize>,
    h0: Map<usize, i32>,
    h2: Map<usize, i32>,
    v: usize,
    s: i32,
    rule: ScoringRule,
)
    requires
        extraction_minimal(g, p0, init, ord0, rule),
        finalized_below_frontier(g, p0, init, ord0, h0, rule),
        frontier_relaxed(g, p0, init, ord0, h0, rule),
        h0.contains_key(v),
        s == h0[v],
        forall|k: usize| #[trigger] h0.contains_key(k) ==> s <= h0[k],
        p1 == p0.insert(v, s),
        ord1 == ord0.push(v),
        forall|j: int| 0 <= j < ord0.len() ==> (#[trigger] ord0[j]) != v,
        h2.dom() == h0.remove(v).dom(),
    ensures
        extraction_minimal(g, p1, init, ord1, rule),
        finalized_below_frontier(g, p1, init, ord1, h2, rule),
{
    let n0 = ord0.len() as int;
    assert(forall|i: int| 0 <= i < n0 ==> ord1[i] == ord0[i]);
    assert(forall|i: int| 0 <= i < n0 ==> p1[#[trigger] ord0[i]] == p0[ord0[i]]);
    assert(ord1[n0] == v && p1[v] == s);
    assert forall|j: int, l: int|
        #![trigger ord1[j], ord1[l]]
        1 <= j < l < ord1.len() implies {
        &&& p1[ord1[j]] <= init[ord1[l]]
        &&& (forall|i: int, w: i32|
            0 <= i < j && #[trigger] g.out_mult(ord1[i], Edge { vertex: ord1[l], weight: w }) > 0
                ==> p1[ord1[j]] <= candidate(rule, p1[ord1[i]], w))
    } by {
        assert(ord1[j] == ord0[j]);
        if l < n0 {
            assert(ord1[l] == ord0[l]);
            assert(p0[ord0[j]] <= init[ord0[l]]);
            assert forall|i: int, w: i32|
                0 <= i < j && #[trigger] g.out_mult(ord1[i], Edge { vertex: ord1[l], weight: w })
                    > 0 implies p1[ord1[j]] <= candidate(rule, p1[ord1[i]], w) by {
                assert(g.out_mult(ord0[i], Edge { vertex: ord0[l], weight: w }) > 0);
                assert(p0[ord0[j]] <= candidate(rule, p0[ord0[i]], w));
            }
        } else {
            // the newly recorded vertex was still in the frontier when
            // ord[j] left it
            assert(l == n0 && ord1[l] == v);
            assert(p0[ord0[j]] <= init[v]);
            assert forall|i: int, w: i32|
                0 <= i < j && #[trigger] g.out_mult(ord1[i], Edge { vertex: v, weight: w })
                    > 0 implies p1[ord1[j]] <= candidate(rule, p1[ord1[i]], w) by {
                assert(g.out_mult(ord0[i], Edge { vertex: v, weight: w }) > 0);
                assert(p0[ord0[j]] <= candidate(rule, p0[ord0[i]], w));
            }
        }
    }
    assert forall|j: int, k: usize|
        #![trigger ord1[j], h2.contains_key(k)]
        1 <= j < ord1.len() && h2.contains_key(k) implies {
        &&& p1[ord1[j]] <= init[k]
        &&& (forall|i: int, w: i32|
            0 <= i < j && #[trigger] g.out_mult(ord1[i], Edge { vertex: k, weight: w }) > 0
                ==> p1[ord1[j]] <= candidate(rule, p1[ord1[i]], w))
    } by {
        assert(h0.remove(v).dom().contains(k));
        assert(h0.contains_key(k) && k != v);
        if j < n0 {
            assert(ord1[j] == ord0[j]);
            assert(p0[ord0[j]] <= init[k]);
            assert forall|i: int, w: i32|
                0 <= i < j && #[trigger] g.out_mult(ord1[i], Edge { vertex: k, weight: w })
                    > 0 implies p1[ord1[j]] <= candidate(rule, p1[ord1[i]], w) by {
                assert(g.out_mult(ord0[i], Edge { vertex: k, weight: w }) > 0);
                assert(p0[ord0[j]] <= candidate(rule, p0[ord0[i]], w));
            }
        } else {
            assert(j == n0 && ord1[j] == v && p1[v] == s);
            assert(s <= h0[k]);
            assert(h0[k] <= init[k]);
            assert forall|i: int, w: i32|
                0 <= i < j && #[trigger] g.out_mult(ord1[i], Edge { vertex: k, weight: w })
                    > 0 implies p1[ord1[j]] <= candidate(rule, p1[ord1[i]], w) by {
                assert(g.out_mult(ord0[i], Edge { vertex: k, weight: w }) > 0);
                assert(h0[k] <= candidate(rule, p0[ord0[i]], w));
            }
        }
    }
}

/// Run one traversal to completion: evict the start vertex at score zero,
/// then repeatedly extract the heap minimum, record it, and relax its
/// neighbors, until the heap is empty.  Returns false, changing nothing,
/// when the start vertex is not in the heap.
#[verifier::rlimit(100)]
pub fn run_traversal(
    heap: &mut MinHeap,
    processed: &mut HashMap<usize, i32>,
    graph: &Graph,
    start: usize,
    rule: ScoringRule,
) -> (r: bool)
    requires
        graph.wf(),
        old(heap).wf(),
        old(processed)@ == Map::<usize, i32>::empty(),
        heap_in_graph(old(heap)@, *graph),
        rule == ScoringRule::Distance ==> weights_ok(*graph) && priorities_in_range(old(heap)@),
    ensures
        final(heap).wf(),
        r == old(heap)@.contains_key(start),
        !r ==> *final(heap) == *old(heap) && *final(processed) == *old(processed),
        r ==> final(heap)@ == Map::<usize, i32>::empty() && final(heap).len() == 0,
        r ==> final(processed)@.dom() == old(heap)@.dom(),
        r ==> final(processed)@.contains_key(start) && final(processed)@[start] == 0,
        (r && rule == ScoringRule::Distance) ==> forall|k: usize|
            #[trigger] final(processed)@.contains_key(k) ==> 0 <= final(processed)@[k] <= SENTINEL,
        r ==> (exists|ord: Seq<usize>|
            {
                &&& #[trigger] run_order_ok(final(processed)@, start, ord)
                &&& scores_relaxation_correct(*graph, final(processed)@, old(heap)@, ord, rule)
                &&& extraction_minimal(*graph, final(processed)@, old(heap)@, ord, rule)
                &&& (rule == ScoringRule::Distance ==> scores_monotone(final(processed)@, ord))
            }),
{
    let idx_opt = heap.position_of(start);
    let idx = match idx_opt {
        None => {
            return false;
        },
        Some(idx) => idx,
    };
    let ghost init = heap@;
    heap.delete_at(idx);
    let ghost h1 = heap@;
    processed.insert(start, 0);
    relax_neighbors(heap, &*processed, graph, start, rule);
    let ghost mut ord: Seq<usize> = seq![start];
    proof {
        assert(frontier_relaxed(*graph, Map::<usize, i32>::empty(), init, Seq::<usize>::empty(), h1, rule)) by {
            assert forall|k: usize| #[trigger] h1.contains_key(k) implies h1[k] <= init[k]
                && h1[k] == init[k] by {}
        }
        assert(ord =~= Seq::<usize>::empty().push(start));
        assert(processed@ =~= Map::<usize, i32>::empty().insert(start, 0));
        lemma_step_frontier(
            *graph,
            Map::<usize, i32>::empty(),
            processed@,
            init,
            Seq::<usize>::empty(),
            ord,
            init,
            h1,
            heap@,
            start,
            0,
            rule,
        );
        assert(run_order_ok(processed@, start, ord)) by {
            assert(ord[0] == start);
            assert forall|k: usize| #[trigger] processed@.dom().contains(k) implies exists|j: int|
                0 <= j < ord.len() && ord[j] == k by {
                assert(ord[0] == k);
            }
        }
        if rule == ScoringRule::Distance {
            lemma_step_bound(*graph, init, h1, heap@, start, 0, rule);
        }
        // with only the start recorded, both minimality predicates are
        // vacuous
        assert(extraction_minimal(*graph, processed@, init, ord, rule));
        assert(finalized_below_frontier(*graph, processed@, init, ord, heap@, rule));
    }
    loop
        invariant
            graph.wf(),
            heap.wf(),
            heap_in_graph(old(heap)@, *graph),
            rule == ScoringRule::Distance ==> weights_ok(*graph),
            processed@.contains_key(start) && processed@[start] == 0,
            !heap@.contains_key(start),
            forall|k: usize|
                #[trigger] heap@.contains_key(k) ==> old(heap)@.contains_key(k)
                    && !processed@.contains_key(k),
            forall|k: usize| #[trigger] processed@.contains_key(k) ==> old(heap)@.contains_key(k),
            forall|k: usize|
                #[trigger] old(heap)@.contains_key(k) ==> processed@.contains_key(k)
                    || heap@.contains_key(k),
            rule == ScoringRule::Distance ==> priorities_in_range(heap@),
            rule == ScoringRule::Distance ==> (forall|k: usize|
                #[trigger] processed@.contains_key(k) ==> 0 <= processed@[k] <= SENTINEL),
            run_order_ok(processed@, start, ord),
            scores_relaxation_correct(*graph, processed@, old(heap)@, ord, rule),
            frontier_relaxed(*graph, processed@, old(heap)@, ord, heap@, rule),
            extraction_minimal(*graph, processed@, old(heap)@, ord, rule),
            finalized_below_frontier(*graph, processed@, old(heap)@, ord, heap@, rule),
            rule == ScoringRule::Distance ==> scores_monotone(processed@, ord),
            rule == ScoringRule::Distance ==> (forall|k: usize|
                #[trigger] heap@.contains_key(k) ==> processed@[ord.last()] <= heap@[k]),
        ensures
            heap.wf(),
            heap.len() == 0,
            processed@.contains_key(start) && processed@[start] == 0,
            forall|k: usize| #[trigger] processed@.contains_key(k) ==> old(heap)@.contains_key(k),
            forall|k: usize| #[trigger] old(heap)@.contains_key(k) ==> processed@.contains_key(k),
            rule == ScoringRule::Distance ==> (forall|k: usize|
                #[trigger] processed@.contains_key(k) ==> 0 <= processed@[k] <= SENTINEL),
            run_order_ok(processed@, start, ord),
            scores_relaxation_correct(*graph, processed@, old(heap)@, ord, rule),
            extraction_minimal(*graph, processed@, old(heap)@, ord, rule),
            rule == ScoringRule::Distance ==> scores_monotone(processed@, ord),
        decreases heap.len(),
    {
        let ghost h_pre = heap@;
        let ghost p_pre = processed@;
        let ghost ord_pre = ord;
        let m = heap.extract_min();
        match m {
            None => {
                proof {
                    assert forall|k: usize| #[trigger] old(heap)@.contains_key(
                        k,
                    ) implies processed@.contains_key(k) by {
                        if heap@.contains_key(k) {
                            assert(heap.pos_map().contains_key(k));
                        }
                    }
                }
                break;
            },
            Some(p) => {
                let v = p.0;
                let score = p.1;
                processed.insert(v, score);
                proof {
                    ord = ord.push(v);
                    assert(forall|j: int|
                        0 <= j < ord_pre.len() ==> (#[trigger] ord_pre[j]) != v);
                    lemma_step_record(
                        *graph,
                        p_pre,
                        processed@,
                        old(heap)@,
                        ord_pre,
                        ord,
                        h_pre,
                        v,
                        score,
                        start,
                        rule,
                    );
                    if rule == ScoringRule::Distance {
                        lemma_step_monotone(p_pre, processed@, ord_pre, ord, h_pre, v, score);
                    }
                }
                let ghost h_mid = heap@;
                relax_neighbors(heap, &*processed, graph, v, rule);
                proof {
                    lemma_step_frontier(
                        *graph,
                        p_pre,
                        processed@,
                        old(heap)@,
                        ord_pre,
                        ord,
                        h_pre,
                        h_mid,
                        heap@,
                        v,
                        score,
                        rule,
                    );
                    assert(heap@.dom() == h_pre.remove(v).dom());
                    lemma_step_minimal(
                        *graph,
                        p_pre,
                        processed@,
                        old(heap)@,
                        ord_pre,
                        ord,
                        h_pre,
                        heap@,
                        v,
                        score,
                        rule,
                    );
                    if rule == ScoringRule::Distance {
                        lemma_step_bound(*graph, h_pre, h_mid, heap@, v, score, rule);
                        assert(ord.last() == v && processed@[v] == score);
                    }
                }
            },
        }
    }
    proof {
        assert(heap@ =~= Map::<usize, i32>::empty()) by {
            assert forall|k: usize| !(#[trigger] heap@.contains_key(k)) by {
                if heap@.contains_key(k) {
                    assert(heap.pos_map().contains_key(k));
                }
            }
        }
        assert(processed@.dom() =~= old(heap)@.dom());
        assert(run_order_ok(processed@, start, ord));
    }
    true
}

} // verus!
