//! Single-source shortest paths over the weighted multigraph.
//!
//! The caller seeds the frontier heap with every vertex at the sentinel
//! priority, then runs `shortest_paths`.  Vertices unreachable from the
//! start keep the sentinel as their recorded score.

use crate::graph::{Edge, Graph};
use crate::min_heap::MinHeap;
use crate::traversal::{
    candidate, extraction_minimal, heap_in_graph, priorities_in_range, relax_neighbors, relaxed,
    run_order_ok, run_traversal, scores_monotone, scores_relaxation_correct, weights_ok,
    ScoringRule, SENTINEL,
};
use std::collections::HashMap;
use vstd::prelude::*;

verus! {

/// Dijkstra's algorithm state: the frontier heap and the finalized
/// distances.
pub struct Dijkstra {
    pub unprocessed_vertex: MinHeap,
    pub processed_vertex: HashMap<usize, i32>,
}

impl Dijkstra {
    pub open spec fn wf(self) -> bool {
        self.unprocessed_vertex.wf()
    }

    pub fn new() -> (d: Dijkstra)
        ensures
            d.wf(),
            d.unprocessed_vertex@ == Map::<usize, i32>::empty(),
            d.unprocessed_vertex.len() == 0,
            d.processed_vertex@ == Map::<usize, i32>::empty(),
    {
        Dijkstra { unprocessed_vertex: MinHeap::new(), processed_vertex: HashMap::new() }
    }

    /// One relaxation pass: offer `processed[id] + weight` along every
    /// outgoing edge of `id` to the still-unprocessed endpoint, lowering
    /// its priority whenever the offer is smaller.
    pub fn update_scoring(&mut self, graph: &mut Graph, id: usize)
        requires
            old(self).wf(),
            old(graph).wf(),
            old(graph).contains_vertex(id),
            old(self).processed_vertex@.contains_key(id),
            forall|e: Edge|
                #[trigger] old(graph).out_mult(id, e) > 0 ==> i32::MIN <= old(self).processed_vertex@[id] + e.weight <= i32::MAX,
        ensures
            *final(graph) == *old(graph),
            final(self).wf(),
            final(self).processed_vertex == old(self).processed_vertex,
            final(self).unprocessed_vertex.len() == old(self).unprocessed_vertex.len(),
            relaxed(
                old(self).unprocessed_vertex@,
                final(self).unprocessed_vertex@,
                *old(graph),
                old(self).processed_vertex@[id],
                id,
                ScoringRule::Distance,
            ),
    {
        relax_neighbors(
            &mut self.unprocessed_vertex,
            &self.processed_vertex,
            &*graph,
            id,
            ScoringRule::Distance,
        );
    }

    /// Compute shortest-path distances from `starting_vertex` to every
    /// vertex seeded in the frontier heap.  When the start vertex is not
    /// seeded, nothing is computed and `false` is returned.
    pub fn shortest_paths(&mut self, graph: &mut Graph, starting_vertex: usize) -> (r: bool)
        requires
            old(self).wf(),
            old(graph).wf(),
            old(self).processed_vertex@ == Map::<usize, i32>::empty(),
            heap_in_graph(old(self).unprocessed_vertex@, *old(graph)),
            weights_ok(*old(graph)),
            priorities_in_range(old(self).unprocessed_vertex@),
        ensures
            *final(graph) == *old(graph),
            final(self).wf(),
            r == old(self).unprocessed_vertex@.contains_key(starting_vertex),
            !r ==> *final(self) == *old(self),
            r ==> {
                &&& final(self).unprocessed_vertex@ == Map::<usize, i32>::empty()
                &&& final(self).unprocessed_vertex.len() == 0
                &&& final(self).processed_vertex@.dom() == old(self).unprocessed_vertex@.dom()
                &&& final(self).processed_vertex@.contains_key(starting_vertex)
                &&& final(self).processed_vertex@[starting_vertex] == 0
                &&& (forall|k: usize|
                    #[trigger] final(self).processed_vertex@.contains_key(k) ==> 0 <= final(self).processed_vertex@[k] <= SENTINEL)
                &&& (exists|ord: Seq<usize>|
                    {
                        &&& #[trigger] run_order_ok(
                            final(self).processed_vertex@,
                            starting_vertex,
                            ord,
                        )
                        &&& scores_relaxation_correct(
                            *old(graph),
                            final(self).processed_vertex@,
                            old(self).unprocessed_vertex@,
                            ord,
                            ScoringRule::Distance,
                        )
                        &&& extraction_minimal(
                            *old(graph),
                            final(self).processed_vertex@,
                            old(self).unprocessed_vertex@,
                            ord,
                            ScoringRule::Distance,
                        )
                        &&& scores_monotone(final(self).processed_vertex@, ord)
                    })
            },
    {
        run_traversal(
            &mut self.unprocessed_vertex,
            &mut self.processed_vertex,
            &*graph,
            starting_vertex,
            ScoringRule::Distance,
        )
    }
}

/// The shortest-path consistency law.  Over any run record produced by
/// `shortest_paths` on nonnegative weights: the recorded distances are
/// non-decreasing in extraction order (that is `scores_monotone`, taken
/// here as a hypothesis), and every finalized vertex after the start has a
/// recorded distance that undercuts `processed[u] + weight` for every
/// finalized predecessor `u` -- finalized earlier or later -- and that
/// equals either its seed priority or `processed[u] + weight` for some
/// predecessor `u`: the distance is the minimum over all predecessors,
/// capped at the seed.
pub proof fn lemma_shortest_path_consistency(
    g: Graph,
    p: Map<usize, i32>,
    init: Map<usize, i32>,
    ord: Seq<usize>,
    start: usize,
)
    requires
        weights_ok(g),
        run_order_ok(p, start, ord),
        scores_relaxation_correct(g, p, init, ord, ScoringRule::Distance),
        scores_monotone(p, ord),
    ensures
        forall|j: int|
            #![trigger ord[j]]
            1 <= j < ord.len() ==> {
                &&& (forall|u: usize, w: i32|
                    p.dom().contains(u) && #[trigger] g.out_mult(
                        u,
                        Edge { vertex: ord[j], weight: w },
                    ) > 0 ==> p[ord[j]] <= p[u] + w)
                &&& (p[ord[j]] == init[ord[j]] || (exists|u: usize, w: i32|
                    p.dom().contains(u) && #[trigger] g.out_mult(
                        u,
                        Edge { vertex: ord[j], weight: w },
                    ) > 0 && p[ord[j]] == p[u] + w))
            },
        forall|v: usize|
            #![trigger p.dom().contains(v)]
            p.dom().contains(v) && v != start ==> {
                &&& (forall|u: usize, w: i32|
                    p.dom().contains(u) && #[trigger] g.out_mult(
                        u,
                        Edge { vertex: v, weight: w },
                    ) > 0 ==> p[v] <= p[u] + w)
                &&& (p[v] == init[v] || (exists|u: usize, w: i32|
                    p.dom().contains(u) && #[trigger] g.out_mult(
                        u,
                        Edge { vertex: v, weight: w },
                    ) > 0 && p[v] == p[u] + w))
            },
{
    assert forall|j: int|
        #![trigger ord[j]]
        1 <= j < ord.len() implies {
        &&& (forall|u: usize, w: i32|
            p.dom().contains(u) && #[trigger] g.out_mult(u, Edge { vertex: ord[j], weight: w })
                > 0 ==> p[ord[j]] <= p[u] + w)
        &&& (p[ord[j]] == init[ord[j]] || (exists|u: usize, w: i32|
            p.dom().contains(u) && #[trigger] g.out_mult(u, Edge { vertex: ord[j], weight: w })
                > 0 && p[ord[j]] == p[u] + w))
    } by {
        assert forall|u: usize, w: i32|
            p.dom().contains(u) && #[trigger] g.out_mult(u, Edge { vertex: ord[j], weight: w })
                > 0 implies p[ord[j]] <= p[u] + w by {
            let l = choose|l: int| 0 <= l < ord.len() && ord[l] == u;
            assert(0 <= w) by {
                assert(g.out_mult(u, Edge { vertex: ord[j], weight: w }) > 0);
            }
            if l < j {
                assert(p[ord[j]] <= candidate(ScoringRule::Distance, p[ord[l]], w));
            } else if l > j {
                assert(p[ord[j]] <= p[ord[l]]);
            }
        }
        if p[ord[j]] != init[ord[j]] {
            let (i, w) = choose|i: int, w: i32|
                0 <= i < j && #[trigger] g.out_mult(ord[i], Edge { vertex: ord[j], weight: w })
                    > 0 && p[ord[j]] == candidate(ScoringRule::Distance, p[ord[i]], w);
            assert(p.dom().contains(ord[i]));
            assert(g.out_mult(ord[i], Edge { vertex: ord[j], weight: w }) > 0 && p[ord[j]]
                == p[ord[i]] + w);
        }
    }
    // restate over the vertices themselves: every finalized vertex other
    // than the start sits somewhere after position zero in the order
    assert forall|v: usize|
        #![trigger p.dom().contains(v)]
        p.dom().contains(v) && v != start implies {
        &&& (forall|u: usize, w: i32|
            p.dom().contains(u) && #[trigger] g.out_mult(u, Edge { vertex: v, weight: w }) > 0
                ==> p[v] <= p[u] + w)
        &&& (p[v] == init[v] || (exists|u: usize, w: i32|
            p.dom().contains(u) && #[trigger] g.out_mult(u, Edge { vertex: v, weight: w }) > 0
                && p[v] == p[u] + w))
    } by {
        let j = choose|j: int| 0 <= j < ord.len() && ord[j] == v;
        assert(j != 0);
        assert(ord[j] == v);
    }
}

} // verus!

