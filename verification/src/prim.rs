//! Minimum spanning tree weights by Prim's algorithm.
//!
//! The graph is interpreted as undirected by the caller, who inserts each
//! edge in both directions and seeds the frontier heap with every vertex at
//! the sentinel priority.  Each recorded score is the weight of the edge
//! that connected the vertex into the tree, so the scores sum to the tree's
//! total weight.

use crate::graph::{Edge, Graph};
use crate::min_heap::MinHeap;
use crate::traversal::{
    candidate, extraction_minimal, heap_in_graph, relax_neighbors, relaxed, run_order_ok,
    run_traversal, scores_relaxation_correct, ScoringRule,
};
use std::collections::HashMap;
use vstd::prelude::*;

verus! {

/// Prim's algorithm state: the frontier heap and the recorded
/// connecting-edge weights.
pub struct Prim {
    pub unprocessed_vertex: MinHeap,
    pub processed_vertex: HashMap<usize, i32>,
}

impl Prim {
    pub open spec fn wf(self) -> bool {
        self.unprocessed_vertex.wf()
    }

    pub fn new() -> (p: Prim)
        ensures
            p.wf(),
            p.unprocessed_vertex@ == Map::<usize, i32>::empty(),
            p.unprocessed_vertex.len() == 0,
            p.processed_vertex@ == Map::<usize, i32>::empty(),
    {
        Prim { unprocessed_vertex: MinHeap::new(), processed_vertex: HashMap::new() }
    }

    /// One relaxation pass: offer the raw weight of every outgoing edge of
    /// `id` to the still-unprocessed endpoint, lowering its priority
    /// whenever the weight is smaller.
    pub fn update_scoring(&mut self, graph: &mut Graph, id: usize)
        requires
            old(self).wf(),
            old(graph).wf(),
            old(graph).contains_vertex(id),
        ensures
            *final(graph) == *old(graph),
            final(self).wf(),
            final(self).processed_vertex == old(self).processed_vertex,
            final(self).unprocessed_vertex.len() == old(self).unprocessed_vertex.len(),
            relaxed(
                old(self).unprocessed_vertex@,
                final(self).unprocessed_vertex@,
                *old(graph),
                old(self).processed_vertex@[id],
                id,
                ScoringRule::EdgeWeight,
            ),
    {
        relax_neighbors(
            &mut self.unprocessed_vertex,
            &self.processed_vertex,
            &*graph,
            id,
            ScoringRule::EdgeWeight,
        );
    }

    /// Record, for every vertex seeded in the frontier heap, the weight of
    /// the cheapest edge that connects it into the growing tree rooted at
    /// `starting_vertex`.  When the start vertex is not seeded, nothing is
    /// computed and `false` is returned.
    pub fn min_span_tree(&mut self, graph: &mut Graph, starting_vertex: usize) -> (r: bool)
        requires
            old(self).wf(),
            old(graph).wf(),
            old(self).processed_vertex@ == Map::<usize, i32>::empty(),
            heap_in_graph(old(self).unprocessed_vertex@, *old(graph)),
        ensures
            *final(graph) == *old(graph),
            final(self).wf(),
            r == old(self).unprocessed_vertex@.contains_key(starting_vertex),
            !r ==> *final(self) == *old(self),
            r ==> {
                &&& final(self).unprocessed_vertex@ == Map::<usize, i32>::empty()
                &&& final(self).unprocessed_vertex.len() == 0
                &&& final(self).processed_vertex@.dom() == old(self).unprocessed_vertex@.dom()
                &&& final(self).processed_vertex@.contains_key(starting_vertex)
                &&& final(self).processed_vertex@[starting_vertex] == 0
                &&& (exists|ord: Seq<usize>|
                    {
                        &&& #[trigger] run_order_ok(
                            final(self).processed_vertex@,
                            starting_vertex,
                            ord,
                        )
                        &&& scores_relaxation_correct(
                            *old(graph),
                            final(self).processed_vertex@,
                            old(self).unprocessed_vertex@,
                            ord,
                            ScoringRule::EdgeWeight,
                        )
                        &&& extraction_minimal(
                            *old(graph),
                            final(self).processed_vertex@,
                            old(self).unprocessed_vertex@,
                            ord,
                            ScoringRule::EdgeWeight,
                        )
                    })
            },
    {
        run_traversal(
            &mut self.unprocessed_vertex,
            &mut self.processed_vertex,
            &*graph,
            starting_vertex,
            ScoringRule::EdgeWeight,
        )
    }
}

/// The cut-rule law for a finished run.  Over any run record produced by
/// `min_span_tree`: every vertex finalized after the start has a recorded
/// score that undercuts the weight of every edge reaching it from an
/// earlier-finalized vertex, and that equals either its seed priority or
/// the weight of such an edge -- the cheapest edge into the cut at the
/// moment the vertex was finalized.  Moreover each score was a minimum of
/// the frontier when it was recorded: it also undercuts the seed priority
/// of every later-finalized vertex and the weight of every edge standing
/// from a still-earlier-finalized vertex to a later-finalized one.
pub proof fn lemma_min_span_tree_cut_rule(
    g: Graph,
    p: Map<usize, i32>,
    init: Map<usize, i32>,
    ord: Seq<usize>,
    start: usize,
)
    requires
        run_order_ok(p, start, ord),
        scores_relaxation_correct(g, p, init, ord, ScoringRule::EdgeWeight),
        extraction_minimal(g, p, init, ord, ScoringRule::EdgeWeight),
    ensures
        forall|j: int|
            #![trigger ord[j]]
            1 <= j < ord.len() ==> {
                &&& (forall|i: int, w: i32|
                    0 <= i < j && #[trigger] g.out_mult(ord[i], Edge { vertex: ord[j], weight: w })
                        > 0 ==> p[ord[j]] <= w)
                &&& (p[ord[j]] == init[ord[j]] || (exists|i: int, w: i32|
                    0 <= i < j && #[trigger] g.out_mult(ord[i], Edge { vertex: ord[j], weight: w })
                        > 0 && p[ord[j]] == w))
            },
        forall|j: int, l: int|
            #![trigger ord[j], ord[l]]
            1 <= j < l < ord.len() ==> {
                &&& p[ord[j]] <= init[ord[l]]
                &&& (forall|i: int, w: i32|
                    0 <= i < j && #[trigger] g.out_mult(ord[i], Edge { vertex: ord[l], weight: w })
                        > 0 ==> p[ord[j]] <= w)
            },
{
    assert forall|j: int|
        #![trigger ord[j]]
        1 <= j < ord.len() implies {
        &&& (forall|i: int, w: i32|
            0 <= i < j && #[trigger] g.out_mult(ord[i], Edge { vertex: ord[j], weight: w }) > 0
                ==> p[ord[j]] <= w)
        &&& (p[ord[j]] == init[ord[j]] || (exists|i: int, w: i32|
            0 <= i < j && #[trigger] g.out_mult(ord[i], Edge { vertex: ord[j], weight: w }) > 0
                && p[ord[j]] == w))
    } by {
        assert forall|i: int, w: i32|
            0 <= i < j && #[trigger] g.out_mult(ord[i], Edge { vertex: ord[j], weight: w })
                > 0 implies p[ord[j]] <= w by {
            assert(p[ord[j]] <= candidate(ScoringRule::EdgeWeight, p[ord[i]], w));
        }
        if p[ord[j]] != init[ord[j]] {
            let (i, w) = choose|i: int, w: i32|
                0 <= i < j && #[trigger] g.out_mult(ord[i], Edge { vertex: ord[j], weight: w })
                    > 0 && p[ord[j]] == candidate(ScoringRule::EdgeWeight, p[ord[i]], w);
            assert(g.out_mult(ord[i], Edge { vertex: ord[j], weight: w }) > 0 && p[ord[j]] == w);
        }
    }
    assert forall|j: int, l: int|
        #![trigger ord[j], ord[l]]
        1 <= j < l < ord.len() implies {
        &&& p[ord[j]] <= init[ord[l]]
        &&& (forall|i: int, w: i32|
            0 <= i < j && #[trigger] g.out_mult(ord[i], Edge { vertex: ord[l], weight: w }) > 0
                ==> p[ord[j]] <= w)
    } by {
        assert(p[ord[j]] <= init[ord[l]]);
        assert forall|i: int, w: i32|
            0 <= i < j && #[trigger] g.out_mult(ord[i], Edge { vertex: ord[l], weight: w })
                > 0 implies p[ord[j]] <= w by {
            assert(p[ord[j]] <= candidate(ScoringRule::EdgeWeight, p[ord[i]], w));
        }
    }
}

} // verus!

