//! A weighted directed multigraph.
//!
//! Each vertex keeps two ordered tables of edges, outgoing and incoming.  A
//! table maps a unique edge value to the number of times that edge was
//! inserted, so parallel edges are stored compactly as one entry with a
//! multiplicity.  The graph keeps the two sides symmetric: every outgoing
//! record (u -> v, w) is mirrored by an incoming record (u, w) at v with the
//! same multiplicity.

use vstd::prelude::*;

verus! {

broadcast use vstd::string::group_string_axioms;

/// An edge value: the far endpoint together with the weight.
#[derive(Debug, Clone, Copy, PartialEq, Eq, Structural)]
pub struct Edge {
    pub vertex: usize,
    pub weight: i32,
}

impl Edge {
    pub fn new(v: usize, w: i32) -> (e: Edge)
        ensures
            e == (Edge { vertex: v, weight: w }),
    {
        Edge { vertex: v, weight: w }
    }
}

/// Total order on edges: by target vertex first, then by weight.
pub open spec fn edge_lt(a: Edge, b: Edge) -> bool {
    a.vertex < b.vertex || (a.vertex == b.vertex && a.weight < b.weight)
}

fn edge_before(a: &Edge, b: &Edge) -> (r: bool)
    ensures
        r == edge_lt(*a, *b),
{
    a.vertex < b.vertex || (a.vertex == b.vertex && a.weight < b.weight)
}

/// An edge table is a sequence of (edge, multiplicity) entries, strictly
/// ascending in the edge order, every multiplicity at least one.
pub open spec fn table_wf(t: Seq<(Edge, usize)>) -> bool {
    &&& forall|i: int, j: int| 0 <= i < j < t.len() ==> edge_lt(t[i].0, t[j].0)
    &&& forall|i: int| 0 <= i < t.len() ==> (#[trigger] t[i]).1 >= 1
}

pub open spec fn table_has(t: Seq<(Edge, usize)>, e: Edge) -> bool {
    exists|i: int| 0 <= i < t.len() && (#[trigger] t[i]).0 == e
}

pub open spec fn table_idx(t: Seq<(Edge, usize)>, e: Edge) -> int {
    choose|i: int| 0 <= i < t.len() && (#[trigger] t[i]).0 == e
}

/// How many times edge `e` is present in the table (0 when absent).
pub open spec fn table_mult(t: Seq<(Edge, usize)>, e: Edge) -> int {
    if table_has(t, e) {
        t[table_idx(t, e)].1 as int
    } else {
        0
    }
}

/// Total number of edges in the table, multiplicities included.
pub open spec fn table_total(t: Seq<(Edge, usize)>) -> int
    decreases t.len(),
{
    if t.len() == 0 {
        0
    } else {
        table_total(t.drop_last()) + t.last().1
    }
}

/// The distinct edge values of the table, in table (ascending) order.
pub open spec fn table_keys(t: Seq<(Edge, usize)>) -> Seq<Edge> {
    t.map_values(|p: (Edge, usize)| p.0)
}

proof fn lemma_edge_lt_trichotomy(a: Edge, b: Edge)
    ensures
        edge_lt(a, b) || edge_lt(b, a) || a == b,
        !(edge_lt(a, b) && edge_lt(b, a)),
        !edge_lt(a, a),
{
}

/// In a well-formed table an edge value occurs in at most one entry.
proof fn lemma_table_unique(t: Seq<(Edge, usize)>, i: int, j: int)
    requires
        table_wf(t),
        0 <= i < t.len(),
        0 <= j < t.len(),
        t[i].0 == t[j].0,
    ensures
        i == j,
{
    if i < j {
        assert(edge_lt(t[i].0, t[j].0));
    } else if j < i {
        assert(edge_lt(t[j].0, t[i].0));
    }
}

/// The multiplicity of `e` is the count stored at any entry holding `e`.
proof fn lemma_mult_at(t: Seq<(Edge, usize)>, e: Edge, i: int)
    requires
        table_wf(t),
        0 <= i < t.len(),
        t[i].0 == e,
    ensures
        table_mult(t, e) == t[i].1,
{
    assert(table_has(t, e));
    lemma_table_unique(t, i, table_idx(t, e));
}

proof fn lemma_total_nonneg(t: Seq<(Edge, usize)>)
    ensures
        table_total(t) >= 0,
    decreases t.len(),
{
    if t.len() > 0 {
        lemma_total_nonneg(t.drop_last());
    }
}

proof fn lemma_entry_le_total(t: Seq<(Edge, usize)>, i: int)
    requires
        0 <= i < t.len(),
    ensures
        t[i].1 <= table_total(t),
    decreases t.len(),
{
    lemma_total_nonneg(t.drop_last());
    if i == t.len() - 1 {
    } else {
        lemma_entry_le_total(t.drop_last(), i);
        assert(t.drop_last()[i] == t[i]);
    }
}

proof fn lemma_total_update(t: Seq<(Edge, usize)>, i: int, p: (Edge, usize))
    requires
        0 <= i < t.len(),
    ensures
        table_total(t.update(i, p)) == table_total(t) - t[i].1 + p.1,
    decreases t.len(),
{
    let u = t.update(i, p);
    if i == t.len() - 1 {
        assert(u.drop_last() =~= t.drop_last());
        assert(u.last() == p);
    } else {
        assert(u.drop_last() =~= t.drop_last().update(i, p));
        assert(u.last() == t.last());
        lemma_total_update(t.drop_last(), i, p);
    }
}

proof fn lemma_total_insert(t: Seq<(Edge, usize)>, i: int, p: (Edge, usize))
    requires
        0 <= i <= t.len(),
    ensures
        table_total(t.insert(i, p)) == table_total(t) + p.1,
    decreases t.len(),
{
    let u = t.insert(i, p);
    if i == t.len() {
        assert(u.drop_last() =~= t);
        assert(u.last() == p);
    } else {
        assert(u.drop_last() =~= t.drop_last().insert(i, p));
        assert(u.last() == t.last());
        lemma_total_insert(t.drop_last(), i, p);
    }
}

proof fn lemma_total_remove(t: Seq<(Edge, usize)>, i: int)
    requires
        0 <= i < t.len(),
    ensures
        table_total(t.remove(i)) == table_total(t) - t[i].1,
    decreases t.len(),
{
    let u = t.remove(i);
    if i == t.len() - 1 {
        assert(u =~= t.drop_last());
    } else {
        assert(u.drop_last() =~= t.drop_last().remove(i));
        assert(u.last() == t.last());
        lemma_total_remove(t.drop_last(), i);
    }
}

/// A vertex: an identity plus the two edge tables with their running totals.
#[derive(Debug, Clone)]
pub struct Vertex {
    pub vertex_id: usize,
    incoming: Vec<(Edge, usize)>,
    incoming_cnt: usize,
    outgoing: Vec<(Edge, usize)>,
    outgoing_cnt: usize,
}

impl Vertex {
    /// The vertex identity, for use in contracts.
    pub closed spec fn id(self) -> usize {
        self.vertex_id
    }

    pub closed spec fn out_table(self) -> Seq<(Edge, usize)> {
        self.outgoing@
    }

    pub closed spec fn in_table(self) -> Seq<(Edge, usize)> {
        self.incoming@
    }

    /// Multiplicity of `e` among this vertex's outgoing edges.
    pub open spec fn out_mult(self, e: Edge) -> int {
        table_mult(self.out_table(), e)
    }

    /// Multiplicity of `e` among this vertex's incoming edges.
    pub open spec fn in_mult(self, e: Edge) -> int {
        table_mult(self.in_table(), e)
    }

    /// Outgoing edge count, multiplicities included.
    pub open spec fn out_total(self) -> int {
        table_total(self.out_table())
    }

    pub open spec fn in_total(self) -> int {
        table_total(self.in_table())
    }

    /// Distinct outgoing edge values in ascending order.
    pub open spec fn out_edges(self) -> Seq<Edge> {
        table_keys(self.out_table())
    }

    pub open spec fn in_edges(self) -> Seq<Edge> {
        table_keys(self.in_table())
    }

    /// The stored outgoing edge count, which well-formedness ties to the
    /// table's total.
    pub closed spec fn spec_out_cnt(self) -> usize {
        self.outgoing_cnt
    }

    pub closed spec fn spec_in_cnt(self) -> usize {
        self.incoming_cnt
    }

    pub open spec fn wf(self) -> bool {
        &&& table_wf(self.out_table())
        &&& table_wf(self.in_table())
        &&& self.spec_out_cnt() == table_total(self.out_table())
        &&& self.spec_in_cnt() == table_total(self.in_table())
    }

    /// Complete observational equality of two vertices: every piece of state
    /// agrees.
    pub open spec fn eq_state(self, other: Vertex) -> bool {
        &&& self.id() == other.id()
        &&& self.out_table() == other.out_table()
        &&& self.in_table() == other.in_table()
        &&& self.spec_out_cnt() == other.spec_out_cnt()
        &&& self.spec_in_cnt() == other.spec_in_cnt()
    }

    pub fn new(id: &usize) -> (v: Vertex)
        ensures
            v.wf(),
            v.id() == *id,
            v.out_table() == Seq::<(Edge, usize)>::empty(),
            v.in_table() == Seq::<(Edge, usize)>::empty(),
            forall|e: Edge| v.out_mult(e) == 0 && v.in_mult(e) == 0,
            v.out_total() == 0,
            v.in_total() == 0,
    {
        Vertex {
            vertex_id: *id,
            incoming: Vec::new(),
            incoming_cnt: 0,
            outgoing: Vec::new(),
            outgoing_cnt: 0,
        }
    }
}

/// Position of the first entry not below `e`, by linear scan.
fn table_position(t: &Vec<(Edge, usize)>, e: &Edge) -> (i: usize)
    ensures
        i <= t@.len(),
        forall|j: int| 0 <= j < i ==> edge_lt(t@[j].0, *e),
        i < t@.len() ==> !edge_lt(t@[i as int].0, *e),
{
    let mut i: usize = 0;
    while i < t.len() && edge_before(&t[i].0, e)
        invariant
            i <= t@.len(),
            forall|j: int| 0 <= j < i ==> edge_lt(t@[j].0, *e),
        decreases t@.len() - i,
    {
        i += 1;
    }
    i
}

/// Add one occurrence of `e` to a well-formed table.
fn table_add(t: &mut Vec<(Edge, usize)>, e: Edge)
    requires
        table_wf(old(t)@),
        table_total(old(t)@) < usize::MAX,
    ensures
        table_wf(final(t)@),
        table_mult(final(t)@, e) == table_mult(old(t)@, e) + 1,
        forall|f: Edge| f != e ==> table_mult(final(t)@, f) == table_mult(old(t)@, f),
        table_total(final(t)@) == table_total(old(t)@) + 1,
        table_mult(old(t)@, e) > 0 ==> table_keys(final(t)@) == table_keys(old(t)@),
        forall|f: Edge|
            table_has(final(t)@, f) <==> table_has(old(t)@, f) || f == e,
{
    let i = table_position(t, &e);
    let ghost t0 = t@;
    if i < t.len() && t[i].0 == e {
        let c = t[i].1;
        proof {
            lemma_entry_le_total(t0, i as int);
            lemma_total_nonneg(t0);
        }
        t[i] = (e, c + 1);
        proof {
            let t1 = t@;
            lemma_total_update(t0, i as int, (e, (c + 1) as usize));
            assert forall|x: int, y: int| 0 <= x < y < t1.len() implies edge_lt(
                t1[x].0,
                t1[y].0,
            ) by {
                assert(t1[x].0 == t0[x].0 && t1[y].0 == t0[y].0);
            }
            lemma_mult_at(t0, e, i as int);
            lemma_mult_at(t1, e, i as int);
            assert forall|f: Edge| f != e implies table_mult(t1, f) == table_mult(t0, f) by {
                lemma_table_mult_same_keys_pointwise(t0, t1, f);
            }
            assert forall|f: Edge| table_has(t1, f) <==> table_has(t0, f) || f == e by {
                if table_has(t1, f) {
                    let w = choose|k: int| 0 <= k < t1.len() && t1[k].0 == f;
                    assert(t0[w].0 == f);
                }
                if table_has(t0, f) {
                    let w = choose|k: int| 0 <= k < t0.len() && t0[k].0 == f;
                    assert(t1[w].0 == f);
                }
                if f == e {
                    assert(t1[i as int].0 == f);
                }
            }
            assert(table_keys(t1) =~= table_keys(t0));
        }
    } else {
        proof {
            // `e` is not present: entries before `i` are below it, entries
            // from `i` on are above it.
            assert forall|j: int| i <= j < t0.len() implies edge_lt(e, t0[j].0) by {
                lemma_edge_lt_trichotomy(t0[i as int].0, e);
                if j > i {
                    assert(edge_lt(t0[i as int].0, t0[j].0));
                    lemma_edge_lt_trichotomy(t0[i as int].0, t0[j].0);
                }
                lemma_edge_lt_trichotomy(e, t0[j].0);
            }
            assert(!table_has(t0, e)) by {
                if table_has(t0, e) {
                    let w = choose|k: int| 0 <= k < t0.len() && t0[k].0 == e;
                    if w < i {
                        assert(edge_lt(t0[w].0, e));
                        lemma_edge_lt_trichotomy(t0[w].0, e);
                    } else {
                        assert(edge_lt(e, t0[w].0));
                        lemma_edge_lt_trichotomy(e, t0[w].0);
                    }
                }
            }
        }
        t.insert(i, (e, 1));
        proof {
            let t1 = t@;
            lemma_total_insert(t0, i as int, (e, 1usize));
            assert forall|x: int, y: int| 0 <= x < y < t1.len() implies edge_lt(
                t1[x].0,
                t1[y].0,
            ) by {
                let xi = if x < i { x } else { x - 1 };
                let yi = if y < i { y } else { y - 1 };
                if x == i {
                    assert(t1[y].0 == t0[yi].0);
                    assert(edge_lt(e, t0[yi].0));
                } else if y == i {
                    assert(t1[x].0 == t0[xi].0);
                    assert(edge_lt(t0[xi].0, e));
                } else {
                    assert(t1[x].0 == t0[xi].0 && t1[y].0 == t0[yi].0);
                    if xi == yi {
                        assert(x < i && i < y);
                        assert(edge_lt(t0[xi].0, e) && edge_lt(e, t0[yi].0));
                        lemma_edge_lt_trichotomy(t0[xi].0, e);
                    }
                }
            }
            assert(table_wf(t1));
            lemma_mult_at(t1, e, i as int);
            assert forall|f: Edge| f != e implies table_mult(t1, f) == table_mult(t0, f) by {
                lemma_table_mult_insert_other(t0, i as int, (e, 1usize), f);
            }
            assert forall|f: Edge| table_has(t1, f) <==> table_has(t0, f) || f == e by {
                if table_has(t1, f) {
                    let w = choose|k: int| 0 <= k < t1.len() && t1[k].0 == f;
                    if w != i {
                        let wi = if w < i { w } else { w - 1 };
                        assert(t0[wi].0 == f);
                    }
                }
                if table_has(t0, f) {
                    let w = choose|k: int| 0 <= k < t0.len() && t0[k].0 == f;
                    let wn = if w < i { w } else { w + 1 };
                    assert(t1[wn].0 == f);
                }
            }
        }
    }
}

/// Two tables whose entries carry the same keys pointwise, and whose counts
/// agree wherever the key is not `f`'s entry, give `f` the same multiplicity.
proof fn lemma_table_mult_same_keys_pointwise(t0: Seq<(Edge, usize)>, t1: Seq<(Edge, usize)>, f: Edge)
    requires
        table_wf(t0),
        table_wf(t1),
        t0.len() == t1.len(),
        forall|k: int| 0 <= k < t0.len() ==> (#[trigger] t1[k]).0 == t0[k].0,
        forall|k: int| 0 <= k < t0.len() && t0[k].0 == f ==> (#[trigger] t1[k]).1 == t0[k].1,
    ensures
        table_mult(t1, f) == table_mult(t0, f),
{
    if table_has(t0, f) {
        let w = choose|k: int| 0 <= k < t0.len() && t0[k].0 == f;
        assert(t1[w].0 == f);
        lemma_mult_at(t0, f, w);
        lemma_mult_at(t1, f, w);
    } else {
        if table_has(t1, f) {
            let w = choose|k: int| 0 <= k < t1.len() && t1[k].0 == f;
            assert(t0[w].0 == f);
        }
    }
}

/// Inserting an entry for a different key leaves `f`'s multiplicity alone.
proof fn lemma_table_mult_insert_other(t0: Seq<(Edge, usize)>, i: int, p: (Edge, usize), f: Edge)
    requires
        table_wf(t0),
        table_wf(t0.insert(i, p)),
        0 <= i <= t0.len(),
        p.0 != f,
    ensures
        table_mult(t0.insert(i, p), f) == table_mult(t0, f),
{
    let t1 = t0.insert(i, p);
    if table_has(t0, f) {
        let w = choose|k: int| 0 <= k < t0.len() && t0[k].0 == f;
        let wn = if w < i { w } else { w + 1 };
        assert(t1[wn] == t0[w]);
        lemma_mult_at(t0, f, w);
        lemma_mult_at(t1, f, wn);
    } else {
        if table_has(t1, f) {
            let w = choose|k: int| 0 <= k < t1.len() && t1[k].0 == f;
            assert(w != i);
            let wi = if w < i { w } else { w - 1 };
            assert(t0[wi].0 == f);
        }
    }
}

/// Removing an entry for a different key leaves `f`'s multiplicity alone.
proof fn lemma_table_mult_remove_other(t0: Seq<(Edge, usize)>, i: int, f: Edge)
    requires
        table_wf(t0),
        table_wf(t0.remove(i)),
        0 <= i < t0.len(),
        t0[i].0 != f,
    ensures
        table_mult(t0.remove(i), f) == table_mult(t0, f),
{
    let t1 = t0.remove(i);
    if table_has(t0, f) {
        let w = choose|k: int| 0 <= k < t0.len() && t0[k].0 == f;
        assert(w != i);
        let wn = if w < i { w } else { w - 1 };
        assert(t1[wn] == t0[w]);
        lemma_mult_at(t0, f, w);
        lemma_mult_at(t1, f, wn);
    } else {
        if table_has(t1, f) {
            let w = choose|k: int| 0 <= k < t1.len() && t1[k].0 == f;
            let wi = if w < i { w } else { w + 1 };
            assert(t0[wi].0 == f);
        }
    }
}

/// Remove one occurrence of `e` from a well-formed table; `Err` when absent,
/// in which case the table is untouched.
fn table_del(t: &mut Vec<(Edge, usize)>, e: Edge) -> (r: Result<(), String>)
    requires
        table_wf(old(t)@),
    ensures
        table_wf(final(t)@),
        r is Ok <==> table_mult(old(t)@, e) > 0,
        r is Err ==> final(t)@ == old(t)@,
        r matches Err(m) ==> m@ == "Invalid Vertex"@,
        r is Ok ==> {
            &&& table_mult(final(t)@, e) == table_mult(old(t)@, e) - 1
            &&& (forall|f: Edge| f != e ==> table_mult(final(t)@, f) == table_mult(old(t)@, f))
            &&& table_total(final(t)@) == table_total(old(t)@) - 1
            &&& (table_mult(old(t)@, e) > 1 ==> table_keys(final(t)@) == table_keys(old(t)@))
        },
{
    let ghost t0 = t@;
    let mut i: usize = 0;
    let n = t.len();
    while i < n && !(t[i].0 == e)
        invariant
            n == t@.len(),
            t@ == t0,
            i <= n,
            forall|j: int| 0 <= j < i ==> t@[j].0 != e,
        decreases n - i,
    {
        i += 1;
    }
    if i == n {
        proof {
            if table_has(t0, e) {
                let w = choose|k: int| 0 <= k < t0.len() && t0[k].0 == e;
                assert(t0[w].0 != e);
            }
        }
        return Err("Invalid Vertex".to_string());
    }
    proof {
        lemma_mult_at(t0, e, i as int);
        lemma_entry_le_total(t0, i as int);
    }
    let c = t[i].1;
    if c == 1 {
        t.remove(i);
        proof {
            let t1 = t@;
            lemma_total_remove(t0, i as int);
            assert forall|x: int, y: int| 0 <= x < y < t1.len() implies edge_lt(
                t1[x].0,
                t1[y].0,
            ) by {
                let xi = if x < i { x } else { x + 1 };
                let yi = if y < i { y } else { y + 1 };
                assert(t1[x] == t0[xi] && t1[y] == t0[yi]);
            }
            assert(table_wf(t1));
            assert(!table_has(t1, e)) by {
                if table_has(t1, e) {
                    let w = choose|k: int| 0 <= k < t1.len() && t1[k].0 == e;
                    let wi = if w < i { w } else { w + 1 };
                    lemma_table_unique(t0, wi, i as int);
                }
            }
            assert forall|f: Edge| f != e implies table_mult(t@, f) == table_mult(t0, f) by {
                lemma_table_mult_remove_other(t0, i as int, f);
            }
        }
    } else {
        t[i] = (e, c - 1);
        proof {
            let t1 = t@;
            lemma_total_update(t0, i as int, (e, (c - 1) as usize));
            assert forall|x: int, y: int| 0 <= x < y < t1.len() implies edge_lt(
                t1[x].0,
                t1[y].0,
            ) by {
                assert(t1[x].0 == t0[x].0 && t1[y].0 == t0[y].0);
            }
            assert(table_wf(t1));
            lemma_mult_at(t1, e, i as int);
            assert forall|f: Edge| f != e implies table_mult(t1, f) == table_mult(t0, f) by {
                lemma_table_mult_same_keys_pointwise(t0, t1, f);
            }
            assert(table_keys(t1) =~= table_keys(t0));
        }
    }
    Ok(())
}

impl Vertex {
    /// Record one occurrence of the outgoing edge (self -> vertex_id, weight).
    pub fn add_outgoing(&mut self, vertex_id: usize, weight: i32)
        requires
            old(self).wf(),
            old(self).out_total() < usize::MAX,
        ensures
            final(self).wf(),
            final(self).id() == old(self).id(),
            final(self).in_table() == old(self).in_table(),
            final(self).out_mult(Edge { vertex: vertex_id, weight }) == old(self).out_mult(
                Edge { vertex: vertex_id, weight },
            ) + 1,
            forall|f: Edge|
                f != (Edge { vertex: vertex_id, weight }) ==> final(self).out_mult(f) == old(self).out_mult(f),
            final(self).out_total() == old(self).out_total() + 1,
            old(self).out_mult(Edge { vertex: vertex_id, weight }) > 0 ==> final(self).out_edges() == old(self).out_edges(),
    {
        let edge = Edge { vertex: vertex_id, weight };
        table_add(&mut self.outgoing, edge);
        proof {
            lemma_total_nonneg(self.outgoing@);
        }
        self.outgoing_cnt += 1;
    }

    /// Remove one occurrence of the outgoing edge; `Err` when it is absent.
    pub fn del_outgoing(&mut self, vertex_id: usize, weight: i32) -> (r: Result<(), String>)
        requires
            old(self).wf(),
        ensures
            final(self).wf(),
            final(self).id() == old(self).id(),
            final(self).in_table() == old(self).in_table(),
            r is Ok <==> old(self).out_mult(Edge { vertex: vertex_id, weight }) > 0,
            r is Err ==> final(self).eq_state(*old(self)),
            r matches Err(m) ==> m@ == "Invalid Vertex"@,
            r is Ok ==> {
                &&& final(self).out_mult(Edge { vertex: vertex_id, weight }) == old(self).out_mult(Edge { vertex: vertex_id, weight }) - 1
                &&& (forall|f: Edge|
                    f != (Edge { vertex: vertex_id, weight }) ==> final(self).out_mult(f) == old(self).out_mult(f))
                &&& final(self).out_total() == old(self).out_total() - 1
                &&& (old(self).out_mult(Edge { vertex: vertex_id, weight }) > 1 ==> final(self).out_edges() == old(self).out_edges())
            },
    {
        let edge = Edge { vertex: vertex_id, weight };
        let r = table_del(&mut self.outgoing, edge);
        match r {
            Ok(()) => {
                proof {
                    lemma_total_nonneg(self.outgoing@);
                }
                self.outgoing_cnt -= 1;
                Ok(())
            },
            Err(m) => Err(m),
        }
    }

    /// Record one occurrence of the incoming edge (vertex_id -> self, weight).
    pub fn add_incoming(&mut self, vertex_id: usize, weight: i32)
        requires
            old(self).wf(),
            old(self).in_total() < usize::MAX,
        ensures
            final(self).wf(),
            final(self).id() == old(self).id(),
            final(self).out_table() == old(self).out_table(),
            final(self).in_mult(Edge { vertex: vertex_id, weight }) == old(self).in_mult(
                Edge { vertex: vertex_id, weight },
            ) + 1,
            forall|f: Edge|
                f != (Edge { vertex: vertex_id, weight }) ==> final(self).in_mult(f) == old(self).in_mult(f),
            final(self).in_total() == old(self).in_total() + 1,
    {
        let edge = Edge { vertex: vertex_id, weight };
        table_add(&mut self.incoming, edge);
        proof {
            lemma_total_nonneg(self.incoming@);
        }
        self.incoming_cnt += 1;
    }

    /// Remove one occurrence of the incoming edge; `Err` when it is absent.
    pub fn del_incoming(&mut self, vertex_id: usize, weight: i32) -> (r: Result<(), String>)
        requires
            old(self).wf(),
        ensures
            final(self).wf(),
            final(self).id() == old(self).id(),
            final(self).out_table() == old(self).out_table(),
            r is Ok <==> old(self).in_mult(Edge { vertex: vertex_id, weight }) > 0,
            r is Err ==> final(self).eq_state(*old(self)),
            r matches Err(m) ==> m@ == "Invalid Vertex"@,
            r is Ok ==> {
                &&& final(self).in_mult(Edge { vertex: vertex_id, weight }) == old(self).in_mult(
                    Edge { vertex: vertex_id, weight },
                ) - 1
                &&& (forall|f: Edge|
                    f != (Edge { vertex: vertex_id, weight }) ==> final(self).in_mult(f) == old(self).in_mult(f))
                &&& final(self).in_total() == old(self).in_total() - 1
                &&& (old(self).in_mult(Edge { vertex: vertex_id, weight }) > 1 ==> final(self).in_edges() == old(self).in_edges())
            },
    {
        let edge = Edge { vertex: vertex_id, weight };
        let r = table_del(&mut self.incoming, edge);
        match r {
            Ok(()) => {
                proof {
                    lemma_total_nonneg(self.incoming@);
                }
                self.incoming_cnt -= 1;
                Ok(())
            },
            Err(m) => Err(m),
        }
    }
}

/// Vertices in strictly ascending identity order.
pub open spec fn sorted_ids(s: Seq<Vertex>) -> bool {
    forall|i: int, j: int| 0 <= i < j < s.len() ==> s[i].id() < s[j].id()
}

/// Total outgoing edge count over a sequence of vertices.
pub open spec fn sum_out(s: Seq<Vertex>) -> int
    decreases s.len(),
{
    if s.len() == 0 {
        0
    } else {
        sum_out(s.drop_last()) + s.last().out_total()
    }
}

/// Total incoming edge count over a sequence of vertices.
pub open spec fn sum_in(s: Seq<Vertex>) -> int
    decreases s.len(),
{
    if s.len() == 0 {
        0
    } else {
        sum_in(s.drop_last()) + s.last().in_total()
    }
}

proof fn lemma_vertex_unique(s: Seq<Vertex>, i: int, j: int)
    requires
        sorted_ids(s),
        0 <= i < s.len(),
        0 <= j < s.len(),
        s[i].id() == s[j].id(),
    ensures
        i == j,
{
    if i < j {
        assert(s[i].id() < s[j].id());
    } else if j < i {
        assert(s[j].id() < s[i].id());
    }
}

proof fn lemma_sum_out_nonneg(s: Seq<Vertex>)
    ensures
        sum_out(s) >= 0,
        sum_in(s) >= 0,
    decreases s.len(),
{
    if s.len() > 0 {
        lemma_sum_out_nonneg(s.drop_last());
        lemma_total_nonneg(s.last().out_table());
        lemma_total_nonneg(s.last().in_table());
    }
}

proof fn lemma_sum_elem(s: Seq<Vertex>, i: int)
    requires
        0 <= i < s.len(),
    ensures
        s[i].out_total() <= sum_out(s),
        s[i].in_total() <= sum_in(s),
    decreases s.len(),
{
    lemma_sum_out_nonneg(s.drop_last());
    lemma_total_nonneg(s.last().out_table());
    lemma_total_nonneg(s.last().in_table());
    if i < s.len() - 1 {
        lemma_sum_elem(s.drop_last(), i);
        assert(s.drop_last()[i] == s[i]);
    }
}

proof fn lemma_sum_update(s: Seq<Vertex>, i: int, v: Vertex)
    requires
        0 <= i < s.len(),
    ensures
        sum_out(s.update(i, v)) == sum_out(s) - s[i].out_total() + v.out_total(),
        sum_in(s.update(i, v)) == sum_in(s) - s[i].in_total() + v.in_total(),
    decreases s.len(),
{
    let u = s.update(i, v);
    if i == s.len() - 1 {
        assert(u.drop_last() =~= s.drop_last());
        assert(u.last() == v);
    } else {
        assert(u.drop_last() =~= s.drop_last().update(i, v));
        assert(u.last() == s.last());
        lemma_sum_update(s.drop_last(), i, v);
    }
}

proof fn lemma_sum_insert(s: Seq<Vertex>, i: int, v: Vertex)
    requires
        0 <= i <= s.len(),
    ensures
        sum_out(s.insert(i, v)) == sum_out(s) + v.out_total(),
        sum_in(s.insert(i, v)) == sum_in(s) + v.in_total(),
    decreases s.len(),
{
    let u = s.insert(i, v);
    if i == s.len() {
        assert(u.drop_last() =~= s);
        assert(u.last() == v);
    } else {
        assert(u.drop_last() =~= s.drop_last().insert(i, v));
        assert(u.last() == s.last());
        lemma_sum_insert(s.drop_last(), i, v);
    }
}

/// The graph: vertices in ascending identity order plus the total number of
/// edge insertions still present.
#[derive(Debug, Clone)]
pub struct Graph {
    vertex_map: Vec<Vertex>,
    edge_count: usize,
}

impl Graph {
    pub closed spec fn vertex_seq(self) -> Seq<Vertex> {
        self.vertex_map@
    }

    pub closed spec fn spec_edge_count(self) -> usize {
        self.edge_count
    }

    /// All vertex identities, in ascending order.
    pub open spec fn ids(self) -> Seq<usize> {
        self.vertex_seq().map_values(|v: Vertex| v.id())
    }

    pub open spec fn vertex_count(self) -> nat {
        self.vertex_seq().len()
    }

    pub open spec fn contains_vertex(self, id: usize) -> bool {
        exists|i: int|
            0 <= i < self.vertex_seq().len() && (#[trigger] self.vertex_seq()[i]).id() == id
    }

    pub open spec fn vidx(self, id: usize) -> int {
        choose|i: int|
            0 <= i < self.vertex_seq().len() && (#[trigger] self.vertex_seq()[i]).id() == id
    }

    pub open spec fn vertex_at(self, id: usize) -> Vertex {
        self.vertex_seq()[self.vidx(id)]
    }

    /// Multiplicity of the outgoing record `e` at vertex `src` (0 when the
    /// vertex or the record is absent).
    pub open spec fn out_mult(self, src: usize, e: Edge) -> int {
        if self.contains_vertex(src) {
            self.vertex_at(src).out_mult(e)
        } else {
            0
        }
    }

    /// Multiplicity of the incoming record `e` at vertex `dst`.
    pub open spec fn in_mult(self, dst: usize, e: Edge) -> int {
        if self.contains_vertex(dst) {
            self.vertex_at(dst).in_mult(e)
        } else {
            0
        }
    }

    /// Distinct outgoing edges of `src` in ascending order.
    pub open spec fn out_edges(self, src: usize) -> Seq<Edge> {
        if self.contains_vertex(src) {
            self.vertex_at(src).out_edges()
        } else {
            Seq::<Edge>::empty()
        }
    }

    pub open spec fn in_edges(self, dst: usize) -> Seq<Edge> {
        if self.contains_vertex(dst) {
            self.vertex_at(dst).in_edges()
        } else {
            Seq::<Edge>::empty()
        }
    }

    /// Outgoing edge count of `src`, multiplicities included.
    pub open spec fn out_total(self, src: usize) -> int {
        if self.contains_vertex(src) {
            self.vertex_at(src).out_total()
        } else {
            0
        }
    }

    pub open spec fn total_edges(self) -> int {
        self.spec_edge_count() as int
    }

    pub open spec fn wf(self) -> bool {
        &&& sorted_ids(self.vertex_seq())
        &&& (forall|i: int|
            0 <= i < self.vertex_seq().len() ==> (#[trigger] self.vertex_seq()[i]).wf())
        &&& self.total_edges() == sum_out(self.vertex_seq())
        &&& self.total_edges() == sum_in(self.vertex_seq())
        &&& (forall|u: usize, e: Edge|
            #[trigger] self.out_mult(u, e) == self.in_mult(
                e.vertex,
                Edge { vertex: u, weight: e.weight },
            ))
    }

    /// Complete observational equality of two graphs.
    pub open spec fn eq_state(self, other: Graph) -> bool {
        &&& self.vertex_seq().len() == other.vertex_seq().len()
        &&& (forall|i: int|
            0 <= i < self.vertex_seq().len() ==> (#[trigger] self.vertex_seq()[i]).eq_state(
                other.vertex_seq()[i],
            ))
        &&& self.total_edges() == other.total_edges()
    }
}

/// Updating the vertex at index `k` without changing its identity leaves
/// every lookup of another identity unchanged.
proof fn lemma_lookup_after_update(g0: Graph, g1: Graph, k: int)
    requires
        sorted_ids(g0.vertex_seq()),
        0 <= k < g0.vertex_seq().len(),
        g1.vertex_seq() == g0.vertex_seq().update(k, g1.vertex_seq()[k]),
        g1.vertex_seq()[k].id() == g0.vertex_seq()[k].id(),
    ensures
        sorted_ids(g1.vertex_seq()),
        forall|u: usize| g1.contains_vertex(u) <==> g0.contains_vertex(u),
        forall|u: usize|
            #[trigger] g1.contains_vertex(u) && u != g0.vertex_seq()[k].id() ==> g1.vertex_at(u)
                == g0.vertex_at(u),
        g0.contains_vertex(g0.vertex_seq()[k].id()),
        g1.vertex_at(g0.vertex_seq()[k].id()) == g1.vertex_seq()[k],
        g0.vertex_at(g0.vertex_seq()[k].id()) == g0.vertex_seq()[k],
        g1.ids() == g0.ids(),
        forall|u: usize, e: Edge|
            u != g0.vertex_seq()[k].id() ==> #[trigger] g1.out_mult(u, e) == g0.out_mult(u, e),
        forall|u: usize, e: Edge|
            u != g0.vertex_seq()[k].id() ==> #[trigger] g1.in_mult(u, e) == g0.in_mult(u, e),
        forall|u: usize|
            u != g0.vertex_seq()[k].id() ==> #[trigger] g1.out_edges(u) == g0.out_edges(u)
                && g1.in_edges(u) == g0.in_edges(u) && g1.out_total(u) == g0.out_total(u),
{
    let s0 = g0.vertex_seq();
    let s1 = g1.vertex_seq();
    assert(forall|i: int| 0 <= i < s1.len() ==> (#[trigger] s1[i]).id() == s0[i].id());
    assert(sorted_ids(s1));
    assert forall|u: usize| g1.contains_vertex(u) <==> g0.contains_vertex(u) by {
        if g1.contains_vertex(u) {
            let w = choose|i: int| 0 <= i < s1.len() && (#[trigger] s1[i]).id() == u;
            assert(s0[w].id() == u);
        }
        if g0.contains_vertex(u) {
            let w = choose|i: int| 0 <= i < s0.len() && (#[trigger] s0[i]).id() == u;
            assert(s1[w].id() == u);
        }
    }
    assert forall|u: usize|
        #[trigger] g1.contains_vertex(u) && u != s0[k].id() implies g1.vertex_at(u)
        == g0.vertex_at(u) by {
        let w1 = g1.vidx(u);
        assert(0 <= w1 < s1.len() && s1[w1].id() == u);
        assert(s0[w1].id() == u);
        let w0 = g0.vidx(u);
        assert(0 <= w0 < s0.len() && s0[w0].id() == u);
        lemma_vertex_unique(s0, w0, w1);
        if w1 == k {
            assert(u == s0[k].id());
        }
        assert(s1[w1] == s0[w0]);
    }
    assert(s0[k].id() == s0[k].id());
    let kid = s0[k].id();
    lemma_vertex_unique(s0, g0.vidx(kid), k);
    lemma_vertex_unique(s1, g1.vidx(kid), k);
    assert(g1.ids() =~= g0.ids());
    assert forall|u: usize, e: Edge| u != kid implies #[trigger] g1.out_mult(u, e) == g0.out_mult(
        u,
        e,
    ) by {
        if g1.contains_vertex(u) {
            assert(g1.vertex_at(u) == g0.vertex_at(u));
        }
    }
    assert forall|u: usize, e: Edge| u != kid implies #[trigger] g1.in_mult(u, e) == g0.in_mult(
        u,
        e,
    ) by {
        if g1.contains_vertex(u) {
            assert(g1.vertex_at(u) == g0.vertex_at(u));
        }
    }
    assert forall|u: usize| u != kid implies #[trigger] g1.out_edges(u) == g0.out_edges(u)
        && g1.in_edges(u) == g0.in_edges(u) && g1.out_total(u) == g0.out_total(u) by {
        if g1.contains_vertex(u) {
            assert(g1.vertex_at(u) == g0.vertex_at(u));
        }
    }
}

/// Inserting a vertex with a fresh identity at its sorted position leaves
/// every lookup of another identity unchanged.
proof fn lemma_lookup_after_insert(g0: Graph, g1: Graph, k: int)
    requires
        sorted_ids(g0.vertex_seq()),
        sorted_ids(g1.vertex_seq()),
        0 <= k <= g0.vertex_seq().len(),
        g1.vertex_seq() == g0.vertex_seq().insert(k, g1.vertex_seq()[k]),
        !g0.contains_vertex(g1.vertex_seq()[k].id()),
    ensures
        forall|u: usize|
            g1.contains_vertex(u) <==> g0.contains_vertex(u) || u == g1.vertex_seq()[k].id(),
        forall|u: usize|
            #[trigger] g0.contains_vertex(u) ==> g1.contains_vertex(u) && g1.vertex_at(u)
                == g0.vertex_at(u),
        g1.contains_vertex(g1.vertex_seq()[k].id()),
        g1.vertex_at(g1.vertex_seq()[k].id()) == g1.vertex_seq()[k],
{
    let s0 = g0.vertex_seq();
    let s1 = g1.vertex_seq();
    let nv = s1[k];
    s0.insert_ensures(k, nv);
    assert(s1.len() == s0.len() + 1);
    assert(forall|j: int| 0 <= j < k ==> s1[j] == s0[j]);
    assert(forall|j: int| k < j < s1.len() ==> s1[j] == s0[j - 1]);
    assert forall|u: usize|
        g1.contains_vertex(u) <==> g0.contains_vertex(u) || u == nv.id() by {
        if g1.contains_vertex(u) {
            let w = choose|i: int| 0 <= i < s1.len() && (#[trigger] s1[i]).id() == u;
            if w != k {
                let wi = if w < k { w } else { w - 1 };
                assert(s0[wi].id() == u);
            }
        }
        if g0.contains_vertex(u) {
            let w = choose|i: int| 0 <= i < s0.len() && (#[trigger] s0[i]).id() == u;
            let wn = if w < k { w } else { w + 1 };
            assert(s1[wn].id() == u);
        }
    }
    assert forall|u: usize| #[trigger] g0.contains_vertex(u) implies g1.contains_vertex(u)
        && g1.vertex_at(u) == g0.vertex_at(u) by {
        let w0 = g0.vidx(u);
        assert(0 <= w0 < s0.len() && s0[w0].id() == u);
        let wn = if w0 < k { w0 } else { w0 + 1 };
        assert(s1[wn].id() == u && s1[wn] == s0[w0]);
        let w1 = g1.vidx(u);
        assert(0 <= w1 < s1.len() && s1[w1].id() == u);
        lemma_vertex_unique(s1, w1, wn);
    }
    lemma_vertex_unique(s1, g1.vidx(nv.id()), k);
}

proof fn lemma_sum_eq_state(s0: Seq<Vertex>, s1: Seq<Vertex>)
    requires
        s0.len() == s1.len(),
        forall|i: int| 0 <= i < s0.len() ==> (#[trigger] s1[i]).eq_state(s0[i]),
    ensures
        sum_out(s1) == sum_out(s0),
        sum_in(s1) == sum_in(s0),
    decreases s0.len(),
{
    if s0.len() > 0 {
        assert(forall|i: int|
            0 <= i < s0.len() - 1 ==> (#[trigger] s1.drop_last()[i]).eq_state(s0.drop_last()[i]));
        lemma_sum_eq_state(s0.drop_last(), s1.drop_last());
        assert(s1.last().eq_state(s0.last()));
    }
}

/// A graph observationally equal to a well-formed graph is itself
/// well-formed and shows the same vertices, edges and multiplicities.
proof fn lemma_eq_state_wf(g0: Graph, g1: Graph)
    requires
        g0.wf(),
        g1.eq_state(g0),
    ensures
        g1.wf(),
        forall|u: usize| g1.contains_vertex(u) <==> g0.contains_vertex(u),
        forall|u: usize, e: Edge| #[trigger] g1.out_mult(u, e) == g0.out_mult(u, e),
        forall|u: usize, e: Edge| #[trigger] g1.in_mult(u, e) == g0.in_mult(u, e),
        forall|u: usize|
            #[trigger] g1.out_edges(u) == g0.out_edges(u) && g1.in_edges(u) == g0.in_edges(u),
        g1.total_edges() == g0.total_edges(),
{
    let s0 = g0.vertex_seq();
    let s1 = g1.vertex_seq();
    assert(forall|i: int| 0 <= i < s1.len() ==> (#[trigger] s1[i]).id() == s0[i].id());
    assert(sorted_ids(s1));
    assert forall|i: int| 0 <= i < s1.len() implies (#[trigger] s1[i]).wf() by {
        assert(s1[i].eq_state(s0[i]));
        assert(s0[i].wf());
    }
    lemma_sum_eq_state(s0, s1);
    assert forall|u: usize| #[trigger] g1.contains_vertex(u) <==> g0.contains_vertex(u) by {
        if g1.contains_vertex(u) {
            let w = choose|i: int| 0 <= i < s1.len() && (#[trigger] s1[i]).id() == u;
            assert(s0[w].id() == u);
        }
        if g0.contains_vertex(u) {
            let w = choose|i: int| 0 <= i < s0.len() && (#[trigger] s0[i]).id() == u;
            assert(s1[w].id() == u);
        }
    }
    assert forall|u: usize, e: Edge|
        #[trigger] g1.out_mult(u, e) == g0.out_mult(u, e) && g1.in_mult(u, e) == g0.in_mult(
            u,
            e,
        ) by {
        if g1.contains_vertex(u) {
            let w1 = g1.vidx(u);
            assert(0 <= w1 < s1.len() && s1[w1].id() == u);
            let w0 = g0.vidx(u);
            assert(0 <= w0 < s0.len() && s0[w0].id() == u);
            assert(s0[w1].id() == u);
            lemma_vertex_unique(s0, w0, w1);
            assert(s1[w1].eq_state(s0[w1]));
        }
    }
    assert forall|u: usize|
        #[trigger] g1.out_edges(u) == g0.out_edges(u) && g1.in_edges(u) == g0.in_edges(u) by {
        if g1.contains_vertex(u) {
            let w1 = g1.vidx(u);
            assert(0 <= w1 < s1.len() && s1[w1].id() == u);
            let w0 = g0.vidx(u);
            assert(0 <= w0 < s0.len() && s0[w0].id() == u);
            assert(s0[w1].id() == u);
            lemma_vertex_unique(s0, w0, w1);
            assert(s1[w1].eq_state(s0[w1]));
        }
    }
    assert forall|u: usize, e: Edge|
        #[trigger] g1.out_mult(u, e) == g1.in_mult(
            e.vertex,
            Edge { vertex: u, weight: e.weight },
        ) by {
        assert(g0.out_mult(u, e) == g0.in_mult(e.vertex, Edge { vertex: u, weight: e.weight }));
    }
}

impl Graph {
    pub fn new() -> (g: Graph)
        ensures
            g.wf(),
            g.vertex_count() == 0,
            g.total_edges() == 0,
            g.ids() == Seq::<usize>::empty(),
            forall|u: usize| !g.contains_vertex(u),
            forall|u: usize, e: Edge| g.out_mult(u, e) == 0 && g.in_mult(u, e) == 0,
    {
        let g = Graph { vertex_map: Vec::new(), edge_count: 0 };
        proof {
            assert(g.ids() =~= Seq::<usize>::empty());
        }
        g
    }

    /// Index of the vertex with identity `id` in the vertex list, if any.
    fn find_index(&self, id: usize) -> (r: Option<usize>)
        ensures
            match r {
                Some(i) => i < self.vertex_seq().len() && self.vertex_seq()[i as int].id() == id,
                None => !self.contains_vertex(id),
            },
    {
        let mut i: usize = 0;
        let n = self.vertex_map.len();
        while i < n
            invariant
                n == self.vertex_seq().len(),
                i <= n,
                forall|j: int| 0 <= j < i ==> (#[trigger] self.vertex_seq()[j]).id() != id,
            decreases n - i,
        {
            if self.vertex_map[i].vertex_id == id {
                return Some(i);
            }
            i += 1;
        }
        None
    }

    /// All vertex identities in ascending order.
    pub fn get_vertexes(&self) -> (r: Vec<usize>)
        requires
            self.wf(),
        ensures
            r@ == self.ids(),
    {
        let mut r: Vec<usize> = Vec::new();
        let mut i: usize = 0;
        let n = self.vertex_map.len();
        while i < n
            invariant
                n == self.vertex_seq().len(),
                i <= n,
                r@.len() == i,
                forall|j: int| 0 <= j < i ==> r@[j] == (#[trigger] self.vertex_seq()[j]).id(),
            decreases n - i,
        {
            r.push(self.vertex_map[i].vertex_id);
            i += 1;
        }
        proof {
            assert(r@ =~= self.ids());
        }
        r
    }

    /// The distinct outgoing edges of `vertex`, ascending.  The vertex must
    /// exist: asking for an unknown identity is a contract violation.
    pub fn get_outgoing(&self, vertex: usize) -> (r: Vec<Edge>)
        requires
            self.wf(),
            self.contains_vertex(vertex),
        ensures
            r@ == self.out_edges(vertex),
    {
        let i = self.find_index(vertex).unwrap();
        proof {
            lemma_vertex_unique(self.vertex_seq(), self.vidx(vertex), i as int);
        }
        let v = &self.vertex_map[i];
        let mut r: Vec<Edge> = Vec::new();
        let mut k: usize = 0;
        let n = v.outgoing.len();
        while k < n
            invariant
                n == v.outgoing@.len(),
                k <= n,
                r@.len() == k,
                forall|j: int| 0 <= j < k ==> r@[j] == (#[trigger] v.outgoing@[j]).0,
            decreases n - k,
        {
            r.push(v.outgoing[k].0);
            k += 1;
        }
        proof {
            assert(r@ =~= table_keys(v.outgoing@));
        }
        r
    }

    /// The distinct incoming edges of `vertex`, ascending.
    pub fn get_incoming(&self, vertex: usize) -> (r: Vec<Edge>)
        requires
            self.wf(),
            self.contains_vertex(vertex),
        ensures
            r@ == self.in_edges(vertex),
    {
        let i = self.find_index(vertex).unwrap();
        proof {
            lemma_vertex_unique(self.vertex_seq(), self.vidx(vertex), i as int);
        }
        let v = &self.vertex_map[i];
        let mut r: Vec<Edge> = Vec::new();
        let mut k: usize = 0;
        let n = v.incoming.len();
        while k < n
            invariant
                n == v.incoming@.len(),
                k <= n,
                r@.len() == k,
                forall|j: int| 0 <= j < k ==> r@[j] == (#[trigger] v.incoming@[j]).0,
            decreases n - k,
        {
            r.push(v.incoming[k].0);
            k += 1;
        }
        proof {
            assert(r@ =~= table_keys(v.incoming@));
        }
        r
    }

    /// Create a vertex if absent.  Returns the new vertex count, or `None`
    /// when the identity is already present (an idempotent insert with a
    /// distinguishable outcome, not an error).
    pub fn create_vertex(&mut self, id: &usize) -> (r: Option<usize>)
        requires
            old(self).wf(),
        ensures
            final(self).wf(),
            old(self).contains_vertex(*id) ==> r == None::<usize> && final(self).eq_state(
                *old(self),
            ),
            !old(self).contains_vertex(*id) ==> (r matches Some(c) && c == final(self).vertex_count()),
            final(self).contains_vertex(*id),
            final(self).vertex_count() == old(self).vertex_count() + (
            if old(self).contains_vertex(*id) {
                0int
            } else {
                1int
            }),
            forall|u: usize|
                final(self).contains_vertex(u) <==> old(self).contains_vertex(u) || u == *id,
            forall|u: usize, e: Edge|
                #[trigger] final(self).out_mult(u, e) == old(self).out_mult(u, e),
            forall|u: usize, e: Edge|
                #[trigger] final(self).in_mult(u, e) == old(self).in_mult(u, e),
            forall|u: usize| #[trigger] final(self).out_total(u) == old(self).out_total(u),
            forall|u: usize| #[trigger] final(self).out_edges(u) == old(self).out_edges(u),
            forall|u: usize| #[trigger] final(self).in_edges(u) == old(self).in_edges(u),
            final(self).total_edges() == old(self).total_edges(),
    {
        let ghost g0 = *self;
        let mut i: usize = 0;
        let n = self.vertex_map.len();
        while i < n && self.vertex_map[i].vertex_id < *id
            invariant
                *self == g0,
                n == self.vertex_seq().len(),
                i <= n,
                forall|j: int| 0 <= j < i ==> (#[trigger] self.vertex_seq()[j]).id() < *id,
            decreases n - i,
        {
            i += 1;
        }
        if i < n && self.vertex_map[i].vertex_id == *id {
            proof {
                assert(self.contains_vertex(*id));
                assert(self.eq_state(g0));
            }
            return None;
        }
        proof {
            // the identity is fresh: entries before i are below it, entries
            // from i on are above it
            assert(!g0.contains_vertex(*id)) by {
                if g0.contains_vertex(*id) {
                    let w = choose|j: int|
                        0 <= j < g0.vertex_seq().len() && (#[trigger] g0.vertex_seq()[j]).id()
                            == *id;
                    if w >= i {
                        if i < n {
                            assert(g0.vertex_seq()[i as int].id() != *id);
                            if w > i {
                                assert(g0.vertex_seq()[i as int].id() < g0.vertex_seq()[w].id());
                            }
                        }
                    }
                }
            }
        }
        let v = Vertex::new(id);
        self.vertex_map.insert(i, v);
        proof {
            let g1 = *self;
            let s0 = g0.vertex_seq();
            let s1 = g1.vertex_seq();
            assert(s1 == s0.insert(i as int, v));
            assert(s1[i as int] == v);
            assert forall|x: int, y: int| 0 <= x < y < s1.len() implies s1[x].id() < s1[y].id() by {
                let xi = if x < i { x } else { x - 1 };
                let yi = if y < i { y } else { y - 1 };
                if x == i as int {
                    assert(s1[y] == s0[yi]);
                    assert(!(s0[yi].id() < *id));
                    if i < n {
                        if yi > i {
                            assert(s0[i as int].id() < s0[yi].id());
                        }
                        assert(s0[yi].id() != *id);
                    }
                } else if y == i as int {
                    assert(s1[x] == s0[xi]);
                } else {
                    assert(s1[x] == s0[xi] && s1[y] == s0[yi]);
                    if xi == yi {
                        assert(x < i && i < y);
                        assert(s0[xi].id() < *id);
                        assert(!(s0[yi].id() < *id));
                    }
                }
            }
            assert(sorted_ids(s1));
            lemma_lookup_after_insert(g0, g1, i as int);
            lemma_sum_insert(s0, i as int, v);
            assert forall|u: usize, e: Edge|
                #[trigger] g1.out_mult(u, e) == g0.out_mult(u, e) by {
                if u == *id {
                    assert(g1.vertex_at(u) == v);
                    assert(v.out_mult(e) == 0);
                } else if g0.contains_vertex(u) {
                    assert(g1.vertex_at(u) == g0.vertex_at(u));
                } else {
                    assert(!g1.contains_vertex(u));
                }
            }
            assert forall|u: usize, e: Edge|
                #[trigger] g1.in_mult(u, e) == g0.in_mult(u, e) by {
                if u == *id {
                    assert(g1.vertex_at(u) == v);
                } else if g0.contains_vertex(u) {
                    assert(g1.vertex_at(u) == g0.vertex_at(u));
                } else {
                    assert(!g1.contains_vertex(u));
                }
            }
            assert forall|u: usize|
                #[trigger] g1.out_total(u) == g0.out_total(u) && g1.out_edges(u) == g0.out_edges(
                    u,
                ) && g1.in_edges(u) == g0.in_edges(u) by {
                if u == *id {
                    assert(g1.vertex_at(u) == v);
                    assert(v.out_edges() =~= Seq::<Edge>::empty());
                    assert(v.in_edges() =~= Seq::<Edge>::empty());
                } else if g0.contains_vertex(u) {
                    assert(g1.vertex_at(u) == g0.vertex_at(u));
                } else {
                    assert(!g1.contains_vertex(u));
                }
            }
            assert(g1.wf()) by {
                assert forall|u: usize, e: Edge|
                    #[trigger] g1.out_mult(u, e) == g1.in_mult(
                        e.vertex,
                        Edge { vertex: u, weight: e.weight },
                    ) by {
                    assert(g0.out_mult(u, e) == g0.in_mult(
                        e.vertex,
                        Edge { vertex: u, weight: e.weight },
                    ));
                }
            }
        }
        Some(self.vertex_map.len())
    }
}


impl Graph {
    /// Insert one occurrence of the edge (v1 -> v2, weight).  Both endpoints
    /// are created when absent.  Returns the updated outgoing edge count of
    /// `v1`, multiplicities included.  Never fails.
    #[verifier::rlimit(100)]
    pub fn add_edge(&mut self, v1: usize, v2: usize, weight: i32) -> (r: Option<usize>)
        requires
            old(self).wf(),
            old(self).total_edges() < usize::MAX,
        ensures
            final(self).wf(),
            (r matches Some(c) && c == old(self).out_total(v1) + 1 && c == final(self).out_total(
                v1,
            )),
            final(self).out_mult(v1, Edge { vertex: v2, weight }) == old(self).out_mult(
                v1,
                Edge { vertex: v2, weight },
            ) + 1,
            final(self).in_mult(v2, Edge { vertex: v1, weight }) == old(self).in_mult(
                v2,
                Edge { vertex: v1, weight },
            ) + 1,
            forall|u: usize, e: Edge|
                !(u == v1 && e == (Edge { vertex: v2, weight })) ==> #[trigger] final(self).out_mult(
                    u,
                    e,
                ) == old(self).out_mult(u, e),
            forall|u: usize, e: Edge|
                !(u == v2 && e == (Edge { vertex: v1, weight })) ==> #[trigger] final(self).in_mult(
                    u,
                    e,
                ) == old(self).in_mult(u, e),
            forall|u: usize|
                final(self).contains_vertex(u) <==> old(self).contains_vertex(u) || u == v1 || u
                    == v2,
            final(self).total_edges() == old(self).total_edges() + 1,
            old(self).out_mult(v1, Edge { vertex: v2, weight }) > 0 ==> final(self).out_edges(v1)
                == old(self).out_edges(v1),
            forall|u: usize|
                u != v1 ==> #[trigger] final(self).out_edges(u) == old(self).out_edges(u)
                    && final(self).out_total(u) == old(self).out_total(u),
            forall|u: usize|
                u != v2 ==> #[trigger] final(self).in_edges(u) == old(self).in_edges(u),
    {
        let ghost g0 = *self;
        let ghost t = Edge { vertex: v2, weight };
        let ghost t2 = Edge { vertex: v1, weight };
        self.create_vertex(&v1);
        self.create_vertex(&v2);
        let ghost ga = *self;
        let i1 = self.find_index(v1).unwrap();
        proof {
            lemma_vertex_unique(ga.vertex_seq(), ga.vidx(v1), i1 as int);
            lemma_sum_elem(ga.vertex_seq(), i1 as int);
        }
        let mut vx = self.vertex_map.remove(i1);
        proof {
            assert(vx == ga.vertex_at(v1));
            assert(vx.out_total() < usize::MAX);
        }
        vx.add_outgoing(v2, weight);
        let new_cnt = vx.outgoing_cnt;
        self.vertex_map.insert(i1, vx);
        let ghost gb = *self;
        proof {
            assert(gb.vertex_seq() =~= ga.vertex_seq().update(i1 as int, vx));
            lemma_lookup_after_update(ga, gb, i1 as int);
            lemma_sum_update(ga.vertex_seq(), i1 as int, vx);
            assert(gb.vertex_at(v1) == vx);
            assert(gb.out_mult(v1, t) == ga.out_mult(v1, t) + 1);
            assert(forall|e: Edge| e != t ==> #[trigger] gb.out_mult(v1, e) == ga.out_mult(v1, e));
            assert(forall|e: Edge| #[trigger] gb.in_mult(v1, e) == ga.in_mult(v1, e));
            assert(sum_out(gb.vertex_seq()) == sum_out(ga.vertex_seq()) + 1);
            assert(sum_in(gb.vertex_seq()) == sum_in(ga.vertex_seq()));
        }
        let i2 = self.find_index(v2).unwrap();
        proof {
            lemma_vertex_unique(gb.vertex_seq(), gb.vidx(v2), i2 as int);
            lemma_sum_elem(gb.vertex_seq(), i2 as int);
        }
        let mut vy = self.vertex_map.remove(i2);
        proof {
            assert(vy == gb.vertex_at(v2));
            assert(vy.wf()) by {
                if i2 == i1 {
                } else {
                    assert(gb.vertex_seq()[i2 as int] == ga.vertex_seq()[i2 as int]);
                }
            }
            assert(vy.in_total() < usize::MAX);
        }
        vy.add_incoming(v1, weight);
        self.vertex_map.insert(i2, vy);
        self.edge_count += 1;
        let ghost gc = *self;
        proof {
            assert(gc.vertex_seq() =~= gb.vertex_seq().update(i2 as int, vy));
            lemma_lookup_after_update(gb, gc, i2 as int);
            lemma_sum_update(gb.vertex_seq(), i2 as int, vy);
            assert(gc.vertex_at(v2) == vy);
            assert(gc.in_mult(v2, t2) == gb.in_mult(v2, t2) + 1);
            assert(forall|e: Edge| e != t2 ==> #[trigger] gc.in_mult(v2, e) == gb.in_mult(v2, e));
            assert(forall|e: Edge| #[trigger] gc.out_mult(v2, e) == gb.out_mult(v2, e));
            assert(gc.out_edges(v2) == gb.out_edges(v2));
            assert(gc.out_total(v2) == gb.out_total(v2));
            assert(sum_out(gc.vertex_seq()) == sum_out(gb.vertex_seq()));
            assert(sum_in(gc.vertex_seq()) == sum_in(gb.vertex_seq()) + 1);
            assert forall|i: int|
                0 <= i < gc.vertex_seq().len() implies (#[trigger] gc.vertex_seq()[i]).wf() by {
                if i == i2 as int {
                } else {
                    assert(gc.vertex_seq()[i] == gb.vertex_seq()[i]);
                    if i == i1 as int {
                    } else {
                        assert(gb.vertex_seq()[i] == ga.vertex_seq()[i]);
                    }
                }
            }
            assert forall|u: usize, e: Edge|
                #[trigger] gc.out_mult(u, e) == g0.out_mult(u, e) + (
                if u == v1 && e == t {
                    1int
                } else {
                    0int
                }) by {
                assert(ga.out_mult(u, e) == g0.out_mult(u, e));
                if u == v1 {
                } else {
                    assert(gb.out_mult(u, e) == ga.out_mult(u, e));
                }
                if u == v2 {
                } else {
                    assert(gc.out_mult(u, e) == gb.out_mult(u, e));
                }
            }
            assert forall|u: usize, e: Edge|
                #[trigger] gc.in_mult(u, e) == g0.in_mult(u, e) + (
                if u == v2 && e == t2 {
                    1int
                } else {
                    0int
                }) by {
                assert(ga.in_mult(u, e) == g0.in_mult(u, e));
                if u == v1 {
                } else {
                    assert(gb.in_mult(u, e) == ga.in_mult(u, e));
                }
                if u == v2 {
                } else {
                    assert(gc.in_mult(u, e) == gb.in_mult(u, e));
                }
            }
            assert forall|u: usize, e: Edge|
                #[trigger] gc.out_mult(u, e) == gc.in_mult(
                    e.vertex,
                    Edge { vertex: u, weight: e.weight },
                ) by {
                let f = Edge { vertex: u, weight: e.weight };
                assert(g0.out_mult(u, e) == g0.in_mult(e.vertex, f));
                assert(gc.out_mult(u, e) == g0.out_mult(u, e) + (
                if u == v1 && e == t {
                    1int
                } else {
                    0int
                }));
                assert(gc.in_mult(e.vertex, f) == g0.in_mult(e.vertex, f) + (
                if e.vertex == v2 && f == t2 {
                    1int
                } else {
                    0int
                }));
            }
            assert(gc.wf());
            assert(new_cnt == vx.out_total());
            assert(ga.out_total(v1) == g0.out_total(v1));
            assert(gb.out_total(v1) == ga.out_total(v1) + 1);
            assert(gc.out_total(v1) == gb.out_total(v1)) by {
                if v2 == v1 {
                    assert(gc.vertex_at(v1) == vy);
                }
            }
            if g0.out_mult(v1, t) > 0 {
                assert(ga.out_edges(v1) == g0.out_edges(v1));
                assert(ga.out_mult(v1, t) > 0);
                assert(gb.out_edges(v1) == ga.out_edges(v1)) by {
                    assert(gb.vertex_at(v1) == vx);
                    assert(ga.vertex_at(v1).out_mult(t) > 0);
                }
                assert(gc.out_edges(v1) == gb.out_edges(v1)) by {
                    if v2 == v1 {
                        assert(gc.vertex_at(v1) == vy);
                    }
                }
            }
            // vertices other than the endpoints keep their edge lists
            assert forall|u: usize|
                u != v1 implies #[trigger] gc.out_edges(u) == g0.out_edges(u) && gc.out_total(u)
                    == g0.out_total(u) by {
                assert(ga.out_edges(u) == g0.out_edges(u) && ga.out_total(u) == g0.out_total(u));
                assert(gb.out_edges(u) == ga.out_edges(u) && gb.out_total(u) == ga.out_total(u));
                if u != v2 {
                    assert(gc.out_edges(u) == gb.out_edges(u) && gc.out_total(u) == gb.out_total(
                        u,
                    ));
                }
            }
            assert forall|u: usize|
                u != v2 implies #[trigger] gc.in_edges(u) == g0.in_edges(u) by {
                assert(ga.in_edges(u) == g0.in_edges(u));
                assert(gb.in_edges(u) == ga.in_edges(u)) by {
                    if u == v1 {
                        assert(gb.vertex_at(v1) == vx);
                        assert(ga.vertex_at(v1).in_table() == vx.in_table());
                    }
                }
                assert(gc.in_edges(u) == gb.in_edges(u));
            }
        }
        Some(new_cnt)
    }

    /// Remove one occurrence of the edge (v1 -> v2, weight).  Fails, leaving
    /// the graph unchanged, when no such edge is present.
    #[verifier::rlimit(100)]
    pub fn delete_edge(&mut self, v1: usize, v2: usize, weight: i32) -> (r: Result<(), String>)
        requires
            old(self).wf(),
        ensures
            final(self).wf(),
            r is Ok <==> old(self).out_mult(v1, Edge { vertex: v2, weight }) > 0,
            r matches Err(m) ==> m@ == "Invalid Vertex"@,
            r is Err ==> {
                &&& final(self).eq_state(*old(self))
                &&& (forall|u: usize, e: Edge|
                    #[trigger] final(self).out_mult(u, e) == old(self).out_mult(u, e))
                &&& (forall|u: usize, e: Edge|
                    #[trigger] final(self).in_mult(u, e) == old(self).in_mult(u, e))
                &&& (forall|u: usize|
                    final(self).contains_vertex(u) <==> old(self).contains_vertex(u))
                &&& (forall|u: usize|
                    #[trigger] final(self).out_edges(u) == old(self).out_edges(u) && final(self).in_edges(
                        u,
                    ) == old(self).in_edges(u))
                &&& final(self).total_edges() == old(self).total_edges()
            },
            r is Ok ==> {
                &&& final(self).out_mult(v1, Edge { vertex: v2, weight }) == old(self).out_mult(
                    v1,
                    Edge { vertex: v2, weight },
                ) - 1
                &&& final(self).in_mult(v2, Edge { vertex: v1, weight }) == old(self).in_mult(
                    v2,
                    Edge { vertex: v1, weight },
                ) - 1
                &&& (forall|u: usize, e: Edge|
                    !(u == v1 && e == (Edge { vertex: v2, weight })) ==> #[trigger] final(self).out_mult(
                        u,
                        e,
                    ) == old(self).out_mult(u, e))
                &&& (forall|u: usize, e: Edge|
                    !(u == v2 && e == (Edge { vertex: v1, weight })) ==> #[trigger] final(self).in_mult(
                        u,
                        e,
                    ) == old(self).in_mult(u, e))
                &&& (forall|u: usize|
                    final(self).contains_vertex(u) <==> old(self).contains_vertex(u))
                &&& final(self).total_edges() == old(self).total_edges() - 1
                &&& (old(self).out_mult(v1, Edge { vertex: v2, weight }) > 1 ==> final(self).out_edges(
                    v1,
                ) == old(self).out_edges(v1))
                &&& (forall|u: usize|
                    u != v1 ==> #[trigger] final(self).out_edges(u) == old(self).out_edges(u)
                        && final(self).out_total(u) == old(self).out_total(u))
                &&& (forall|u: usize|
                    u != v2 ==> #[trigger] final(self).in_edges(u) == old(self).in_edges(u))
            },
    {
        let ghost g0 = *self;
        let ghost t = Edge { vertex: v2, weight };
        let ghost t2 = Edge { vertex: v1, weight };
        let i1 = match self.find_index(v1) {
            Some(i) => i,
            None => {
                proof {
                    assert(forall|j: int|
                        0 <= j < g0.vertex_seq().len() ==> (#[trigger] g0.vertex_seq()[j]).eq_state(
                            g0.vertex_seq()[j],
                        ));
                }
                return Err("Invalid Vertex".to_string());
            },
        };
        proof {
            lemma_vertex_unique(g0.vertex_seq(), g0.vidx(v1), i1 as int);
        }
        let mut vx = self.vertex_map.remove(i1);
        let ghost vx0 = vx;
        match vx.del_outgoing(v2, weight) {
            Err(m) => {
                self.vertex_map.insert(i1, vx);
                proof {
                    let gb = *self;
                    assert(gb.vertex_seq().len() == g0.vertex_seq().len());
                    assert forall|j: int|
                        0 <= j < gb.vertex_seq().len() implies (#[trigger] gb.vertex_seq()[j]).eq_state(
                            g0.vertex_seq()[j],
                        ) by {
                        if j == i1 as int {
                            assert(gb.vertex_seq()[j] == vx);
                            assert(vx.eq_state(vx0));
                        } else {
                            assert(gb.vertex_seq()[j] == g0.vertex_seq()[j]);
                        }
                    }
                    assert(gb.eq_state(g0));
                    lemma_eq_state_wf(g0, gb);
                }
                return Err(m);
            },
            Ok(()) => {},
        }
        self.vertex_map.insert(i1, vx);
        let ghost gb = *self;
        proof {
            assert(gb.vertex_seq() =~= g0.vertex_seq().update(i1 as int, vx));
            lemma_lookup_after_update(g0, gb, i1 as int);
            lemma_sum_update(g0.vertex_seq(), i1 as int, vx);
            assert(gb.vertex_at(v1) == vx);
            assert(gb.out_mult(v1, t) == g0.out_mult(v1, t) - 1);
            assert(forall|e: Edge| e != t ==> #[trigger] gb.out_mult(v1, e) == g0.out_mult(v1, e));
            assert(forall|e: Edge| #[trigger] gb.in_mult(v1, e) == g0.in_mult(v1, e));
            assert(sum_out(gb.vertex_seq()) == sum_out(g0.vertex_seq()) - 1);
            assert(sum_in(gb.vertex_seq()) == sum_in(g0.vertex_seq()));
            // the incoming side is present, by symmetry of the old state
            assert(g0.in_mult(v2, t2) == g0.out_mult(v1, t)) by {
                assert(g0.out_mult(v1, t) == g0.in_mult(
                    t.vertex,
                    Edge { vertex: v1, weight: t.weight },
                ));
            }
            assert(g0.in_mult(v2, t2) > 0);
            assert(g0.contains_vertex(v2));
            assert(gb.in_mult(v2, t2) == g0.in_mult(v2, t2)) by {
                if v2 == v1 {
                } else {
                }
            }
        }
        let i2 = self.find_index(v2).unwrap();
        proof {
            lemma_vertex_unique(gb.vertex_seq(), gb.vidx(v2), i2 as int);
        }
        let mut vy = self.vertex_map.remove(i2);
        proof {
            assert(vy == gb.vertex_at(v2));
            assert(vy.wf()) by {
                if i2 == i1 {
                } else {
                    assert(gb.vertex_seq()[i2 as int] == g0.vertex_seq()[i2 as int]);
                }
            }
            assert(vy.in_mult(t2) == gb.in_mult(v2, t2));
            assert(vy.in_mult(t2) > 0);
        }
        let rr = vy.del_incoming(v1, weight);
        match rr {
            Err(m) => {
                // cannot happen: the incoming record was shown present
                proof {
                    assert(false);
                }
                self.vertex_map.insert(i2, vy);
                return Err(m);
            },
            Ok(()) => {},
        }
        self.vertex_map.insert(i2, vy);
        proof {
            // one edge is certainly recorded, so the counter is positive
            lemma_sum_elem(g0.vertex_seq(), i1 as int);
            assert(g0.vertex_seq()[i1 as int].out_total() >= 1) by {
                let vt = g0.vertex_seq()[i1 as int].out_table();
                assert(table_has(vt, t));
                let w = table_idx(vt, t);
                lemma_entry_le_total(vt, w);
            }
            assert(g0.spec_edge_count() >= 1);
        }
        self.edge_count -= 1;
        let ghost gc = *self;
        proof {
            assert(gc.vertex_seq() =~= gb.vertex_seq().update(i2 as int, vy));
            lemma_lookup_after_update(gb, gc, i2 as int);
            lemma_sum_update(gb.vertex_seq(), i2 as int, vy);
            assert(gc.vertex_at(v2) == vy);
            assert(gc.in_mult(v2, t2) == gb.in_mult(v2, t2) - 1);
            assert(forall|e: Edge| e != t2 ==> #[trigger] gc.in_mult(v2, e) == gb.in_mult(v2, e));
            assert(forall|e: Edge| #[trigger] gc.out_mult(v2, e) == gb.out_mult(v2, e));
            assert(gc.out_edges(v2) == gb.out_edges(v2));
            assert(sum_out(gc.vertex_seq()) == sum_out(gb.vertex_seq()));
            assert(sum_in(gc.vertex_seq()) == sum_in(gb.vertex_seq()) - 1);
            assert forall|i: int|
                0 <= i < gc.vertex_seq().len() implies (#[trigger] gc.vertex_seq()[i]).wf() by {
                if i == i2 as int {
                } else {
                    assert(gc.vertex_seq()[i] == gb.vertex_seq()[i]);
                    if i == i1 as int {
                    } else {
                        assert(gb.vertex_seq()[i] == g0.vertex_seq()[i]);
                    }
                }
            }
            assert forall|u: usize, e: Edge|
                #[trigger] gc.out_mult(u, e) == g0.out_mult(u, e) - (
                if u == v1 && e == t {
                    1int
                } else {
                    0int
                }) by {
                if u == v1 {
                } else {
                    assert(gb.out_mult(u, e) == g0.out_mult(u, e));
                }
                if u == v2 {
                } else {
                    assert(gc.out_mult(u, e) == gb.out_mult(u, e));
                }
            }
            assert forall|u: usize, e: Edge|
                #[trigger] gc.in_mult(u, e) == g0.in_mult(u, e) - (
                if u == v2 && e == t2 {
                    1int
                } else {
                    0int
                }) by {
                if u == v1 {
                } else {
                    assert(gb.in_mult(u, e) == g0.in_mult(u, e));
                }
                if u == v2 {
                } else {
                    assert(gc.in_mult(u, e) == gb.in_mult(u, e));
                }
            }
            assert forall|u: usize, e: Edge|
                #[trigger] gc.out_mult(u, e) == gc.in_mult(
                    e.vertex,
                    Edge { vertex: u, weight: e.weight },
                ) by {
                let f = Edge { vertex: u, weight: e.weight };
                assert(g0.out_mult(u, e) == g0.in_mult(e.vertex, f));
                assert(gc.out_mult(u, e) == g0.out_mult(u, e) - (
                if u == v1 && e == t {
                    1int
                } else {
                    0int
                }));
                assert(gc.in_mult(e.vertex, f) == g0.in_mult(e.vertex, f) - (
                if e.vertex == v2 && f == t2 {
                    1int
                } else {
                    0int
                }));
            }
            assert(gc.wf());
            if g0.out_mult(v1, t) > 1 {
                assert(gb.out_edges(v1) == g0.out_edges(v1)) by {
                    assert(gb.vertex_at(v1) == vx);
                    assert(g0.vertex_at(v1).out_mult(t) > 1);
                }
                assert(gc.out_edges(v1) == gb.out_edges(v1)) by {
                    if v2 == v1 {
                        assert(gc.vertex_at(v1) == vy);
                    }
                }
            }
            // vertices other than the endpoints keep their edge lists
            assert forall|u: usize|
                u != v1 implies #[trigger] gc.out_edges(u) == g0.out_edges(u) && gc.out_total(u)
                    == g0.out_total(u) by {
                assert(gb.out_edges(u) == g0.out_edges(u) && gb.out_total(u) == g0.out_total(u));
                assert(gc.out_edges(u) == gb.out_edges(u));
                assert(gc.out_total(u) == gb.out_total(u)) by {
                    if u == v2 {
                        assert(gc.vertex_at(v2) == vy);
                        assert(gb.vertex_at(v2).out_table() == vy.out_table());
                    }
                }
            }
            assert forall|u: usize|
                u != v2 implies #[trigger] gc.in_edges(u) == g0.in_edges(u) by {
                assert(gb.in_edges(u) == g0.in_edges(u)) by {
                    if u == v1 {
                        assert(gb.vertex_at(v1) == vx);
                        assert(g0.vertex_at(v1).in_table() == vx.in_table());
                    }
                }
                assert(gc.in_edges(u) == gb.in_edges(u));
            }
        }
        Ok(())
    }
}

/// The two sides of the edge bookkeeping always agree: the outgoing record
/// (src -> dest, w) and the incoming record (src, w) at dest have the same
/// multiplicity in a well-formed graph.
pub proof fn lemma_edge_symmetry(g: Graph, src: usize, dest: usize, weight: i32)
    requires
        g.wf(),
    ensures
        g.out_mult(src, Edge { vertex: dest, weight }) == g.in_mult(
            dest,
            Edge { vertex: src, weight },
        ),
{
    let e = Edge { vertex: dest, weight };
    assert(g.out_mult(src, e) == g.in_mult(e.vertex, Edge { vertex: src, weight: e.weight }));
}

/// What `get_outgoing` hands back: strictly ascending distinct edges, and an
/// edge value is listed exactly when its multiplicity is positive.
pub proof fn lemma_out_edges_props(g: Graph, u: usize)
    requires
        g.wf(),
        g.contains_vertex(u),
    ensures
        forall|i: int, j: int|
            0 <= i < j < g.out_edges(u).len() ==> edge_lt(g.out_edges(u)[i], g.out_edges(u)[j]),
        forall|e: Edge| g.out_edges(u).contains(e) <==> g.out_mult(u, e) > 0,
        forall|i: int| 0 <= i < g.out_edges(u).len() ==> g.out_mult(u, g.out_edges(u)[i]) > 0,
{
    let vt = g.vertex_at(u).out_table();
    let ks = g.out_edges(u);
    assert(g.vertex_at(u).wf()) by {
        let w = g.vidx(u);
        assert(g.vertex_seq()[w].wf());
    }
    assert(forall|i: int| 0 <= i < ks.len() ==> ks[i] == (#[trigger] vt[i]).0);
    assert forall|i: int| 0 <= i < ks.len() implies g.out_mult(u, ks[i]) > 0 by {
        lemma_mult_at(vt, vt[i].0, i);
    }
    assert forall|e: Edge| g.out_edges(u).contains(e) <==> g.out_mult(u, e) > 0 by {
        if ks.contains(e) {
            let w = choose|i: int| 0 <= i < ks.len() && ks[i] == e;
            lemma_mult_at(vt, e, w);
        }
        if g.out_mult(u, e) > 0 {
            assert(table_has(vt, e));
            let w = table_idx(vt, e);
            assert(ks[w] == e);
            assert(ks.contains(e));
        }
    }
}

/// The same, for `get_incoming`.
pub proof fn lemma_in_edges_props(g: Graph, u: usize)
    requires
        g.wf(),
        g.contains_vertex(u),
    ensures
        forall|i: int, j: int|
            0 <= i < j < g.in_edges(u).len() ==> edge_lt(g.in_edges(u)[i], g.in_edges(u)[j]),
        forall|e: Edge| g.in_edges(u).contains(e) <==> g.in_mult(u, e) > 0,
        forall|i: int| 0 <= i < g.in_edges(u).len() ==> g.in_mult(u, g.in_edges(u)[i]) > 0,
{
    let vt = g.vertex_at(u).in_table();
    let ks = g.in_edges(u);
    assert(g.vertex_at(u).wf()) by {
        let w = g.vidx(u);
        assert(g.vertex_seq()[w].wf());
    }
    assert(forall|i: int| 0 <= i < ks.len() ==> ks[i] == (#[trigger] vt[i]).0);
    assert forall|i: int| 0 <= i < ks.len() implies g.in_mult(u, ks[i]) > 0 by {
        lemma_mult_at(vt, vt[i].0, i);
    }
    assert forall|e: Edge| g.in_edges(u).contains(e) <==> g.in_mult(u, e) > 0 by {
        if ks.contains(e) {
            let w = choose|i: int| 0 <= i < ks.len() && ks[i] == e;
            lemma_mult_at(vt, e, w);
        }
        if g.in_mult(u, e) > 0 {
            assert(table_has(vt, e));
            let w = table_idx(vt, e);
            assert(ks[w] == e);
            assert(ks.contains(e));
        }
    }
}

} // verus!
