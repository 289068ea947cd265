//! Graph operations that keep the graph well formed: unique node IDs, edges
//! between existing nodes, no self-loops, unique `(from, to, kind)` triples,
//! at most one `Contains` parent per node and none for a package node, and
//! every `parent_impl` naming an impl node.

use vstd::prelude::*;
use crate::model::{Graph, Node, Edge, EdgeKind, Confidence, NodeKind, edge_key};
use crate::text::str_eq;

verus! {

/// Some node of `g` has ID `id`.
pub open spec fn has_node(g: Graph, id: Seq<char>) -> bool {
    exists|i: int| 0 <= i < g.nodes@.len() && (#[trigger] g.nodes@[i]).id@ == id
}

/// Some node of `g` has ID `id` and kind `kind`.
pub open spec fn has_node_of_kind(g: Graph, id: Seq<char>, kind: NodeKind) -> bool {
    exists|i: int| 0 <= i < g.nodes@.len() && (#[trigger] g.nodes@[i]).id@ == id && g.nodes@[i].kind == kind
}

/// Some edge of `g` has the key `(from, to, kind)`.
pub open spec fn has_edge(g: Graph, from: Seq<char>, to: Seq<char>, kind: EdgeKind) -> bool {
    exists|i: int| 0 <= i < g.edges@.len() && edge_key(#[trigger] g.edges@[i]) == (from, to, kind)
}

/// Some `Contains` edge of `g` ends at `id`.
pub open spec fn has_contains_parent(g: Graph, id: Seq<char>) -> bool {
    exists|i: int|
        0 <= i < g.edges@.len() && (#[trigger] g.edges@[i]).kind == EdgeKind::Contains && g.edges@[i].to@ == id
}

/// Some `Contains` edge of `g` starts at `id`.
pub open spec fn has_contains_child(g: Graph, id: Seq<char>) -> bool {
    exists|i: int|
        0 <= i < g.edges@.len() && (#[trigger] g.edges@[i]).kind == EdgeKind::Contains && g.edges@[i].from@ == id
}

/// The invariants that every emitted graph satisfies.
pub open spec fn wf(g: Graph) -> bool {
    &&& forall|i: int, j: int|
        0 <= i < j < g.nodes@.len() ==> (#[trigger] g.nodes@[i]).id@ != (#[trigger] g.nodes@[j]).id@
    &&& forall|i: int|
        0 <= i < g.edges@.len() ==> has_node(g, (#[trigger] g.edges@[i]).from@) && has_node(g, g.edges@[i].to@)
    &&& forall|i: int| 0 <= i < g.edges@.len() ==> (#[trigger] g.edges@[i]).from@ != g.edges@[i].to@
    &&& forall|i: int, j: int|
        0 <= i < j < g.edges@.len() ==> edge_key(#[trigger] g.edges@[i]) != edge_key(#[trigger] g.edges@[j])
    &&& forall|i: int, j: int|
        0 <= i < j < g.edges@.len() && (#[trigger] g.edges@[i]).kind == EdgeKind::Contains
            && (#[trigger] g.edges@[j]).kind == EdgeKind::Contains ==> g.edges@[i].to@ != g.edges@[j].to@
    &&& forall|i: int|
        0 <= i < g.edges@.len() && (#[trigger] g.edges@[i]).kind == EdgeKind::Contains ==> !has_node_of_kind(
            g,
            g.edges@[i].to@,
            NodeKind::Crate,
        )
    &&& forall|k: int|
        0 <= k < g.nodes@.len() && (#[trigger] g.nodes@[k]).parent_impl is Some ==> has_node_of_kind(
            g,
            g.nodes@[k].parent_impl->0@,
            NodeKind::Impl,
        )
    &&& contains_ordered(g)
    &&& forall|i: int|
        0 <= i < g.edges@.len() && (#[trigger] g.edges@[i]).kind == EdgeKind::Contains ==> rooted(g, g.edges@[i].from@)
}

/// `id` has a `Contains` parent or is a package node.
pub open spec fn rooted(g: Graph, id: Seq<char>) -> bool {
    has_contains_parent(g, id) || has_node_of_kind(g, id, NodeKind::Crate)
}

/// A `Contains` edge into a node comes before every `Contains` edge out of it.
pub open spec fn contains_ordered(g: Graph) -> bool {
    forall|i: int, j: int|
        0 <= i < g.edges@.len() && 0 <= j < g.edges@.len() && (#[trigger] g.edges@[i]).kind == EdgeKind::Contains
            && (#[trigger] g.edges@[j]).kind == EdgeKind::Contains && g.edges@[j].from@ == g.edges@[i].to@ ==> i < j
}

/// `g2` holds everything `g1` holds, in the same order, and possibly more.
pub open spec fn extends(g1: Graph, g2: Graph) -> bool {
    &&& g1.nodes@.len() <= g2.nodes@.len()
    &&& g1.edges@.len() <= g2.edges@.len()
    &&& g2.nodes@.take(g1.nodes@.len() as int) == g1.nodes@
    &&& g2.edges@.take(g1.edges@.len() as int) == g1.edges@
}

/// Whether `push_edge` adds the edge `(from, to, kind)` to `g`.
pub open spec fn edge_admissible(g: Graph, from: Seq<char>, to: Seq<char>, kind: EdgeKind) -> bool {
    &&& has_node(g, from)
    &&& has_node(g, to)
    &&& from != to
    &&& !has_edge(g, from, to, kind)
    &&& kind == EdgeKind::Contains ==> !has_contains_parent(g, to) && !has_node_of_kind(g, to, NodeKind::Crate)
        && !has_contains_child(g, to) && rooted(g, from)
}

/// What remains true of node and edge facts when a graph grows.
pub proof fn lemma_extends_facts(g1: Graph, g2: Graph)
    requires
        extends(g1, g2),
    ensures
        forall|id: Seq<char>| has_node(g1, id) ==> #[trigger] has_node(g2, id),
        forall|id: Seq<char>, k: NodeKind| has_node_of_kind(g1, id, k) ==> #[trigger] has_node_of_kind(g2, id, k),
        forall|a: Seq<char>, b: Seq<char>, k: EdgeKind| has_edge(g1, a, b, k) ==> #[trigger] has_edge(g2, a, b, k),
        forall|id: Seq<char>| has_contains_parent(g1, id) ==> #[trigger] has_contains_parent(g2, id),
        forall|id: Seq<char>| has_contains_child(g1, id) ==> #[trigger] has_contains_child(g2, id),
{
    assert forall|id: Seq<char>| has_node(g1, id) implies #[trigger] has_node(g2, id) by {
        let i = choose|i: int| 0 <= i < g1.nodes@.len() && (#[trigger] g1.nodes@[i]).id@ == id;
        assert(g2.nodes@.take(g1.nodes@.len() as int)[i] == g2.nodes@[i]);
    }
    assert forall|id: Seq<char>, k: NodeKind| has_node_of_kind(g1, id, k) implies #[trigger] has_node_of_kind(g2, id, k) by {
        let i = choose|i: int| 0 <= i < g1.nodes@.len() && (#[trigger] g1.nodes@[i]).id@ == id && g1.nodes@[i].kind == k;
        assert(g2.nodes@.take(g1.nodes@.len() as int)[i] == g2.nodes@[i]);
    }
    assert forall|a: Seq<char>, b: Seq<char>, k: EdgeKind| has_edge(g1, a, b, k) implies #[trigger] has_edge(g2, a, b, k) by {
        let i = choose|i: int| 0 <= i < g1.edges@.len() && edge_key(#[trigger] g1.edges@[i]) == (a, b, k);
        assert(g2.edges@.take(g1.edges@.len() as int)[i] == g2.edges@[i]);
    }
    assert forall|id: Seq<char>| has_contains_parent(g1, id) implies #[trigger] has_contains_parent(g2, id) by {
        let i = choose|i: int|
            0 <= i < g1.edges@.len() && (#[trigger] g1.edges@[i]).kind == EdgeKind::Contains && g1.edges@[i].to@ == id;
        assert(g2.edges@.take(g1.edges@.len() as int)[i] == g2.edges@[i]);
    }
    assert forall|id: Seq<char>| has_contains_child(g1, id) implies #[trigger] has_contains_child(g2, id) by {
        let i = choose|i: int|
            0 <= i < g1.edges@.len() && (#[trigger] g1.edges@[i]).kind == EdgeKind::Contains && g1.edges@[i].from@ == id;
        assert(g2.edges@.take(g1.edges@.len() as int)[i] == g2.edges@[i]);
    }
}

/// `extends` is transitive.
pub proof fn lemma_extends_trans(g1: Graph, g2: Graph, g3: Graph)
    requires
        extends(g1, g2),
        extends(g2, g3),
    ensures
        extends(g1, g3),
{
    assert(g3.nodes@.take(g1.nodes@.len() as int) =~= g1.nodes@);
    assert(g3.edges@.take(g1.edges@.len() as int) =~= g1.edges@);
}

/// Every graph extends itself.
pub proof fn lemma_extends_refl(g: Graph)
    ensures
        extends(g, g),
{
    assert(g.nodes@.take(g.nodes@.len() as int) =~= g.nodes@);
    assert(g.edges@.take(g.edges@.len() as int) =~= g.edges@);
}

/// An empty graph is well formed.
pub proof fn lemma_empty_wf(g: Graph)
    requires
        g.nodes@.len() == 0,
        g.edges@.len() == 0,
    ensures
        wf(g),
{
}

impl Graph {
    /// The index of the node with ID `id`, if any.
    pub fn find_node(&self, id: &str) -> (r: Option<usize>)
        ensures
            r matches Some(i) ==> i < self.nodes@.len() && self.nodes@[i as int].id@ == id@,
            r is None ==> !has_node(*self, id@),
    {
        let mut i: usize = 0;
        while i < self.nodes.len()
            invariant
                i <= self.nodes@.len(),
                forall|j: int| 0 <= j < i ==> (#[trigger] self.nodes@[j]).id@ != id@,
            decreases self.nodes@.len() - i,
        {
            if str_eq(self.nodes[i].id.as_str(), id) {
                return Some(i);
            }
            i = i + 1;
        }
        None
    }

    /// Whether some node has ID `id`.
    pub fn contains_node(&self, id: &str) -> (r: bool)
        ensures
            r == has_node(*self, id@),
    {
        self.find_node(id).is_some()
    }

    /// Whether some node has ID `id` and kind `kind`.
    pub fn contains_node_of_kind(&self, id: &str, kind: NodeKind) -> (r: bool)
        requires
            wf(*self),
        ensures
            r == has_node_of_kind(*self, id@, kind),
    {
        match self.find_node(id) {
            Some(i) => {
                let r = self.nodes[i].kind == kind;
                if !r {
                    assert forall|j: int|
                        0 <= j < self.nodes@.len() && (#[trigger] self.nodes@[j]).id@ == id@ implies self.nodes@[j].kind
                        != kind by {
                        if j != i {
                            if j < i {
                                assert(self.nodes@[j].id@ != self.nodes@[i as int].id@);
                            } else {
                                assert(self.nodes@[i as int].id@ != self.nodes@[j].id@);
                            }
                        }
                    }
                }
                r
            },
            None => false,
        }
    }

    /// Whether some edge has key `(from, to, kind)`.
    pub fn contains_edge(&self, from: &str, to: &str, kind: EdgeKind) -> (r: bool)
        ensures
            r == has_edge(*self, from@, to@, kind),
    {
        let mut i: usize = 0;
        while i < self.edges.len()
            invariant
                i <= self.edges@.len(),
                forall|j: int| 0 <= j < i ==> edge_key(#[trigger] self.edges@[j]) != (from@, to@, kind),
            decreases self.edges@.len() - i,
        {
            let e = &self.edges[i];
            if e.kind == kind && str_eq(e.from.as_str(), from) && str_eq(e.to.as_str(), to) {
                return true;
            }
            i = i + 1;
        }
        false
    }

    /// Whether some `Contains` edge ends at `id`.
    pub fn contains_parent_of(&self, id: &str) -> (r: bool)
        ensures
            r == has_contains_parent(*self, id@),
    {
        let mut i: usize = 0;
        while i < self.edges.len()
            invariant
                i <= self.edges@.len(),
                forall|j: int|
                    0 <= j < i ==> !((#[trigger] self.edges@[j]).kind == EdgeKind::Contains && self.edges@[j].to@ == id@),
            decreases self.edges@.len() - i,
        {
            let e = &self.edges[i];
            if e.kind == EdgeKind::Contains && str_eq(e.to.as_str(), id) {
                return true;
            }
            i = i + 1;
        }
        false
    }

    /// Whether some `Contains` edge starts at `id`.
    pub fn contains_child_of(&self, id: &str) -> (r: bool)
        ensures
            r == has_contains_child(*self, id@),
    {
        let mut i: usize = 0;
        while i < self.edges.len()
            invariant
                i <= self.edges@.len(),
                forall|j: int|
                    0 <= j < i ==> !((#[trigger] self.edges@[j]).kind == EdgeKind::Contains && self.edges@[j].from@ == id@),
            decreases self.edges@.len() - i,
        {
            let e = &self.edges[i];
            if e.kind == EdgeKind::Contains && str_eq(e.from.as_str(), id) {
                return true;
            }
            i = i + 1;
        }
        false
    }

    /// Adds `node` unless a node with its ID exists; returns whether it was added.
    pub fn insert_node(&mut self, node: Node) -> (added: bool)
        requires
            wf(*old(self)),
            node.parent_impl matches Some(p) ==> has_node_of_kind(*old(self), p@, NodeKind::Impl),
        ensures
            wf(*final(self)),
            added == !has_node(*old(self), node.id@),
            added ==> final(self).nodes@ == old(self).nodes@.push(node),
            !added ==> final(self).nodes@ == old(self).nodes@,
            final(self).edges@ == old(self).edges@,
            extends(*old(self), *final(self)),
            has_node(*final(self), node.id@),
    {
        let ghost g0 = *self;
        if self.contains_node(node.id.as_str()) {
            proof { lemma_extends_refl(*self); }
            return false;
        }
        let ghost nid = node.id@;
        self.add_node(node);
        let ghost g1 = *self;
        assert(g1.nodes@.take(g0.nodes@.len() as int) =~= g0.nodes@);
        assert(g1.edges@.take(g0.edges@.len() as int) =~= g0.edges@);
        proof {
            lemma_extends_facts(g0, g1);
            assert(g1.nodes@[g0.nodes@.len() as int].id@ == nid);
            assert forall|i: int|
                0 <= i < g1.edges@.len() && (#[trigger] g1.edges@[i]).kind == EdgeKind::Contains implies !has_node_of_kind(
                g1,
                g1.edges@[i].to@,
                NodeKind::Crate,
            ) by {
                if has_node_of_kind(g1, g1.edges@[i].to@, NodeKind::Crate) {
                    let k = choose|k: int|
                        0 <= k < g1.nodes@.len() && (#[trigger] g1.nodes@[k]).id@ == g1.edges@[i].to@
                            && g1.nodes@[k].kind == NodeKind::Crate;
                    if k < g0.nodes@.len() {
                        assert(g0.nodes@[k] == g1.nodes@[k]);
                        assert(has_node_of_kind(g0, g0.edges@[i].to@, NodeKind::Crate));
                    } else {
                        assert(has_node(g0, g0.edges@[i].to@));
                    }
                }
            }
            assert forall|i: int, j: int|
                0 <= i < j < g1.nodes@.len() implies (#[trigger] g1.nodes@[i]).id@ != (#[trigger] g1.nodes@[j]).id@ by {
                if j == g0.nodes@.len() {
                    assert(g0.nodes@[i] == g1.nodes@[i]);
                } else {
                    assert(g0.nodes@[i] == g1.nodes@[i]);
                    assert(g0.nodes@[j] == g1.nodes@[j]);
                }
            }
            assert forall|k: int|
                0 <= k < g1.nodes@.len() && (#[trigger] g1.nodes@[k]).parent_impl is Some implies has_node_of_kind(
                g1,
                g1.nodes@[k].parent_impl->0@,
                NodeKind::Impl,
            ) by {
                if k < g0.nodes@.len() {
                    assert(g0.nodes@[k] == g1.nodes@[k]);
                }
            }
            assert(g1.edges@ == g0.edges@);
            assert forall|i: int|
                0 <= i < g1.edges@.len() && (#[trigger] g1.edges@[i]).kind == EdgeKind::Contains implies rooted(g1, g1.edges@[i].from@) by {
                assert(rooted(g0, g0.edges@[i].from@));
            }
        }
        true
    }

    /// Adds the edge `(from, to, kind)` with `confidence` when `edge_admissible`
    /// holds; returns whether it was added.
    pub fn push_edge(&mut self, from: String, to: String, kind: EdgeKind, confidence: Confidence) -> (added: bool)
        requires
            wf(*old(self)),
        ensures
            wf(*final(self)),
            added == edge_admissible(*old(self), from@, to@, kind),
            added ==> final(self).edges@ == old(self).edges@.push(
                Edge { from, to, kind, confidence },
            ),
            !added ==> final(self).edges@ == old(self).edges@,
            final(self).nodes@ == old(self).nodes@,
            extends(*old(self), *final(self)),
            has_edge(*final(self), from@, to@, kind) <==> (has_edge(*old(self), from@, to@, kind) || added),
    {
        let ghost g0 = *self;
        let ok = self.contains_node(from.as_str()) && self.contains_node(to.as_str()) && !str_eq(
            from.as_str(),
            to.as_str(),
        ) && !self.contains_edge(from.as_str(), to.as_str(), kind) && (kind != EdgeKind::Contains || (
        !self.contains_parent_of(to.as_str()) && !self.contains_node_of_kind(to.as_str(), NodeKind::Crate)
            && !self.contains_child_of(to.as_str()) && (self.contains_parent_of(from.as_str())
            || self.contains_node_of_kind(from.as_str(), NodeKind::Crate))));
        if !ok {
            proof { lemma_extends_refl(*self); }
            return false;
        }
        let ghost e = Edge { from, to, kind, confidence };
        self.add_edge(Edge { from, to, kind, confidence });
        let ghost g1 = *self;
        assert(g1.nodes@ =~= g0.nodes@);
        assert(g1.nodes@.take(g0.nodes@.len() as int) =~= g0.nodes@);
        assert(g1.edges@.take(g0.edges@.len() as int) =~= g0.edges@);
        proof {
            let n = g0.edges@.len() as int;
            assert(g1.edges@[n] == e);
            assert forall|id: Seq<char>| has_node(g0, id) implies #[trigger] has_node(g1, id) by {
                let i = choose|i: int| 0 <= i < g0.nodes@.len() && (#[trigger] g0.nodes@[i]).id@ == id;
                assert(g1.nodes@[i] == g0.nodes@[i]);
            }
            assert forall|id: Seq<char>, k: NodeKind| #[trigger] has_node_of_kind(g1, id, k) implies has_node_of_kind(g0, id, k) by {
                let i = choose|i: int| 0 <= i < g1.nodes@.len() && (#[trigger] g1.nodes@[i]).id@ == id && g1.nodes@[i].kind == k;
                assert(g1.nodes@[i] == g0.nodes@[i]);
            }
            assert forall|i: int|
                0 <= i < g1.edges@.len() implies has_node(g1, (#[trigger] g1.edges@[i]).from@) && has_node(g1, g1.edges@[i].to@) by {
                if i < n {
                    assert(g1.edges@[i] == g0.edges@[i]);
                }
            }
            assert forall|i: int| 0 <= i < g1.edges@.len() implies (#[trigger] g1.edges@[i]).from@ != g1.edges@[i].to@ by {
                if i < n {
                    assert(g1.edges@[i] == g0.edges@[i]);
                }
            }
            assert forall|i: int, j: int|
                0 <= i < j < g1.edges@.len() implies edge_key(#[trigger] g1.edges@[i]) != edge_key(#[trigger] g1.edges@[j]) by {
                assert(g1.edges@[i] == g0.edges@[i]);
                if j < n {
                    assert(g1.edges@[j] == g0.edges@[j]);
                }
            }
            assert forall|i: int, j: int|
                0 <= i < j < g1.edges@.len() && (#[trigger] g1.edges@[i]).kind == EdgeKind::Contains
                    && (#[trigger] g1.edges@[j]).kind == EdgeKind::Contains implies g1.edges@[i].to@ != g1.edges@[j].to@ by {
                assert(g1.edges@[i] == g0.edges@[i]);
                if j < n {
                    assert(g1.edges@[j] == g0.edges@[j]);
                }
            }
            assert forall|i: int|
                0 <= i < g1.edges@.len() && (#[trigger] g1.edges@[i]).kind == EdgeKind::Contains implies !has_node_of_kind(
                g1,
                g1.edges@[i].to@,
                NodeKind::Crate,
            ) by {
                if i < n {
                    assert(g1.edges@[i] == g0.edges@[i]);
                }
            }
            assert forall|k: int|
                0 <= k < g1.nodes@.len() && (#[trigger] g1.nodes@[k]).parent_impl is Some implies has_node_of_kind(
                g1,
                g1.nodes@[k].parent_impl->0@,
                NodeKind::Impl,
            ) by {
                assert(g1.nodes@[k] == g0.nodes@[k]);
                let p = g0.nodes@[k].parent_impl->0@;
                let m = choose|m: int| 0 <= m < g0.nodes@.len() && (#[trigger] g0.nodes@[m]).id@ == p && g0.nodes@[m].kind == NodeKind::Impl;
                assert(g1.nodes@[m] == g0.nodes@[m]);
            }
            assert forall|i: int, j: int|
                0 <= i < g1.edges@.len() && 0 <= j < g1.edges@.len() && (#[trigger] g1.edges@[i]).kind == EdgeKind::Contains
                    && (#[trigger] g1.edges@[j]).kind == EdgeKind::Contains && g1.edges@[j].from@ == g1.edges@[i].to@ implies i < j by {
                if i < n && j < n {
                    assert(g1.edges@[i] == g0.edges@[i]);
                    assert(g1.edges@[j] == g0.edges@[j]);
                } else if i == n && j < n {
                    assert(g1.edges@[j] == g0.edges@[j]);
                    assert(has_contains_child(g0, e.to@));
                } else if i == n && j == n {
                } else {
                }
            }
            lemma_extends_facts(g0, g1);
            assert forall|i: int|
                0 <= i < g1.edges@.len() && (#[trigger] g1.edges@[i]).kind == EdgeKind::Contains implies rooted(g1, g1.edges@[i].from@) by {
                if i < n {
                    assert(g1.edges@[i] == g0.edges@[i]);
                    assert(rooted(g0, g0.edges@[i].from@));
                } else {
                    assert(rooted(g0, e.from@));
                }
            }
            assert(has_edge(g1, e.from@, e.to@, kind));
            if has_edge(g1, e.from@, e.to@, kind) && !has_edge(g0, e.from@, e.to@, kind) {
            }
        }
        true
    }
}

/// In a well-formed graph every edge joins two existing nodes, no edge is a
/// self-loop, and no two edges share `(from, to, kind)`.
pub proof fn lemma_edges_well_formed(g: Graph)
    requires
        wf(g),
    ensures
        forall|i: int| 0 <= i < g.edges@.len() ==> has_node(g, (#[trigger] g.edges@[i]).from@) && has_node(g, g.edges@[i].to@),
        forall|i: int| 0 <= i < g.edges@.len() ==> (#[trigger] g.edges@[i]).from@ != g.edges@[i].to@,
        forall|i: int, j: int|
            0 <= i < j < g.edges@.len() ==> edge_key(#[trigger] g.edges@[i]) != edge_key(#[trigger] g.edges@[j]),
{
}

/// In a well-formed graph each node has at most one `Contains` parent and a
/// package node has none.
pub proof fn lemma_contains_parents(g: Graph)
    requires
        wf(g),
    ensures
        forall|i: int, j: int|
            0 <= i < j < g.edges@.len() && (#[trigger] g.edges@[i]).kind == EdgeKind::Contains && (#[trigger] g.edges@[j]).kind
                == EdgeKind::Contains ==> g.edges@[i].to@ != g.edges@[j].to@,
        forall|i: int|
            0 <= i < g.edges@.len() && (#[trigger] g.edges@[i]).kind == EdgeKind::Contains ==> !has_node_of_kind(
                g,
                g.edges@[i].to@,
                NodeKind::Crate,
            ),
{
}

/// In a well-formed graph every `parent_impl` names an existing impl node.
pub proof fn lemma_parent_impls(g: Graph)
    requires
        wf(g),
    ensures
        forall|k: int|
            0 <= k < g.nodes@.len() && (#[trigger] g.nodes@[k]).parent_impl is Some ==> has_node_of_kind(
                g,
                g.nodes@[k].parent_impl->0@,
                NodeKind::Impl,
            ),
{
}

/// A chain of `Contains` edges, by edge index, each entering the node the
/// next one leaves.
pub open spec fn is_contains_chain(g: Graph, c: Seq<int>) -> bool {
    &&& forall|k: int| 0 <= k < c.len() ==> 0 <= #[trigger] c[k] < g.edges@.len() && g.edges@[c[k]].kind == EdgeKind::Contains
    &&& forall|k: int| #![trigger c[k], c[k + 1]] 0 <= k < c.len() - 1 ==> g.edges@[c[k]].to@ == g.edges@[c[k + 1]].from@
}

proof fn lemma_chain_increasing(g: Graph, c: Seq<int>, k: int)
    requires
        contains_ordered(g),
        is_contains_chain(g, c),
        0 <= k < c.len(),
    ensures
        c[0] <= c[k],
    decreases k,
{
    if k > 0 {
        lemma_chain_increasing(g, c, k - 1);
        let a = c[k - 1];
        let b = c[k];
        assert(0 <= a < g.edges@.len() && g.edges@[a].kind == EdgeKind::Contains);
        assert(0 <= b < g.edges@.len() && g.edges@[b].kind == EdgeKind::Contains);
        let j = k - 1;
        assert(c[j] == a && c[j + 1] == b);
        assert(0 <= j < c.len() - 1);
        assert(g.edges@[c[j]].to@ == g.edges@[c[j + 1]].from@);
        assert(a < b);
    }
}

/// `Contains` has no cycle: no non-empty chain of `Contains` edges ends at
/// the node where it starts. With at most one parent per node and none for
/// packages, `Contains` is a forest whose packages are roots.
pub proof fn lemma_contains_acyclic(g: Graph, c: Seq<int>)
    requires
        wf(g),
        is_contains_chain(g, c),
        c.len() > 0,
    ensures
        g.edges@[c[c.len() - 1]].to@ != g.edges@[c[0]].from@,
{
    lemma_chain_no_return(g, c);
}

proof fn lemma_chain_no_return(g: Graph, c: Seq<int>)
    requires
        contains_ordered(g),
        is_contains_chain(g, c),
        c.len() > 0,
    ensures
        g.edges@[c[c.len() - 1]].to@ != g.edges@[c[0]].from@,
{
    lemma_chain_increasing(g, c, c.len() - 1);
    let last = c[c.len() - 1];
    let first = c[0];
    assert(0 <= last < g.edges@.len());
    assert(0 <= first < g.edges@.len());
    if g.edges@[last].to@ == g.edges@[first].from@ {
        assert(last < first);
    }
}

/// In a well-formed graph a node with a `Contains` child has a `Contains`
/// parent or is a package: the roots of the `Contains` forest are packages.
pub proof fn lemma_contains_roots(g: Graph, id: Seq<char>)
    requires
        wf(g),
        has_contains_child(g, id),
    ensures
        has_contains_parent(g, id) || has_node_of_kind(g, id, NodeKind::Crate),
{
    let i = choose|i: int| 0 <= i < g.edges@.len() && (#[trigger] g.edges@[i]).kind == EdgeKind::Contains && g.edges@[i].from@ == id;
    assert(rooted(g, g.edges@[i].from@));
}

/// A rooted node stays rooted as the graph grows.
pub proof fn lemma_rooted_mono(g1: Graph, g2: Graph, id: Seq<char>)
    requires
        extends(g1, g2),
        rooted(g1, id),
    ensures
        rooted(g2, id),
{
    lemma_extends_facts(g1, g2);
}

/// A `Contains` edge into `b` makes `b` have a `Contains` parent.
pub proof fn lemma_edge_parent(g: Graph, a: Seq<char>, b: Seq<char>)
    requires
        has_edge(g, a, b, EdgeKind::Contains),
    ensures
        has_contains_parent(g, b),
{
    let j = choose|j: int| 0 <= j < g.edges@.len() && edge_key(#[trigger] g.edges@[j]) == (a, b, EdgeKind::Contains);
    assert(g.edges@[j].kind == EdgeKind::Contains && g.edges@[j].to@ == b);
}

/// A node's kind does not change as the graph grows.
pub proof fn lemma_kind_stable(g1: Graph, g2: Graph, x: Seq<char>, k: NodeKind)
    requires
        wf(g2),
        extends(g1, g2),
        has_node(g1, x),
        !has_node_of_kind(g1, x, k),
    ensures
        !has_node_of_kind(g2, x, k),
{
    let i = choose|i: int| 0 <= i < g1.nodes@.len() && (#[trigger] g1.nodes@[i]).id@ == x;
    assert(g2.nodes@.take(g1.nodes@.len() as int)[i] == g2.nodes@[i]);
    if has_node_of_kind(g2, x, k) {
        let j = choose|j: int| 0 <= j < g2.nodes@.len() && (#[trigger] g2.nodes@[j]).id@ == x && g2.nodes@[j].kind == k;
        if j < g1.nodes@.len() {
            assert(g2.nodes@.take(g1.nodes@.len() as int)[j] == g2.nodes@[j]);
        } else {
            assert(g2.nodes@[i].id@ == g2.nodes@[j].id@);
        }
    }
}

/// Every edge `g` has beyond `g0` satisfies `p`.
pub open spec fn new_edges_satisfy(g0: Graph, g: Graph, p: spec_fn(Edge) -> bool) -> bool {
    forall|j: int| g0.edges@.len() <= j < g.edges@.len() ==> p(#[trigger] g.edges@[j])
}

/// New edges of two steps in a row satisfy whatever both steps' conditions imply.
pub proof fn lemma_new_edges_chain(g0: Graph, g1: Graph, g2: Graph, p: spec_fn(Edge) -> bool, q: spec_fn(Edge) -> bool, r: spec_fn(Edge) -> bool)
    requires
        extends(g0, g1),
        extends(g1, g2),
        new_edges_satisfy(g0, g1, p),
        new_edges_satisfy(g1, g2, q),
        forall|e: Edge| #[trigger] p(e) ==> r(e),
        forall|e: Edge| #[trigger] q(e) ==> r(e),
    ensures
        new_edges_satisfy(g0, g2, r),
{
    assert forall|j: int| g0.edges@.len() <= j < g2.edges@.len() implies r(#[trigger] g2.edges@[j]) by {
        if j < g1.edges@.len() {
            assert(g2.edges@.take(g1.edges@.len() as int)[j] == g2.edges@[j]);
            assert(p(g1.edges@[j]));
        } else {
            assert(q(g2.edges@[j]));
        }
    }
}

/// New edges keep satisfying a weaker condition.
pub proof fn lemma_new_edges_weaken(g0: Graph, g: Graph, p: spec_fn(Edge) -> bool, r: spec_fn(Edge) -> bool)
    requires
        new_edges_satisfy(g0, g, p),
        forall|e: Edge| #[trigger] p(e) ==> r(e),
    ensures
        new_edges_satisfy(g0, g, r),
{
    assert forall|j: int| g0.edges@.len() <= j < g.edges@.len() implies r(#[trigger] g.edges@[j]) by {
        assert(p(g.edges@[j]));
    }
}

/// No edges are new when the edges are unchanged.
pub proof fn lemma_new_edges_none(g0: Graph, g: Graph, p: spec_fn(Edge) -> bool)
    requires
        g.edges@ == g0.edges@,
    ensures
        new_edges_satisfy(g0, g, p),
{
}

} // verus!
