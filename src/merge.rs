//! The workspace merge: node union by ID with the completeness tie-break,
//! edge union by `(from, to, kind)`, and the partition into member packages,
//! external packages and cross-package edges.

use vstd::prelude::*;
use crate::text::{views, str_eq, sep};
use crate::derives::{find_from, find_text};
use crate::model::{Graph, Node, Edge, Visibility, CrateGraph, ExternalCrate, Workspace, SCHEMA_VERSION, edge_key, keys_of};

verus! {

/// The completeness score of a node: span 1, fields 2, variants 2,
/// signature 2, generics 1, docs 1, non-empty attributes 1, known visibility 1.
pub open spec fn score(n: Node) -> nat {
    (if n.span is Some { 1nat } else { 0 }) + (if n.fields is Some { 2nat } else { 0 }) + (if n.variants is Some {
        2nat
    } else {
        0
    }) + (if n.signature is Some { 2nat } else { 0 }) + (if n.generics is Some { 1nat } else { 0 }) + (if n.docs is Some {
        1nat
    } else {
        0
    }) + (if n.attrs@.len() > 0 { 1nat } else { 0 }) + (if n.visibility != Visibility::Unknown { 1nat } else { 0 })
}

/// `new` replaces `existing` on an ID collision: a workspace node beats an
/// external one, and otherwise the higher score wins.
pub open spec fn more_complete(new: Node, existing: Node) -> bool {
    if !new.is_external && existing.is_external {
        true
    } else if new.is_external && !existing.is_external {
        false
    } else {
        score(new) > score(existing)
    }
}

/// The completeness score of a node.
pub fn node_completeness_score(node: &Node) -> (r: u32)
    ensures
        r as nat == score(*node),
{
    let mut score: u32 = 0;
    if node.span.is_some() {
        score = score + 1;
    }
    if node.fields.is_some() {
        score = score + 2;
    }
    if node.variants.is_some() {
        score = score + 2;
    }
    if node.signature.is_some() {
        score = score + 2;
    }
    if node.generics.is_some() {
        score = score + 1;
    }
    if node.docs.is_some() {
        score = score + 1;
    }
    if node.attrs.len() > 0 {
        score = score + 1;
    }
    if node.visibility != Visibility::Unknown {
        score = score + 1;
    }
    score
}

/// Whether `new` should replace `existing` on an ID collision.
pub fn node_is_more_complete(new: &Node, existing: &Node) -> (r: bool)
    ensures
        r == more_complete(*new, *existing),
{
    if !new.is_external && existing.is_external {
        return true;
    }
    if new.is_external && !existing.is_external {
        return false;
    }
    node_completeness_score(new) > node_completeness_score(existing)
}

/// The position of the node with ID `id` in `ns`, if any.
pub open spec fn position_of(ns: Seq<Node>, id: Seq<char>) -> Option<int>
    decreases ns.len(),
{
    if ns.len() == 0 {
        None
    } else if ns.last().id@ == id {
        Some(ns.len() - 1)
    } else {
        position_of(ns.drop_last(), id)
    }
}

/// The first option when it holds a value, else the second.
pub open spec fn fill<T>(a: Option<T>, b: Option<T>) -> Option<T> {
    if a is Some { a } else { b }
}

/// Two descriptions of one entity combined: the winner `w` keeps every
/// attribute it has, and takes from `o` each one it lacks (an absent optional
/// payload, empty attributes, an empty link map, unknown visibility).
pub open spec fn combined(w: Node, o: Node) -> Node {
    Node {
        id: w.id,
        name: w.name,
        kind: w.kind,
        visibility: if w.visibility == Visibility::Unknown { o.visibility } else { w.visibility },
        span: fill(w.span, o.span),
        attrs: if w.attrs@.len() > 0 { w.attrs } else { o.attrs },
        is_external: w.is_external,
        fields: fill(w.fields, o.fields),
        variants: fill(w.variants, o.variants),
        signature: fill(w.signature, o.signature),
        generics: fill(w.generics, o.generics),
        where_clause: fill(w.where_clause, o.where_clause),
        docs: fill(w.docs, o.docs),
        doc_links: if w.doc_links@.len() > 0 { w.doc_links } else { o.doc_links },
        bound_links: if w.bound_links@.len() > 0 { w.bound_links } else { o.bound_links },
        impl_type: fill(w.impl_type, o.impl_type),
        parent_impl: fill(w.parent_impl, o.parent_impl),
        impl_trait: fill(w.impl_trait, o.impl_trait),
    }
}

/// Every attribute present in `b` is present in `a`.
pub open spec fn covers(a: Node, b: Node) -> bool {
    &&& b.span is Some ==> a.span is Some
    &&& b.fields is Some ==> a.fields is Some
    &&& b.variants is Some ==> a.variants is Some
    &&& b.signature is Some ==> a.signature is Some
    &&& b.generics is Some ==> a.generics is Some
    &&& b.where_clause is Some ==> a.where_clause is Some
    &&& b.docs is Some ==> a.docs is Some
    &&& b.attrs@.len() > 0 ==> a.attrs@.len() > 0
    &&& b.visibility != Visibility::Unknown ==> a.visibility != Visibility::Unknown
    &&& b.doc_links@.len() > 0 ==> a.doc_links@.len() > 0
    &&& b.bound_links@.len() > 0 ==> a.bound_links@.len() > 0
    &&& b.impl_type is Some ==> a.impl_type is Some
    &&& b.parent_impl is Some ==> a.parent_impl is Some
    &&& b.impl_trait is Some ==> a.impl_trait is Some
}

/// The node that replaces `existing` when `n` arrives with the same ID.
pub open spec fn merged_node(existing: Node, n: Node) -> Node {
    if more_complete(n, existing) { combined(n, existing) } else { combined(existing, n) }
}

/// The union of `ns` by ID, in order of first appearance; on an ID collision
/// the more complete description wins (the earlier one on a tie) and takes
/// every attribute it lacks from the other.
pub open spec fn union_nodes(ns: Seq<Node>) -> Seq<Node>
    decreases ns.len(),
{
    if ns.len() == 0 {
        Seq::empty()
    } else {
        let r = union_nodes(ns.drop_last());
        let n = ns.last();
        match position_of(r, n.id@) {
            None => r.push(n),
            Some(i) => r.update(i, merged_node(r[i], n)),
        }
    }
}

/// A combined node keeps every attribute of both descriptions.
pub proof fn lemma_combined_covers(w: Node, o: Node)
    ensures
        covers(combined(w, o), w),
        covers(combined(w, o), o),
        combined(w, o).id == w.id,
{
}

/// Merging loses no attribute: for every input description, the united node
/// with its ID has every attribute that description has.
pub proof fn lemma_union_keeps_attributes(ns: Seq<Node>)
    ensures
        forall|j: int| 0 <= j < ns.len() ==> exists|i: int|
            0 <= i < union_nodes(ns).len() && (#[trigger] union_nodes(ns)[i]).id@ == (#[trigger] ns[j]).id@
                && covers(union_nodes(ns)[i], ns[j]),
    decreases ns.len(),
{
    if ns.len() > 0 {
        let d = ns.drop_last();
        lemma_union_keeps_attributes(d);
        let r = union_nodes(d);
        let n = ns.last();
        let u = union_nodes(ns);
        lemma_position_of(r, n.id@);
                assert forall|j: int| 0 <= j < ns.len() implies exists|i: int|
            0 <= i < u.len() && (#[trigger] u[i]).id@ == (#[trigger] ns[j]).id@ && covers(u[i], ns[j]) by {
            match position_of(r, n.id@) {
                None => {
                    if j < ns.len() - 1 {
                        assert(ns[j] == d[j]);
                        let i = choose|i: int| 0 <= i < r.len() && (#[trigger] r[i]).id@ == (#[trigger] d[j]).id@ && covers(r[i], d[j]);
                        assert(u[i] == r[i]);
                    } else {
                        assert(u[r.len() as int] == n);
                        assert(ns[j] == n);
                    }
                },
                Some(p) => {
                    lemma_combined_covers(n, r[p]);
                    lemma_combined_covers(r[p], n);
                    if j < ns.len() - 1 {
                        assert(ns[j] == d[j]);
                        let i = choose|i: int| 0 <= i < r.len() && (#[trigger] r[i]).id@ == (#[trigger] d[j]).id@ && covers(r[i], d[j]);
                        if i != p {
                            assert(u[i] == r[i]);
                        } else {
                            assert(u[p] == merged_node(r[p], n));
                        }
                    } else {
                        assert(ns[j] == n);
                        assert(u[p] == merged_node(r[p], n));
                    }
                },
            }
        }
    }
}

/// The union of `es` by key, each key with its first edge, in order.
pub open spec fn union_edges(es: Seq<Edge>) -> Seq<Edge>
    decreases es.len(),
{
    if es.len() == 0 {
        Seq::empty()
    } else {
        let r = union_edges(es.drop_last());
        if keys_of(r).contains(edge_key(es.last())) { r } else { r.push(es.last()) }
    }
}

proof fn lemma_position_of(ns: Seq<Node>, id: Seq<char>)
    ensures
        position_of(ns, id) matches Some(i) ==> 0 <= i < ns.len() && ns[i].id@ == id,
        position_of(ns, id) is None ==> forall|j: int| 0 <= j < ns.len() ==> (#[trigger] ns[j]).id@ != id,
    decreases ns.len(),
{
    if ns.len() > 0 {
        lemma_position_of(ns.drop_last(), id);
        if ns.last().id@ != id && position_of(ns, id) is None {
            assert forall|j: int| 0 <= j < ns.len() implies (#[trigger] ns[j]).id@ != id by {
                if j < ns.len() - 1 {
                    assert(ns[j] == ns.drop_last()[j]);
                }
            }
        }
    }
}

/// The position of the node with ID `id` among `ns`, searched from the end.
fn find_position(ns: &Vec<Node>, id: &str) -> (r: Option<usize>)
    ensures
        r matches Some(i) ==> position_of(ns@, id@) == Some(i as int),
        r is None ==> position_of(ns@, id@) is None,
{
    let mut i: usize = ns.len();
    assert(ns@.take(ns@.len() as int) =~= ns@);
    while i > 0
        invariant
            i <= ns@.len(),
            position_of(ns@, id@) == position_of(ns@.take(i as int), id@),
        decreases i,
    {
        assert(ns@.take(i as int).drop_last() =~= ns@.take(i as int - 1));
        if str_eq(ns[i - 1].id.as_str(), id) {
            return Some(i - 1);
        }
        i = i - 1;
    }
    None
}

/// Adds `node` to a union built so far.
fn union_push(out: &mut Vec<Node>, node: Node)
    ensures
        ({
            let r = old(out)@;
            final(out)@ == match position_of(r, node.id@) {
                None => r.push(node),
                Some(i) => r.update(i, merged_node(r[i], node)),
            }
        }),
{
    match find_position(out, node.id.as_str()) {
        None => out.push(node),
        Some(i) => {
            proof { lemma_position_of(out@, node.id@); }
            let ghost r = out@;
            let existing = out.remove(i);
            let c = if node_is_more_complete(&node, &existing) {
                combine_nodes(node, existing)
            } else {
                combine_nodes(existing, node)
            };
            out.insert(i, c);
            assert(out@ =~= r.update(i as int, merged_node(r[i as int], node)));
        },
    }
}

/// `w` with every attribute it lacks taken from `o`.
pub fn combine_nodes(w: Node, o: Node) -> (r: Node)
    ensures
        r == combined(w, o),
{
    Node {
        id: w.id,
        name: w.name,
        kind: w.kind,
        visibility: if w.visibility == Visibility::Unknown { o.visibility } else { w.visibility },
        span: if w.span.is_some() { w.span } else { o.span },
        attrs: if w.attrs.len() > 0 { w.attrs } else { o.attrs },
        is_external: w.is_external,
        fields: if w.fields.is_some() { w.fields } else { o.fields },
        variants: if w.variants.is_some() { w.variants } else { o.variants },
        signature: if w.signature.is_some() { w.signature } else { o.signature },
        generics: if w.generics.is_some() { w.generics } else { o.generics },
        where_clause: if w.where_clause.is_some() { w.where_clause } else { o.where_clause },
        docs: if w.docs.is_some() { w.docs } else { o.docs },
        doc_links: if w.doc_links.len() > 0 { w.doc_links } else { o.doc_links },
        bound_links: if w.bound_links.len() > 0 { w.bound_links } else { o.bound_links },
        impl_type: if w.impl_type.is_some() { w.impl_type } else { o.impl_type },
        parent_impl: if w.parent_impl.is_some() { w.parent_impl } else { o.parent_impl },
        impl_trait: if w.impl_trait.is_some() { w.impl_trait } else { o.impl_trait },
    }
}

/// Whether the key of `e` is among the keys of `es`.
fn has_key(es: &Vec<Edge>, e: &Edge) -> (r: bool)
    ensures
        r == keys_of(es@).contains(edge_key(*e)),
{
    let mut i: usize = 0;
    while i < es.len()
        invariant
            i <= es@.len(),
            forall|j: int| 0 <= j < i ==> edge_key(#[trigger] es@[j]) != edge_key(*e),
        decreases es@.len() - i,
    {
        let x = &es[i];
        if x.kind == e.kind && str_eq(x.from.as_str(), e.from.as_str()) && str_eq(x.to.as_str(), e.to.as_str()) {
            assert(keys_of(es@)[i as int] == edge_key(*e));
            return true;
        }
        i = i + 1;
    }
    proof {
        if keys_of(es@).contains(edge_key(*e)) {
            let j = choose|j: int| 0 <= j < keys_of(es@).len() && keys_of(es@)[j] == edge_key(*e);
            assert(edge_key(es@[j]) == keys_of(es@)[j]);
        }
    }
    false
}

/// All nodes of `graphs`, in order.
pub open spec fn all_nodes(graphs: Seq<Graph>) -> Seq<Node>
    decreases graphs.len(),
{
    if graphs.len() == 0 { Seq::empty() } else { all_nodes(graphs.drop_last()) + graphs.last().nodes@ }
}

/// All edges of `graphs`, in order.
pub open spec fn all_edges(graphs: Seq<Graph>) -> Seq<Edge>
    decreases graphs.len(),
{
    if graphs.len() == 0 { Seq::empty() } else { all_edges(graphs.drop_last()) + graphs.last().edges@ }
}

proof fn lemma_union_nodes_append(a: Seq<Node>, b: Seq<Node>, k: int)
    requires
        0 <= k < b.len(),
    ensures
        union_nodes(a + b.take(k + 1)) == ({
            let r = union_nodes(a + b.take(k));
            let n = b[k];
            match position_of(r, n.id@) {
                None => r.push(n),
                Some(i) => r.update(i, merged_node(r[i], n)),
            }
        }),
{
    assert((a + b.take(k + 1)).drop_last() =~= a + b.take(k));
    assert((a + b.take(k + 1)).last() == b[k]);
}

proof fn lemma_union_edges_append(a: Seq<Edge>, b: Seq<Edge>, k: int)
    requires
        0 <= k < b.len(),
    ensures
        union_edges(a + b.take(k + 1)) == ({
            let r = union_edges(a + b.take(k));
            if keys_of(r).contains(edge_key(b[k])) { r } else { r.push(b[k]) }
        }),
{
    assert((a + b.take(k + 1)).drop_last() =~= a + b.take(k));
    assert((a + b.take(k + 1)).last() == b[k]);
}

/// The elements of `v` in reverse order.
fn reverse_vec<T>(v: Vec<T>) -> (r: Vec<T>)
    ensures
        r@.len() == v@.len(),
        forall|i: int| 0 <= i < v@.len() ==> r@[i] == v@[v@.len() - 1 - i],
{
    let ghost orig = v@;
    let mut v = v;
    let mut out: Vec<T> = Vec::new();
    while v.len() > 0
        invariant
            out@.len() + v@.len() == orig.len(),
            v@ == orig.take(v@.len() as int),
            forall|i: int| 0 <= i < out@.len() ==> out@[i] == orig[orig.len() - 1 - i],
        decreases v@.len(),
    {
        let x = v.pop().unwrap();
        out.push(x);
        assert(v@ =~= orig.take(v@.len() as int));
    }
    out
}

/// The union of the nodes and of the edges of `graphs`.
pub fn union_graphs(graphs: Vec<Graph>) -> (r: (Vec<Node>, Vec<Edge>))
    ensures
        r.0@ == union_nodes(all_nodes(graphs@)),
        r.1@ == union_edges(all_edges(graphs@)),
{
    let ghost gs = graphs@;
    let mut nodes: Vec<Node> = Vec::new();
    let mut edges: Vec<Edge> = Vec::new();
    let mut graphs = graphs;
    // Walk the graphs front to back.
    graphs = reverse_vec(graphs);
    let ghost rev = graphs@;
    assert(forall|i: int| 0 <= i < gs.len() ==> rev[i] == gs[gs.len() - 1 - i]);
    let mut done: usize = 0;
    let total = graphs.len();
    while graphs.len() > 0
        invariant
            done + graphs@.len() == gs.len(),
            gs.len() == total,
            forall|i: int| 0 <= i < graphs@.len() ==> graphs@[i] == gs[gs.len() - 1 - i],
            nodes@ == union_nodes(all_nodes(gs.take(done as int))),
            edges@ == union_edges(all_edges(gs.take(done as int))),
        decreases graphs@.len(),
    {
        let g = graphs.pop().unwrap();
        assert(g == gs[done as int]);
        let ghost an = all_nodes(gs.take(done as int));
        let ghost ae = all_edges(gs.take(done as int));
        assert(gs.take(done as int + 1).drop_last() =~= gs.take(done as int));
        assert(all_nodes(gs.take(done as int + 1)) == an + g.nodes@);
        assert(all_edges(gs.take(done as int + 1)) == ae + g.edges@);
        let ghost gn = g.nodes@;
        let ghost ge = g.edges@;
        let mut ns = g.nodes;
        let mut es = g.edges;
        ns = reverse_vec(ns);
        es = reverse_vec(es);
        assert(an + gn.take(0) =~= an);
        let mut k: usize = 0;
        let nt = ns.len();
        while ns.len() > 0
            invariant
                k + ns@.len() == gn.len(),
                gn.len() == nt,
                forall|i: int| 0 <= i < ns@.len() ==> ns@[i] == gn[gn.len() - 1 - i],
                nodes@ == union_nodes(an + gn.take(k as int)),
            decreases ns@.len(),
        {
            let n = ns.pop().unwrap();
            proof { lemma_union_nodes_append(an, gn, k as int); }
            union_push(&mut nodes, n);
            k = k + 1;
        }
        assert(gn.take(gn.len() as int) =~= gn);
        assert(ae + ge.take(0) =~= ae);
        let mut m: usize = 0;
        let et = es.len();
        while es.len() > 0
            invariant
                m + es@.len() == ge.len(),
                ge.len() == et,
                forall|i: int| 0 <= i < es@.len() ==> es@[i] == ge[ge.len() - 1 - i],
                edges@ == union_edges(ae + ge.take(m as int)),
            decreases es@.len(),
        {
            let e = es.pop().unwrap();
            proof { lemma_union_edges_append(ae, ge, m as int); }
            if !has_key(&edges, &e) {
                edges.push(e);
            }
            m = m + 1;
        }
        assert(ge.take(ge.len() as int) =~= ge);
        done = done + 1;
    }
    assert(gs.take(gs.len() as int) =~= gs);
    (nodes, edges)
}

/// The package that owns an ID: the text before its first `::`.
pub open spec fn package_of(id: Seq<char>) -> Seq<char> {
    match find_from(id, sep(), 0) {
        Some(i) => id.take(i),
        None => id,
    }
}

/// The package that owns an ID.
pub fn package_name(id: &str) -> (r: String)
    ensures
        r@ == package_of(id@),
{
    let sp = "::";
    proof { reveal_strlit("::"); }
    assert(sp@ =~= sep());
    match find_text(id, sp, 0) {
        Some(i) => {
            proof { crate::derives::lemma_find_from_some(id@, sep(), 0); }
            String::from_str(id.substring_char(0, i))
        },
        None => String::from_str(id),
    }
}

/// The nodes of `ns` owned by package `p`, in order.
pub open spec fn nodes_in(ns: Seq<Node>, p: Seq<char>) -> Seq<Node>
    decreases ns.len(),
{
    if ns.len() == 0 {
        Seq::empty()
    } else if package_of(ns.last().id@) == p {
        nodes_in(ns.drop_last(), p).push(ns.last())
    } else {
        nodes_in(ns.drop_last(), p)
    }
}

/// The nodes of `ns` not owned by package `p`, in order.
pub open spec fn nodes_outside(ns: Seq<Node>, p: Seq<char>) -> Seq<Node>
    decreases ns.len(),
{
    if ns.len() == 0 {
        Seq::empty()
    } else if package_of(ns.last().id@) != p {
        nodes_outside(ns.drop_last(), p).push(ns.last())
    } else {
        nodes_outside(ns.drop_last(), p)
    }
}

/// An edge whose two ends are owned by one package.
pub open spec fn is_internal_edge(e: Edge) -> bool {
    package_of(e.from@) == package_of(e.to@)
}

/// The edges of `es` with both ends in package `p`, in order.
pub open spec fn edges_within(es: Seq<Edge>, p: Seq<char>) -> Seq<Edge>
    decreases es.len(),
{
    if es.len() == 0 {
        Seq::empty()
    } else if is_internal_edge(es.last()) && package_of(es.last().from@) == p {
        edges_within(es.drop_last(), p).push(es.last())
    } else {
        edges_within(es.drop_last(), p)
    }
}

/// The edges of `es` whose ends lie in different packages, in order.
pub open spec fn edges_across(es: Seq<Edge>) -> Seq<Edge>
    decreases es.len(),
{
    if es.len() == 0 {
        Seq::empty()
    } else if !is_internal_edge(es.last()) {
        edges_across(es.drop_last()).push(es.last())
    } else {
        edges_across(es.drop_last())
    }
}

/// The internal edges of `es`, in order.
pub open spec fn edges_internal(es: Seq<Edge>) -> Seq<Edge>
    decreases es.len(),
{
    if es.len() == 0 {
        Seq::empty()
    } else if is_internal_edge(es.last()) {
        edges_internal(es.drop_last()).push(es.last())
    } else {
        edges_internal(es.drop_last())
    }
}

proof fn lemma_nodes_in_outside(ns: Seq<Node>, p: Seq<char>, q: Seq<char>)
    requires
        p != q,
    ensures
        nodes_in(nodes_outside(ns, q), p) == nodes_in(ns, p),
    decreases ns.len(),
{
    if ns.len() > 0 {
        lemma_nodes_in_outside(ns.drop_last(), p, q);
        if package_of(ns.last().id@) != q {
            let o = nodes_outside(ns, q);
            assert(o.drop_last() =~= nodes_outside(ns.drop_last(), q));
        }
    }
}

proof fn lemma_edges_within_internal(es: Seq<Edge>, p: Seq<char>)
    ensures
        edges_within(edges_internal(es), p) == edges_within(es, p),
    decreases es.len(),
{
    if es.len() > 0 {
        lemma_edges_within_internal(es.drop_last(), p);
        if is_internal_edge(es.last()) {
            assert(edges_internal(es).drop_last() =~= edges_internal(es.drop_last()));
        }
    }
}

/// Splits `ns` into the nodes owned by `p` and the others, keeping order.
fn split_nodes(ns: Vec<Node>, p: &str) -> (r: (Vec<Node>, Vec<Node>))
    ensures
        r.0@ == nodes_in(ns@, p@),
        r.1@ == nodes_outside(ns@, p@),
{
    let ghost orig = ns@;
    let mut rev = reverse_vec(ns);
    let mut inside: Vec<Node> = Vec::new();
    let mut outside: Vec<Node> = Vec::new();
    let mut k: usize = 0;
    let total = rev.len();
    assert(orig.take(0) =~= Seq::<Node>::empty());
    while rev.len() > 0
        invariant
            k + rev@.len() == orig.len(),
            orig.len() == total,
            forall|i: int| 0 <= i < rev@.len() ==> rev@[i] == orig[orig.len() - 1 - i],
            inside@ == nodes_in(orig.take(k as int), p@),
            outside@ == nodes_outside(orig.take(k as int), p@),
        decreases rev@.len(),
    {
        let n = rev.pop().unwrap();
        assert(n == orig[k as int]);
        assert(orig.take(k as int + 1).drop_last() =~= orig.take(k as int));
        let pk = package_name(n.id.as_str());
        if str_eq(pk.as_str(), p) {
            inside.push(n);
        } else {
            outside.push(n);
        }
        k = k + 1;
    }
    assert(orig.take(orig.len() as int) =~= orig);
    (inside, outside)
}

/// Splits `es` into the edges with both ends in package `p` and the others.
fn split_edges(es: Vec<Edge>, p: &str) -> (r: (Vec<Edge>, Vec<Edge>))
    requires
        forall|i: int| 0 <= i < es@.len() ==> is_internal_edge(#[trigger] es@[i]),
    ensures
        r.0@ == edges_within(es@, p@),
        forall|i: int| 0 <= i < r.1@.len() ==> is_internal_edge(#[trigger] r.1@[i]),
        forall|q: Seq<char>| q != p@ ==> #[trigger] edges_within(r.1@, q) == edges_within(es@, q),
{
    let ghost orig = es@;
    let mut rev = reverse_vec(es);
    let mut inside: Vec<Edge> = Vec::new();
    let mut outside: Vec<Edge> = Vec::new();
    let mut k: usize = 0;
    let total = rev.len();
    assert(orig.take(0) =~= Seq::<Edge>::empty());
    while rev.len() > 0
        invariant
            k + rev@.len() == orig.len(),
            orig.len() == total,
            forall|i: int| 0 <= i < orig.len() ==> is_internal_edge(#[trigger] orig[i]),
            forall|i: int| 0 <= i < rev@.len() ==> rev@[i] == orig[orig.len() - 1 - i],
            inside@ == edges_within(orig.take(k as int), p@),
            forall|i: int| 0 <= i < outside@.len() ==> is_internal_edge(#[trigger] outside@[i]),
            forall|q: Seq<char>| q != p@ ==> #[trigger] edges_within(outside@, q) == edges_within(orig.take(k as int), q),
        decreases rev@.len(),
    {
        let e = rev.pop().unwrap();
        assert(e == orig[k as int]);
        let ghost t = orig.take(k as int + 1);
        assert(t.drop_last() =~= orig.take(k as int));
        assert(t.last() == e);
        let ghost before = outside@;
        let pk = package_name(e.from.as_str());
        if str_eq(pk.as_str(), p) {
            inside.push(e);
            assert(package_of(t.last().from@) == p@);
            assert forall|q: Seq<char>| q != p@ implies #[trigger] edges_within(outside@, q) == edges_within(t, q) by {
                assert(package_of(t.last().from@) != q);
                assert(edges_within(t, q) == edges_within(orig.take(k as int), q));
            }
        } else {
            outside.push(e);
            assert(outside@.drop_last() =~= before);
            assert(outside@.last() == e);
            assert(is_internal_edge(orig[k as int]));
            assert forall|q: Seq<char>| q != p@ implies #[trigger] edges_within(outside@, q) == edges_within(t, q) by {
                assert(edges_within(before, q) == edges_within(orig.take(k as int), q));
                if package_of(e.from@) == q {
                    assert(edges_within(outside@, q) == edges_within(before, q).push(e));
                    assert(edges_within(t, q) == edges_within(orig.take(k as int), q).push(e));
                } else {
                    assert(edges_within(outside@, q) == edges_within(before, q));
                    assert(edges_within(t, q) == edges_within(orig.take(k as int), q));
                }
            }
        }
        k = k + 1;
    }
    assert(orig.take(orig.len() as int) =~= orig);
    (inside, outside)
}

/// Splits `es` into its internal edges and the edges across packages.
fn split_across(es: Vec<Edge>) -> (r: (Vec<Edge>, Vec<Edge>))
    ensures
        r.0@ == edges_internal(es@),
        r.1@ == edges_across(es@),
{
    let ghost orig = es@;
    let mut rev = reverse_vec(es);
    let mut inside: Vec<Edge> = Vec::new();
    let mut across: Vec<Edge> = Vec::new();
    let mut k: usize = 0;
    let total = rev.len();
    assert(orig.take(0) =~= Seq::<Edge>::empty());
    while rev.len() > 0
        invariant
            k + rev@.len() == orig.len(),
            orig.len() == total,
            forall|i: int| 0 <= i < rev@.len() ==> rev@[i] == orig[orig.len() - 1 - i],
            inside@ == edges_internal(orig.take(k as int)),
            across@ == edges_across(orig.take(k as int)),
        decreases rev@.len(),
    {
        let e = rev.pop().unwrap();
        assert(e == orig[k as int]);
        assert(orig.take(k as int + 1).drop_last() =~= orig.take(k as int));
        let a = package_name(e.from.as_str());
        let b = package_name(e.to.as_str());
        if str_eq(a.as_str(), b.as_str()) {
            inside.push(e);
        } else {
            across.push(e);
        }
        k = k + 1;
    }
    assert(orig.take(orig.len() as int) =~= orig);
    (inside, across)
}

proof fn lemma_edges_internal_all(es: Seq<Edge>)
    ensures
        forall|i: int| 0 <= i < edges_internal(es).len() ==> is_internal_edge(#[trigger] edges_internal(es)[i]),
    decreases es.len(),
{
    if es.len() > 0 {
        lemma_edges_internal_all(es.drop_last());
        let r = edges_internal(es.drop_last());
        if is_internal_edge(es.last()) {
            assert forall|i: int| 0 <= i < edges_internal(es).len() implies is_internal_edge(#[trigger] edges_internal(es)[i]) by {
                if i < r.len() {
                    assert(edges_internal(es)[i] == r[i]);
                }
            }
        }
    }
}

/// `a` sorts strictly before `b`, character by character.
pub open spec fn lex_lt(a: Seq<char>, b: Seq<char>) -> bool
    decreases a.len(),
{
    if a.len() == 0 {
        b.len() > 0
    } else if b.len() == 0 {
        false
    } else if a[0] != b[0] {
        a[0] < b[0]
    } else {
        lex_lt(a.drop_first(), b.drop_first())
    }
}

proof fn lemma_lex_total(a: Seq<char>, b: Seq<char>)
    ensures
        lex_lt(a, b) || lex_lt(b, a) || a == b,
    decreases a.len(),
{
    if a.len() > 0 && b.len() > 0 && a[0] == b[0] {
        lemma_lex_total(a.drop_first(), b.drop_first());
        if a.drop_first() == b.drop_first() {
            assert(a =~= seq![a[0]] + a.drop_first());
            assert(b =~= seq![b[0]] + b.drop_first());
        }
    } else if a.len() == 0 && b.len() == 0 {
        assert(a =~= b);
    }
}

/// Whether `a` sorts strictly before `b`.
pub fn str_lt(a: &str, b: &str) -> (r: bool)
    ensures
        r == lex_lt(a@, b@),
{
    let n = a.unicode_len();
    let m = b.unicode_len();
    let mut i: usize = 0;
    assert(a@.subrange(0, n as int) =~= a@);
    assert(b@.subrange(0, m as int) =~= b@);
    while i < n && i < m
        invariant
            n == a@.len(),
            m == b@.len(),
            i <= n,
            i <= m,
            lex_lt(a@, b@) == lex_lt(a@.subrange(i as int, n as int), b@.subrange(i as int, m as int)),
        decreases n - i,
    {
        let x = a.get_char(i);
        let y = b.get_char(i);
        let ghost sa = a@.subrange(i as int, n as int);
        let ghost sb = b@.subrange(i as int, m as int);
        assert(sa[0] == x);
        assert(sb[0] == y);
        if x != y {
            return x < y;
        }
        assert(sa.drop_first() =~= a@.subrange(i as int + 1, n as int));
        assert(sb.drop_first() =~= b@.subrange(i as int + 1, m as int));
        i = i + 1;
    }
    i == n && i < m
}

/// Strictly increasing: each name sorts before the next.
pub open spec fn strictly_sorted(s: Seq<Seq<char>>) -> bool {
    forall|i: int| 0 <= i < s.len() - 1 ==> lex_lt(#[trigger] s[i], s[i + 1])
}

/// Inserts `x` into the strictly sorted `v` unless it is there.
fn insert_sorted(v: &mut Vec<String>, x: String)
    requires
        strictly_sorted(views(old(v)@)),
    ensures
        strictly_sorted(views(final(v)@)),
        forall|s: Seq<char>| #[trigger] views(final(v)@).contains(s) <==> (views(old(v)@).contains(s) || s == x@),
{
    let ghost o = views(v@);
    let mut p: usize = 0;
    while p < v.len() && str_lt(v[p].as_str(), x.as_str())
        invariant
            p <= v@.len(),
            o == views(v@),
            forall|i: int| 0 <= i < p ==> lex_lt(#[trigger] o[i], x@),
        decreases v@.len() - p,
    {
        p = p + 1;
    }
    if p < v.len() && str_eq(v[p].as_str(), x.as_str()) {
        assert(o[p as int] == x@);
        return;
    }
    let ghost xv = x@;
    v.insert(p, x);
    proof {
        let nv = views(v@);
        assert(nv =~= o.insert(p as int, xv));
        if p > 0 {
            assert(lex_lt(o[p - 1], xv));
        }
        if p < o.len() {
            lemma_lex_total(xv, o[p as int]);
        }
        assert forall|i: int| 0 <= i < nv.len() - 1 implies lex_lt(#[trigger] nv[i], nv[i + 1]) by {
            if i < p - 1 {
                assert(nv[i] == o[i] && nv[i + 1] == o[i + 1]);
            } else if i == p - 1 {
                assert(nv[i] == o[i] && nv[i + 1] == xv);
            } else if i == p {
                assert(nv[i] == xv && nv[i + 1] == o[i]);
            } else {
                assert(nv[i] == o[i - 1] && nv[i + 1] == o[i]);
            }
        }
        assert forall|s: Seq<char>| #[trigger] nv.contains(s) <==> (o.contains(s) || s == xv) by {
            if nv.contains(s) {
                let j = choose|j: int| 0 <= j < nv.len() && nv[j] == s;
                if j < p {
                    assert(o[j] == s);
                } else if j > p {
                    assert(o[j - 1] == s);
                }
            }
            if o.contains(s) {
                let j = choose|j: int| 0 <= j < o.len() && o[j] == s;
                if j < p {
                    assert(nv[j] == s);
                } else {
                    assert(nv[j + 1] == s);
                }
            }
            if s == xv {
                assert(nv[p as int] == s);
            }
        }
    }
}

/// The version recorded for `name`: the first entry with that name, else `0.0.0`.
pub open spec fn version_of(versions: Seq<(String, String)>, name: Seq<char>) -> Seq<char>
    decreases versions.len(),
{
    if versions.len() == 0 {
        seq!['0', '.', '0', '.', '0']
    } else if versions[0].0@ == name {
        versions[0].1@
    } else {
        version_of(versions.drop_first(), name)
    }
}

/// The version recorded for `name`.
pub fn lookup_version(versions: &Vec<(String, String)>, name: &str) -> (r: String)
    ensures
        r@ == version_of(versions@, name@),
{
    let ghost vs = versions@;
    assert(vs.subrange(0, vs.len() as int) =~= vs);
    let mut i: usize = 0;
    while i < versions.len()
        invariant
            i <= vs.len(),
            vs == versions@,
            version_of(vs, name@) == version_of(vs.subrange(i as int, vs.len() as int), name@),
        decreases vs.len() - i,
    {
        let ghost rest = vs.subrange(i as int, vs.len() as int);
        assert(rest.drop_first() =~= vs.subrange(i as int + 1, vs.len() as int));
        assert(rest[0] == vs[i as int]);
        if str_eq(versions[i].0.as_str(), name) {
            return versions[i].1.clone();
        }
        i = i + 1;
    }
    let d = "0.0.0";
    proof { reveal_strlit("0.0.0"); }
    assert(d@ =~= seq!['0', '.', '0', '.', '0']);
    String::from_str(d)
}

/// Some node of `ns` is owned by package `p`.
pub open spec fn owns_node(ns: Seq<Node>, p: Seq<char>) -> bool {
    exists|i: int| 0 <= i < ns.len() && package_of((#[trigger] ns[i]).id@) == p
}

/// The distinct strings of `v`, sorted.
fn sorted_names(v: &Vec<String>) -> (r: Vec<String>)
    ensures
        strictly_sorted(views(r@)),
        forall|s: Seq<char>| #[trigger] views(r@).contains(s) <==> views(v@).contains(s),
{
    let mut out: Vec<String> = Vec::new();
    let mut i: usize = 0;
    while i < v.len()
        invariant
            i <= v@.len(),
            strictly_sorted(views(out@)),
            forall|s: Seq<char>| #[trigger] views(out@).contains(s) <==> views(v@).take(i as int).contains(s),
        decreases v@.len() - i,
    {
        let ghost before = views(out@);
        insert_sorted(&mut out, v[i].clone());
        assert forall|s: Seq<char>| #[trigger] views(out@).contains(s) <==> views(v@).take(i as int + 1).contains(s) by {
            assert(views(v@).take(i as int + 1) =~= views(v@).take(i as int).push(v@[i as int]@));
            if views(v@).take(i as int).contains(s) {
                let j = choose|j: int| 0 <= j < i && views(v@).take(i as int)[j] == s;
                assert(views(v@).take(i as int + 1)[j] == s);
            }
            if views(v@).take(i as int + 1).contains(s) {
                let j = choose|j: int| 0 <= j < i + 1 && #[trigger] views(v@).take(i as int + 1)[j] == s;
                if j < i {
                    assert(views(v@).take(i as int)[j] == s);
                }
            }
            if s == v@[i as int]@ {
                assert(views(v@).take(i as int + 1)[i as int] == s);
            }
            assert(before.contains(s) <==> views(v@).take(i as int).contains(s));
        }
        i = i + 1;
    }
    assert(views(v@).take(v@.len() as int) =~= views(v@));
    out
}

/// The packages that own nodes of `ns` and are not members, sorted.
fn external_names(ns: &Vec<Node>, members: &Vec<String>) -> (r: Vec<String>)
    ensures
        strictly_sorted(views(r@)),
        forall|s: Seq<char>| #[trigger] views(r@).contains(s) <==> (owns_node(ns@, s) && !views(members@).contains(s)),
{
    let mut out: Vec<String> = Vec::new();
    let mut i: usize = 0;
    while i < ns.len()
        invariant
            i <= ns@.len(),
            strictly_sorted(views(out@)),
            forall|s: Seq<char>| #[trigger] views(out@).contains(s) <==> (owns_node(ns@.take(i as int), s) && !views(members@).contains(s)),
        decreases ns@.len() - i,
    {
        let pk = package_name(ns[i].id.as_str());
        let ghost pv = pk@;
        if !crate::walker::contains_name(members, pk.as_str()) {
            insert_sorted(&mut out, pk);
        }
        assert forall|s: Seq<char>| #[trigger] views(out@).contains(s) <==> (owns_node(ns@.take(i as int + 1), s) && !views(members@).contains(s)) by {
            let t = ns@.take(i as int + 1);
            assert(t[i as int] == ns@[i as int]);
            if owns_node(t, s) {
                let j = choose|j: int| 0 <= j < t.len() && package_of((#[trigger] t[j]).id@) == s;
                if j < i {
                    assert(ns@.take(i as int)[j] == t[j]);
                }
            }
            if owns_node(ns@.take(i as int), s) {
                let j = choose|j: int| 0 <= j < i && package_of((#[trigger] ns@.take(i as int)[j]).id@) == s;
                assert(t[j] == ns@.take(i as int)[j]);
            }
        }
        i = i + 1;
    }
    assert(ns@.take(ns@.len() as int) =~= ns@);
    out
}

/// The IDs of member package graphs.
pub open spec fn crate_ids(cs: Seq<CrateGraph>) -> Seq<Seq<char>> {
    cs.map_values(|c: CrateGraph| c.id@)
}

/// The IDs of external package stubs.
pub open spec fn external_ids(cs: Seq<ExternalCrate>) -> Seq<Seq<char>> {
    cs.map_values(|c: ExternalCrate| c.id@)
}

/// The merged workspace over the union `un` of nodes and `ue` of edges.
pub open spec fn workspace_of(
    ws: Workspace,
    un: Seq<Node>,
    ue: Seq<Edge>,
    members: Seq<Seq<char>>,
    versions: Seq<(String, String)>,
) -> bool {
    &&& ws.version == SCHEMA_VERSION
    &&& strictly_sorted(crate_ids(ws.crates@))
    &&& forall|s: Seq<char>| #[trigger] crate_ids(ws.crates@).contains(s) <==> members.contains(s)
    &&& forall|i: int|
        0 <= i < ws.crates@.len() ==> {
            let c = #[trigger] ws.crates@[i];
            &&& c.name@ == c.id@
            &&& c.nodes@ == nodes_in(un, c.id@)
            &&& c.edges@ == edges_within(ue, c.id@)
            &&& c.version@ == version_of(versions, c.id@)
        }
    &&& strictly_sorted(external_ids(ws.external_crates@))
    &&& forall|s: Seq<char>|
        #[trigger] external_ids(ws.external_crates@).contains(s) <==> (owns_node(un, s) && !members.contains(s))
    &&& forall|i: int|
        0 <= i < ws.external_crates@.len() ==> {
            let c = #[trigger] ws.external_crates@[i];
            &&& c.name@ == c.id@
            &&& c.nodes@ == nodes_in(un, c.id@)
        }
    &&& ws.cross_crate_edges@ == edges_across(ue)
    &&& ws.repo is None
    &&& ws.ref_ is None
}

/// Merges per-package graphs into a workspace: nodes united by ID with the
/// completeness tie-break, edges united by key, each member package's nodes
/// and internal edges in a `CrateGraph` (sorted by ID), every other owning
/// package as an `ExternalCrate` stub (sorted by ID), and the edges between
/// packages apart.
pub fn merge_workspace(graphs: Vec<Graph>, members: &Vec<String>, versions: &Vec<(String, String)>) -> (ws: Workspace)
    ensures
        workspace_of(ws, union_nodes(all_nodes(graphs@)), union_edges(all_edges(graphs@)), views(members@), versions@),
{
    let (un, ue) = union_graphs(graphs);
    let ghost u = un@;
    let ghost e = ue@;
    let member_names = sorted_names(members);
    let ext_names = external_names(&un, members);
    let (internal, across) = split_across(ue);
    proof { lemma_edges_internal_all(e); }
    let ghost mv = views(member_names@);
    let mut rest_nodes = un;
    let mut rest_edges = internal;
    let mut crates: Vec<CrateGraph> = Vec::new();
    let mut i: usize = 0;
    proof {
        assert forall|q: Seq<char>| #[trigger] edges_within(rest_edges@, q) == edges_within(e, q) by {
            lemma_edges_within_internal(e, q);
        }
    }
    while i < member_names.len()
        invariant
            i <= member_names@.len(),
            mv == views(member_names@),
            strictly_sorted(mv),
            crates@.len() == i,
            forall|k: int| 0 <= k < i ==> (#[trigger] crates@[k]).id@ == mv[k],
            forall|k: int|
                0 <= k < i ==> {
                    let c = #[trigger] crates@[k];
                    &&& c.name@ == c.id@
                    &&& c.nodes@ == nodes_in(u, c.id@)
                    &&& c.edges@ == edges_within(e, c.id@)
                    &&& c.version@ == version_of(versions@, c.id@)
                },
            forall|q: Seq<char>| !mv.take(i as int).contains(q) ==> #[trigger] nodes_in(rest_nodes@, q) == nodes_in(u, q),
            forall|q: Seq<char>| !mv.take(i as int).contains(q) ==> #[trigger] edges_within(rest_edges@, q) == edges_within(e, q),
            forall|k: int| 0 <= k < rest_edges@.len() ==> is_internal_edge(#[trigger] rest_edges@[k]),
        decreases member_names@.len() - i,
    {
        let name = member_names[i].as_str();
        let ghost nv = name@;
        assert(mv[i as int] == nv);
        proof { lemma_sorted_distinct(mv, i as int); }
        let ghost before_nodes = rest_nodes@;
        let (mine, others) = split_nodes(rest_nodes, name);
        let (my_edges, other_edges) = split_edges(rest_edges, name);
        rest_nodes = others;
        rest_edges = other_edges;
        let version = lookup_version(versions, name);
        crates.push(CrateGraph {
            id: String::from_str(name),
            name: String::from_str(name),
            version,
            nodes: mine,
            edges: my_edges,
        });
        proof {
            assert(!mv.take(i as int).contains(nv));
            assert forall|q: Seq<char>| !mv.take(i as int + 1).contains(q) implies #[trigger] nodes_in(rest_nodes@, q) == nodes_in(u, q) by {
                assert(mv.take(i as int + 1)[i as int] == nv);
                if mv.take(i as int).contains(q) {
                    let j = choose|j: int| 0 <= j < i && mv.take(i as int)[j] == q;
                    assert(mv.take(i as int + 1)[j] == q);
                }
                lemma_nodes_in_outside(before_nodes, q, nv);
            }
            assert forall|q: Seq<char>| !mv.take(i as int + 1).contains(q) implies #[trigger] edges_within(rest_edges@, q) == edges_within(e, q) by {
                assert(mv.take(i as int + 1)[i as int] == nv);
                if mv.take(i as int).contains(q) {
                    let j = choose|j: int| 0 <= j < i && mv.take(i as int)[j] == q;
                    assert(mv.take(i as int + 1)[j] == q);
                }
            }
        }
        i = i + 1;
    }
    let ghost xv = views(ext_names@);
    let mut externals: Vec<ExternalCrate> = Vec::new();
    let mut j: usize = 0;
    while j < ext_names.len()
        invariant
            j <= ext_names@.len(),
            xv == views(ext_names@),
            strictly_sorted(xv),
            forall|s: Seq<char>| #[trigger] xv.contains(s) ==> !mv.contains(s),
            externals@.len() == j,
            forall|k: int| 0 <= k < j ==> (#[trigger] externals@[k]).id@ == xv[k],
            forall|k: int|
                0 <= k < j ==> {
                    let c = #[trigger] externals@[k];
                    &&& c.name@ == c.id@
                    &&& c.nodes@ == nodes_in(u, c.id@)
                },
            forall|q: Seq<char>| !mv.contains(q) && !xv.take(j as int).contains(q) ==> #[trigger] nodes_in(rest_nodes@, q) == nodes_in(u, q),
        decreases ext_names@.len() - j,
    {
        let name = ext_names[j].as_str();
        let ghost nv = name@;
        assert(xv[j as int] == nv);
        assert(xv.contains(nv));
        proof { lemma_sorted_distinct(xv, j as int); }
        let ghost before_nodes = rest_nodes@;
        let (mine, others) = split_nodes(rest_nodes, name);
        rest_nodes = others;
        externals.push(ExternalCrate { id: String::from_str(name), name: String::from_str(name), nodes: mine });
        proof {
            assert forall|q: Seq<char>| !mv.contains(q) && !xv.take(j as int + 1).contains(q) implies #[trigger] nodes_in(rest_nodes@, q) == nodes_in(u, q) by {
                assert(xv.take(j as int + 1)[j as int] == nv);
                if xv.take(j as int).contains(q) {
                    let k = choose|k: int| 0 <= k < j && xv.take(j as int)[k] == q;
                    assert(xv.take(j as int + 1)[k] == q);
                }
                lemma_nodes_in_outside(before_nodes, q, nv);
            }
        }
        j = j + 1;
    }
    let ws = Workspace {
        version: SCHEMA_VERSION,
        crates,
        external_crates: externals,
        cross_crate_edges: across,
        repo: None,
        ref_: None,
    };
    proof {
        let cids = crate_ids(ws.crates@);
        assert(cids =~= mv);
        let xids = external_ids(ws.external_crates@);
        assert(xids =~= xv);
    }
    ws
}

/// An entry of a strictly sorted sequence is not among the entries before it.
proof fn lemma_sorted_distinct(s: Seq<Seq<char>>, i: int)
    requires
        strictly_sorted(s),
        0 <= i < s.len(),
    ensures
        !s.take(i).contains(s[i]),
{
    if s.take(i).contains(s[i]) {
        let j = choose|j: int| 0 <= j < i && s.take(i)[j] == s[i];
        lemma_sorted_lt(s, j, i);
        lemma_lex_irrefl(s[i]);
    }
}

proof fn lemma_lex_irrefl(a: Seq<char>)
    ensures
        !lex_lt(a, a),
    decreases a.len(),
{
    if a.len() > 0 {
        lemma_lex_irrefl(a.drop_first());
    }
}

proof fn lemma_lex_trans(a: Seq<char>, b: Seq<char>, c: Seq<char>)
    requires
        lex_lt(a, b),
        lex_lt(b, c),
    ensures
        lex_lt(a, c),
    decreases a.len(),
{
    if a.len() > 0 && b.len() > 0 && c.len() > 0 && a[0] == b[0] && b[0] == c[0] {
        lemma_lex_trans(a.drop_first(), b.drop_first(), c.drop_first());
    }
}

proof fn lemma_sorted_lt(s: Seq<Seq<char>>, j: int, i: int)
    requires
        strictly_sorted(s),
        0 <= j < i < s.len(),
    ensures
        lex_lt(s[j], s[i]),
    decreases i - j,
{
    if j + 1 < i {
        lemma_sorted_lt(s, j + 1, i);
        lemma_lex_trans(s[j], s[j + 1], s[i]);
    }
}

proof fn lemma_union_nodes_unique(ns: Seq<Node>)
    requires
        forall|i: int, j: int| 0 <= i < j < ns.len() ==> (#[trigger] ns[i]).id@ != (#[trigger] ns[j]).id@,
    ensures
        union_nodes(ns) == ns,
    decreases ns.len(),
{
    if ns.len() > 0 {
        let d = ns.drop_last();
        assert forall|i: int, j: int| 0 <= i < j < d.len() implies (#[trigger] d[i]).id@ != (#[trigger] d[j]).id@ by {
            assert(d[i] == ns[i] && d[j] == ns[j]);
        }
        lemma_union_nodes_unique(d);
        lemma_position_of(d, ns.last().id@);
        if position_of(d, ns.last().id@) is Some {
            let i = position_of(d, ns.last().id@)->0;
            assert(ns[i] == d[i]);
        }
        assert(d.push(ns.last()) =~= ns);
    }
}

proof fn lemma_union_edges_unique(es: Seq<Edge>)
    requires
        forall|i: int, j: int| 0 <= i < j < es.len() ==> edge_key(#[trigger] es[i]) != edge_key(#[trigger] es[j]),
    ensures
        union_edges(es) == es,
    decreases es.len(),
{
    if es.len() > 0 {
        let d = es.drop_last();
        assert forall|i: int, j: int| 0 <= i < j < d.len() implies edge_key(#[trigger] d[i]) != edge_key(#[trigger] d[j]) by {
            assert(d[i] == es[i] && d[j] == es[j]);
        }
        lemma_union_edges_unique(d);
        if keys_of(d).contains(edge_key(es.last())) {
            let i = choose|i: int| 0 <= i < keys_of(d).len() && keys_of(d)[i] == edge_key(es.last());
            assert(edge_key(es[i]) == keys_of(d)[i]);
        }
        assert(d.push(es.last()) =~= es);
    }
}

proof fn lemma_nodes_in_all(ns: Seq<Node>, p: Seq<char>)
    requires
        forall|i: int| 0 <= i < ns.len() ==> package_of((#[trigger] ns[i]).id@) == p,
    ensures
        nodes_in(ns, p) == ns,
        forall|q: Seq<char>| q != p ==> !#[trigger] owns_node(ns, q),
    decreases ns.len(),
{
    if ns.len() > 0 {
        let d = ns.drop_last();
        assert forall|i: int| 0 <= i < d.len() implies package_of((#[trigger] d[i]).id@) == p by {
            assert(d[i] == ns[i]);
        }
        lemma_nodes_in_all(d, p);
        assert(d.push(ns.last()) =~= ns);
    }
}

proof fn lemma_edges_all_within(es: Seq<Edge>, p: Seq<char>)
    requires
        forall|i: int| 0 <= i < es.len() ==> package_of((#[trigger] es[i]).from@) == p && package_of(es[i].to@) == p,
    ensures
        edges_within(es, p) == es,
        edges_across(es) == Seq::<Edge>::empty(),
    decreases es.len(),
{
    if es.len() > 0 {
        let d = es.drop_last();
        assert forall|i: int| 0 <= i < d.len() implies package_of((#[trigger] d[i]).from@) == p && package_of(d[i].to@) == p by {
            assert(d[i] == es[i]);
        }
        lemma_edges_all_within(d, p);
        assert(es[es.len() - 1] == es.last());
        assert(d.push(es.last()) =~= es);
    }
}

/// Merging a single well-formed package graph whose nodes all belong to
/// package `p`, with `p` as the only member, yields a workspace whose single
/// `CrateGraph` holds exactly that graph's nodes and edges, with no external
/// package and no cross-package edge.
pub proof fn lemma_single_package_merge(g: Graph, p: Seq<char>, versions: Seq<(String, String)>, ws: Workspace)
    requires
        crate::graph::wf(g),
        forall|i: int| 0 <= i < g.nodes@.len() ==> package_of((#[trigger] g.nodes@[i]).id@) == p,
        workspace_of(ws, union_nodes(all_nodes(seq![g])), union_edges(all_edges(seq![g])), seq![p], versions),
    ensures
        ws.crates@.len() == 1,
        ws.crates@[0].id@ == p,
        ws.crates@[0].nodes@ == g.nodes@,
        ws.crates@[0].edges@ == g.edges@,
        ws.external_crates@.len() == 0,
        ws.cross_crate_edges@.len() == 0,
{
    let one = seq![g];
    assert(one.drop_last() =~= Seq::<Graph>::empty());
    assert(one.last() == g);
    assert(all_nodes(one.drop_last()) == Seq::<Node>::empty());
    assert(all_edges(one.drop_last()) == Seq::<Edge>::empty());
    assert(all_nodes(one) == all_nodes(one.drop_last()) + g.nodes@);
    assert(all_edges(one) == all_edges(one.drop_last()) + g.edges@);
    assert(all_nodes(one) =~= g.nodes@);
    assert(all_edges(one) =~= g.edges@);
    lemma_union_nodes_unique(g.nodes@);
    lemma_union_edges_unique(g.edges@);
    lemma_nodes_in_all(g.nodes@, p);
    assert forall|i: int| 0 <= i < g.edges@.len() implies package_of((#[trigger] g.edges@[i]).from@) == p && package_of(g.edges@[i].to@) == p by {
        let a = choose|k: int| 0 <= k < g.nodes@.len() && (#[trigger] g.nodes@[k]).id@ == g.edges@[i].from@;
        let b = choose|k: int| 0 <= k < g.nodes@.len() && (#[trigger] g.nodes@[k]).id@ == g.edges@[i].to@;
    }
    lemma_edges_all_within(g.edges@, p);
    let ids = crate_ids(ws.crates@);
    assert(seq![p][0] == p);
    assert(seq![p].contains(p));
    assert(ids.contains(p));
    assert forall|k: int| 0 <= k < ids.len() implies #[trigger] ids[k] == p by {
        assert(ids.contains(ids[k]));
        assert(seq![p].contains(ids[k]));
    }
    if ids.len() >= 2 {
        assert(ids[0] == p && ids[1] == p);
        assert(lex_lt(ids[0], ids[1]));
        lemma_lex_irrefl(p);
    }
    let k0 = choose|k: int| 0 <= k < ids.len() && ids[k] == p;
    assert(ws.crates@[0].id@ == ids[0]);
    let xids = external_ids(ws.external_crates@);
    if xids.len() > 0 {
        assert(xids.contains(xids[0]));
        assert(owns_node(union_nodes(all_nodes(one)), xids[0]));
        assert(!seq![p].contains(xids[0]));
        assert(xids[0] != p);
    }
}

/// Two strictly sorted sequences with the same elements are equal.
proof fn lemma_sorted_same_elements(s1: Seq<Seq<char>>, s2: Seq<Seq<char>>)
    requires
        strictly_sorted(s1),
        strictly_sorted(s2),
        forall|x: Seq<char>| #[trigger] s1.contains(x) <==> s2.contains(x),
    ensures
        s1 == s2,
    decreases s1.len(),
{
    if s1.len() == 0 {
        if s2.len() > 0 {
            assert(s2.contains(s2[0]));
            assert(s1.contains(s2[0]));
        }
        assert(s1 =~= s2);
    } else {
        assert(s1.contains(s1[0]));
        assert(s2.len() > 0);
        assert(s2.contains(s2[0]));
        assert(s1.contains(s2[0]));
        if s1[0] != s2[0] {
            let j = choose|j: int| 0 <= j < s2.len() && s2[j] == s1[0];
            let k = choose|k: int| 0 <= k < s1.len() && s1[k] == s2[0];
            assert(j > 0);
            assert(k > 0);
            lemma_sorted_lt(s2, 0, j);
            lemma_sorted_lt(s1, 0, k);
            lemma_lex_trans(s1[0], s2[0], s1[0]);
            lemma_lex_irrefl(s1[0]);
        }
        let t1 = s1.drop_first();
        let t2 = s2.drop_first();
        assert forall|x: Seq<char>| #[trigger] t1.contains(x) <==> t2.contains(x) by {
            if t1.contains(x) {
                let j = choose|j: int| 0 <= j < t1.len() && t1[j] == x;
                assert(s1[j + 1] == x);
                assert(s1.contains(x));
                let m = choose|m: int| 0 <= m < s2.len() && s2[m] == x;
                lemma_sorted_lt(s1, 0, j + 1);
                lemma_lex_irrefl(x);
                assert(m != 0);
                assert(t2[m - 1] == x);
            }
            if t2.contains(x) {
                let j = choose|j: int| 0 <= j < t2.len() && t2[j] == x;
                assert(s2[j + 1] == x);
                assert(s2.contains(x));
                assert(s1.contains(x));
                let m = choose|m: int| 0 <= m < s1.len() && s1[m] == x;
                lemma_sorted_lt(s2, 0, j + 1);
                lemma_lex_irrefl(x);
                assert(m != 0);
                assert(t1[m - 1] == x);
            }
        }
        assert forall|i: int| 0 <= i < t1.len() - 1 implies lex_lt(#[trigger] t1[i], t1[i + 1]) by {
            assert(t1[i] == s1[i + 1] && t1[i + 1] == s1[i + 2]);
        }
        assert forall|i: int| 0 <= i < t2.len() - 1 implies lex_lt(#[trigger] t2[i], t2[i + 1]) by {
            assert(t2[i] == s2[i + 1] && t2[i + 1] == s2[i + 2]);
        }
        lemma_sorted_same_elements(t1, t2);
        assert(s1 =~= seq![s1[0]] + t1);
        assert(s2 =~= seq![s2[0]] + t2);
    }
}

/// The merge is deterministic: two workspaces that both satisfy the merge
/// contract for the same node union, edge union, members and versions agree
/// in every package graph, every external stub and the cross-package edges.
pub proof fn lemma_merge_deterministic(
    ws1: Workspace,
    ws2: Workspace,
    un: Seq<Node>,
    ue: Seq<Edge>,
    members: Seq<Seq<char>>,
    versions: Seq<(String, String)>,
)
    requires
        workspace_of(ws1, un, ue, members, versions),
        workspace_of(ws2, un, ue, members, versions),
    ensures
        crate_ids(ws1.crates@) == crate_ids(ws2.crates@),
        forall|i: int|
            0 <= i < ws1.crates@.len() ==> (#[trigger] ws1.crates@[i]).nodes@ == ws2.crates@[i].nodes@
                && ws1.crates@[i].edges@ == ws2.crates@[i].edges@ && ws1.crates@[i].version@ == ws2.crates@[i].version@
                && ws1.crates@[i].name@ == ws2.crates@[i].name@,
        external_ids(ws1.external_crates@) == external_ids(ws2.external_crates@),
        forall|i: int|
            0 <= i < ws1.external_crates@.len() ==> (#[trigger] ws1.external_crates@[i]).nodes@
                == ws2.external_crates@[i].nodes@ && ws1.external_crates@[i].name@ == ws2.external_crates@[i].name@,
        ws1.cross_crate_edges@ == ws2.cross_crate_edges@,
        ws1.version == ws2.version,
{
    let c1 = crate_ids(ws1.crates@);
    let c2 = crate_ids(ws2.crates@);
    assert forall|x: Seq<char>| #[trigger] c1.contains(x) <==> c2.contains(x) by {
        assert(c1.contains(x) <==> members.contains(x));
        assert(c2.contains(x) <==> members.contains(x));
    }
    lemma_sorted_same_elements(c1, c2);
    assert forall|i: int| 0 <= i < ws1.crates@.len() implies (#[trigger] ws1.crates@[i]).nodes@ == ws2.crates@[i].nodes@
        && ws1.crates@[i].edges@ == ws2.crates@[i].edges@ && ws1.crates@[i].version@ == ws2.crates@[i].version@
        && ws1.crates@[i].name@ == ws2.crates@[i].name@ by {
        assert(c1[i] == ws1.crates@[i].id@);
        assert(c2[i] == ws2.crates@[i].id@);
    }
    let x1 = external_ids(ws1.external_crates@);
    let x2 = external_ids(ws2.external_crates@);
    assert forall|x: Seq<char>| #[trigger] x1.contains(x) <==> x2.contains(x) by {
        assert(x1.contains(x) <==> (owns_node(un, x) && !members.contains(x)));
        assert(x2.contains(x) <==> (owns_node(un, x) && !members.contains(x)));
    }
    lemma_sorted_same_elements(x1, x2);
    assert forall|i: int| 0 <= i < ws1.external_crates@.len() implies (#[trigger] ws1.external_crates@[i]).nodes@
        == ws2.external_crates@[i].nodes@ && ws1.external_crates@[i].name@ == ws2.external_crates@[i].name@ by {
        assert(x1[i] == ws1.external_crates@[i].id@);
        assert(x2[i] == ws2.external_crates@[i].id@);
    }
}

/// Some node of `ns` has ID `id`.
pub open spec fn has_id(ns: Seq<Node>, id: Seq<char>) -> bool {
    exists|i: int| 0 <= i < ns.len() && (#[trigger] ns[i]).id@ == id
}

proof fn lemma_union_nodes_ids(ns: Seq<Node>)
    ensures
        forall|id: Seq<char>| #[trigger] has_id(union_nodes(ns), id) <==> has_id(ns, id),
    decreases ns.len(),
{
    if ns.len() > 0 {
        let d = ns.drop_last();
        lemma_union_nodes_ids(d);
        let r = union_nodes(d);
        let n = ns.last();
        lemma_position_of(r, n.id@);
        assert forall|id: Seq<char>| #[trigger] has_id(union_nodes(ns), id) <==> has_id(ns, id) by {
            let u = union_nodes(ns);
            if has_id(u, id) {
                let i = choose|i: int| 0 <= i < u.len() && (#[trigger] u[i]).id@ == id;
                if position_of(r, n.id@) is None {
                    if i < r.len() {
                        assert(u[i] == r[i]);
                        assert(has_id(r, id));
                        let j = choose|j: int| 0 <= j < d.len() && (#[trigger] d[j]).id@ == id;
                        assert(ns[j] == d[j]);
                    } else {
                        assert(ns[ns.len() - 1] == n);
                    }
                } else {
                    let p = position_of(r, n.id@)->0;
                    if i == p {
                        assert(ns[ns.len() - 1] == n);
                        assert(u[i].id == n.id || u[i].id == r[p].id);
                    } else {
                        assert(u[i] == r[i]);
                        assert(has_id(r, id));
                        let j = choose|j: int| 0 <= j < d.len() && (#[trigger] d[j]).id@ == id;
                        assert(ns[j] == d[j]);
                    }
                }
            }
            if has_id(ns, id) {
                let j = choose|j: int| 0 <= j < ns.len() && (#[trigger] ns[j]).id@ == id;
                if j < ns.len() - 1 {
                    assert(d[j] == ns[j]);
                    assert(has_id(d, id));
                    assert(has_id(r, id));
                    let i = choose|i: int| 0 <= i < r.len() && (#[trigger] r[i]).id@ == id;
                    if position_of(r, n.id@) is None {
                        assert(u[i] == r[i]);
                    } else {
                        let p = position_of(r, n.id@)->0;
                        if i == p {
                            assert(u[i].id@ == n.id@ || u[i] == r[i]);
                        } else {
                            assert(u[i] == r[i]);
                        }
                    }
                } else {
                    if position_of(r, n.id@) is None {
                        assert(u[r.len() as int] == n);
                    } else {
                        let p = position_of(r, n.id@)->0;
                        assert(u[p].id@ == n.id@);
                    }
                }
            }
        }
    }
}

proof fn lemma_union_edges_props(es: Seq<Edge>)
    ensures
        forall|i: int, j: int|
            0 <= i < j < union_edges(es).len() ==> edge_key(#[trigger] union_edges(es)[i]) != edge_key(#[trigger] union_edges(es)[j]),
        forall|i: int| 0 <= i < union_edges(es).len() ==> exists|k: int| 0 <= k < es.len() && #[trigger] union_edges(es)[i] == es[k],
    decreases es.len(),
{
    if es.len() > 0 {
        let d = es.drop_last();
        lemma_union_edges_props(d);
        let r = union_edges(d);
        let u = union_edges(es);
        if !keys_of(r).contains(edge_key(es.last())) {
            assert forall|i: int, j: int| 0 <= i < j < u.len() implies edge_key(#[trigger] u[i]) != edge_key(#[trigger] u[j]) by {
                assert(u[i] == r[i]);
                if j < r.len() {
                    assert(u[j] == r[j]);
                } else {
                    assert(keys_of(r)[i] == edge_key(r[i]));
                }
            }
            assert forall|i: int| 0 <= i < u.len() implies exists|k: int| 0 <= k < es.len() && #[trigger] u[i] == es[k] by {
                if i < r.len() {
                    let k = choose|k: int| 0 <= k < d.len() && r[i] == d[k];
                    assert(es[k] == d[k]);
                    assert(u[i] == es[k]);
                } else {
                    assert(u[i] == es[es.len() - 1]);
                }
            }
        } else {
            assert forall|i: int| 0 <= i < u.len() implies exists|k: int| 0 <= k < es.len() && #[trigger] u[i] == es[k] by {
                let k = choose|k: int| 0 <= k < d.len() && r[i] == d[k];
                assert(es[k] == d[k]);
            }
        }
    }
}

proof fn lemma_all_edges_from(gs: Seq<Graph>)
    requires
        forall|m: int| 0 <= m < gs.len() ==> crate::graph::wf(#[trigger] gs[m]),
    ensures
        forall|k: int| 0 <= k < all_edges(gs).len() ==> (#[trigger] all_edges(gs)[k]).from@ != all_edges(gs)[k].to@
            && has_id(all_nodes(gs), all_edges(gs)[k].from@) && has_id(all_nodes(gs), all_edges(gs)[k].to@),
    decreases gs.len(),
{
    if gs.len() > 0 {
        let d = gs.drop_last();
        let g = gs.last();
        assert(g == gs[gs.len() - 1]);
        lemma_all_edges_from(d);
        let ae = all_edges(gs);
        let an = all_nodes(gs);
        let dn = all_nodes(d);
        let de = all_edges(d);
        assert(ae == de + g.edges@);
        assert(an == dn + g.nodes@);
        assert forall|k: int| 0 <= k < ae.len() implies (#[trigger] ae[k]).from@ != ae[k].to@ && has_id(an, ae[k].from@)
            && has_id(an, ae[k].to@) by {
            if k < de.len() {
                assert(ae[k] == de[k]);
                let a = choose|i: int| 0 <= i < dn.len() && (#[trigger] dn[i]).id@ == de[k].from@;
                let b = choose|i: int| 0 <= i < dn.len() && (#[trigger] dn[i]).id@ == de[k].to@;
                assert(an[a] == dn[a]);
                assert(an[b] == dn[b]);
            } else {
                let e = g.edges@[k - de.len()];
                assert(ae[k] == e);
                let a = choose|i: int| 0 <= i < g.nodes@.len() && (#[trigger] g.nodes@[i]).id@ == e.from@;
                let b = choose|i: int| 0 <= i < g.nodes@.len() && (#[trigger] g.nodes@[i]).id@ == e.to@;
                assert(an[dn.len() + a] == g.nodes@[a]);
                assert(an[dn.len() + b] == g.nodes@[b]);
            }
        }
    }
}

/// When every input graph is well formed, the united edges have unique
/// `(from, to, kind)` keys, no self-loops, and endpoints among the united
/// nodes.
pub proof fn lemma_union_well_formed(gs: Seq<Graph>)
    requires
        forall|m: int| 0 <= m < gs.len() ==> crate::graph::wf(#[trigger] gs[m]),
    ensures
        ({
            let un = union_nodes(all_nodes(gs));
            let ue = union_edges(all_edges(gs));
            &&& forall|i: int, j: int| 0 <= i < j < ue.len() ==> edge_key(#[trigger] ue[i]) != edge_key(#[trigger] ue[j])
            &&& forall|i: int| 0 <= i < ue.len() ==> (#[trigger] ue[i]).from@ != ue[i].to@
            &&& forall|i: int| 0 <= i < ue.len() ==> has_id(un, (#[trigger] ue[i]).from@) && has_id(un, ue[i].to@)
        }),
{
    let an = all_nodes(gs);
    let ae = all_edges(gs);
    let un = union_nodes(an);
    let ue = union_edges(ae);
    lemma_union_edges_props(ae);
    lemma_all_edges_from(gs);
    lemma_union_nodes_ids(an);
    assert forall|i: int| 0 <= i < ue.len() implies (#[trigger] ue[i]).from@ != ue[i].to@ && has_id(un, ue[i].from@)
        && has_id(un, ue[i].to@) by {
        let k = choose|k: int| 0 <= k < ae.len() && ue[i] == ae[k];
        assert(has_id(an, ae[k].from@));
        assert(has_id(an, ae[k].to@));
    }
}

} // verus!
