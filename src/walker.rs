//! The API-description walker: one pass over the path table for declared
//! items, one over the index for impls, re-exports, type uses, derivations
//! and trait items.

use vstd::prelude::*;
use crate::text::{views, opt_view, str_eq};
use crate::ids::{last_segment_of, path_id, parent_id_of, is_internal_path, normalized, join_path, parent_path_id, is_internal,
    normalize_package_name, impl_node_id, method_node_id, last_segment, impl_id, method_id};
use crate::model::{Edge, Graph, Node, NodeKind, Visibility, EdgeKind, Confidence, ImplType};
use crate::graph::{new_edges_satisfy, lemma_new_edges_chain, lemma_new_edges_weaken, lemma_new_edges_none, wf, extends, has_node, has_node_of_kind, has_edge, has_contains_parent, has_contains_child, rooted,
    lemma_rooted_mono, lemma_edge_parent, lemma_kind_stable, lemma_contains_roots,
    lemma_extends_facts, lemma_extends_trans, lemma_extends_refl};
use crate::types::pair_views;
use crate::model::Span;
use crate::api::{ApiDescription, ApiItem, ItemInner, ItemKind, PathSummary, CrateName};

verus! {

/// The first path-table entry with ID `id`.
pub open spec fn path_entry(paths: Seq<PathSummary>, id: u32) -> Option<PathSummary>
    decreases paths.len(),
{
    if paths.len() == 0 {
        None
    } else if paths[0].id == id {
        Some(paths[0])
    } else {
        path_entry(paths.drop_first(), id)
    }
}

/// The normalized name of package ordinal `crate_id`, or `fallback` when the
/// external-package table does not list it.
pub open spec fn crate_name_of(ext: Seq<CrateName>, crate_id: u32, fallback: Seq<char>) -> Seq<char>
    decreases ext.len(),
{
    if ext.len() == 0 {
        fallback
    } else if ext[0].crate_id == crate_id {
        normalized(ext[0].name@)
    } else {
        crate_name_of(ext.drop_first(), crate_id, fallback)
    }
}

/// The package that owns a path-table entry.
pub open spec fn entry_package(desc: ApiDescription, pkg: Seq<char>, e: PathSummary) -> Seq<char> {
    crate_name_of(desc.external_crates@, e.crate_id, pkg)
}

/// The node ID of item `id`, when the path table lists it.
pub open spec fn resolved(desc: ApiDescription, pkg: Seq<char>, id: u32) -> Option<Seq<char>> {
    match path_entry(desc.paths@, id) {
        Some(e) => Some(path_id(entry_package(desc, pkg, e), views(e.path@))),
        None => None,
    }
}

/// The node kind of a path-table kind; functions that are impl or trait
/// children are methods.
pub open spec fn node_kind_of(kind: ItemKind, is_method: bool) -> Option<NodeKind> {
    match kind {
        ItemKind::Module => Some(NodeKind::Module),
        ItemKind::Struct => Some(NodeKind::Struct),
        ItemKind::Union => Some(NodeKind::Union),
        ItemKind::Enum => Some(NodeKind::Enum),
        ItemKind::Trait => Some(NodeKind::Trait),
        ItemKind::TraitAlias => Some(NodeKind::TraitAlias),
        ItemKind::Impl => Some(NodeKind::Impl),
        ItemKind::Function => Some(if is_method { NodeKind::Method } else { NodeKind::Function }),
        ItemKind::TypeAlias => Some(NodeKind::TypeAlias),
        ItemKind::Other => None,
    }
}

/// Maps a path-table kind to a node kind.
pub fn map_item_kind(kind: ItemKind, is_method: bool) -> (r: Option<NodeKind>)
    ensures
        r == node_kind_of(kind, is_method),
{
    match kind {
        ItemKind::Module => Some(NodeKind::Module),
        ItemKind::Struct => Some(NodeKind::Struct),
        ItemKind::Union => Some(NodeKind::Union),
        ItemKind::Enum => Some(NodeKind::Enum),
        ItemKind::Trait => Some(NodeKind::Trait),
        ItemKind::TraitAlias => Some(NodeKind::TraitAlias),
        ItemKind::Impl => Some(NodeKind::Impl),
        ItemKind::Function => Some(if is_method { NodeKind::Method } else { NodeKind::Function }),
        ItemKind::TypeAlias => Some(NodeKind::TypeAlias),
        ItemKind::Other => None,
    }
}

/// Whether `v` holds `x`.
pub fn contains_id(v: &Vec<u32>, x: u32) -> (r: bool)
    ensures
        r == v@.contains(x),
{
    let mut i: usize = 0;
    while i < v.len()
        invariant
            i <= v@.len(),
            forall|j: int| 0 <= j < i ==> v@[j] != x,
        decreases v@.len() - i,
    {
        if v[i] == x {
            assert(v@[i as int] == x);
            return true;
        }
        i = i + 1;
    }
    false
}

/// Whether `v` holds a string equal to `s`.
pub fn contains_name(v: &Vec<String>, s: &str) -> (r: bool)
    ensures
        r == views(v@).contains(s@),
{
    let mut i: usize = 0;
    while i < v.len()
        invariant
            i <= v@.len(),
            forall|j: int| 0 <= j < i ==> v@[j]@ != s@,
        decreases v@.len() - i,
    {
        if str_eq(v[i].as_str(), s) {
            assert(views(v@)[i as int] == s@);
            return true;
        }
        i = i + 1;
    }
    proof {
        if views(v@).contains(s@) {
            let j = choose|j: int| 0 <= j < views(v@).len() && views(v@)[j] == s@;
            assert(v@[j]@ == s@);
        }
    }
    false
}

/// The position of the first path-table entry with ID `id`.
pub fn find_path(desc: &ApiDescription, id: u32) -> (r: Option<usize>)
    ensures
        r matches Some(i) ==> i < desc.paths@.len() && path_entry(desc.paths@, id) == Some(desc.paths@[i as int]),
        r is None ==> path_entry(desc.paths@, id) is None,
{
    let mut i: usize = 0;
    assert(desc.paths@.subrange(0, desc.paths@.len() as int) =~= desc.paths@);
    while i < desc.paths.len()
        invariant
            i <= desc.paths@.len(),
            path_entry(desc.paths@, id) == path_entry(desc.paths@.subrange(i as int, desc.paths@.len() as int), id),
        decreases desc.paths@.len() - i,
    {
        let ghost rest = desc.paths@.subrange(i as int, desc.paths@.len() as int);
        assert(rest.drop_first() =~= desc.paths@.subrange(i as int + 1, desc.paths@.len() as int));
        assert(rest[0] == desc.paths@[i as int]);
        if desc.paths[i].id == id {
            return Some(i);
        }
        i = i + 1;
    }
    None
}

/// The normalized name of package ordinal `crate_id`, or `fallback`.
pub fn crate_name_for_id(desc: &ApiDescription, crate_id: u32, fallback: &str) -> (r: String)
    ensures
        r@ == crate_name_of(desc.external_crates@, crate_id, fallback@),
{
    let mut i: usize = 0;
    let ghost ext = desc.external_crates@;
    assert(ext.subrange(0, ext.len() as int) =~= ext);
    while i < desc.external_crates.len()
        invariant
            i <= ext.len(),
            ext == desc.external_crates@,
            crate_name_of(ext, crate_id, fallback@) == crate_name_of(ext.subrange(i as int, ext.len() as int), crate_id, fallback@),
        decreases ext.len() - i,
    {
        let ghost rest = ext.subrange(i as int, ext.len() as int);
        assert(rest.drop_first() =~= ext.subrange(i as int + 1, ext.len() as int));
        assert(rest[0] == ext[i as int]);
        if desc.external_crates[i].crate_id == crate_id {
            return normalize_package_name(desc.external_crates[i].name.as_str());
        }
        i = i + 1;
    }
    String::from_str(fallback)
}

/// The node ID of item `id`, when the path table lists it.
pub fn resolve_id(desc: &ApiDescription, pkg: &str, id: u32) -> (r: Option<String>)
    ensures
        opt_view(r) == resolved(*desc, pkg@, id),
{
    match find_path(desc, id) {
        Some(i) => {
            let e = &desc.paths[i];
            let owner = crate_name_for_id(desc, e.crate_id, pkg);
            Some(join_path(owner.as_str(), e.path.as_slice()))
        },
        None => None,
    }
}

/// The views of link pairs.
pub open spec fn link_views(v: Seq<(String, String)>) -> Seq<(Seq<char>, Seq<char>)> {
    v.map_values(|l: (String, String)| (l.0@, l.1@))
}

/// The links whose item resolves, each with the linked node ID, in order.
pub open spec fn resolved_links(desc: ApiDescription, pkg: Seq<char>, links: Seq<(Seq<char>, u32)>) -> Seq<(Seq<char>, Seq<char>)>
    decreases links.len(),
{
    if links.len() == 0 {
        Seq::empty()
    } else {
        let r = resolved_links(desc, pkg, links.drop_last());
        match resolved(desc, pkg, links.last().1) {
            Some(t) => r.push((links.last().0, t)),
            None => r,
        }
    }
}

/// Link names paired with the node IDs of the linked items, for the links
/// whose item resolves.
pub fn resolve_links(desc: &ApiDescription, pkg: &str, links: &Vec<(String, u32)>) -> (r: Vec<(String, String)>)
    ensures
        link_views(r@) == resolved_links(*desc, pkg@, pair_views(links@)),
{
    let mut out: Vec<(String, String)> = Vec::new();
    let mut j: usize = 0;
    while j < links.len()
        invariant
            j <= links@.len(),
            link_views(out@) == resolved_links(*desc, pkg@, pair_views(links@.take(j as int))),
        decreases links@.len() - j,
    {
        assert(pair_views(links@.take(j as int + 1)).drop_last() =~= pair_views(links@.take(j as int)));
        assert(pair_views(links@.take(j as int + 1)).last() == (links@[j as int].0@, links@[j as int].1));
        if let Some(target) = resolve_id(desc, pkg, links[j].1) {
            let ghost before = out@;
            out.push((links[j].0.clone(), target));
            assert(link_views(out@) =~= link_views(before).push((links@[j as int].0@, target@)));
        }
        j = j + 1;
    }
    assert(links@.take(links@.len() as int) =~= links@);
    out
}

/// A copy of an optional span.
fn copy_span(s: &Option<Span>) -> (r: Option<Span>)
    ensures
        r == *s,
{
    match s {
        Some(x) => Some(Span {
            file: x.file.clone(),
            line: x.line,
            column: x.column,
            end_line: x.end_line,
            end_column: x.end_column,
        }),
        None => None,
    }
}

/// A copy of an optional string.
fn copy_opt_string(s: &Option<String>) -> (r: Option<String>)
    ensures
        r == *s,
{
    match s {
        Some(x) => Some(x.clone()),
        None => None,
    }
}

/// The attributes a node takes from the item it describes: visibility, span,
/// rendered attributes, payload, generics and where-clause text, docs, and
/// resolved doc and bound links.
pub open spec fn node_from_item(n: Node, desc: ApiDescription, pkg: Seq<char>, it: ApiItem) -> bool {
    &&& n.visibility == it.visibility
    &&& n.span == it.span
    &&& crate::attrs::attrs_text_ok(n.attrs@, it.attrs@)
    &&& crate::api::fields_ok(it.payload, n.fields)
    &&& crate::api::variants_ok(it.payload, n.variants)
    &&& crate::api::signature_ok(it.payload, n.signature)
    &&& crate::types::opt_views(n.generics) == match it.generics {
        Some(g) => crate::types::generics_text(g),
        None => None,
    }
    &&& crate::types::opt_views(n.where_clause) == match it.generics {
        Some(g) => crate::types::where_clause_text(g),
        None => None,
    }
    &&& n.docs == it.docs
    &&& link_views(n.doc_links@) == resolved_links(desc, pkg, pair_views(it.doc_links@))
    &&& link_views(n.bound_links@) == resolved_links(desc, pkg, crate::api::item_link_pairs(it))
}

/// Adds the package node `name` unless a node with that ID exists.
pub fn ensure_crate_node(g: &mut Graph, name: &str, visibility: Visibility, is_external: bool)
    requires
        wf(*old(g)),
    ensures
        wf(*final(g)),
        extends(*old(g), *final(g)),
        final(g).edges@ == old(g).edges@,
        has_node(*final(g), name@),
        has_node(*old(g), name@) ==> final(g).nodes@ == old(g).nodes@,
        !has_node(*old(g), name@) ==> final(g).nodes@.len() == old(g).nodes@.len() + 1 && final(g).nodes@.last().kind
            == NodeKind::Crate && final(g).nodes@.last().id@ == name@ && final(g).nodes@.last().parent_impl is None
            && final(g).nodes@.last().is_external == is_external,
{
    let node = Node::bare(String::from_str(name), String::from_str(name), NodeKind::Crate, visibility, is_external);
    g.insert_node(node);
}

/// Adds a module node for every proper prefix of `path` under package `pkg`,
/// each contained in the one before it, the first in the package node.
#[verifier::rlimit(40)]
pub fn ensure_module_nodes(g: &mut Graph, pkg: &str, path: &[String], is_external: bool)
    requires
        wf(*old(g)),
        has_node(*old(g), pkg@),
    ensures
        wf(*final(g)),
        extends(*old(g), *final(g)),
        forall|k: int| 1 <= k < path@.len() ==> #[trigger] has_node(*final(g), path_id(pkg@, views(path@).take(k))),
        rooted(*old(g), pkg@) ==> forall|k: int| 1 <= k < path@.len() ==> #[trigger] rooted(*final(g), path_id(pkg@, views(path@).take(k))),
        forall|k: int|
            1 <= k < path@.len() && rooted(*old(g), pkg@) && !has_node(*old(g), #[trigger] path_id(pkg@, views(path@).take(k)))
                && path_id(pkg@, views(path@).take(k)) != path_id(pkg@, views(path@).take(k - 1))
                && (forall|j: int| 1 <= j < k ==> path_id(pkg@, views(path@).take(j)) != path_id(pkg@, views(path@).take(k)))
                ==> has_edge(*final(g), path_id(pkg@, views(path@).take(k - 1)), path_id(pkg@, views(path@).take(k)), EdgeKind::Contains),
        forall|i: int|
            old(g).nodes@.len() <= i < final(g).nodes@.len() ==> (#[trigger] final(g).nodes@[i]).kind == NodeKind::Module
                && final(g).nodes@[i].parent_impl is None && final(g).nodes@[i].visibility == Visibility::Unknown
                && final(g).nodes@[i].is_external == is_external
                && exists|j: int| 1 <= j < path@.len() && final(g).nodes@[i].id@ == #[trigger] path_id(pkg@, views(path@).take(j))
                    && final(g).nodes@[i].name@ == views(path@)[j - 1],
        new_edges_satisfy(*old(g), *final(g), |e: Edge| e.kind == EdgeKind::Contains && exists|j: int|
            1 <= j < path@.len() && e.to@ == #[trigger] path_id(pkg@, views(path@).take(j)) && e.from@ == path_id(pkg@, views(path@).take(j - 1))),
{
    let ghost g0 = *g;
    let ghost p = views(path@);
    proof {
        lemma_extends_refl(*g);
        lemma_new_edges_none(g0, *g, |e: Edge| e.kind == EdgeKind::Contains && exists|j: int|
            1 <= j < path@.len() && e.to@ == #[trigger] path_id(pkg@, views(path@).take(j)) && e.from@ == path_id(pkg@, views(path@).take(j - 1)));
    }
    if path.len() <= 1 {
        return;
    }
    let mut parent = String::from_str(pkg);
    proof {
        if rooted(g0, pkg@) {
            lemma_rooted_mono(g0, *g, pkg@);
        }
    }
    assert(p.take(0) =~= Seq::<Seq<char>>::empty());
    assert(path_id(pkg@, p.take(0)) =~= pkg@);
    let mut index: usize = 0;
    let last = path.len() - 1;
    while index < last
        invariant
            p == views(path@),
            path@.len() >= 2,
            last == path@.len() - 1,
            index <= last,
            wf(*g),
            extends(g0, *g),
            parent@ == path_id(pkg@, p.take(index as int)),
            has_node(*g, parent@),
            forall|k: int| 1 <= k <= index ==> #[trigger] has_node(*g, path_id(pkg@, p.take(k))),
            rooted(g0, pkg@) ==> rooted(*g, parent@),
            rooted(g0, pkg@) ==> forall|k: int| 1 <= k <= index ==> #[trigger] rooted(*g, path_id(pkg@, p.take(k))),
            forall|k: int|
                1 <= k <= index && rooted(g0, pkg@) && !has_node(g0, #[trigger] path_id(pkg@, p.take(k)))
                    && path_id(pkg@, p.take(k)) != path_id(pkg@, p.take(k - 1))
                    && (forall|j: int| 1 <= j < k ==> path_id(pkg@, p.take(j)) != path_id(pkg@, p.take(k)))
                    ==> has_edge(*g, path_id(pkg@, p.take(k - 1)), path_id(pkg@, p.take(k)), EdgeKind::Contains),
            forall|i: int|
                g0.nodes@.len() <= i < g.nodes@.len() ==> (#[trigger] g.nodes@[i]).kind == NodeKind::Module
                    && g.nodes@[i].parent_impl is None && g.nodes@[i].visibility == Visibility::Unknown
                    && g.nodes@[i].is_external == is_external
                    && exists|j: int| 1 <= j <= index && g.nodes@[i].id@ == #[trigger] path_id(pkg@, p.take(j)) && g.nodes@[i].name@ == p[j - 1],
            new_edges_satisfy(g0, *g, |e: Edge| e.kind == EdgeKind::Contains && exists|j: int|
            1 <= j < path@.len() && e.to@ == #[trigger] path_id(pkg@, views(path@).take(j)) && e.from@ == path_id(pkg@, views(path@).take(j - 1))),
        decreases path@.len() - index,
    {
        let ghost g1 = *g;
        let module_id = crate::ids::join_path_prefix(pkg, path, index + 1);
        add_module_link(g, &parent, module_id.clone(), path[index].clone(), is_external);
        proof {
            let ghost pv = parent@;
            let ghost mv = module_id@;
            let k1 = index as int + 1;
            assert(path_id(pkg@, p.take(k1)) == mv);
            let step = |e: Edge| e.kind == EdgeKind::Contains && e.from@ == pv && e.to@ == mv;
            let chain = |e: Edge| e.kind == EdgeKind::Contains && exists|j: int|
            1 <= j < path@.len() && e.to@ == #[trigger] path_id(pkg@, views(path@).take(j)) && e.from@ == path_id(pkg@, views(path@).take(j - 1));
            assert forall|e: Edge| #[trigger] step(e) implies chain(e) by {
                assert(e.to@ == path_id(pkg@, views(path@).take(k1)));
            }
            assert forall|e: Edge| #[trigger] chain(e) implies chain(e) by {}
            lemma_new_edges_chain(g0, g1, *g, chain, step, chain);
            lemma_extends_facts(g1, *g);
            lemma_extends_trans(g0, g1, *g);
            let k1 = index as int + 1;
            assert(path_id(pkg@, p.take(k1)) == module_id@);
            assert forall|k: int| 1 <= k <= k1 implies #[trigger] has_node(*g, path_id(pkg@, p.take(k))) by {
                if k < k1 {
                    assert(has_node(g1, path_id(pkg@, p.take(k))));
                }
            }
            if rooted(g0, pkg@) {
                assert(rooted(g1, parent@));
                assert(rooted(*g, module_id@));
                assert forall|k: int| 1 <= k <= k1 implies #[trigger] rooted(*g, path_id(pkg@, p.take(k))) by {
                    if k < k1 {
                        lemma_rooted_mono(g1, *g, path_id(pkg@, p.take(k)));
                    }
                }
            }
            assert forall|i: int|
                g0.nodes@.len() <= i < g.nodes@.len() implies (#[trigger] g.nodes@[i]).kind == NodeKind::Module
                    && g.nodes@[i].parent_impl is None && g.nodes@[i].visibility == Visibility::Unknown
                    && g.nodes@[i].is_external == is_external
                    && exists|j: int| 1 <= j <= k1 && g.nodes@[i].id@ == #[trigger] path_id(pkg@, p.take(j)) && g.nodes@[i].name@ == p[j - 1] by {
                if i < g1.nodes@.len() {
                    assert(g.nodes@[i] == g1.nodes@[i]);
                    let j = choose|j: int| 1 <= j <= index && g1.nodes@[i].id@ == #[trigger] path_id(pkg@, p.take(j)) && g1.nodes@[i].name@ == p[j - 1];
                } else {
                    assert(g.nodes@[i].id@ == path_id(pkg@, p.take(k1)));
                    assert(g.nodes@[i].name@ == p[k1 - 1]);
                }
            }
            assert forall|k: int|
                1 <= k <= k1 && rooted(g0, pkg@) && !has_node(g0, #[trigger] path_id(pkg@, p.take(k)))
                    && path_id(pkg@, p.take(k)) != path_id(pkg@, p.take(k - 1))
                    && (forall|j: int| 1 <= j < k ==> path_id(pkg@, p.take(j)) != path_id(pkg@, p.take(k)))
                    implies has_edge(*g, path_id(pkg@, p.take(k - 1)), path_id(pkg@, p.take(k)), EdgeKind::Contains) by {
                if k < k1 {
                    assert(has_edge(g1, path_id(pkg@, p.take(k - 1)), path_id(pkg@, p.take(k)), EdgeKind::Contains));
                } else {
                    assert(!has_node(g1, module_id@)) by {
                        if has_node(g1, module_id@) {
                            let i = choose|i: int| 0 <= i < g1.nodes@.len() && (#[trigger] g1.nodes@[i]).id@ == module_id@;
                            if i < g0.nodes@.len() {
                                assert(g1.nodes@[i] == g0.nodes@[i]);
                            } else {
                                let j = choose|j: int| 1 <= j <= index && g1.nodes@[i].id@ == #[trigger] path_id(pkg@, p.take(j)) && g1.nodes@[i].name@ == p[j - 1];
                            }
                        }
                    }
                }
            }
        }
        parent = module_id;
        index = index + 1;
    }
}

/// Adds module node `module_id` named `name` unless present, contained in `parent`.
fn add_module_link(g: &mut Graph, parent: &String, module_id: String, name: String, is_external: bool)
    requires
        wf(*old(g)),
        has_node(*old(g), parent@),
    ensures
        wf(*final(g)),
        extends(*old(g), *final(g)),
        has_node(*final(g), module_id@),
        rooted(*old(g), parent@) ==> rooted(*final(g), module_id@),
        !has_node(*old(g), module_id@) && module_id@ != parent@ && rooted(*old(g), parent@) ==> has_edge(
            *final(g),
            parent@,
            module_id@,
            EdgeKind::Contains,
        ),
        forall|i: int|
            old(g).nodes@.len() <= i < final(g).nodes@.len() ==> (#[trigger] final(g).nodes@[i]).kind == NodeKind::Module
                && final(g).nodes@[i].parent_impl is None && final(g).nodes@[i].visibility == Visibility::Unknown
                && final(g).nodes@[i].is_external == is_external && final(g).nodes@[i].id@ == module_id@
                && final(g).nodes@[i].name == name,
        new_edges_satisfy(*old(g), *final(g), |e: Edge| e.kind == EdgeKind::Contains && e.from@ == parent@ && e.to@ == module_id@),
{
    let ghost g0 = *g;
    let node = Node::bare(module_id.clone(), name, NodeKind::Module, Visibility::Unknown, is_external);
    g.insert_node(node);
    let ghost g1 = *g;
    proof { lemma_extends_facts(g0, g1); }
    let ghost fresh = !has_node(g0, module_id@);
    proof {
        if fresh {
            let n = g0.nodes@.len() as int;
            assert(g1.nodes@[n].id@ == module_id@);
            assert(!has_node_of_kind(g1, module_id@, NodeKind::Crate)) by {
                if has_node_of_kind(g1, module_id@, NodeKind::Crate) {
                    let k = choose|k: int| 0 <= k < g1.nodes@.len() && (#[trigger] g1.nodes@[k]).id@ == module_id@ && g1.nodes@[k].kind == NodeKind::Crate;
                    if k < n {
                        assert(g1.nodes@[k] == g0.nodes@[k]);
                    }
                }
            }
            assert(!has_contains_parent(g1, module_id@)) by {
                if has_contains_parent(g1, module_id@) {
                    let i = choose|i: int| 0 <= i < g1.edges@.len() && (#[trigger] g1.edges@[i]).kind == EdgeKind::Contains && g1.edges@[i].to@ == module_id@;
                    assert(g1.edges@[i] == g0.edges@[i]);
                    assert(has_node(g0, g0.edges@[i].to@));
                }
            }
            assert(!has_contains_child(g1, module_id@)) by {
                if has_contains_child(g1, module_id@) {
                    let i = choose|i: int| 0 <= i < g1.edges@.len() && (#[trigger] g1.edges@[i]).kind == EdgeKind::Contains && g1.edges@[i].from@ == module_id@;
                    assert(g1.edges@[i] == g0.edges@[i]);
                    assert(has_node(g0, g0.edges@[i].from@));
                }
            }
        }
    }
    if !str_eq(parent.as_str(), module_id.as_str()) {
        g.push_edge(parent.clone(), module_id.clone(), EdgeKind::Contains, Confidence::Static);
        proof {
            lemma_extends_facts(g1, *g);
            if rooted(g0, parent@) {
                lemma_rooted_mono(g0, g1, parent@);
                if has_edge(*g, parent@, module_id@, EdgeKind::Contains) {
                    lemma_edge_parent(*g, parent@, module_id@);
                } else if has_contains_child(g1, module_id@) {
                    lemma_contains_roots(g1, module_id@);
                    lemma_rooted_mono(g1, *g, module_id@);
                } else {
                    lemma_rooted_mono(g1, *g, module_id@);
                }
            }
        }
    } else {
        proof {
            lemma_extends_refl(*g);
            if rooted(g0, parent@) {
                lemma_rooted_mono(g0, *g, parent@);
            }
        }
    }
    proof {
        lemma_extends_trans(g0, g1, *g);
        assert forall|i: int| g0.nodes@.len() <= i < g.nodes@.len() implies (#[trigger] g.nodes@[i]).id@ == module_id@
            && g.nodes@[i].name == name by {
            assert(g.nodes@[i] == g1.nodes@[i]);
        }
        assert(g1.edges@ == g0.edges@);
        assert forall|j: int| g0.edges@.len() <= j < g.edges@.len() implies (|e: Edge| e.kind == EdgeKind::Contains && e.from@ == parent@ && e.to@ == module_id@)(#[trigger] g.edges@[j]) by {
            assert(g.edges@.len() == g1.edges@.len() + 1);
            assert(j == g1.edges@.len());
        }
    }
}

/// The node for a declared item found in the path table.
fn item_node(desc: &ApiDescription, pkg: &str, node_id: String, name: String, kind: NodeKind, is_external: bool, item: Option<&ApiItem>) -> (n: Node)
    ensures
        n.id == node_id,
        n.name == name,
        n.kind == kind,
        n.is_external == is_external,
        n.parent_impl is None,
        n.impl_type is None,
        n.impl_trait is None,
        item matches Some(it) ==> node_from_item(n, *desc, pkg@, *it),
        item is None ==> n.visibility == Visibility::Unknown && n.span is None && n.attrs@.len() == 0 && n.fields is None
            && n.variants is None && n.signature is None && n.generics is None && n.where_clause is None && n.docs is None
            && n.doc_links@.len() == 0 && n.bound_links@.len() == 0,
{
    match item {
        Some(it) => {
            Node {
                id: node_id,
                name,
                kind,
                visibility: it.visibility,
                span: copy_span(&it.span),
                attrs: crate::attrs::format_attributes(&it.attrs),
                is_external,
                fields: crate::api::fields_info(&it.payload),
                variants: crate::api::variants_info(&it.payload),
                signature: crate::api::signature_info(&it.payload),
                generics: crate::api::item_generics_text(it),
                where_clause: crate::api::item_where_text(it),
                docs: copy_opt_string(&it.docs),
                doc_links: resolve_links(desc, pkg, &it.doc_links),
                bound_links: resolve_links(desc, pkg, &crate::api::collect_item_link_pairs(it)),
                impl_type: None,
                parent_impl: None,
                impl_trait: None,
            }
        },
        None => Node::bare(node_id, name, kind, Visibility::Unknown, is_external),
    }
}

/// Pass A for one path-table entry: the owning package node, the module
/// chain, the item's node, and the `Contains` edge from its parent. Entries
/// with an empty or internal path, or of a kind that has no node, add nothing.
pub fn add_path_item(
    g: &mut Graph,
    desc: &ApiDescription,
    pkg: &str,
    members: &Vec<String>,
    method_ids: &Vec<u32>,
    e: &PathSummary,
)
    requires
        wf(*old(g)),
    ensures
        wf(*final(g)),
        extends(*old(g), *final(g)),
        node_kind_of(e.kind, method_ids@.contains(e.id)) is None || e.path@.len() == 0 || is_internal_path(views(e.path@))
            ==> *final(g) == *old(g),
        !(node_kind_of(e.kind, method_ids@.contains(e.id)) is None || e.path@.len() == 0 || is_internal_path(views(e.path@)))
            ==> path_item_placed(*old(g), *final(g), *desc, pkg@, *e, node_kind_of(e.kind, method_ids@.contains(e.id))->0,
                !views(members@).contains(entry_package(*desc, pkg@, *e))),
{
    proof {
        lemma_extends_refl(*g);
    }
    let is_method = contains_id(method_ids, e.id);
    let kind = match map_item_kind(e.kind, is_method) {
        Some(k) => k,
        None => return,
    };
    if e.path.len() == 0 || is_internal(e.path.as_slice()) {
        return;
    }
    place_path_item(g, desc, pkg, members, e, kind);
}

/// What Pass A puts in the graph for one admitted entry.
pub open spec fn path_item_placed(g0: Graph, g: Graph, desc: ApiDescription, pkg: Seq<char>, e: PathSummary, kind: NodeKind, is_external: bool) -> bool {
    let owner = entry_package(desc, pkg, e);
    let id = path_id(owner, views(e.path@));
    &&& wf(g)
    &&& extends(g0, g)
    &&& has_node(g, owner)
    &&& has_node(g, id)
    &&& (has_node_of_kind(g, owner, NodeKind::Crate) ==> rooted(g, id))
    &&& forall|i: int| g0.nodes@.len() <= i < g.nodes@.len() ==> (#[trigger] g.nodes@[i]).parent_impl is None
        && path_origin(desc, pkg, e, g.nodes@[i].id@)
    &&& new_edges_satisfy(g0, g, |x: Edge| x.kind == EdgeKind::Contains && prefix_contains(desc, pkg, e, x.from@, x.to@))
    &&& entry_fresh(g0, desc, pkg, e) ==> exists|i: int|
        0 <= i < g.nodes@.len() && #[trigger] g.nodes@[i].id@ == id && entry_node_ok(g.nodes@[i], desc, pkg, e, kind, is_external)
}

#[verifier::rlimit(100)]
#[verifier::spinoff_prover]
fn place_path_item(g: &mut Graph, desc: &ApiDescription, pkg: &str, members: &Vec<String>, e: &PathSummary, kind: NodeKind)
    requires
        wf(*old(g)),
        e.path@.len() > 0,
    ensures
        path_item_placed(*old(g), *final(g), *desc, pkg@, *e, kind, !views(members@).contains(entry_package(*desc, pkg@, *e))),
{
    let ghost g0 = *g;
    let owner = crate_name_for_id(desc, e.crate_id, pkg);
    let is_external = !contains_name(members, owner.as_str());
    ensure_crate_node(g, owner.as_str(), Visibility::Public, is_external);
    let ghost g1 = *g;
    ensure_module_nodes(g, owner.as_str(), e.path.as_slice(), is_external);
    let ghost g2 = *g;
    proof {
        lemma_extends_trans(g0, g1, g2);
        lemma_extends_facts(g1, g2);
        let p = views(e.path@);
        let n = p.len() as int;
        if n >= 2 {
            assert(p.take(n - 1) =~= p.drop_last());
            assert(has_node(g2, path_id(owner@, p.take(n - 1))));
        }
        assert forall|i: int| g0.nodes@.len() <= i < g2.nodes@.len() implies (#[trigger] g2.nodes@[i]).parent_impl is None by {
            if i < g1.nodes@.len() {
                assert(g1.nodes@[i] == g2.nodes@[i]);
                assert(g1.nodes@[i] == g1.nodes@.last());
            }
        }
    }
    proof {
        let p = views(e.path@);
        let n = p.len() as int;
        if rooted(g1, owner@) {
            if n >= 2 {
                assert(rooted(g2, path_id(owner@, p.take(n - 1))));
                assert(parent_id_of(owner@, p)->0 == path_id(owner@, p.take(n - 1)));
            } else {
                lemma_rooted_mono(g1, g2, owner@);
            }
        }
    }
    add_item_node(g, desc, pkg, owner.as_str(), e, kind, is_external);
    proof {
        lemma_extends_trans(g0, g2, *g);
        lemma_extends_trans(g1, g2, *g);
        if !has_node_of_kind(g1, owner@, NodeKind::Crate) {
            lemma_kind_stable(g1, *g, owner@, NodeKind::Crate);
        }
        lemma_path_item_nodes(g0, g1, g2, *g, *desc, pkg@, *e, owner@);
        lemma_path_item_edges(g0, g1, g2, *g, *desc, pkg@, *e, owner@);
        if entry_fresh(g0, *desc, pkg@, *e) {
            lemma_path_item_fresh(g0, g1, g2, *desc, pkg@, *e, owner@);
            let i = g2.nodes@.len() as int;
            assert(g.nodes@[i].id@ == path_id(entry_package(*desc, pkg@, *e), views(e.path@)));
        }
    }
}

/// The `Contains` edges of one path entry: from each prefix of its path (the
/// package for the first) to the next.
pub open spec fn prefix_contains(desc: ApiDescription, pkg: Seq<char>, e: PathSummary, from: Seq<char>, to: Seq<char>) -> bool {
    let owner = entry_package(desc, pkg, e);
    exists|j: int|
        1 <= j <= e.path@.len() && to == #[trigger] path_id(owner, views(e.path@).take(j)) && from == path_id(owner, views(e.path@).take(j - 1))
}

/// The entry's node is not yet in `g` and differs from its package and from
/// the IDs of the proper prefixes of its path, so Pass A makes it from the entry.
pub open spec fn entry_fresh(g: Graph, desc: ApiDescription, pkg: Seq<char>, e: PathSummary) -> bool {
    let owner = entry_package(desc, pkg, e);
    let id = path_id(owner, views(e.path@));
    &&& !has_node(g, id)
    &&& id != owner
    &&& forall|j: int| 1 <= j < e.path@.len() ==> #[trigger] path_id(owner, views(e.path@).take(j)) != id
}

proof fn lemma_path_item_fresh(g0: Graph, g1: Graph, g2: Graph, desc: ApiDescription, pkg: Seq<char>, e: PathSummary, owner: Seq<char>)
    requires
        extends(g0, g1),
        extends(g1, g2),
        owner == entry_package(desc, pkg, e),
        entry_fresh(g0, desc, pkg, e),
        g1.nodes@.len() == g0.nodes@.len() || (g1.nodes@.len() == g0.nodes@.len() + 1 && g1.nodes@.last().id@ == owner),
        forall|i: int|
            g1.nodes@.len() <= i < g2.nodes@.len() ==> exists|j: int| 1 <= j < e.path@.len() && (#[trigger] g2.nodes@[i]).id@ == #[trigger] path_id(owner, views(e.path@).take(j)),
    ensures
        !has_node(g2, path_id(owner, views(e.path@))),
{
    let id = path_id(owner, views(e.path@));
    if has_node(g2, id) {
        let i = choose|i: int| 0 <= i < g2.nodes@.len() && (#[trigger] g2.nodes@[i]).id@ == id;
        if i < g1.nodes@.len() {
            assert(g2.nodes@.take(g1.nodes@.len() as int)[i] == g2.nodes@[i]);
            if i < g0.nodes@.len() {
                assert(g1.nodes@.take(g0.nodes@.len() as int)[i] == g1.nodes@[i]);
                assert(has_node(g0, id));
            } else {
                assert(g1.nodes@[i] == g1.nodes@.last());
            }
        } else {
            let j = choose|j: int| 1 <= j < e.path@.len() && (#[trigger] g2.nodes@[i]).id@ == #[trigger] path_id(owner, views(e.path@).take(j));
        }
    }
}

proof fn lemma_path_item_edges(g0: Graph, g1: Graph, g2: Graph, g: Graph, desc: ApiDescription, pkg: Seq<char>, e: PathSummary, owner: Seq<char>)
    requires
        extends(g0, g1),
        extends(g1, g2),
        extends(g2, g),
        e.path@.len() > 0,
        owner == entry_package(desc, pkg, e),
        g1.edges@ == g0.edges@,
        new_edges_satisfy(g1, g2, |x: Edge| x.kind == EdgeKind::Contains && exists|j: int|
            1 <= j < e.path@.len() && x.to@ == #[trigger] path_id(owner, views(e.path@).take(j)) && x.from@ == path_id(owner, views(e.path@).take(j - 1))),
        new_edges_satisfy(g2, g, |x: Edge| x.kind == EdgeKind::Contains
            && x.from@ == parent_id_of(owner, views(e.path@))->0 && x.to@ == path_id(owner, views(e.path@))),
    ensures
        new_edges_satisfy(g0, g, |x: Edge| x.kind == EdgeKind::Contains && prefix_contains(desc, pkg, e, x.from@, x.to@)),
{
    let p = views(e.path@);
    let n = p.len() as int;
    let r = |x: Edge| x.kind == EdgeKind::Contains && prefix_contains(desc, pkg, e, x.from@, x.to@);
    let a = |x: Edge| x.kind == EdgeKind::Contains && exists|j: int|
        1 <= j < e.path@.len() && x.to@ == #[trigger] path_id(owner, views(e.path@).take(j)) && x.from@ == path_id(owner, views(e.path@).take(j - 1));
    let b = |x: Edge| x.kind == EdgeKind::Contains
        && x.from@ == parent_id_of(owner, views(e.path@))->0 && x.to@ == path_id(owner, views(e.path@));
    assert forall|x: Edge| #[trigger] a(x) implies r(x) by {
        let j = choose|j: int| 1 <= j < e.path@.len() && x.to@ == #[trigger] path_id(owner, views(e.path@).take(j)) && x.from@ == path_id(owner, views(e.path@).take(j - 1));
    }
    assert(p.take(n) =~= p);
    assert(p.take(0) =~= Seq::<Seq<char>>::empty());
    assert(path_id(owner, p.take(0)) == owner) by {
        assert(seq![owner] + crate::ids::strip_package(owner, p.take(0)) =~= seq![owner]);
    }
    if n >= 2 {
        assert(p.drop_last() =~= p.take(n - 1));
    }
    assert forall|x: Edge| #[trigger] b(x) implies r(x) by {
        assert(x.to@ == path_id(owner, p.take(n)));
    }
    lemma_new_edges_weaken(g1, g2, a, r);
    lemma_new_edges_weaken(g2, g, b, r);
    lemma_new_edges_none(g0, g1, r);
    lemma_new_edges_chain(g0, g1, g2, r, r, r);
    crate::graph::lemma_extends_trans(g0, g1, g2);
    lemma_new_edges_chain(g0, g2, g, r, r, r);
}

proof fn lemma_path_item_nodes(g0: Graph, g1: Graph, g2: Graph, g: Graph, desc: ApiDescription, pkg: Seq<char>, e: PathSummary, owner: Seq<char>)
    requires
        extends(g0, g1),
        extends(g1, g2),
        extends(g2, g),
        owner == entry_package(desc, pkg, e),
        g1.nodes@.len() == g0.nodes@.len() || (g1.nodes@.len() == g0.nodes@.len() + 1 && g1.nodes@.last().id@ == owner
            && g1.nodes@.last().parent_impl is None),
        forall|i: int|
            g1.nodes@.len() <= i < g2.nodes@.len() ==> (#[trigger] g2.nodes@[i]).parent_impl is None
                && exists|j: int| 1 <= j < e.path@.len() && g2.nodes@[i].id@ == #[trigger] path_id(owner, views(e.path@).take(j)),
        forall|i: int| g2.nodes@.len() <= i < g.nodes@.len() ==> (#[trigger] g.nodes@[i]).parent_impl is None
            && g.nodes@[i].id@ == path_id(owner, views(e.path@)),
    ensures
        forall|i: int| g0.nodes@.len() <= i < g.nodes@.len() ==> (#[trigger] g.nodes@[i]).parent_impl is None
            && path_origin(desc, pkg, e, g.nodes@[i].id@),
{
    let p = views(e.path@);
    assert forall|i: int| g0.nodes@.len() <= i < g.nodes@.len() implies (#[trigger] g.nodes@[i]).parent_impl is None
        && path_origin(desc, pkg, e, g.nodes@[i].id@) by {
        if i < g2.nodes@.len() {
            assert(g.nodes@.take(g2.nodes@.len() as int)[i] == g.nodes@[i]);
            if i < g1.nodes@.len() {
                assert(g2.nodes@.take(g1.nodes@.len() as int)[i] == g2.nodes@[i]);
                assert(g1.nodes@[i] == g1.nodes@.last());
            } else {
                let j = choose|j: int| 1 <= j < p.len() && g2.nodes@[i].id@ == #[trigger] path_id(owner, p.take(j));
            }
        } else {
            assert(p.take(p.len() as int) =~= p);
            assert(g.nodes@[i].id@ == path_id(owner, p.take(p.len() as int)));
        }
    }
}

/// The item's node and the `Contains` edge from its parent, once the owner
/// and the module chain exist.
fn add_item_node(g: &mut Graph, desc: &ApiDescription, pkg: &str, owner: &str, e: &PathSummary, kind: NodeKind, is_external: bool)
    requires
        wf(*old(g)),
        e.path@.len() > 0,
        owner@ == entry_package(*desc, pkg@, *e),
        has_node(*old(g), owner@),
        e.path@.len() >= 2 ==> has_node(*old(g), path_id(owner@, views(e.path@).drop_last())),
    ensures
        wf(*final(g)),
        extends(*old(g), *final(g)),
        has_node(*final(g), owner@),
        has_node(*final(g), path_id(owner@, views(e.path@))),
        rooted(*old(g), parent_id_of(owner@, views(e.path@))->0) ==> rooted(*final(g), path_id(owner@, views(e.path@))),
        forall|i: int| old(g).nodes@.len() <= i < final(g).nodes@.len() ==> (#[trigger] final(g).nodes@[i]).parent_impl is None
            && final(g).nodes@[i].id@ == path_id(owner@, views(e.path@)),
        !has_node(*old(g), path_id(owner@, views(e.path@))) ==> final(g).nodes@.len() == old(g).nodes@.len() + 1
            && entry_node_ok(final(g).nodes@[old(g).nodes@.len() as int], *desc, pkg@, *e, kind, is_external),
        new_edges_satisfy(*old(g), *final(g), |x: Edge| x.kind == EdgeKind::Contains
            && x.from@ == parent_id_of(owner@, views(e.path@))->0 && x.to@ == path_id(owner@, views(e.path@))),
{
    let ghost g2 = *g;
    let node_id = join_path(owner, e.path.as_slice());
    let name = e.path[e.path.len() - 1].clone();
    let item = match lookup_item(desc, e.id) {
        Some(i) => Some(&desc.index[i]),
        None => None,
    };
    let node = item_node(desc, pkg, node_id.clone(), name, kind, is_external, item);
    let ghost nn = node;
    assert(entry_node_ok(nn, *desc, pkg@, *e, kind, is_external));
    g.insert_node(node);
    let ghost g3 = *g;
    proof {
        lemma_extends_facts(g2, g3);
    }
    let parent = parent_path_id(owner, e.path.as_slice());
    if let Some(parent_id) = parent {
        if !str_eq(parent_id.as_str(), node_id.as_str()) {
            let ghost pv = parent_id@;
            g.push_edge(parent_id, node_id.clone(), EdgeKind::Contains, Confidence::Static);
            proof {
                lemma_extends_facts(g3, *g);
                if rooted(g2, pv) {
                    lemma_rooted_mono(g2, g3, pv);
                    if has_edge(*g, pv, node_id@, EdgeKind::Contains) {
                        lemma_edge_parent(*g, pv, node_id@);
                    } else if has_contains_child(g3, node_id@) {
                        lemma_contains_roots(g3, node_id@);
                        lemma_rooted_mono(g3, *g, node_id@);
                    } else {
                        lemma_rooted_mono(g3, *g, node_id@);
                    }
                }
            }
        } else {
            proof {
                lemma_extends_refl(*g);
                if rooted(g2, parent_id@) {
                    lemma_rooted_mono(g2, *g, parent_id@);
                }
            }
        }
    } else {
        proof { lemma_extends_refl(*g); }
    }
    proof {
        lemma_extends_trans(g2, g3, *g);
        lemma_extends_facts(g3, *g);
        assert forall|i: int| g2.nodes@.len() <= i < g.nodes@.len() implies (#[trigger] g.nodes@[i]).parent_impl is None by {
            assert(g.nodes@[i] == g3.nodes@[i]);
        }
        assert(g3.edges@ == g2.edges@);
        assert forall|j: int| g2.edges@.len() <= j < g.edges@.len() implies (|x: Edge| x.kind == EdgeKind::Contains
            && x.from@ == parent_id_of(owner@, views(e.path@))->0 && x.to@ == path_id(owner@, views(e.path@)))(#[trigger] g.edges@[j]) by {
            assert(j == g3.edges@.len());
        }
    }
}

/// The node made for a path-table entry: its ID, kind, name (the path's last
/// segment), origin flag, no impl fields, and the content of the first index
/// item with the entry's ID (or nothing when there is none).
pub open spec fn entry_node_ok(n: Node, desc: ApiDescription, pkg: Seq<char>, e: PathSummary, kind: NodeKind, is_external: bool) -> bool {
    &&& n.id@ == path_id(entry_package(desc, pkg, e), views(e.path@))
    &&& n.kind == kind
    &&& n.name@ == e.path@.last()@
    &&& n.is_external == is_external
    &&& n.parent_impl is None && n.impl_type is None && n.impl_trait is None
    &&& match item_with_id(desc.index@, e.id) {
        Some(it) => node_from_item(n, desc, pkg, it),
        None => n.visibility == Visibility::Unknown && n.span is None && n.attrs@.len() == 0 && n.fields is None
            && n.variants is None && n.signature is None && n.generics is None && n.where_clause is None && n.docs is None
            && n.doc_links@.len() == 0 && n.bound_links@.len() == 0,
    }
}

/// The first module of the index that lists `id` among its children.
pub open spec fn module_parent(index: Seq<ApiItem>, id: u32) -> Option<u32>
    decreases index.len(),
{
    if index.len() == 0 {
        None
    } else {
        match index[0].inner {
            ItemInner::Module { items } => if items@.contains(id) {
                Some(index[0].id)
            } else {
                module_parent(index.drop_first(), id)
            },
            _ => module_parent(index.drop_first(), id),
        }
    }
}

/// The first module of the index that lists `id` among its children.
pub fn parent_module_of(desc: &ApiDescription, id: u32) -> (r: Option<u32>)
    ensures
        r == module_parent(desc.index@, id),
{
    let ghost idx = desc.index@;
    assert(idx.subrange(0, idx.len() as int) =~= idx);
    let mut i: usize = 0;
    while i < desc.index.len()
        invariant
            i <= idx.len(),
            idx == desc.index@,
            module_parent(idx, id) == module_parent(idx.subrange(i as int, idx.len() as int), id),
        decreases idx.len() - i,
    {
        let ghost rest = idx.subrange(i as int, idx.len() as int);
        assert(rest.drop_first() =~= idx.subrange(i as int + 1, idx.len() as int));
        assert(rest[0] == idx[i as int]);
        if let ItemInner::Module { items } = &desc.index[i].inner {
            if contains_id(items, id) {
                return Some(desc.index[i].id);
            }
        }
        i = i + 1;
    }
    None
}

/// The display name of the implementing type: the last segment of its ID, or `type`.
pub open spec fn self_name_text(desc: ApiDescription, pkg: Seq<char>, for_id: Option<u32>) -> Seq<char> {
    match for_id {
        Some(t) => match resolved(desc, pkg, t) {
            Some(id) => last_segment_of(id),
            None => "type"@,
        },
        None => "type"@,
    }
}

/// The display name of an impl block: `impl Trait for Type` or `impl Type`.
pub open spec fn impl_name_text(desc: ApiDescription, pkg: Seq<char>, trait_: Option<crate::api::TraitRef>, for_id: Option<u32>) -> Seq<char> {
    match trait_ {
        Some(t) => "impl "@ + match resolved(desc, pkg, t.id) {
            Some(id) => last_segment_of(id),
            None => last_segment_of(t.path@),
        } + " for "@ + self_name_text(desc, pkg, for_id),
        None => "impl "@ + self_name_text(desc, pkg, for_id),
    }
}

/// The display name of an impl block: `impl Trait for Type` or `impl Type`.
pub fn impl_node_name(desc: &ApiDescription, pkg: &str, trait_: &Option<crate::api::TraitRef>, for_id: Option<u32>) -> (r: String)
    ensures
        r@ == impl_name_text(*desc, pkg@, *trait_, for_id),
{
    let self_name = match for_id {
        Some(t) => match resolve_id(desc, pkg, t) {
            Some(id) => last_segment(id.as_str()),
            None => String::from_str("type"),
        },
        None => String::from_str("type"),
    };
    let mut out = String::from_str("impl ");
    match trait_ {
        Some(t) => {
            let trait_name = match resolve_id(desc, pkg, t.id) {
                Some(id) => last_segment(id.as_str()),
                None => last_segment(t.path.as_str()),
            };
            out.append(trait_name.as_str());
            out.append(" for ");
            out.append(self_name.as_str());
        },
        None => {
            out.append(self_name.as_str());
        },
    }
    out
}

/// The node ID of the trait an impl block implements, when it resolves.
pub open spec fn impl_trait_of(desc: ApiDescription, pkg: Seq<char>, trait_: Option<crate::api::TraitRef>) -> Option<Seq<char>> {
    match trait_ {
        Some(t) => resolved(desc, pkg, t.id),
        None => None,
    }
}

/// Some node has ID `id` and the given `impl_trait`.
pub open spec fn has_impl_node_with_trait(g: Graph, id: Seq<char>, t: Option<Seq<char>>, ty: ImplType) -> bool {
    exists|i: int|
        0 <= i < g.nodes@.len() && (#[trigger] g.nodes@[i]).id@ == id && g.nodes@[i].kind == NodeKind::Impl
            && opt_view(g.nodes@[i].impl_trait) == t && g.nodes@[i].impl_type == Some(ty) && g.nodes@[i].parent_impl is None
}

/// The kind of impl a trait reference makes.
pub open spec fn impl_type_of(trait_: Option<crate::api::TraitRef>) -> ImplType {
    if trait_ is Some { ImplType::Trait } else { ImplType::Inherent }
}

/// An edge an impl item may add: its own edges and its children's `Defines`.
pub open spec fn impl_edge(desc: ApiDescription, pkg: Seq<char>, it: ApiItem, x: Edge) -> bool {
    match it.inner {
        ItemInner::Impl { trait_, for_id, items } => {
            let id = impl_id(crate_name_of(desc.external_crates@, it.crate_id, pkg), it.id as nat);
            impl_own_edge(desc, pkg, it.id, id, trait_, for_id, x) || child_edge(id, items@, x)
        },
        _ => false,
    }
}

/// The node for an impl block.
fn impl_node(
    desc: &ApiDescription,
    pkg: &str,
    impl_id: String,
    item: &ApiItem,
    trait_: &Option<crate::api::TraitRef>,
    for_id: Option<u32>,
    is_external: bool,
) -> (n: Node)
    ensures
        n.id == impl_id,
        n.kind == NodeKind::Impl,
        n.parent_impl is None,
        opt_view(n.impl_trait) == impl_trait_of(*desc, pkg@, *trait_),
        n.impl_type == Some(if trait_ is Some { ImplType::Trait } else { ImplType::Inherent }),
        n.is_external == is_external,
        n.name@ == impl_name_text(*desc, pkg@, *trait_, for_id),
        n.visibility == item.visibility,
        n.span == item.span,
        crate::attrs::attrs_text_ok(n.attrs@, item.attrs@),
        n.fields is None && n.variants is None && n.signature is None,
        crate::types::opt_views(n.generics) == match item.generics {
            Some(g) => crate::types::generics_text(g),
            None => None,
        },
        crate::types::opt_views(n.where_clause) == match item.generics {
            Some(g) => crate::types::where_clause_text(g),
            None => None,
        },
        n.docs == item.docs,
        link_views(n.doc_links@) == resolved_links(*desc, pkg@, pair_views(item.doc_links@)),
        link_views(n.bound_links@) == resolved_links(*desc, pkg@, crate::api::item_link_pairs(*item)),
{
    let impl_trait = match trait_ {
        Some(t) => resolve_id(desc, pkg, t.id),
        None => None,
    };
    let impl_type = match trait_ {
        Some(_) => ImplType::Trait,
        None => ImplType::Inherent,
    };
    Node {
        id: impl_id,
        name: impl_node_name(desc, pkg, trait_, for_id),
        kind: NodeKind::Impl,
        visibility: item.visibility,
        span: copy_span(&item.span),
        attrs: crate::attrs::format_attributes(&item.attrs),
        is_external,
        fields: None,
        variants: None,
        signature: None,
        generics: crate::api::item_generics_text(item),
        where_clause: crate::api::item_where_text(item),
        docs: copy_opt_string(&item.docs),
        doc_links: resolve_links(desc, pkg, &item.doc_links),
        bound_links: resolve_links(desc, pkg, &crate::api::collect_item_link_pairs(item)),
        impl_type: Some(impl_type),
        parent_impl: None,
        impl_trait,
    }
}

/// The node for an associated item of an impl block.
fn assoc_node(desc: &ApiDescription, pkg: &str, node_id: String, kind: NodeKind, item: &ApiItem, owner: &String, is_external: bool) -> (n: Node)
    ensures
        n.id == node_id,
        n.kind == kind,
        n.parent_impl == Some(*owner),
        n.is_external == is_external,
        n.impl_type is None && n.impl_trait is None,
        n.name@ == match item.name { Some(x) => x@, None => node_id@ },
        node_from_item(n, *desc, pkg@, *item),
{
    let name = match &item.name {
        Some(nm) => nm.clone(),
        None => node_id.clone(),
    };
    Node {
        id: node_id,
        name,
        kind,
        visibility: item.visibility,
        span: copy_span(&item.span),
        attrs: crate::attrs::format_attributes(&item.attrs),
        is_external,
        fields: crate::api::fields_info(&item.payload),
        variants: crate::api::variants_info(&item.payload),
        signature: crate::api::signature_info(&item.payload),
        generics: crate::api::item_generics_text(item),
        where_clause: crate::api::item_where_text(item),
        docs: copy_opt_string(&item.docs),
        doc_links: resolve_links(desc, pkg, &item.doc_links),
        bound_links: resolve_links(desc, pkg, &crate::api::collect_item_link_pairs(item)),
        impl_type: None,
        parent_impl: Some(owner.clone()),
        impl_trait: None,
    }
}

/// The node kind of an associated item of an impl block, if it gets one.
pub open spec fn assoc_kind(inner: ItemInner) -> Option<NodeKind> {
    match inner {
        ItemInner::Function => Some(NodeKind::Method),
        ItemInner::TypeAlias => Some(NodeKind::TypeAlias),
        _ => None,
    }
}

/// The item with ID `id` is a function or type alias and so gets a per-impl node.
pub open spec fn gets_assoc_node(index: Seq<ApiItem>, id: u32) -> bool {
    match item_with_id(index, id) {
        Some(it) => assoc_kind(it.inner) is Some,
        None => false,
    }
}

/// The first index item with ID `id`.
pub open spec fn item_with_id(index: Seq<ApiItem>, id: u32) -> Option<ApiItem>
    decreases index.len(),
{
    if index.len() == 0 {
        None
    } else if index[0].id == id {
        Some(index[0])
    } else {
        item_with_id(index.drop_first(), id)
    }
}

/// The first index item with ID `id`.
pub fn lookup_item(desc: &ApiDescription, id: u32) -> (r: Option<usize>)
    ensures
        r matches Some(i) ==> i < desc.index@.len() && item_with_id(desc.index@, id) == Some(desc.index@[i as int]),
        r is None ==> item_with_id(desc.index@, id) is None,
{
    let ghost idx = desc.index@;
    assert(idx.subrange(0, idx.len() as int) =~= idx);
    let mut i: usize = 0;
    while i < desc.index.len()
        invariant
            i <= idx.len(),
            idx == desc.index@,
            item_with_id(idx, id) == item_with_id(idx.subrange(i as int, idx.len() as int), id),
        decreases idx.len() - i,
    {
        let ghost rest = idx.subrange(i as int, idx.len() as int);
        assert(rest.drop_first() =~= idx.subrange(i as int + 1, idx.len() as int));
        assert(rest[0] == idx[i as int]);
        if desc.index[i].id == id {
            return Some(i);
        }
        i = i + 1;
    }
    None
}

/// The per-impl nodes of an impl block's associated functions and type
/// aliases, each defined by the impl node.
fn add_impl_children(g: &mut Graph, desc: &ApiDescription, pkg: &str, impl_id: &String, items: &Vec<u32>, is_external: bool)
    requires
        wf(*old(g)),
        has_node_of_kind(*old(g), impl_id@, NodeKind::Impl),
    ensures
        wf(*final(g)),
        extends(*old(g), *final(g)),
        forall|k: int|
            0 <= k < items@.len() && #[trigger] gets_assoc_node(desc.index@, items@[k])
                ==> has_node(*final(g), method_id(impl_id@, items@[k] as nat)) && has_edge(
                *final(g),
                impl_id@,
                method_id(impl_id@, items@[k] as nat),
                EdgeKind::Defines,
            ),
        children_origin(*old(g), *final(g), impl_id@, items@),
        forall|k: int|
            0 <= k < items@.len() && #[trigger] gets_assoc_node(desc.index@, items@[k]) && !has_node(*old(g), method_id(impl_id@, items@[k] as nat))
                ==> has_child_node(*final(g), *desc, pkg@, impl_id@, items@[k]),
        new_edges_satisfy(*old(g), *final(g), |x: Edge| child_edge(impl_id@, items@, x)),
{
    let ghost g0 = *g;
    proof { lemma_extends_refl(*g); }
    let mut k: usize = 0;
    while k < items.len()
        invariant
            children_origin(g0, *g, impl_id@, items@),
            forall|i: int| #![trigger g.nodes@[i]] g0.nodes@.len() <= i < g.nodes@.len() ==> exists|k2: int|
                0 <= k2 < k && g.nodes@[i].id@ == method_id(impl_id@, #[trigger] items@[k2] as nat)
                    && gets_assoc_node(desc.index@, items@[k2]),
            k <= items@.len(),
            wf(*g),
            extends(g0, *g),
            has_node_of_kind(*g, impl_id@, NodeKind::Impl),
            forall|k2: int|
                0 <= k2 < k && #[trigger] gets_assoc_node(desc.index@, items@[k2])
                    ==> has_node(*g, method_id(impl_id@, items@[k2] as nat)) && has_edge(
                    *g,
                    impl_id@,
                    method_id(impl_id@, items@[k2] as nat),
                    EdgeKind::Defines,
                ),
            forall|k2: int|
                0 <= k2 < k && #[trigger] gets_assoc_node(desc.index@, items@[k2]) && !has_node(g0, method_id(impl_id@, items@[k2] as nat))
                    ==> has_child_node(*g, *desc, pkg@, impl_id@, items@[k2]),
            new_edges_satisfy(g0, *g, |x: Edge| child_edge(impl_id@, items@, x)),
        decreases items@.len() - k,
    {
        let ghost g1 = *g;
        let aid = items[k];
        let ghost mk = method_id(impl_id@, aid as nat);
        if let Some(i) = lookup_item(desc, aid) {
            let it = &desc.index[i];
            let kind = match &it.inner {
                ItemInner::Function => Some(NodeKind::Method),
                ItemInner::TypeAlias => Some(NodeKind::TypeAlias),
                _ => None,
            };
            if let Some(kind) = kind {
                let node_id = method_node_id(impl_id.as_str(), aid);
                proof {
                    lemma_method_id_not_impl(impl_id@, aid as nat);
                }
                let node = assoc_node(desc, pkg, node_id.clone(), kind, it, impl_id, is_external);
                let ghost nn = node;
                g.insert_node(node);
                let ghost g2 = *g;
                proof {
                    lemma_extends_facts(g1, g2);
                    if !has_node(g1, mk) {
                        assert(g2.nodes@[g1.nodes@.len() as int] == nn);
                        assert(has_child_node(g2, *desc, pkg@, impl_id@, aid));
                    }
                }
                g.push_edge(impl_id.clone(), node_id, EdgeKind::Defines, Confidence::Static);
                proof {
                    lemma_extends_facts(g2, *g);
                    lemma_extends_trans(g1, g2, *g);
                    if !has_node(g1, mk) {
                        lemma_child_node_kept(g2, *g, *desc, pkg@, impl_id@, aid);
                    }
                    assert(g2.edges@ == g1.edges@);
                    assert forall|j: int| g1.edges@.len() <= j < g.edges@.len() implies child_edge(impl_id@, items@, #[trigger] g.edges@[j]) by {
                        assert(j == g2.edges@.len());
                        assert(g.edges@[j].to@ == mk && g.edges@[j].from@ == impl_id@ && g.edges@[j].kind == EdgeKind::Defines);
                        assert(items@[k as int] == aid);
                        assert(g.edges@[j].to@ == method_id(impl_id@, items@[k as int] as nat));
                        assert(0 <= k < items@.len());
                    }
                }
            } else {
                proof { lemma_extends_refl(*g); }
            }
        } else {
            proof { lemma_extends_refl(*g); }
        }
        proof {
            lemma_extends_facts(g1, *g);
            lemma_extends_trans(g0, g1, *g);
            lemma_new_edges_chain(g0, g1, *g, |x: Edge| child_edge(impl_id@, items@, x), |x: Edge| child_edge(impl_id@, items@, x), |x: Edge| child_edge(impl_id@, items@, x));
            assert forall|i: int| #![trigger g.nodes@[i]] g0.nodes@.len() <= i < g.nodes@.len() implies exists|k2: int|
                0 <= k2 < items@.len() && g.nodes@[i].id@ == method_id(impl_id@, #[trigger] items@[k2] as nat) by {
                if i < g1.nodes@.len() {
                    assert(g.nodes@.take(g1.nodes@.len() as int)[i] == g.nodes@[i]);
                    assert(g1.nodes@[i] == g.nodes@[i]);
                } else {
                    assert(g.nodes@[i].id@ == method_id(impl_id@, items@[k as int] as nat));
                }
            }
            assert forall|i: int| #![trigger g.nodes@[i]] g0.nodes@.len() <= i < g.nodes@.len() implies exists|k2: int|
                0 <= k2 < k + 1 && g.nodes@[i].id@ == method_id(impl_id@, #[trigger] items@[k2] as nat)
                    && gets_assoc_node(desc.index@, items@[k2]) by {
                if i < g1.nodes@.len() {
                    assert(g.nodes@.take(g1.nodes@.len() as int)[i] == g.nodes@[i]);
                    assert(g1.nodes@[i] == g.nodes@[i]);
                } else {
                    assert(g.nodes@[i].id@ == method_id(impl_id@, items@[k as int] as nat));
                }
            }
            assert forall|k2: int|
                0 <= k2 < k + 1 && #[trigger] gets_assoc_node(desc.index@, items@[k2]) && !has_node(g0, method_id(impl_id@, items@[k2] as nat))
                    implies has_child_node(*g, *desc, pkg@, impl_id@, items@[k2]) by {
                if k2 < k {
                    lemma_child_node_kept(g1, *g, *desc, pkg@, impl_id@, items@[k2]);
                } else if has_node(g1, mk) {
                    let i = choose|i: int| 0 <= i < g1.nodes@.len() && (#[trigger] g1.nodes@[i]).id@ == mk;
                    assert(g1.nodes@.take(g0.nodes@.len() as int) == g0.nodes@);
                    if i < g0.nodes@.len() {
                        assert(g1.nodes@.take(g0.nodes@.len() as int)[i] == g1.nodes@[i]);
                        assert(has_node(g0, mk));
                    } else {
                        let k3 = choose|k3: int| 0 <= k3 < k && g1.nodes@[i].id@ == method_id(impl_id@, #[trigger] items@[k3] as nat)
                            && gets_assoc_node(desc.index@, items@[k3]);
                        if items@[k3] != aid {
                            crate::ids::lemma_method_ids_distinct(impl_id@, items@[k3] as nat, impl_id@, aid as nat);
                        }
                        assert(items@[k3] == items@[k2]);
                        lemma_child_node_kept(g1, *g, *desc, pkg@, impl_id@, items@[k3]);
                    }
                }
            }
        }
        k = k + 1;
    }
}

/// A `Defines` edge from impl `owner` to the per-impl node of one of `items`.
pub open spec fn child_edge(owner: Seq<char>, items: Seq<u32>, x: Edge) -> bool {
    x.kind == EdgeKind::Defines && x.from@ == owner && exists|k: int| 0 <= k < items.len() && x.to@ == method_id(owner, #[trigger] items[k] as nat)
}

/// The per-impl node made for associated item `a` of impl `owner`: its kind,
/// `parent_impl`, no impl fields, and the content of the first index item with ID `a`.
pub open spec fn child_node_ok(n: Node, desc: ApiDescription, pkg: Seq<char>, owner: Seq<char>, a: u32) -> bool {
    match item_with_id(desc.index@, a) {
        Some(it) => {
            &&& assoc_kind(it.inner) == Some(n.kind)
            &&& opt_view(n.parent_impl) == Some(owner)
            &&& n.impl_type is None && n.impl_trait is None
            &&& n.name@ == match it.name { Some(x) => x@, None => method_id(owner, a as nat) }
            &&& node_from_item(n, desc, pkg, it)
        },
        None => false,
    }
}

/// `g` has the per-impl node of associated item `a` of impl `owner`, as made from that item.
pub open spec fn has_child_node(g: Graph, desc: ApiDescription, pkg: Seq<char>, owner: Seq<char>, a: u32) -> bool {
    exists|i: int|
        0 <= i < g.nodes@.len() && (#[trigger] g.nodes@[i]).id@ == method_id(owner, a as nat) && child_node_ok(g.nodes@[i], desc, pkg, owner, a)
}

proof fn lemma_child_node_kept(g1: Graph, g2: Graph, desc: ApiDescription, pkg: Seq<char>, owner: Seq<char>, a: u32)
    requires
        extends(g1, g2),
        has_child_node(g1, desc, pkg, owner, a),
    ensures
        has_child_node(g2, desc, pkg, owner, a),
{
    let i = choose|i: int|
        0 <= i < g1.nodes@.len() && (#[trigger] g1.nodes@[i]).id@ == method_id(owner, a as nat) && child_node_ok(g1.nodes@[i], desc, pkg, owner, a);
    assert(g2.nodes@.take(g1.nodes@.len() as int)[i] == g2.nodes@[i]);
}

/// The nodes `g` has beyond `g0` are per-impl children of `owner` for items among `items`.
pub open spec fn children_origin(g0: Graph, g: Graph, owner: Seq<char>, items: Seq<u32>) -> bool {
    forall|i: int| #![trigger g.nodes@[i]]
        g0.nodes@.len() <= i < g.nodes@.len() ==> exists|k: int|
            0 <= k < items.len() && g.nodes@[i].id@ == method_id(owner, #[trigger] items[k] as nat)
}

/// A per-impl item ID differs from the ID of its impl.
proof fn lemma_method_id_not_impl(owner: Seq<char>, n: nat)
    ensures
        method_id(owner, n) != owner,
{
    assert(method_id(owner, n).len() > owner.len());
}

/// The implementing type `ty`, when it was a node of `g0`, defines impl `id` in `g`.
pub open spec fn defines_ok(g0: Graph, g: Graph, ty: Option<Seq<char>>, id: Seq<char>) -> bool {
    match ty {
        Some(t) => has_node(g0, t) && t != id ==> has_edge(g, t, id, EdgeKind::Defines),
        None => true,
    }
}

/// The implementing type `ty` implements trait `tr` in `g`, when both were nodes of `g0`.
pub open spec fn implements_ok(g0: Graph, g: Graph, ty: Option<Seq<char>>, tr: Option<Seq<char>>) -> bool {
    match (ty, tr) {
        (Some(t), Some(r)) => has_node(g0, t) && has_node(g0, r) && t != r ==> has_edge(g, t, r, EdgeKind::Implements),
        _ => true,
    }
}

/// What an impl block adds to a graph that had `g0` before: the impl node
/// with its implemented trait (when the node is new), `Defines` from the
/// implementing type and `Implements` from the type to the trait (when both
/// ends were nodes before), and its per-impl children.
pub open spec fn impl_facts(g0: Graph, g: Graph, desc: ApiDescription, pkg: Seq<char>, item: ApiItem) -> bool {
    match item.inner {
        ItemInner::Impl { trait_, for_id, items } => {
            let id = impl_id(crate_name_of(desc.external_crates@, item.crate_id, pkg), item.id as nat);
            let tr = impl_trait_of(desc, pkg, trait_);
            let ty = match for_id { Some(f) => resolved(desc, pkg, f), None => None };
            &&& has_node(g, id)
            &&& !has_node(g0, id) ==> has_impl_node_with_trait(g, id, tr, impl_type_of(trait_))
            &&& defines_ok(g0, g, ty, id)
            &&& implements_ok(g0, g, ty, tr)
            &&& !has_node(g0, id) ==> forall|k: int|
                0 <= k < items@.len() && #[trigger] gets_assoc_node(desc.index@, items@[k]) ==> has_node(
                    g,
                    method_id(id, items@[k] as nat),
                ) && has_edge(g, id, method_id(id, items@[k] as nat), EdgeKind::Defines)
            &&& !has_node(g0, id) ==> forall|k: int|
                0 <= k < items@.len() && #[trigger] gets_assoc_node(desc.index@, items@[k]) && !has_node(g0, method_id(id, items@[k] as nat))
                    ==> has_child_node(g, desc, pkg, id, items@[k])
        },
        _ => g == g0,
    }
}

/// Pass B for an impl block: its node, the `Contains` edge from its module,
/// `Defines` from the implementing type, `Implements` from the type to the
/// trait, and a per-impl node for each associated function and type alias.
/// Returns the impl node's ID for impl items.
pub fn add_impl(g: &mut Graph, desc: &ApiDescription, pkg: &str, members: &Vec<String>, item: &ApiItem) -> (owner: Option<String>)
    requires
        wf(*old(g)),
    ensures
        wf(*final(g)),
        extends(*old(g), *final(g)),
        impl_facts(*old(g), *final(g), *desc, pkg@, *item),
        item.inner is Impl <==> owner is Some,
        owner matches Some(o) ==> o@ == impl_id(crate_name_of(desc.external_crates@, item.crate_id, pkg@), item.id as nat),
        forall|i: int| #![trigger final(g).nodes@[i]]
            old(g).nodes@.len() <= i < final(g).nodes@.len() ==> impl_origin(*desc, pkg@, *item, final(g).nodes@[i].id@),
        new_edges_satisfy(*old(g), *final(g), |x: Edge| impl_edge(*desc, pkg@, *item, x)),
{
    proof {
        lemma_extends_refl(*g);
        lemma_new_edges_none(*g, *g, |x: Edge| impl_edge(*desc, pkg@, *item, x));
    }
    let (trait_, for_id, items) = match &item.inner {
        ItemInner::Impl { trait_, for_id, items } => (trait_, *for_id, items),
        _ => return None,
    };
    let ghost g0 = *g;
    let owner = crate_name_for_id(desc, item.crate_id, pkg);
    let is_external = !contains_name(members, owner.as_str());
    ensure_crate_node(g, owner.as_str(), Visibility::Public, is_external);
    let ghost g1 = *g;
    proof { lemma_extends_facts(g0, g1); }
    let id = impl_node_id(owner.as_str(), item.id);
    let existed = g.contains_node(id.as_str());
    proof {
        if !has_node(g0, id@) && has_node(g1, id@) {
            let i = choose|i: int| 0 <= i < g1.nodes@.len() && (#[trigger] g1.nodes@[i]).id@ == id@;
            if i < g0.nodes@.len() {
                assert(g1.nodes@.take(g0.nodes@.len() as int)[i] == g1.nodes@[i]);
                assert(has_node(g0, id@));
            } else {
                assert(g1.nodes@[i] == g1.nodes@.last());
                assert(id@ == owner@);
                assert(id@.len() > owner@.len());
            }
        }
    }
    if !existed {
        let node = impl_node(desc, pkg, id.clone(), item, trait_, for_id, is_external);
        g.insert_node(node);
        proof {
            let n = g.nodes@.len() - 1;
            assert(g.nodes@[n].id@ == id@);
        }
    } else {
        proof { lemma_extends_refl(*g); }
    }
    let ghost g2 = *g;
    proof {
        lemma_extends_facts(g1, g2);
        lemma_extends_trans(g0, g1, g2);
        if !has_node(g0, id@) {
            let n = g2.nodes@.len() - 1;
            assert(has_impl_node_with_trait(g2, id@, impl_trait_of(*desc, pkg@, *trait_), impl_type_of(*trait_)));
            assert(has_node_of_kind(g2, id@, NodeKind::Impl));
        }
    }
    add_impl_edges(g, desc, pkg, &id, item.id, trait_, for_id);
    let ghost g3 = *g;
    proof {
        lemma_extends_facts(g2, g3);
        lemma_extends_trans(g0, g2, g3);
        lemma_impl_trait_kept(g2, g3, id@, impl_trait_of(*desc, pkg@, *trait_), impl_type_of(*trait_));
    }
    if g.contains_node_of_kind(id.as_str(), NodeKind::Impl) {
        add_impl_children(g, desc, pkg, &id, items, is_external);
    } else {
        proof { lemma_extends_refl(*g); }
        assert(children_origin(g3, *g, id@, items@));
    }
    proof {
        lemma_extends_facts(g3, *g);
        lemma_extends_trans(g0, g3, *g);
        lemma_impl_trait_kept(g3, *g, id@, impl_trait_of(*desc, pkg@, *trait_), impl_type_of(*trait_));
        let gi = *item;
        let r = |x: Edge| impl_edge(*desc, pkg@, gi, x);
        let a = |x: Edge| impl_own_edge(*desc, pkg@, item.id, id@, *trait_, for_id, x);
        let c = |x: Edge| child_edge(id@, items@, x);
        assert(g2.edges@ == g0.edges@);
        lemma_new_edges_none(g0, g2, r);
        assert forall|x: Edge| #[trigger] a(x) implies r(x) by {}
        assert forall|x: Edge| #[trigger] c(x) implies r(x) by {}
        assert forall|x: Edge| #[trigger] r(x) implies r(x) by {}
        lemma_new_edges_weaken(g2, g3, a, r);
        if g.edges@ == g3.edges@ {
            lemma_new_edges_none(g3, *g, r);
        } else {
            lemma_new_edges_weaken(g3, *g, c, r);
        }
        lemma_new_edges_chain(g0, g2, g3, r, r, r);
        lemma_new_edges_chain(g0, g3, *g, r, r, r);
        assert forall|i: int| #![trigger g.nodes@[i]]
            g0.nodes@.len() <= i < g.nodes@.len() implies impl_origin(*desc, pkg@, *item, g.nodes@[i].id@) by {
            if i < g1.nodes@.len() {
                assert(g.nodes@.take(g0.nodes@.len() as int) == g0.nodes@);
                assert(g.nodes@.take(g3.nodes@.len() as int)[i] == g.nodes@[i]);
                assert(g3.nodes@.take(g1.nodes@.len() as int)[i] == g3.nodes@[i]);
                assert(g1.nodes@[i] == g1.nodes@.last());
            } else if i < g2.nodes@.len() {
                assert(g.nodes@.take(g3.nodes@.len() as int)[i] == g.nodes@[i]);
                assert(g3.nodes@[i] == g2.nodes@[i]);
                assert(g2.nodes@[i].id@ == id@);
            } else {
                assert(g3.nodes@.len() == g2.nodes@.len());
                let k = choose|k: int| 0 <= k < items@.len() && g.nodes@[i].id@ == method_id(id@, #[trigger] items@[k] as nat);
            }
        }
    }
    Some(id)
}

proof fn lemma_impl_trait_kept(g1: Graph, g2: Graph, id: Seq<char>, t: Option<Seq<char>>, ty: ImplType)
    requires
        extends(g1, g2),
    ensures
        has_impl_node_with_trait(g1, id, t, ty) ==> has_impl_node_with_trait(g2, id, t, ty),
{
    if has_impl_node_with_trait(g1, id, t, ty) {
        let i = choose|i: int|
            0 <= i < g1.nodes@.len() && (#[trigger] g1.nodes@[i]).id@ == id && g1.nodes@[i].kind == NodeKind::Impl
                && opt_view(g1.nodes@[i].impl_trait) == t && g1.nodes@[i].impl_type == Some(ty) && g1.nodes@[i].parent_impl is None;
        assert(g2.nodes@.take(g1.nodes@.len() as int)[i] == g2.nodes@[i]);
    }
}

/// The `Contains` edge from the impl's module and the `Defines` and
/// `Implements` edges of its implementing type.
fn add_impl_edges(
    g: &mut Graph,
    desc: &ApiDescription,
    pkg: &str,
    id: &String,
    item_id: u32,
    trait_: &Option<crate::api::TraitRef>,
    for_id: Option<u32>,
)
    requires
        wf(*old(g)),
    ensures
        wf(*final(g)),
        extends(*old(g), *final(g)),
        final(g).nodes@ == old(g).nodes@,
        has_node(*old(g), id@) ==> defines_ok(*old(g), *final(g), match for_id { Some(f) => resolved(*desc, pkg@, f), None => None }, id@),
        implements_ok(*old(g), *final(g), match for_id { Some(f) => resolved(*desc, pkg@, f), None => None }, impl_trait_of(*desc, pkg@, *trait_)),
        new_edges_satisfy(*old(g), *final(g), |x: Edge| impl_own_edge(*desc, pkg@, item_id, id@, *trait_, for_id, x)),
{
    let ghost g0 = *g;
    let ghost r = |x: Edge| impl_own_edge(*desc, pkg@, item_id, id@, *trait_, for_id, x);
    proof { lemma_extends_refl(*g); }
    if let Some(parent) = parent_module_of(desc, item_id) {
        if let Some(parent_id) = resolve_id(desc, pkg, parent) {
            let ghost pv = parent_id@;
            g.push_edge(parent_id, id.clone(), EdgeKind::Contains, Confidence::Static);
            proof {
                assert forall|j: int| g0.edges@.len() <= j < g.edges@.len() implies r(#[trigger] g.edges@[j]) by {
                    assert(g.edges@[j].from@ == pv);
                }
            }
        }
    }
    let ghost g1 = *g;
    proof { lemma_extends_facts(g0, g1); lemma_extends_trans(g0, g0, g1); }
    let type_id = match for_id {
        Some(f) => resolve_id(desc, pkg, f),
        None => None,
    };
    if let Some(type_id) = type_id {
        let ghost tv = type_id@;
        g.push_edge(type_id.clone(), id.clone(), EdgeKind::Defines, Confidence::Static);
        let ghost g2 = *g;
        proof {
            lemma_extends_facts(g1, g2);
            lemma_extends_trans(g0, g1, g2);
            assert forall|j: int| g0.edges@.len() <= j < g2.edges@.len() implies r(#[trigger] g2.edges@[j]) by {
                if j < g1.edges@.len() {
                    assert(g2.edges@[j] == g1.edges@[j]);
                } else {
                    assert(g2.edges@[j].from@ == tv);
                }
            }
        }
        let trait_id = match trait_ {
            Some(t) => resolve_id(desc, pkg, t.id),
            None => None,
        };
        if let Some(trait_id) = trait_id {
            let ghost rv = trait_id@;
            g.push_edge(type_id, trait_id, EdgeKind::Implements, Confidence::Static);
            proof {
                assert forall|j: int| g0.edges@.len() <= j < g.edges@.len() implies r(#[trigger] g.edges@[j]) by {
                    if j < g2.edges@.len() {
                        assert(g.edges@[j] == g2.edges@[j]);
                    } else {
                        assert(g.edges@[j].from@ == tv && g.edges@[j].to@ == rv);
                    }
                }
            }
        } else {
            proof { lemma_extends_refl(*g); }
        }
        proof { lemma_extends_facts(g2, *g); lemma_extends_trans(g0, g2, *g); }
    }
}

/// An edge the impl item with ID `item_id` and node `id` may add: `Contains`
/// from its resolved module, `Defines` from its resolved self type, and
/// `Implements` from that type to its resolved trait.
pub open spec fn impl_own_edge(
    desc: ApiDescription,
    pkg: Seq<char>,
    item_id: u32,
    id: Seq<char>,
    trait_: Option<crate::api::TraitRef>,
    for_id: Option<u32>,
    x: Edge,
) -> bool {
    let ty = match for_id { Some(f) => resolved(desc, pkg, f), None => None };
    ||| x.kind == EdgeKind::Contains && x.to@ == id && match module_parent(desc.index@, item_id) {
        Some(m) => resolved(desc, pkg, m) == Some(x.from@),
        None => false,
    }
    ||| x.kind == EdgeKind::Defines && x.to@ == id && ty == Some(x.from@)
    ||| x.kind == EdgeKind::Implements && ty == Some(x.from@) && impl_trait_of(desc, pkg, trait_) == Some(x.to@)
}

/// Adds an edge of `kind` from `owner` to every resolved item of `refs` other
/// than the owner itself.
pub fn add_ref_edges(g: &mut Graph, desc: &ApiDescription, pkg: &str, owner: &str, refs: &Vec<u32>, kind: EdgeKind)
    requires
        wf(*old(g)),
        kind != EdgeKind::Contains,
    ensures
        wf(*final(g)),
        extends(*old(g), *final(g)),
        final(g).nodes@ == old(g).nodes@,
        forall|k: int, t: Seq<char>|
            0 <= k < refs@.len() && #[trigger] resolved(*desc, pkg@, refs@[k]) == Some(t) && has_node(*old(g), owner@)
                && #[trigger] has_node(*old(g), t) && t != owner@ ==> has_edge(*final(g), owner@, t, kind),
        forall|j: int|
            old(g).edges@.len() <= j < final(g).edges@.len() ==> (#[trigger] final(g).edges@[j]).kind == kind
                && final(g).edges@[j].from@ == owner@ && final(g).edges@[j].confidence == Confidence::Static
                && exists|k: int| 0 <= k < refs@.len() && #[trigger] resolved(*desc, pkg@, refs@[k]) == Some(final(g).edges@[j].to@),
{
    let ghost g0 = *g;
    proof { lemma_extends_refl(*g); }
    let mut k: usize = 0;
    while k < refs.len()
        invariant
            k <= refs@.len(),
            kind != EdgeKind::Contains,
            wf(*g),
            extends(g0, *g),
            g.nodes@ == g0.nodes@,
            forall|k2: int, t: Seq<char>|
                0 <= k2 < k && #[trigger] resolved(*desc, pkg@, refs@[k2]) == Some(t) && has_node(g0, owner@)
                    && #[trigger] has_node(g0, t) && t != owner@ ==> has_edge(*g, owner@, t, kind),
            forall|j: int|
                g0.edges@.len() <= j < g.edges@.len() ==> (#[trigger] g.edges@[j]).kind == kind && g.edges@[j].from@ == owner@
                    && g.edges@[j].confidence == Confidence::Static
                    && exists|k2: int| 0 <= k2 < refs@.len() && #[trigger] resolved(*desc, pkg@, refs@[k2]) == Some(g.edges@[j].to@),
        decreases refs@.len() - k,
    {
        let ghost g1 = *g;
        let target = resolve_id(desc, pkg, refs[k]);
        let ghost tv = opt_view(target);
        if let Some(target) = target {
            if !str_eq(target.as_str(), owner) {
                let ghost tt = target@;
                g.push_edge(String::from_str(owner), target, kind, Confidence::Static);
                assert(has_node(g1, owner@) && has_node(g1, tt) ==> has_edge(*g, owner@, tt, kind));
            } else {
                proof { lemma_extends_refl(*g); }
            }
        } else {
            proof { lemma_extends_refl(*g); }
        }
        proof {
            lemma_extends_facts(g1, *g);
            lemma_extends_trans(g0, g1, *g);
            assert forall|k2: int, t: Seq<char>|
                0 <= k2 < k + 1 && #[trigger] resolved(*desc, pkg@, refs@[k2]) == Some(t) && has_node(g0, owner@)
                    && #[trigger] has_node(g0, t) && t != owner@ implies has_edge(*g, owner@, t, kind) by {
                if k2 < k {
                    assert(has_edge(g1, owner@, t, kind));
                } else {
                    assert(tv == Some(t));
                    assert(g1.nodes@ == g0.nodes@);
                    assert(has_node(g1, t));
                    assert(has_node(g1, owner@));
                }
            }
            assert forall|j: int|
                g0.edges@.len() <= j < g.edges@.len() implies (#[trigger] g.edges@[j]).kind == kind && g.edges@[j].from@ == owner@
                    && g.edges@[j].confidence == Confidence::Static
                    && exists|k2: int| 0 <= k2 < refs@.len() && #[trigger] resolved(*desc, pkg@, refs@[k2]) == Some(g.edges@[j].to@) by {
                if j < g1.edges@.len() {
                    assert(g.edges@[j] == g1.edges@[j]);
                } else {
                    assert(tv == Some(g.edges@[j].to@));
                    assert(resolved(*desc, pkg@, refs@[k as int]) == Some(g.edges@[j].to@));
                }
            }
        }
        k = k + 1;
    }
}

/// The module and target of a visible re-export item, when both resolve.
pub open spec fn reexport_of(desc: ApiDescription, pkg: Seq<char>, item: ApiItem) -> Option<(Seq<char>, Seq<char>)> {
    match item.inner {
        ItemInner::Use { target } => if !is_visible(item.visibility) { None } else { match (target, module_parent(desc.index@, item.id)) {
            (Some(t), Some(m)) => match (resolved(desc, pkg, m), resolved(desc, pkg, t)) {
                (Some(a), Some(b)) => Some((a, b)),
                _ => None,
            },
            _ => None,
        } },
        _ => None,
    }
}

/// An import is visible outside its module unless it is private.
pub open spec fn is_visible(v: Visibility) -> bool {
    v != Visibility::Inherited && v != Visibility::Unknown
}

/// The re-export `r`, when both its ends were nodes of `g0`, is an edge of `g`.
pub open spec fn reexport_ok(g0: Graph, g: Graph, r: Option<(Seq<char>, Seq<char>)>) -> bool {
    match r {
        Some((a, b)) => has_node(g0, a) && has_node(g0, b) && a != b ==> has_edge(g, a, b, EdgeKind::ReExports),
        None => true,
    }
}

/// Adds a `ReExports` edge from the enclosing module of every re-export item
/// to its target.
pub fn add_reexport_edges(g: &mut Graph, desc: &ApiDescription, pkg: &str)
    requires
        wf(*old(g)),
    ensures
        wf(*final(g)),
        extends(*old(g), *final(g)),
        final(g).nodes@ == old(g).nodes@,
        forall|k: int| 0 <= k < desc.index@.len() ==> #[trigger] reexport_ok(*old(g), *final(g), reexport_of(*desc, pkg@, desc.index@[k])),
        forall|j: int|
            old(g).edges@.len() <= j < final(g).edges@.len() ==> (#[trigger] final(g).edges@[j]).kind == EdgeKind::ReExports
                && final(g).edges@[j].confidence == Confidence::Static && exists|k: int|
                0 <= k < desc.index@.len() && #[trigger] reexport_of(*desc, pkg@, desc.index@[k]) == Some(
                    (final(g).edges@[j].from@, final(g).edges@[j].to@),
                ),
{
    let ghost g0 = *g;
    proof { lemma_extends_refl(*g); }
    let mut k: usize = 0;
    while k < desc.index.len()
        invariant
            k <= desc.index@.len(),
            wf(*g),
            extends(g0, *g),
            g.nodes@ == g0.nodes@,
            forall|k2: int| 0 <= k2 < k ==> #[trigger] reexport_ok(g0, *g, reexport_of(*desc, pkg@, desc.index@[k2])),
            forall|j: int|
                g0.edges@.len() <= j < g.edges@.len() ==> (#[trigger] g.edges@[j]).kind == EdgeKind::ReExports
                    && g.edges@[j].confidence == Confidence::Static && exists|k2: int|
                    0 <= k2 < desc.index@.len() && #[trigger] reexport_of(*desc, pkg@, desc.index@[k2]) == Some(
                        (g.edges@[j].from@, g.edges@[j].to@),
                    ),
        decreases desc.index@.len() - k,
    {
        let ghost g1 = *g;
        let item = &desc.index[k];
        let ghost ro = reexport_of(*desc, pkg@, desc.index@[k as int]);
        let mut pushed = false;
        let visible = match item.visibility {
            Visibility::Inherited | Visibility::Unknown => false,
            _ => true,
        };
        if let ItemInner::Use { target: Some(t) } = &item.inner {
            if visible {
                if let Some(m) = parent_module_of(desc, item.id) {
                    if let Some(a) = resolve_id(desc, pkg, m) {
                        if let Some(b) = resolve_id(desc, pkg, *t) {
                            let ghost pair = (a@, b@);
                            assert(ro == Some(pair));
                            g.push_edge(a, b, EdgeKind::ReExports, Confidence::Static);
                            pushed = true;
                        }
                    }
                }
            }
        }
        if !pushed {
            proof { lemma_extends_refl(*g); }
        }
        proof {
            lemma_extends_facts(g1, *g);
            lemma_extends_trans(g0, g1, *g);
            assert(g1.nodes@ == g0.nodes@);
            assert forall|k2: int| 0 <= k2 < k + 1 implies #[trigger] reexport_ok(g0, *g, reexport_of(*desc, pkg@, desc.index@[k2])) by {
                if k2 < k {
                    assert(reexport_ok(g0, g1, reexport_of(*desc, pkg@, desc.index@[k2])));
                    match reexport_of(*desc, pkg@, desc.index@[k2]) {
                        Some((a, b)) => {
                            if has_node(g0, a) && has_node(g0, b) && a != b {
                                assert(has_edge(g1, a, b, EdgeKind::ReExports));
                            }
                        },
                        None => {},
                    }
                } else {
                    match ro {
                        Some((a, b)) => {
                            if has_node(g0, a) && has_node(g0, b) && a != b {
                                assert(has_node(g1, a));
                                assert(has_node(g1, b));
                            }
                        },
                        None => {},
                    }
                }
            }
            assert forall|j: int|
                g0.edges@.len() <= j < g.edges@.len() implies (#[trigger] g.edges@[j]).kind == EdgeKind::ReExports by {
                if j < g1.edges@.len() {
                    assert(g.edges@[j] == g1.edges@[j]);
                }
            }
        }
        k = k + 1;
    }
}

/// The IDs of every impl and trait child, in index order.
pub open spec fn child_ids(index: Seq<ApiItem>) -> Seq<u32>
    decreases index.len(),
{
    if index.len() == 0 {
        Seq::empty()
    } else {
        child_ids(index.drop_last()) + match index.last().inner {
            ItemInner::Impl { items, .. } => items@,
            ItemInner::Trait { items } => items@,
            _ => Seq::empty(),
        }
    }
}

/// The IDs of every impl and trait child.
pub fn collect_method_ids(desc: &ApiDescription) -> (r: Vec<u32>)
    ensures
        r@ == child_ids(desc.index@),
{
    let mut out: Vec<u32> = Vec::new();
    let mut i: usize = 0;
    while i < desc.index.len()
        invariant
            i <= desc.index@.len(),
            out@ == child_ids(desc.index@.take(i as int)),
        decreases desc.index@.len() - i,
    {
        assert(desc.index@.take(i as int + 1).drop_last() =~= desc.index@.take(i as int));
        assert(desc.index@.take(i as int + 1).last() == desc.index@[i as int]);
        let ghost before = out@;
        match &desc.index[i].inner {
            ItemInner::Impl { items, .. } => {
                let mut k: usize = 0;
                while k < items.len()
                    invariant
                        k <= items@.len(),
                        out@ == before + items@.take(k as int),
                    decreases items@.len() - k,
                {
                    out.push(items[k]);
                    assert(out@ =~= before + items@.take(k as int + 1));
                    k = k + 1;
                }
                assert(items@.take(items@.len() as int) =~= items@);
            },
            ItemInner::Trait { items } => {
                let mut k: usize = 0;
                while k < items.len()
                    invariant
                        k <= items@.len(),
                        out@ == before + items@.take(k as int),
                    decreases items@.len() - k,
                {
                    out.push(items[k]);
                    assert(out@ =~= before + items@.take(k as int + 1));
                    k = k + 1;
                }
                assert(items@.take(items@.len() as int) =~= items@);
            },
            _ => {
                assert(out@ =~= before + Seq::<u32>::empty());
            },
        }
        i = i + 1;
    }
    assert(desc.index@.take(desc.index@.len() as int) =~= desc.index@);
    out
}

/// A path-table entry that names a callable: a function with a non-empty,
/// non-internal path.
pub open spec fn is_callable_entry(e: PathSummary) -> bool {
    e.kind == ItemKind::Function && e.path@.len() > 0 && !is_internal_path(views(e.path@))
}

/// The callables of the path table: (ID, bare name, whether a method), in order.
pub open spec fn callables_of(desc: ApiDescription, pkg: Seq<char>, paths: Seq<PathSummary>) -> Seq<(Seq<char>, Seq<char>, bool)>
    decreases paths.len(),
{
    if paths.len() == 0 {
        Seq::empty()
    } else {
        let r = callables_of(desc, pkg, paths.drop_last());
        let e = paths.last();
        if is_callable_entry(e) {
            r.push((path_id(entry_package(desc, pkg, e), views(e.path@)), e.path@.last()@, child_ids(desc.index@).contains(e.id)))
        } else {
            r
        }
    }
}

/// The function index of a description: every callable, and every callable
/// that is an impl or trait child as a method, by ID and bare name.
pub fn build_function_index(desc: &ApiDescription, pkg: &str) -> (r: crate::index::FunctionIndex)
    ensures
        r.wf(),
        r.callable_paths() == callables_of(*desc, pkg@, desc.paths@).map_values(|c: (Seq<char>, Seq<char>, bool)| c.0),
        views(r.callable_names@) == callables_of(*desc, pkg@, desc.paths@).map_values(|c: (Seq<char>, Seq<char>, bool)| c.1),
        r.method_paths() == callables_of(*desc, pkg@, desc.paths@).filter(|c: (Seq<char>, Seq<char>, bool)| c.2).map_values(|c: (Seq<char>, Seq<char>, bool)| c.0),
        views(r.method_names@) == callables_of(*desc, pkg@, desc.paths@).filter(|c: (Seq<char>, Seq<char>, bool)| c.2).map_values(|c: (Seq<char>, Seq<char>, bool)| c.1),
{
    let method_ids = collect_method_ids(desc);
    let mut index = crate::index::FunctionIndex::new();
    let mut i: usize = 0;
    while i < desc.paths.len()
        invariant
            i <= desc.paths@.len(),
            method_ids@ == child_ids(desc.index@),
            index.wf(),
            index.callable_paths() == callables_of(*desc, pkg@, desc.paths@.take(i as int)).map_values(|c: (Seq<char>, Seq<char>, bool)| c.0),
            views(index.callable_names@) == callables_of(*desc, pkg@, desc.paths@.take(i as int)).map_values(|c: (Seq<char>, Seq<char>, bool)| c.1),
            index.method_paths() == callables_of(*desc, pkg@, desc.paths@.take(i as int)).filter(|c: (Seq<char>, Seq<char>, bool)| c.2).map_values(|c: (Seq<char>, Seq<char>, bool)| c.0),
            views(index.method_names@) == callables_of(*desc, pkg@, desc.paths@.take(i as int)).filter(|c: (Seq<char>, Seq<char>, bool)| c.2).map_values(|c: (Seq<char>, Seq<char>, bool)| c.1),
        decreases desc.paths@.len() - i,
    {
        let ghost pre = desc.paths@.take(i as int);
        let ghost cs = callables_of(*desc, pkg@, pre);
        assert(desc.paths@.take(i as int + 1).drop_last() =~= pre);
        assert(desc.paths@.take(i as int + 1).last() == desc.paths@[i as int]);
        let e = &desc.paths[i];
        if e.kind == ItemKind::Function && e.path.len() > 0 && !is_internal(e.path.as_slice()) {
            let owner = crate_name_for_id(desc, e.crate_id, pkg);
            let full = join_path(owner.as_str(), e.path.as_slice());
            let name = e.path[e.path.len() - 1].clone();
            let is_method = contains_id(&method_ids, e.id);
            let ghost c = (full@, name@, is_method);
            let ghost cs2 = cs.push(c);
            assert(callables_of(*desc, pkg@, desc.paths@.take(i as int + 1)) == cs2);
            proof {
                assert(cs2.filter(|c: (Seq<char>, Seq<char>, bool)| c.2) == (if c.2 {
                    cs.filter(|c: (Seq<char>, Seq<char>, bool)| c.2).push(c)
                } else {
                    cs.filter(|c: (Seq<char>, Seq<char>, bool)| c.2)
                })) by {
                    assert(cs2.drop_last() =~= cs);
                    reveal(Seq::filter);
                }
            }
            let ghost cp = index.callable_paths();
            let ghost cn = views(index.callable_names@);
            let ghost mp = index.method_paths();
            let ghost mn = views(index.method_names@);
            if is_method {
                index.add_method(full.clone(), name.clone());
                assert(index.method_paths() =~= mp.push(full@));
                assert(views(index.method_names@) =~= mn.push(name@));
            }
            index.add_callable(full.clone(), name.clone());
            assert(index.callable_paths() =~= cp.push(full@));
            assert(views(index.callable_names@) =~= cn.push(name@));
            assert(index.callable_paths() =~= cs2.map_values(|c: (Seq<char>, Seq<char>, bool)| c.0));
            assert(views(index.callable_names@) =~= cs2.map_values(|c: (Seq<char>, Seq<char>, bool)| c.1));
            assert(index.method_paths() =~= cs2.filter(|c: (Seq<char>, Seq<char>, bool)| c.2).map_values(|c: (Seq<char>, Seq<char>, bool)| c.0));
            assert(views(index.method_names@) =~= cs2.filter(|c: (Seq<char>, Seq<char>, bool)| c.2).map_values(|c: (Seq<char>, Seq<char>, bool)| c.1));
        }
        i = i + 1;
    }
    assert(desc.paths@.take(desc.paths@.len() as int) =~= desc.paths@);
    index
}

/// A path-table entry that gets a node in Pass A.
pub open spec fn admitted(desc: ApiDescription, e: PathSummary) -> bool {
    node_kind_of(e.kind, child_ids(desc.index@).contains(e.id)) is Some && e.path@.len() > 0 && !is_internal_path(views(e.path@))
}

/// The node ID of a path-table entry.
pub open spec fn entry_id(desc: ApiDescription, pkg: Seq<char>, e: PathSummary) -> Seq<char> {
    path_id(entry_package(desc, pkg, e), views(e.path@))
}

/// `id` is the node ID of an admitted path entry, so Pass A gave it a node.
pub open spec fn known(desc: ApiDescription, pkg: Seq<char>, id: Seq<char>) -> bool {
    exists|k: int| 0 <= k < desc.paths@.len() && admitted(desc, desc.paths@[k]) && #[trigger] entry_id(desc, pkg, desc.paths@[k]) == id
}

/// The node an index item's relations start from: its impl node, or the
/// node of its path.
pub open spec fn owner_of(desc: ApiDescription, pkg: Seq<char>, it: ApiItem) -> Option<Seq<char>> {
    match it.inner {
        ItemInner::Impl { .. } => Some(impl_id(crate_name_of(desc.external_crates@, it.crate_id, pkg), it.id as nat)),
        _ => resolved(desc, pkg, it.id),
    }
}

/// The rendered attribute texts.
pub open spec fn attr_texts_of(attrs: Seq<crate::attrs::AttrExpr>) -> Seq<Seq<char>> {
    attrs.map_values(|a: crate::attrs::AttrExpr| crate::attrs::attr_text(a))
}

/// The edges Pass B gives an impl item: its node, `Defines` from the
/// implementing type and `Implements` from that type to the trait, when those
/// ends are known nodes.
pub open spec fn impl_relations_ok(g: Graph, desc: ApiDescription, pkg: Seq<char>, it: ApiItem) -> bool {
    match it.inner {
        ItemInner::Impl { trait_, for_id, .. } => {
            let id = impl_id(crate_name_of(desc.external_crates@, it.crate_id, pkg), it.id as nat);
            let ty = match for_id { Some(f) => resolved(desc, pkg, f), None => None };
            let tr = impl_trait_of(desc, pkg, trait_);
            &&& has_node(g, id)
            &&& match ty {
                Some(t) => known(desc, pkg, t) && t != id ==> has_edge(g, t, id, EdgeKind::Defines),
                None => true,
            }
            &&& match (ty, tr) {
                (Some(t), Some(r)) => known(desc, pkg, t) && known(desc, pkg, r) && t != r ==> has_edge(g, t, r, EdgeKind::Implements),
                _ => true,
            }
        },
        _ => true,
    }
}

/// The edges Pass B gives from an item's node `o`: `UsesType` to every
/// known referenced item, `Defines` to a trait's known items, `Derives` to
/// every known derive target.
pub open spec fn owner_relations_ok(
    g: Graph,
    desc: ApiDescription,
    pkg: Seq<char>,
    lk: crate::derives::TraitLookup,
    it: ApiItem,
    o: Seq<char>,
) -> bool {
    &&& forall|k: int, t: Seq<char>|
        0 <= k < crate::api::item_ref_ids(it).len() && #[trigger] resolved(desc, pkg, crate::api::item_ref_ids(it)[k]) == Some(t)
            && #[trigger] known(desc, pkg, t) && t != o ==> has_edge(g, o, t, EdgeKind::UsesType)
    &&& match it.inner {
        ItemInner::Trait { items } => forall|k: int, t: Seq<char>|
            0 <= k < items@.len() && #[trigger] resolved(desc, pkg, items@[k]) == Some(t) && #[trigger] known(desc, pkg, t)
                && t != o ==> has_edge(g, o, t, EdgeKind::Defines),
        _ => true,
    }
    &&& forall|k: int, t: Seq<char>|
        0 <= k < crate::derives::all_derive_names(attr_texts_of(it.attrs@)).len()
            && #[trigger] crate::derives::derive_targets_of(lk, crate::derives::all_derive_names(attr_texts_of(it.attrs@))[k]).contains(t)
            && #[trigger] known(desc, pkg, t) && o != t ==> has_edge(g, o, t, EdgeKind::Derives)
}

/// Everything Pass B states of one index item.
pub open spec fn relations_ok(g: Graph, desc: ApiDescription, pkg: Seq<char>, lk: crate::derives::TraitLookup, it: ApiItem) -> bool {
    &&& impl_relations_ok(g, desc, pkg, it)
    &&& match owner_of(desc, pkg, it) {
        Some(o) => it.inner is Impl || known(desc, pkg, o) ==> owner_relations_ok(g, desc, pkg, lk, it, o),
        None => true,
    }
}

proof fn lemma_relations_mono(g1: Graph, g2: Graph, desc: ApiDescription, pkg: Seq<char>, lk: crate::derives::TraitLookup, it: ApiItem)
    requires
        extends(g1, g2),
        relations_ok(g1, desc, pkg, lk, it),
    ensures
        relations_ok(g2, desc, pkg, lk, it),
{
    lemma_extends_facts(g1, g2);
    match owner_of(desc, pkg, it) {
        Some(o) => {
            if it.inner is Impl || known(desc, pkg, o) {
                assert(owner_relations_ok(g1, desc, pkg, lk, it, o));
                match it.inner {
                    ItemInner::Trait { items } => {
                        assert forall|k: int, t: Seq<char>|
                            0 <= k < items@.len() && #[trigger] resolved(desc, pkg, items@[k]) == Some(t) && #[trigger] known(desc, pkg, t)
                                && t != o implies has_edge(g2, o, t, EdgeKind::Defines) by {
                            assert(has_edge(g1, o, t, EdgeKind::Defines));
                        }
                    },
                    _ => {},
                }
            }
        },
        None => {},
    }
}

/// Pass B for one index item: impl handling, trait item definitions, type
/// uses and derivations, all from the item's node.
fn add_item_relations(
    g: &mut Graph,
    desc: &ApiDescription,
    pkg: &str,
    members: &Vec<String>,
    lookup: &crate::derives::TraitLookup,
    item: &ApiItem,
)
    requires
        wf(*old(g)),
        lookup.named_paths@.len() == lookup.named_names@.len(),
        forall|id: Seq<char>| #[trigger] known(*desc, pkg@, id) ==> has_node(*old(g), id),
    ensures
        wf(*final(g)),
        extends(*old(g), *final(g)),
        item.inner is Impl ==> has_node(*final(g), impl_id(crate_name_of(desc.external_crates@, item.crate_id, pkg@), item.id as nat)),
        relations_ok(*final(g), *desc, pkg@, *lookup, *item),
        forall|i: int| #![trigger final(g).nodes@[i]]
            old(g).nodes@.len() <= i < final(g).nodes@.len() ==> impl_origin(*desc, pkg@, *item, final(g).nodes@[i].id@),
        item.inner is Impl ==> impl_facts(*old(g), *final(g), *desc, pkg@, *item),
        new_edges_satisfy(*old(g), *final(g), |x: Edge| item_edge_ok(*desc, pkg@, *lookup, *item, x)),
{
    let ghost g0 = *g;
    let owner = match add_impl(g, desc, pkg, members, item) {
        Some(id) => id,
        None => match resolve_id(desc, pkg, item.id) {
            Some(id) => id,
            None => return,
        },
    };
    let ghost g1 = *g;
    let ghost o = owner@;
    proof {
        lemma_extends_facts(g0, g1);
        assert(owner_of(*desc, pkg@, *item) == Some(o));
        let gi = *item;
        assert forall|x: Edge| #[trigger] impl_edge(*desc, pkg@, gi, x) implies item_edge_ok(*desc, pkg@, *lookup, gi, x) by {}
        lemma_new_edges_weaken(g0, g1, |x: Edge| impl_edge(*desc, pkg@, gi, x), |x: Edge| item_edge_ok(*desc, pkg@, *lookup, gi, x));
    }
    if let ItemInner::Trait { items } = &item.inner {
        add_ref_edges(g, desc, pkg, owner.as_str(), items, EdgeKind::Defines);
    } else {
        proof { lemma_extends_refl(*g); }
    }
    let ghost g2 = *g;
    proof { lemma_extends_trans(g0, g1, g2); lemma_extends_facts(g1, g2); }
    let refs = crate::api::collect_item_ref_ids(item);
    add_ref_edges(g, desc, pkg, owner.as_str(), &refs, EdgeKind::UsesType);
    let ghost g3 = *g;
    proof { lemma_extends_trans(g0, g2, g3); lemma_extends_facts(g2, g3); }
    let attr_texts = crate::attrs::format_attributes(&item.attrs);
    assert(views(attr_texts@) =~= attr_texts_of(item.attrs@));
    crate::derives::add_derives_edges(g, owner.as_str(), &attr_texts, lookup);
    proof {
        assert(g.nodes@ == g1.nodes@);
        lemma_item_edges(g0, g1, g2, g3, *g, *desc, pkg@, *lookup, *item, o, refs@, views(attr_texts@));
        lemma_extends_trans(g0, g3, *g);
        lemma_extends_trans(g1, g2, g3);
        lemma_extends_trans(g1, g3, *g);
        if item.inner is Impl {
            lemma_impl_facts_mono(g0, g1, *g, *desc, pkg@, *item);
        }
        lemma_extends_trans(g2, g3, *g);
        lemma_extends_facts(g1, *g);
        lemma_extends_facts(g2, *g);
        lemma_extends_facts(g3, *g);
        if item.inner is Impl || known(*desc, pkg@, o) {
            assert(has_node(g1, o));
            assert forall|k: int, t: Seq<char>|
                0 <= k < crate::api::item_ref_ids(*item).len() && #[trigger] resolved(*desc, pkg@, crate::api::item_ref_ids(*item)[k]) == Some(t)
                    && #[trigger] known(*desc, pkg@, t) && t != o implies has_edge(*g, o, t, EdgeKind::UsesType) by {
                assert(has_node(g2, t));
                assert(has_node(g2, o));
                assert(refs@[k] == crate::api::item_ref_ids(*item)[k]);
                assert(has_edge(g3, o, t, EdgeKind::UsesType));
            }
            let gi = *item;
            match gi.inner {
                ItemInner::Trait { items } => {
                    assert forall|k: int, t: Seq<char>|
                        0 <= k < items@.len() && #[trigger] resolved(*desc, pkg@, items@[k]) == Some(t) && #[trigger] known(*desc, pkg@, t)
                            && t != o implies has_edge(*g, o, t, EdgeKind::Defines) by {
                        assert(has_node(g1, t));
                        assert(has_edge(g2, o, t, EdgeKind::Defines));
                    }
                },
                _ => {},
            }
            assert forall|k: int, t: Seq<char>|
                0 <= k < crate::derives::all_derive_names(attr_texts_of(item.attrs@)).len()
                    && #[trigger] crate::derives::derive_targets_of(*lookup, crate::derives::all_derive_names(attr_texts_of(item.attrs@))[k]).contains(t)
                    && #[trigger] known(*desc, pkg@, t) && o != t implies has_edge(*g, o, t, EdgeKind::Derives) by {
                assert(has_node(g3, t));
                assert(has_node(g3, o));
            }
            assert(owner_relations_ok(*g, *desc, pkg@, *lookup, *item, o));
        }
        let gi2 = *item;
        match gi2.inner {
            ItemInner::Impl { trait_, for_id, .. } => {
                let ty = match for_id { Some(f) => resolved(*desc, pkg@, f), None => None };
                match ty {
                    Some(t) => {
                        if known(*desc, pkg@, t) {
                            assert(has_node(g0, t));
                        }
                    },
                    None => {},
                }
                let tr = impl_trait_of(*desc, pkg@, trait_);
                match (ty, tr) {
                    (Some(t), Some(r)) => {
                        if known(*desc, pkg@, t) && known(*desc, pkg@, r) {
                            assert(has_node(g0, t));
                            assert(has_node(g0, r));
                        }
                    },
                    _ => {},
                }
            },
            _ => {},
        }
    }
}

/// An edge Pass B may add for index item `it`: its impl edges, or from its
/// node `UsesType` to a referenced item, `Defines` to a trait's item,
/// `Derives` to a derive target.
pub open spec fn item_edge_ok(desc: ApiDescription, pkg: Seq<char>, lk: crate::derives::TraitLookup, it: ApiItem, x: Edge) -> bool {
    ||| impl_edge(desc, pkg, it, x)
    ||| match owner_of(desc, pkg, it) {
        Some(o) => x.from@ == o && owner_edge(desc, pkg, lk, it, x),
        None => false,
    }
}

/// An edge from an item's node: `UsesType`, a trait's `Defines`, or `Derives`.
pub open spec fn owner_edge(desc: ApiDescription, pkg: Seq<char>, lk: crate::derives::TraitLookup, it: ApiItem, x: Edge) -> bool {
    ||| x.kind == EdgeKind::UsesType && exists|k: int|
        0 <= k < crate::api::item_ref_ids(it).len() && #[trigger] resolved(desc, pkg, crate::api::item_ref_ids(it)[k]) == Some(x.to@)
    ||| x.kind == EdgeKind::Defines && match it.inner {
        ItemInner::Trait { items } => exists|k: int| 0 <= k < items@.len() && #[trigger] resolved(desc, pkg, items@[k]) == Some(x.to@),
        _ => false,
    }
    ||| x.kind == EdgeKind::Derives && exists|k: int|
        0 <= k < crate::derives::all_derive_names(attr_texts_of(it.attrs@)).len()
            && #[trigger] crate::derives::derive_targets_of(lk, crate::derives::all_derive_names(attr_texts_of(it.attrs@))[k]).contains(x.to@)
}

proof fn lemma_item_edges(
    g0: Graph, g1: Graph, g2: Graph, g3: Graph, g: Graph,
    desc: ApiDescription, pkg: Seq<char>, lk: crate::derives::TraitLookup, it: ApiItem, o: Seq<char>,
    refs: Seq<u32>, texts: Seq<Seq<char>>,
)
    requires
        extends(g0, g1), extends(g1, g2), extends(g2, g3), extends(g3, g),
        owner_of(desc, pkg, it) == Some(o),
        refs == crate::api::item_ref_ids(it),
        texts == attr_texts_of(it.attrs@),
        new_edges_satisfy(g0, g1, |x: Edge| item_edge_ok(desc, pkg, lk, it, x)),
        it.inner is Trait ==> forall|j: int| g1.edges@.len() <= j < g2.edges@.len() ==> (#[trigger] g2.edges@[j]).kind == EdgeKind::Defines
            && g2.edges@[j].from@ == o && match it.inner {
                ItemInner::Trait { items } => exists|k2: int| 0 <= k2 < items@.len() && #[trigger] resolved(desc, pkg, items@[k2]) == Some(g2.edges@[j].to@),
                _ => false,
            },
        !(it.inner is Trait) ==> g2.edges@ == g1.edges@,
        forall|j: int| g2.edges@.len() <= j < g3.edges@.len() ==> (#[trigger] g3.edges@[j]).kind == EdgeKind::UsesType
            && g3.edges@[j].from@ == o && exists|k2: int| 0 <= k2 < refs.len() && #[trigger] resolved(desc, pkg, refs[k2]) == Some(g3.edges@[j].to@),
        forall|j: int| g3.edges@.len() <= j < g.edges@.len() ==> (#[trigger] g.edges@[j]).kind == EdgeKind::Derives
            && g.edges@[j].from@ == o && exists|k: int| 0 <= k < crate::derives::all_derive_names(texts).len()
                && #[trigger] crate::derives::derive_targets_of(lk, crate::derives::all_derive_names(texts)[k]).contains(g.edges@[j].to@),
    ensures
        new_edges_satisfy(g0, g, |x: Edge| item_edge_ok(desc, pkg, lk, it, x)),
{
    let r = |x: Edge| item_edge_ok(desc, pkg, lk, it, x);
    assert forall|j: int| g1.edges@.len() <= j < g2.edges@.len() implies r(#[trigger] g2.edges@[j]) by {
        assert(owner_edge(desc, pkg, lk, it, g2.edges@[j]));
    }
    assert forall|j: int| g2.edges@.len() <= j < g3.edges@.len() implies r(#[trigger] g3.edges@[j]) by {
        let k2 = choose|k2: int| 0 <= k2 < refs.len() && #[trigger] resolved(desc, pkg, refs[k2]) == Some(g3.edges@[j].to@);
        assert(owner_edge(desc, pkg, lk, it, g3.edges@[j]));
    }
    assert forall|j: int| g3.edges@.len() <= j < g.edges@.len() implies r(#[trigger] g.edges@[j]) by {
        assert(owner_edge(desc, pkg, lk, it, g.edges@[j]));
    }
    assert forall|x: Edge| #[trigger] r(x) implies r(x) by {}
    lemma_new_edges_chain(g0, g1, g2, r, r, r);
    crate::graph::lemma_extends_trans(g0, g1, g2);
    lemma_new_edges_chain(g0, g2, g3, r, r, r);
    crate::graph::lemma_extends_trans(g0, g2, g3);
    lemma_new_edges_chain(g0, g3, g, r, r, r);
}

proof fn lemma_impl_facts_mono(g0: Graph, g1: Graph, g: Graph, desc: ApiDescription, pkg: Seq<char>, it: ApiItem)
    requires
        extends(g1, g),
        impl_facts(g0, g1, desc, pkg, it),
        it.inner is Impl,
    ensures
        impl_facts(g0, g, desc, pkg, it),
{
    lemma_extends_facts(g1, g);
    match it.inner {
        ItemInner::Impl { trait_, for_id, items } => {
            let id = impl_id(crate_name_of(desc.external_crates@, it.crate_id, pkg), it.id as nat);
            lemma_impl_trait_kept(g1, g, id, impl_trait_of(desc, pkg, trait_), impl_type_of(trait_));
            if !has_node(g0, id) {
                assert forall|k: int|
                    0 <= k < items@.len() && #[trigger] gets_assoc_node(desc.index@, items@[k]) && !has_node(g0, method_id(id, items@[k] as nat))
                        implies has_child_node(g, desc, pkg, id, items@[k]) by {
                    lemma_child_node_kept(g1, g, desc, pkg, id, items@[k]);
                }
                assert forall|k: int|
                    0 <= k < items@.len() && #[trigger] gets_assoc_node(desc.index@, items@[k]) implies has_node(g, method_id(id, items@[k] as nat))
                        && has_edge(g, id, method_id(id, items@[k] as nat), EdgeKind::Defines) by {
                    assert(has_node(g1, method_id(id, items@[k] as nat)));
                }
            }
        },
        _ => {},
    }
}

/// `id` is the package of entry `e` or the ID of a non-empty prefix of its path.
pub open spec fn path_origin(desc: ApiDescription, pkg: Seq<char>, e: PathSummary, id: Seq<char>) -> bool {
    id == entry_package(desc, pkg, e) || exists|j: int|
        1 <= j <= e.path@.len() && id == #[trigger] path_id(entry_package(desc, pkg, e), views(e.path@).take(j))
}

/// `id` is the package of impl item `it`, its impl node, or one of its per-impl children.
pub open spec fn impl_origin(desc: ApiDescription, pkg: Seq<char>, it: ApiItem, id: Seq<char>) -> bool {
    match it.inner {
        ItemInner::Impl { items, .. } => {
            let owner = crate_name_of(desc.external_crates@, it.crate_id, pkg);
            let iid = impl_id(owner, it.id as nat);
            id == owner || id == iid || exists|k: int| 0 <= k < items@.len() && id == #[trigger] method_id(iid, items@[k] as nat)
        },
        _ => false,
    }
}

/// Where a node of an extracted graph comes from: the package itself, the
/// package or a path prefix of an admitted path entry (so never a path with
/// an internal segment), or an impl item.
pub open spec fn node_origin(desc: ApiDescription, pkg: Seq<char>, id: Seq<char>) -> bool {
    ||| id == pkg
    ||| exists|k: int| 0 <= k < desc.paths@.len() && admitted(desc, desc.paths@[k]) && #[trigger] path_origin(desc, pkg, desc.paths@[k], id)
    ||| exists|k: int| 0 <= k < desc.index@.len() && #[trigger] impl_origin(desc, pkg, desc.index@[k], id)
}

/// The path prefixes nodes come from never hold an internal (`_` or `__…`)
/// segment: with `node_origin`, no node of an extracted graph sits at or
/// under an internal path.
pub proof fn lemma_origin_not_internal(desc: ApiDescription, e: PathSummary, j: int)
    requires
        admitted(desc, e),
        1 <= j <= e.path@.len(),
    ensures
        !is_internal_path(views(e.path@).take(j)),
{
    let p = views(e.path@);
    if is_internal_path(p.take(j)) {
        let i = choose|i: int| 0 <= i < p.take(j).len() && crate::ids::is_internal_segment(#[trigger] p.take(j)[i]);
        assert(p.take(j)[i] == p[i]);
    }
}

/// A re-export whose ends are known nodes is an edge of `g`.
pub open spec fn reexport_known_ok(g: Graph, desc: ApiDescription, pkg: Seq<char>, r: Option<(Seq<char>, Seq<char>)>) -> bool {
    match r {
        Some((a, b)) => known(desc, pkg, a) && known(desc, pkg, b) && a != b ==> has_edge(g, a, b, EdgeKind::ReExports),
        None => true,
    }
}

/// `lk` is the trait lookup of the description.
pub open spec fn lookup_of(lk: crate::derives::TraitLookup, desc: ApiDescription, pkg: Seq<char>) -> bool {
    &&& views(lk.fulls@) == crate::derives::trait_ids(desc, pkg, desc.paths@)
    &&& lk.named_paths@.len() == lk.named_names@.len()
    &&& views(lk.named_paths@) == crate::derives::named_traits(desc, pkg, desc.paths@).map_values(|t: (Seq<char>, Seq<char>)| t.0)
    &&& views(lk.named_names@) == crate::derives::named_traits(desc, pkg, desc.paths@).map_values(|t: (Seq<char>, Seq<char>)| t.1)
}

/// Impl item `it` has its impl node in `g`.
pub open spec fn impl_placed(g: Graph, desc: ApiDescription, pkg: Seq<char>, it: ApiItem) -> bool {
    it.inner is Impl ==> has_node(g, impl_id(crate_name_of(desc.external_crates@, it.crate_id, pkg), it.id as nat))
}

/// Extracts the graph of package `pkg` from its description: Pass A over the
/// path table, then re-exports, then Pass B over the index. Packages outside
/// `members` (by default, all but `pkg`) are marked external.
pub fn build_graph(desc: &ApiDescription, pkg: &str, members: Option<Vec<String>>) -> (g: Graph)
    ensures
        wf(g),
        has_node(g, pkg@),
        forall|k: int|
            0 <= k < desc.paths@.len() && #[trigger] admitted(*desc, desc.paths@[k]) ==> placed(g, *desc, pkg@, desc.paths@[k]),
        forall|k: int| 0 <= k < desc.index@.len() ==> #[trigger] impl_placed(g, *desc, pkg@, desc.index@[k]),
        forall|i: int| 0 <= i < g.nodes@.len() ==> #[trigger] node_origin(*desc, pkg@, g.nodes@[i].id@),
        g.nodes@.len() > 0 && g.nodes@[0].id@ == pkg@ && g.nodes@[0].kind == NodeKind::Crate,
        members is None ==> !g.nodes@[0].is_external,
        members matches Some(m) ==> g.nodes@[0].is_external == !views(m@).contains(pkg@),
        forall|k: int| 0 <= k < desc.index@.len() ==> #[trigger] reexport_known_ok(g, *desc, pkg@, reexport_of(*desc, pkg@, desc.index@[k])),
        exists|lk: crate::derives::TraitLookup| lookup_of(lk, *desc, pkg@) && (forall|k: int|
            0 <= k < desc.index@.len() ==> #[trigger] relations_ok(g, *desc, pkg@, lk, desc.index@[k])) && forall|x: int|
            0 <= x < g.edges@.len() ==> #[trigger] edge_allowed(*desc, pkg@, lk, g.edges@[x]),
        forall|x: int| 0 <= x < g.edges@.len() ==> (#[trigger] g.edges@[x]).kind != EdgeKind::CallsStatic
            && g.edges@[x].kind != EdgeKind::CallsRuntime,
        forall|k: int| 0 <= k < desc.paths@.len() && admitted(*desc, desc.paths@[k]) && #[trigger] entry_unclaimed(*desc, pkg@, k)
            ==> entry_built(g, *desc, pkg@, k, effective_members(members, pkg@)),
        forall|k: int| 0 <= k < desc.index@.len() && #[trigger] impl_unclaimed(*desc, pkg@, k) ==> impl_built(g, *desc, pkg@, k),
{
    let ghost given = members;
    let mut g = Graph::new();
    proof { crate::graph::lemma_empty_wf(g); }
    let method_ids = collect_method_ids(desc);
    let lookup = crate::derives::TraitLookup::build(desc, pkg);
    let members = match members {
        Some(m) => m,
        None => vec![String::from_str(pkg)],
    };
    let own_external = !contains_name(&members, pkg);
    ensure_crate_node(&mut g, pkg, Visibility::Public, own_external);
    assert(g.nodes@.len() == 1);
    let ghost first = g.nodes@[0];
    assert(given is None ==> views(members@) =~= seq![pkg@]);
    assert(given is None ==> views(members@).contains(pkg@)) by {
        if given is None {
            assert(views(members@)[0] == pkg@);
        }
    }
    let ghost g0 = g;
    proof {
        lemma_extends_refl(g);
        assert forall|n: int| 0 <= n < g.nodes@.len() implies #[trigger] node_origin(*desc, pkg@, g.nodes@[n].id@) by {
            assert(g.nodes@[n] == g.nodes@.last());
        }
        assert forall|n: int| 0 <= n < g.nodes@.len() implies #[trigger] origin_before(*desc, pkg@, g.nodes@[n].id@, 0) by {
            assert(g.nodes@[n] == g.nodes@.last());
        }
        assert(views(members@) =~= effective_members(given, pkg@));
    }
    let mut i: usize = 0;
    while i < desc.paths.len()
        invariant
            i <= desc.paths@.len(),
            wf(g),
            extends(g0, g),
            has_node(g0, pkg@),
            method_ids@ == child_ids(desc.index@),
            forall|k: int|
                0 <= k < i && #[trigger] admitted(*desc, desc.paths@[k]) ==> placed(g, *desc, pkg@, desc.paths@[k]),
            forall|n: int| 0 <= n < g.nodes@.len() ==> #[trigger] node_origin(*desc, pkg@, g.nodes@[n].id@),
            forall|x: int| 0 <= x < g.edges@.len() ==> #[trigger] edge_allowed(*desc, pkg@, lookup, g.edges@[x]),
            forall|n: int| 0 <= n < g.nodes@.len() ==> #[trigger] origin_before(*desc, pkg@, g.nodes@[n].id@, i as int),
            views(members@) == effective_members(given, pkg@),
            forall|k: int| 0 <= k < i && admitted(*desc, desc.paths@[k]) && #[trigger] entry_unclaimed(*desc, pkg@, k)
                ==> entry_built(g, *desc, pkg@, k, effective_members(given, pkg@)),
        decreases desc.paths@.len() - i,
    {
        let ghost g1 = g;
        add_path_item(&mut g, desc, pkg, &members, &method_ids, &desc.paths[i]);
        proof {
            lemma_extends_facts(g1, g);
            lemma_extends_trans(g0, g1, g);
            assert forall|k: int| 0 <= k < i + 1 && #[trigger] admitted(*desc, desc.paths@[k]) implies placed(g, *desc, pkg@, desc.paths@[k]) by {
                if k < i {
                    lemma_placed_kept(g1, g, *desc, pkg@, desc.paths@[k]);
                }
            }
            assert forall|n: int| 0 <= n < g.nodes@.len() implies #[trigger] node_origin(*desc, pkg@, g.nodes@[n].id@) by {
                if n < g1.nodes@.len() {
                    assert(g.nodes@.take(g1.nodes@.len() as int)[n] == g.nodes@[n]);
                    assert(node_origin(*desc, pkg@, g1.nodes@[n].id@));
                } else {
                    assert(path_origin(*desc, pkg@, desc.paths@[i as int], g.nodes@[n].id@));
                    assert(admitted(*desc, desc.paths@[i as int]));
                }
            }
            assert forall|x: int| 0 <= x < g.edges@.len() implies #[trigger] edge_allowed(*desc, pkg@, lookup, g.edges@[x]) by {
                if x < g1.edges@.len() {
                    assert(g.edges@.take(g1.edges@.len() as int)[x] == g.edges@[x]);
                    assert(edge_allowed(*desc, pkg@, lookup, g1.edges@[x]));
                } else {
                    assert(prefix_contains(*desc, pkg@, desc.paths@[i as int], g.edges@[x].from@, g.edges@[x].to@));
                    assert(admitted(*desc, desc.paths@[i as int]));
                }
            }
            let mem = effective_members(given, pkg@);
            let e = desc.paths@[i as int];
            assert forall|n: int| 0 <= n < g.nodes@.len() implies #[trigger] origin_before(*desc, pkg@, g.nodes@[n].id@, i + 1) by {
                if n < g1.nodes@.len() {
                    assert(g.nodes@.take(g1.nodes@.len() as int)[n] == g.nodes@[n]);
                    assert(origin_before(*desc, pkg@, g1.nodes@[n].id@, i as int));
                    if g.nodes@[n].id@ != pkg@ {
                        let k = choose|k: int| 0 <= k < i && admitted(*desc, desc.paths@[k]) && #[trigger] path_origin(*desc, pkg@, desc.paths@[k], g1.nodes@[n].id@);
                    }
                } else {
                    assert(path_origin(*desc, pkg@, e, g.nodes@[n].id@));
                    assert(admitted(*desc, e));
                }
            }
            if admitted(*desc, e) && entry_unclaimed(*desc, pkg@, i as int) {
                let owner = entry_package(*desc, pkg@, e);
                let id = path_id(owner, views(e.path@));
                assert(!has_node(g1, id)) by {
                    if has_node(g1, id) {
                        let n = choose|n: int| 0 <= n < g1.nodes@.len() && (#[trigger] g1.nodes@[n]).id@ == id;
                        assert(origin_before(*desc, pkg@, g1.nodes@[n].id@, i as int));
                        if id != pkg@ {
                            let k = choose|k: int| 0 <= k < i && admitted(*desc, desc.paths@[k]) && #[trigger] path_origin(*desc, pkg@, desc.paths@[k], id);
                            assert(k != i);
                        }
                    }
                }
                assert(entry_fresh(g1, *desc, pkg@, e));
                assert(entry_built(g, *desc, pkg@, i as int, mem));
            }
            assert forall|k: int| 0 <= k < i + 1 && admitted(*desc, desc.paths@[k]) && #[trigger] entry_unclaimed(*desc, pkg@, k)
                implies entry_built(g, *desc, pkg@, k, mem) by {
                if k < i {
                    lemma_entry_built_kept(g1, g, *desc, pkg@, k, mem);
                }
            }
        }
        i = i + 1;
    }
    let ghost ga = g;
    proof {
        lemma_extends_facts(g0, ga);
        assert forall|id: Seq<char>| #[trigger] known(*desc, pkg@, id) implies has_node(ga, id) by {
            let k = choose|k: int| 0 <= k < desc.paths@.len() && admitted(*desc, desc.paths@[k]) && #[trigger] entry_id(*desc, pkg@, desc.paths@[k]) == id;
            assert(placed(ga, *desc, pkg@, desc.paths@[k]));
        }
    }
    add_reexport_edges(&mut g, desc, pkg);
    let ghost gb = g;
    proof {
        lemma_extends_facts(ga, gb);
        assert forall|x: int| 0 <= x < gb.edges@.len() implies #[trigger] edge_allowed(*desc, pkg@, lookup, gb.edges@[x]) by {
            if x < ga.edges@.len() {
                assert(gb.edges@.take(ga.edges@.len() as int)[x] == gb.edges@[x]);
                assert(edge_allowed(*desc, pkg@, lookup, ga.edges@[x]));
            }
        }
        assert forall|k: int| 0 <= k < desc.index@.len() implies #[trigger] reexport_known_ok(gb, *desc, pkg@, reexport_of(*desc, pkg@, desc.index@[k])) by {
            assert(reexport_ok(ga, gb, reexport_of(*desc, pkg@, desc.index@[k])));
        }
    }
    let mut j: usize = 0;
    proof {
        lemma_extends_refl(g);
        assert forall|n: int| 0 <= n < g.nodes@.len() implies #[trigger] origin_before_impl(*desc, pkg@, g.nodes@[n].id@, 0) by {
            assert(g.nodes@[n] == ga.nodes@[n]);
            assert(origin_before(*desc, pkg@, ga.nodes@[n].id@, desc.paths@.len() as int));
            if ga.nodes@[n].id@ != pkg@ {
                let k = choose|k: int| 0 <= k < desc.paths@.len() && admitted(*desc, desc.paths@[k]) && #[trigger] path_origin(*desc, pkg@, desc.paths@[k], ga.nodes@[n].id@);
            }
        }
    }
    while j < desc.index.len()
        invariant
            j <= desc.index@.len(),
            wf(g),
            extends(gb, g),
            lookup.named_paths@.len() == lookup.named_names@.len(),
            lookup_of(lookup, *desc, pkg@),
            forall|id: Seq<char>| #[trigger] known(*desc, pkg@, id) ==> has_node(ga, id),
            extends(ga, gb),
            forall|k: int| 0 <= k < j ==> #[trigger] impl_placed(g, *desc, pkg@, desc.index@[k]),
            forall|k: int| 0 <= k < j ==> #[trigger] relations_ok(g, *desc, pkg@, lookup, desc.index@[k]),
            forall|n: int| 0 <= n < g.nodes@.len() ==> #[trigger] node_origin(*desc, pkg@, g.nodes@[n].id@),
            forall|x: int| 0 <= x < g.edges@.len() ==> #[trigger] edge_allowed(*desc, pkg@, lookup, g.edges@[x]),
            forall|n: int| 0 <= n < g.nodes@.len() ==> #[trigger] origin_before_impl(*desc, pkg@, g.nodes@[n].id@, j as int),
            forall|k: int| 0 <= k < j && #[trigger] impl_unclaimed(*desc, pkg@, k) ==> impl_built(g, *desc, pkg@, k),
        decreases desc.index@.len() - j,
    {
        let ghost g1 = g;
        proof {
            lemma_extends_trans(ga, gb, g1);
            lemma_extends_facts(ga, g1);
        }
        add_item_relations(&mut g, desc, pkg, &members, &lookup, &desc.index[j]);
        proof {
            lemma_extends_trans(gb, g1, g);
            lemma_extends_facts(g1, g);
            assert forall|k: int| 0 <= k < j + 1 implies #[trigger] impl_placed(g, *desc, pkg@, desc.index@[k]) by {
                if k < j {
                    assert(impl_placed(g1, *desc, pkg@, desc.index@[k]));
                }
            }
            assert forall|k: int| 0 <= k < j + 1 implies #[trigger] relations_ok(g, *desc, pkg@, lookup, desc.index@[k]) by {
                if k < j {
                    lemma_relations_mono(g1, g, *desc, pkg@, lookup, desc.index@[k]);
                }
            }
            assert forall|n: int| 0 <= n < g.nodes@.len() implies #[trigger] node_origin(*desc, pkg@, g.nodes@[n].id@) by {
                if n < g1.nodes@.len() {
                    assert(g.nodes@.take(g1.nodes@.len() as int)[n] == g.nodes@[n]);
                    assert(node_origin(*desc, pkg@, g1.nodes@[n].id@));
                } else {
                    assert(impl_origin(*desc, pkg@, desc.index@[j as int], g.nodes@[n].id@));
                }
            }
            assert forall|x: int| 0 <= x < g.edges@.len() implies #[trigger] edge_allowed(*desc, pkg@, lookup, g.edges@[x]) by {
                if x < g1.edges@.len() {
                    assert(g.edges@.take(g1.edges@.len() as int)[x] == g.edges@[x]);
                    assert(edge_allowed(*desc, pkg@, lookup, g1.edges@[x]));
                } else {
                    assert(item_edge_ok(*desc, pkg@, lookup, desc.index@[j as int], g.edges@[x]));
                }
            }
            assert forall|n: int| 0 <= n < g.nodes@.len() implies #[trigger] origin_before_impl(*desc, pkg@, g.nodes@[n].id@, j + 1) by {
                if n < g1.nodes@.len() {
                    assert(g.nodes@.take(g1.nodes@.len() as int)[n] == g.nodes@[n]);
                    assert(origin_before_impl(*desc, pkg@, g1.nodes@[n].id@, j as int));
                    let id = g1.nodes@[n].id@;
                    if id != pkg@ && !(exists|k: int| 0 <= k < desc.paths@.len() && admitted(*desc, desc.paths@[k]) && #[trigger] path_origin(*desc, pkg@, desc.paths@[k], id)) {
                        let k = choose|k: int| 0 <= k < j && #[trigger] impl_origin(*desc, pkg@, desc.index@[k], id);
                    }
                } else {
                    assert(impl_origin(*desc, pkg@, desc.index@[j as int], g.nodes@[n].id@));
                }
            }
            lemma_pass_b_step(g1, g, *desc, pkg@, j as int);
            assert forall|k: int| 0 <= k < j + 1 && #[trigger] impl_unclaimed(*desc, pkg@, k) implies impl_built(g, *desc, pkg@, k) by {
                if k < j {
                    lemma_impl_built_kept(g1, g, *desc, pkg@, k);
                }
            }
        }
        j = j + 1;
    }
    proof {
        lemma_extends_facts(gb, g);
        lemma_extends_trans(ga, gb, g);
        lemma_extends_trans(g0, ga, g);
        assert(g.nodes@.take(g0.nodes@.len() as int)[0] == g.nodes@[0]);
        assert forall|k: int| 0 <= k < desc.index@.len() implies #[trigger] reexport_known_ok(g, *desc, pkg@, reexport_of(*desc, pkg@, desc.index@[k])) by {
            assert(reexport_known_ok(gb, *desc, pkg@, reexport_of(*desc, pkg@, desc.index@[k])));
        }
        assert forall|k: int| 0 <= k < desc.paths@.len() && #[trigger] admitted(*desc, desc.paths@[k]) implies placed(g, *desc, pkg@, desc.paths@[k]) by {
            lemma_placed_kept(ga, g, *desc, pkg@, desc.paths@[k]);
        }
        assert forall|x: int| 0 <= x < g.edges@.len() implies (#[trigger] g.edges@[x]).kind != EdgeKind::CallsStatic
            && g.edges@[x].kind != EdgeKind::CallsRuntime by {
            lemma_allowed_kinds(*desc, pkg@, lookup, g.edges@[x]);
        }
    }
    g
}

/// `id` is the package, comes from an admitted path entry, or from an impl item before the `j`-th.
pub open spec fn origin_before_impl(desc: ApiDescription, pkg: Seq<char>, id: Seq<char>, j: int) -> bool {
    ||| id == pkg
    ||| exists|k: int| 0 <= k < desc.paths@.len() && admitted(desc, desc.paths@[k]) && #[trigger] path_origin(desc, pkg, desc.paths@[k], id)
    ||| exists|k: int| 0 <= k < j && #[trigger] impl_origin(desc, pkg, desc.index@[k], id)
}

/// `id` is claimed by nothing but the `k`-th index item: not the package, no
/// admitted entry, no other impl item.
pub open spec fn claimed_only_by(desc: ApiDescription, pkg: Seq<char>, k: int, id: Seq<char>) -> bool {
    &&& id != pkg
    &&& forall|k2: int| 0 <= k2 < desc.paths@.len() && admitted(desc, desc.paths@[k2]) ==> !#[trigger] path_origin(desc, pkg, desc.paths@[k2], id)
    &&& forall|j2: int| 0 <= j2 < desc.index@.len() && j2 != k ==> !#[trigger] impl_origin(desc, pkg, desc.index@[j2], id)
}

/// The `k`-th index item is an impl whose node ID nothing else claims.
pub open spec fn impl_unclaimed(desc: ApiDescription, pkg: Seq<char>, k: int) -> bool {
    let it = desc.index@[k];
    it.inner is Impl && claimed_only_by(desc, pkg, k, impl_id(crate_name_of(desc.external_crates@, it.crate_id, pkg), it.id as nat))
}

/// What the `k`-th index item, an impl, puts in `g`: its node with
/// `impl_type` and `impl_trait`, and for every associated function or type
/// alias whose ID nothing else claims, its per-impl node (kind,
/// `parent_impl`, content) and the `Defines` edge from the impl.
pub open spec fn impl_built(g: Graph, desc: ApiDescription, pkg: Seq<char>, k: int) -> bool {
    let it = desc.index@[k];
    let owner = crate_name_of(desc.external_crates@, it.crate_id, pkg);
    let id = impl_id(owner, it.id as nat);
    match it.inner {
        ItemInner::Impl { trait_, items, .. } => {
            &&& has_impl_node_with_trait(g, id, impl_trait_of(desc, pkg, trait_), impl_type_of(trait_))
            &&& forall|m: int|
                0 <= m < items@.len() && #[trigger] gets_assoc_node(desc.index@, items@[m]) && claimed_only_by(desc, pkg, k, method_id(id, items@[m] as nat))
                    && method_id(id, items@[m] as nat) != owner ==> has_child_node(g, desc, pkg, id, items@[m])
                    && has_edge(g, id, method_id(id, items@[m] as nat), EdgeKind::Defines)
        },
        _ => true,
    }
}

proof fn lemma_impl_built_kept(g1: Graph, g2: Graph, desc: ApiDescription, pkg: Seq<char>, k: int)
    requires
        extends(g1, g2),
        0 <= k < desc.index@.len(),
        impl_built(g1, desc, pkg, k),
    ensures
        impl_built(g2, desc, pkg, k),
{
    lemma_extends_facts(g1, g2);
    let it = desc.index@[k];
    let owner = crate_name_of(desc.external_crates@, it.crate_id, pkg);
    let id = impl_id(owner, it.id as nat);
    match it.inner {
        ItemInner::Impl { trait_, items, .. } => {
            lemma_impl_trait_kept(g1, g2, id, impl_trait_of(desc, pkg, trait_), impl_type_of(trait_));
            assert forall|m: int|
                0 <= m < items@.len() && #[trigger] gets_assoc_node(desc.index@, items@[m]) && claimed_only_by(desc, pkg, k, method_id(id, items@[m] as nat))
                    && method_id(id, items@[m] as nat) != owner implies has_child_node(g2, desc, pkg, id, items@[m])
                    && has_edge(g2, id, method_id(id, items@[m] as nat), EdgeKind::Defines) by {
                lemma_child_node_kept(g1, g2, desc, pkg, id, items@[m]);
            }
        },
        _ => {},
    }
}

proof fn lemma_pass_b_step(g1: Graph, g: Graph, desc: ApiDescription, pkg: Seq<char>, j: int)
    requires
        0 <= j < desc.index@.len(),
        forall|n: int| 0 <= n < g1.nodes@.len() ==> #[trigger] origin_before_impl(desc, pkg, g1.nodes@[n].id@, j),
        desc.index@[j].inner is Impl ==> impl_facts(g1, g, desc, pkg, desc.index@[j]),
    ensures
        impl_unclaimed(desc, pkg, j) ==> impl_built(g, desc, pkg, j),
{
    let it = desc.index@[j];
    let owner = crate_name_of(desc.external_crates@, it.crate_id, pkg);
    let id = impl_id(owner, it.id as nat);
    if impl_unclaimed(desc, pkg, j) {
        lemma_unclaimed_absent(g1, desc, pkg, j, id);
        match it.inner {
            ItemInner::Impl { trait_, items, .. } => {
                assert forall|m: int|
                    0 <= m < items@.len() && #[trigger] gets_assoc_node(desc.index@, items@[m]) && claimed_only_by(desc, pkg, j, method_id(id, items@[m] as nat))
                        && method_id(id, items@[m] as nat) != owner implies has_child_node(g, desc, pkg, id, items@[m])
                        && has_edge(g, id, method_id(id, items@[m] as nat), EdgeKind::Defines) by {
                    lemma_unclaimed_absent(g1, desc, pkg, j, method_id(id, items@[m] as nat));
                }
            },
            _ => {},
        }
    }
}

/// An ID claimed only by the `j`-th item is not yet a node before that item.
proof fn lemma_unclaimed_absent(g1: Graph, desc: ApiDescription, pkg: Seq<char>, j: int, id: Seq<char>)
    requires
        0 <= j < desc.index@.len(),
        forall|n: int| 0 <= n < g1.nodes@.len() ==> #[trigger] origin_before_impl(desc, pkg, g1.nodes@[n].id@, j),
        claimed_only_by(desc, pkg, j, id),
    ensures
        !has_node(g1, id),
{
    if has_node(g1, id) {
        let n = choose|n: int| 0 <= n < g1.nodes@.len() && (#[trigger] g1.nodes@[n]).id@ == id;
        assert(origin_before_impl(desc, pkg, g1.nodes@[n].id@, j));
        if exists|k: int| 0 <= k < j && #[trigger] impl_origin(desc, pkg, desc.index@[k], id) {
            let k = choose|k: int| 0 <= k < j && #[trigger] impl_origin(desc, pkg, desc.index@[k], id);
            assert(k != j);
        }
    }
}

/// The members that decide whether a package is external: the given list,
/// or the package alone.
pub open spec fn effective_members(members: Option<Vec<String>>, pkg: Seq<char>) -> Seq<Seq<char>> {
    match members {
        Some(m) => views(m@),
        None => seq![pkg],
    }
}

/// `id` is the package or comes from an admitted path entry before the `i`-th.
pub open spec fn origin_before(desc: ApiDescription, pkg: Seq<char>, id: Seq<char>, i: int) -> bool {
    id == pkg || exists|k: int| 0 <= k < i && admitted(desc, desc.paths@[k]) && #[trigger] path_origin(desc, pkg, desc.paths@[k], id)
}

/// The `k`-th entry's node ID is claimed by nothing else: not the package,
/// not its own package or path prefixes, nor any other admitted entry's.
pub open spec fn entry_unclaimed(desc: ApiDescription, pkg: Seq<char>, k: int) -> bool {
    let e = desc.paths@[k];
    let owner = entry_package(desc, pkg, e);
    let id = path_id(owner, views(e.path@));
    &&& id != pkg
    &&& id != owner
    &&& forall|j: int| 1 <= j < e.path@.len() ==> #[trigger] path_id(owner, views(e.path@).take(j)) != id
    &&& forall|k2: int|
        0 <= k2 < desc.paths@.len() && k2 != k && admitted(desc, desc.paths@[k2]) ==> !#[trigger] path_origin(desc, pkg, desc.paths@[k2], id)
}

/// The `k`-th entry's node is in `g`, made from the entry.
pub open spec fn entry_built(g: Graph, desc: ApiDescription, pkg: Seq<char>, k: int, members: Seq<Seq<char>>) -> bool {
    let e = desc.paths@[k];
    let owner = entry_package(desc, pkg, e);
    exists|n: int|
        0 <= n < g.nodes@.len() && (#[trigger] g.nodes@[n]).id@ == path_id(owner, views(e.path@)) && entry_node_ok(
            g.nodes@[n],
            desc,
            pkg,
            e,
            node_kind_of(e.kind, child_ids(desc.index@).contains(e.id))->0,
            !members.contains(owner),
        )
}

proof fn lemma_entry_built_kept(g1: Graph, g2: Graph, desc: ApiDescription, pkg: Seq<char>, k: int, members: Seq<Seq<char>>)
    requires
        extends(g1, g2),
        0 <= k < desc.paths@.len(),
        entry_built(g1, desc, pkg, k, members),
    ensures
        entry_built(g2, desc, pkg, k, members),
{
    let e = desc.paths@[k];
    let owner = entry_package(desc, pkg, e);
    let n = choose|n: int|
        0 <= n < g1.nodes@.len() && (#[trigger] g1.nodes@[n]).id@ == path_id(owner, views(e.path@)) && entry_node_ok(
            g1.nodes@[n], desc, pkg, e, node_kind_of(e.kind, child_ids(desc.index@).contains(e.id))->0, !members.contains(owner));
    assert(g2.nodes@.take(g1.nodes@.len() as int)[n] == g2.nodes@[n]);
}

/// An edge an extracted graph may hold: a `Contains` edge along an admitted
/// path, a re-export, or an edge Pass B makes for an index item.
pub open spec fn edge_allowed(desc: ApiDescription, pkg: Seq<char>, lk: crate::derives::TraitLookup, x: Edge) -> bool {
    ||| x.kind == EdgeKind::Contains && exists|k: int|
        0 <= k < desc.paths@.len() && admitted(desc, desc.paths@[k]) && #[trigger] prefix_contains(desc, pkg, desc.paths@[k], x.from@, x.to@)
    ||| x.kind == EdgeKind::ReExports && exists|k: int|
        0 <= k < desc.index@.len() && #[trigger] reexport_of(desc, pkg, desc.index@[k]) == Some((x.from@, x.to@))
    ||| exists|k: int| 0 <= k < desc.index@.len() && #[trigger] item_edge_ok(desc, pkg, lk, desc.index@[k], x)
}

/// Extraction without sources makes no call edges.
pub proof fn lemma_allowed_kinds(desc: ApiDescription, pkg: Seq<char>, lk: crate::derives::TraitLookup, x: Edge)
    requires
        edge_allowed(desc, pkg, lk, x),
    ensures
        x.kind != EdgeKind::CallsStatic && x.kind != EdgeKind::CallsRuntime,
{
    if exists|k: int| 0 <= k < desc.index@.len() && #[trigger] item_edge_ok(desc, pkg, lk, desc.index@[k], x) {
        let k = choose|k: int| 0 <= k < desc.index@.len() && #[trigger] item_edge_ok(desc, pkg, lk, desc.index@[k], x);
        let it = desc.index@[k];
        match it.inner {
            ItemInner::Impl { trait_, for_id, items } => {},
            _ => {},
        }
    }
}

/// The entry's package and item nodes exist, and when the package node is a
/// package the item node is rooted: it has a `Contains` parent or is a package.
pub open spec fn placed(g: Graph, desc: ApiDescription, pkg: Seq<char>, e: PathSummary) -> bool {
    let owner = entry_package(desc, pkg, e);
    let id = path_id(owner, views(e.path@));
    &&& has_node(g, owner)
    &&& has_node(g, id)
    &&& (has_node_of_kind(g, owner, NodeKind::Crate) ==> rooted(g, id))
}

proof fn lemma_placed_kept(g1: Graph, g2: Graph, desc: ApiDescription, pkg: Seq<char>, e: PathSummary)
    requires
        wf(g2),
        extends(g1, g2),
        placed(g1, desc, pkg, e),
    ensures
        placed(g2, desc, pkg, e),
{
    lemma_extends_facts(g1, g2);
    let owner = entry_package(desc, pkg, e);
    let id = path_id(owner, views(e.path@));
    if has_node_of_kind(g1, owner, NodeKind::Crate) {
        lemma_rooted_mono(g1, g2, id);
    } else {
        lemma_kind_stable(g1, g2, owner, NodeKind::Crate);
    }
}

} // verus!
