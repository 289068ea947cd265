//! Call extraction over parsed source modules, module-file resolution and the
//! in-memory source provider.

use vstd::prelude::*;
use crate::text::{views, opt_view, str_eq, copy_strings, replace_char, replace_chars, starts_with};
use crate::index::FunctionIndex;
use crate::model::{EdgeKind, Graph, Node, Edge, Confidence};
use crate::graph::{wf, extends, has_node, has_edge, lemma_extends_facts, lemma_extends_trans, lemma_extends_refl};
use crate::calls::{
    CallExpr, CallMode, TypeSegments, candidates_of, has_candidate, is_candidate, is_static_candidate, path_query_lists,
    free_fn_caller, method_caller, type_segments_of,
    method_query_lists, type_view, resolve_callee_path_candidates, resolve_callee_method_candidates,
    resolve_free_fn_caller, resolve_method_caller, resolve_type_segments, add_call_edges,
};

verus! {

/// A function body: the function's name and the call sites in its body.
pub struct FnBody {
    pub name: String,
    pub calls: Vec<CallExpr>,
}

/// An item of a parsed module that matters to call extraction.
pub enum SourceItem {
    /// A free function.
    Fn(FnBody),
    /// An impl block: its self-type path, when it is a path, and its functions.
    Impl { self_ty: Option<Vec<String>>, fns: Vec<FnBody> },
    /// A trait: its name and the functions that have a default body.
    Trait { name: String, fns: Vec<FnBody> },
    /// A module declared without a body, whose items live in another file.
    FileMod { name: String, path_override: Option<String> },
}

/// The items of one module of a source file, with the module's path relative
/// to the file's own module (empty for the file's top level).
pub struct SourceModule {
    pub rel_path: Vec<String>,
    pub items: Vec<SourceItem>,
}

/// A module whose file still has to be found and read.
pub struct PendingModule {
    pub name: String,
    pub path_override: Option<String>,
    pub mod_path: Vec<String>,
}

/// The candidate lists of one call site.
pub open spec fn call_lists(
    index: FunctionIndex,
    call: CallExpr,
    mod_path: Seq<Seq<char>>,
    self_type: Option<(Seq<Seq<char>>, bool)>,
    mode: CallMode,
) -> Seq<Seq<Seq<char>>> {
    match call {
        CallExpr::Path(segs) => path_query_lists(index, views(segs@), mod_path, mode),
        CallExpr::Method(name) => method_query_lists(index, name@, mod_path, self_type, mode),
    }
}

/// Some node of `ns` has ID `id`.
pub open spec fn in_nodes(ns: Seq<Node>, id: Seq<char>) -> bool {
    exists|i: int| 0 <= i < ns.len() && (#[trigger] ns[i]).id@ == id
}

/// `e` is a call edge to a candidate of `lists`, with that candidate's confidence.
pub open spec fn call_edge_ok(lists: Seq<Seq<Seq<char>>>, mode: CallMode, e: Edge) -> bool {
    is_candidate(lists, mode, e.to@) && e.confidence == (if is_static_candidate(lists, e.to@) {
        Confidence::Static
    } else {
        Confidence::Inferred
    })
}

/// `e` goes to a candidate of call `k` with that call's confidence, and no
/// earlier call of the body has `e`'s target as a candidate: the first call
/// that yields a callee fixes the edge's confidence.
pub open spec fn first_call_edge(
    index: FunctionIndex,
    calls: Seq<CallExpr>,
    mod_path: Seq<Seq<char>>,
    st: Option<(Seq<Seq<char>>, bool)>,
    mode: CallMode,
    e: Edge,
) -> bool {
    exists|k: int|
        0 <= k < calls.len() && call_edge_ok(call_lists(index, #[trigger] calls[k], mod_path, st, mode), mode, e)
            && forall|k2: int| 0 <= k2 < k ==> !is_candidate(call_lists(index, #[trigger] calls[k2], mod_path, st, mode), mode, e.to@)
}

/// Every candidate of every call of a body by `caller` has its call edge in
/// `g`, when both nodes are among `ns` and differ.
pub open spec fn body_ok(
    ns: Seq<Node>,
    g: Graph,
    index: FunctionIndex,
    mode: CallMode,
    mod_path: Seq<Seq<char>>,
    st: Option<(Seq<Seq<char>>, bool)>,
    caller: Seq<char>,
    calls: Seq<CallExpr>,
) -> bool {
    forall|k: int, id: Seq<char>|
        0 <= k < calls.len() && is_candidate(call_lists(index, #[trigger] calls[k], mod_path, st, mode), mode, id)
            && in_nodes(ns, caller) && #[trigger] in_nodes(ns, id) && caller != id ==> has_edge(g, caller, id, EdgeKind::CallsStatic)
}

/// The call edges of a function of an impl or trait, when its caller resolves.
pub open spec fn fn_ok(
    ns: Seq<Node>,
    g: Graph,
    index: FunctionIndex,
    mode: CallMode,
    mod_path: Seq<Seq<char>>,
    st: Option<(Seq<Seq<char>>, bool)>,
    f: FnBody,
) -> bool {
    match method_caller(index, mod_path, st, f.name@) {
        Some(c) => body_ok(ns, g, index, mode, mod_path, st, c, f.calls@),
        None => true,
    }
}

/// The self type an impl's functions are resolved with.
pub open spec fn impl_self_type(self_ty: Option<Vec<String>>, mod_path: Seq<Seq<char>>) -> Option<(Seq<Seq<char>>, bool)> {
    match self_ty {
        Some(segs) => {
            let t = type_segments_of(views(segs@), mod_path);
            if t.0.len() > 0 { Some(t) } else { None }
        },
        None => None,
    }
}

/// The call edges of one item of a module at `mod_path`.
pub open spec fn item_ok(ns: Seq<Node>, g: Graph, index: FunctionIndex, mode: CallMode, mod_path: Seq<Seq<char>>, item: SourceItem) -> bool {
    match item {
        SourceItem::Fn(b) => match free_fn_caller(index, mod_path, b.name@) {
            Some(c) => body_ok(ns, g, index, mode, mod_path, None, c, b.calls@),
            None => true,
        },
        SourceItem::Impl { self_ty, fns } => forall|i: int|
            0 <= i < fns@.len() ==> fn_ok(ns, g, index, mode, mod_path, impl_self_type(self_ty, mod_path), #[trigger] fns@[i]),
        SourceItem::Trait { name, fns } => forall|i: int|
            0 <= i < fns@.len() ==> fn_ok(ns, g, index, mode, mod_path, Some(type_segments_of(seq![name@], mod_path)), #[trigger] fns@[i]),
        SourceItem::FileMod { .. } => true,
    }
}

proof fn lemma_body_ok_mono(
    ns: Seq<Node>,
    ga: Graph,
    gb: Graph,
    index: FunctionIndex,
    mode: CallMode,
    mod_path: Seq<Seq<char>>,
    st: Option<(Seq<Seq<char>>, bool)>,
    caller: Seq<char>,
    calls: Seq<CallExpr>,
)
    requires
        body_ok(ns, ga, index, mode, mod_path, st, caller, calls),
        extends(ga, gb),
    ensures
        body_ok(ns, gb, index, mode, mod_path, st, caller, calls),
{
    lemma_extends_facts(ga, gb);
}

proof fn lemma_item_ok_mono(ns: Seq<Node>, ga: Graph, gb: Graph, index: FunctionIndex, mode: CallMode, mod_path: Seq<Seq<char>>, item: SourceItem)
    requires
        item_ok(ns, ga, index, mode, mod_path, item),
        extends(ga, gb),
    ensures
        item_ok(ns, gb, index, mode, mod_path, item),
{
    lemma_extends_facts(ga, gb);
    match item {
        SourceItem::Fn(b) => {
            match free_fn_caller(index, mod_path, b.name@) {
                Some(c) => lemma_body_ok_mono(ns, ga, gb, index, mode, mod_path, None, c, b.calls@),
                None => {},
            }
        },
        SourceItem::Impl { self_ty, fns } => {
            let st = impl_self_type(self_ty, mod_path);
            assert forall|i: int| 0 <= i < fns@.len() implies fn_ok(ns, gb, index, mode, mod_path, st, #[trigger] fns@[i]) by {
                assert(fn_ok(ns, ga, index, mode, mod_path, st, fns@[i]));
                match method_caller(index, mod_path, st, fns@[i].name@) {
                    Some(c) => lemma_body_ok_mono(ns, ga, gb, index, mode, mod_path, st, c, fns@[i].calls@),
                    None => {},
                }
            }
        },
        SourceItem::Trait { name, fns } => {
            let st = Some(type_segments_of(seq![name@], mod_path));
            assert forall|i: int| 0 <= i < fns@.len() implies fn_ok(ns, gb, index, mode, mod_path, st, #[trigger] fns@[i]) by {
                assert(fn_ok(ns, ga, index, mode, mod_path, st, fns@[i]));
                match method_caller(index, mod_path, st, fns@[i].name@) {
                    Some(c) => lemma_body_ok_mono(ns, ga, gb, index, mode, mod_path, st, c, fns@[i].calls@),
                    None => {},
                }
            }
        },
        SourceItem::FileMod { .. } => {},
    }
}

/// Adds the call edges of one body whose caller ID is `caller`: one edge to
/// each candidate of each call, with the candidate's confidence.
pub fn add_body_calls(
    g: &mut Graph,
    index: &FunctionIndex,
    mode: CallMode,
    caller: &str,
    mod_path: &[String],
    self_type: Option<&TypeSegments>,
    calls: &Vec<CallExpr>,
)
    requires
        wf(*old(g)),
        index.wf(),
    ensures
        wf(*final(g)),
        extends(*old(g), *final(g)),
        final(g).nodes@ == old(g).nodes@,
        body_ok(old(g).nodes@, *final(g), *index, mode, views(mod_path@), type_view(self_type), caller@, calls@),
        forall|j: int|
            old(g).edges@.len() <= j < final(g).edges@.len() ==> (#[trigger] final(g).edges@[j]).kind
                == EdgeKind::CallsStatic && final(g).edges@[j].from@ == caller@
                && first_call_edge(*index, calls@, views(mod_path@), type_view(self_type), mode, final(g).edges@[j]),
{
    let ghost g0 = *g;
    proof { lemma_extends_refl(*g); }
    let mut k: usize = 0;
    while k < calls.len()
        invariant
            k <= calls@.len(),
            wf(*g),
            index.wf(),
            extends(g0, *g),
            g.nodes@ == g0.nodes@,
            forall|k2: int, id: Seq<char>|
                0 <= k2 < k && is_candidate(
                    call_lists(*index, #[trigger] calls@[k2], views(mod_path@), type_view(self_type), mode),
                    mode,
                    id,
                ) && in_nodes(g0.nodes@, caller@) && #[trigger] in_nodes(g0.nodes@, id) && caller@ != id ==> has_edge(
                    *g,
                    caller@,
                    id,
                    EdgeKind::CallsStatic,
                ),
            forall|j: int|
                g0.edges@.len() <= j < g.edges@.len() ==> (#[trigger] g.edges@[j]).kind == EdgeKind::CallsStatic
                    && g.edges@[j].from@ == caller@
                    && first_call_edge(*index, calls@, views(mod_path@), type_view(self_type), mode, g.edges@[j]),
        decreases calls@.len() - k,
    {
        let candidates = match &calls[k] {
            CallExpr::Path(segs) => resolve_callee_path_candidates(index, segs.as_slice(), mod_path, mode),
            CallExpr::Method(name) => resolve_callee_method_candidates(index, name.as_str(), mod_path, self_type, mode),
        };
        let ghost lists = call_lists(*index, calls@[k as int], views(mod_path@), type_view(self_type), mode);
        assert(candidates_of(candidates@, lists, mode));
        let ghost g1 = *g;
        add_call_edges(g, caller, &candidates);
        proof {
            lemma_extends_facts(g1, *g);
            lemma_extends_trans(g0, g1, *g);
            assert forall|k2: int, id: Seq<char>|
                0 <= k2 < k + 1 && is_candidate(
                    call_lists(*index, #[trigger] calls@[k2], views(mod_path@), type_view(self_type), mode),
                    mode,
                    id,
                ) && in_nodes(g0.nodes@, caller@) && #[trigger] in_nodes(g0.nodes@, id) && caller@ != id implies has_edge(
                *g,
                caller@,
                id,
                EdgeKind::CallsStatic,
            ) by {
                if k2 == k {
                    assert(has_candidate(candidates@, id));
                    let i = choose|i: int| 0 <= i < candidates@.len() && (#[trigger] candidates@[i]).0@ == id;
                    let a = choose|a: int| 0 <= a < g0.nodes@.len() && (#[trigger] g0.nodes@[a]).id@ == id;
                    let b = choose|b: int| 0 <= b < g0.nodes@.len() && (#[trigger] g0.nodes@[b]).id@ == caller@;
                    assert(g1.nodes@[a].id@ == id);
                    assert(g1.nodes@[b].id@ == caller@);
                    assert(has_node(g1, candidates@[i].0@));
                    assert(has_node(g1, caller@));
                } else {
                    assert(has_edge(g1, caller@, id, EdgeKind::CallsStatic));
                }
            }
            assert forall|j: int|
                g0.edges@.len() <= j < g.edges@.len() implies (#[trigger] g.edges@[j]).kind == EdgeKind::CallsStatic
                    && g.edges@[j].from@ == caller@
                    && first_call_edge(*index, calls@, views(mod_path@), type_view(self_type), mode, g.edges@[j]) by {
                if j < g1.edges@.len() {
                    assert(g.edges@[j] == g1.edges@[j]);
                } else {
                    let e = g.edges@[j];
                    let i = choose|i: int|
                        0 <= i < candidates@.len() && (#[trigger] candidates@[i]).0@ == e.to@
                            && candidates@[i].1 == e.confidence;
                    assert(has_candidate(candidates@, e.to@));
                    assert(call_edge_ok(lists, mode, e));
                    assert forall|k2: int| 0 <= k2 < k implies !is_candidate(
                        call_lists(*index, #[trigger] calls@[k2], views(mod_path@), type_view(self_type), mode),
                        mode,
                        e.to@,
                    ) by {
                        if is_candidate(call_lists(*index, calls@[k2], views(mod_path@), type_view(self_type), mode), mode, e.to@) {
                            assert(has_node(*g, e.from@) && has_node(*g, e.to@));
                            assert(e.from@ != e.to@);
                            let a = choose|a: int| 0 <= a < g.nodes@.len() && (#[trigger] g.nodes@[a]).id@ == e.to@;
                            let b = choose|b: int| 0 <= b < g.nodes@.len() && (#[trigger] g.nodes@[b]).id@ == e.from@;
                            assert(g0.nodes@[a].id@ == e.to@);
                            assert(g0.nodes@[b].id@ == caller@);
                            assert(in_nodes(g0.nodes@, e.to@));
                            assert(in_nodes(g0.nodes@, caller@));
                            assert(has_edge(g1, caller@, e.to@, EdgeKind::CallsStatic));
                            let m = choose|m: int| 0 <= m < g1.edges@.len() && crate::model::edge_key(#[trigger] g1.edges@[m]) == (caller@, e.to@, EdgeKind::CallsStatic);
                            assert(g.edges@[m] == g1.edges@[m]);
                            assert(crate::model::edge_key(g.edges@[m]) == crate::model::edge_key(g.edges@[j]));
                        }
                    }
                    assert(call_lists(*index, calls@[k as int], views(mod_path@), type_view(self_type), mode) == lists);
                }
            }
        }
        k = k + 1;
    }
}

/// Adds the call edges of every function of one parsed module at `mod_path`
/// and returns the file modules it declares, in order, each with its module path.
pub fn add_module_calls(
    g: &mut Graph,
    index: &FunctionIndex,
    mode: CallMode,
    mod_path: &[String],
    items: &Vec<SourceItem>,
) -> (pending: Vec<PendingModule>)
    requires
        wf(*old(g)),
        index.wf(),
    ensures
        wf(*final(g)),
        extends(*old(g), *final(g)),
        final(g).nodes@ == old(g).nodes@,
        forall|j: int|
            old(g).edges@.len() <= j < final(g).edges@.len() ==> (#[trigger] final(g).edges@[j]).kind
                == EdgeKind::CallsStatic,
        forall|i: int| 0 <= i < items@.len() ==> item_ok(old(g).nodes@, *final(g), *index, mode, views(mod_path@), #[trigger] items@[i]),
        pending@.len() == file_mods(items@).len(),
        forall|i: int|
            0 <= i < pending@.len() ==> (#[trigger] pending@[i]).name@ == file_mods(items@)[i].0
                && opt_view(pending@[i].path_override) == file_mods(items@)[i].1
                && views(pending@[i].mod_path@) == views(mod_path@).push(file_mods(items@)[i].0),
{
    let ghost g0 = *g;
    proof { lemma_extends_refl(*g); }
    let mut pending: Vec<PendingModule> = Vec::new();
    let mut i: usize = 0;
    while i < items.len()
        invariant
            i <= items@.len(),
            wf(*g),
            index.wf(),
            extends(g0, *g),
            g.nodes@ == g0.nodes@,
            forall|j: int|
                g0.edges@.len() <= j < g.edges@.len() ==> (#[trigger] g.edges@[j]).kind == EdgeKind::CallsStatic,
            forall|i2: int| 0 <= i2 < i ==> item_ok(g0.nodes@, *g, *index, mode, views(mod_path@), #[trigger] items@[i2]),
            pending@.len() == file_mods(items@.take(i as int)).len(),
            forall|p: int|
                0 <= p < pending@.len() ==> (#[trigger] pending@[p]).name@ == file_mods(items@.take(i as int))[p].0
                    && opt_view(pending@[p].path_override) == file_mods(items@.take(i as int))[p].1
                    && views(pending@[p].mod_path@) == views(mod_path@).push(file_mods(items@.take(i as int))[p].0),
        decreases items@.len() - i,
    {
        let ghost g1 = *g;
        let ghost before = pending@;
        assert(items@.take(i as int + 1).drop_last() =~= items@.take(i as int));
        match &items[i] {
            SourceItem::Fn(body) => {
                if let Some(caller) = resolve_free_fn_caller(index, mod_path, body.name.as_str()) {
                    add_body_calls(g, index, mode, caller.as_str(), mod_path, None, &body.calls);
                } else {
                    proof { lemma_extends_refl(*g); }
                }
            },
            SourceItem::Impl { self_ty, fns } => {
                let ts = match self_ty {
                    Some(segs) => {
                        let t = resolve_type_segments(segs.as_slice(), mod_path);
                        if t.segments.len() > 0 { Some(t) } else { None }
                    },
                    None => None,
                };
                let tr = ts.as_ref();
                assert(type_view(tr) == impl_self_type(*self_ty, views(mod_path@)));
                add_fns_calls(g, index, mode, mod_path, tr, fns);
            },
            SourceItem::Trait { name, fns } => {
                let one = vec![name.clone()];
                assert(views(one@) =~= seq![name@]);
                let ts = resolve_type_segments(one.as_slice(), mod_path);
                add_fns_calls(g, index, mode, mod_path, Some(&ts), fns);
            },
            SourceItem::FileMod { name, path_override } => {
                proof { lemma_extends_refl(*g); }
                let mut next = copy_strings(mod_path);
                next.push(name.clone());
                let po = match path_override {
                    Some(p) => Some(p.clone()),
                    None => None,
                };
                pending.push(PendingModule { name: name.clone(), path_override: po, mod_path: next });
                assert(views(next@) =~= views(mod_path@).push(name@));
            },
        }
        proof {
            lemma_extends_trans(g0, g1, *g);
            assert forall|j: int|
                g0.edges@.len() <= j < g.edges@.len() implies (#[trigger] g.edges@[j]).kind == EdgeKind::CallsStatic by {
                if j < g1.edges@.len() {
                    assert(g.edges@[j] == g1.edges@[j]);
                }
            }
            assert forall|i2: int| 0 <= i2 < i + 1 implies item_ok(g0.nodes@, *g, *index, mode, views(mod_path@), #[trigger] items@[i2]) by {
                if i2 < i {
                    lemma_item_ok_mono(g0.nodes@, g1, *g, *index, mode, views(mod_path@), items@[i2]);
                }
            }
            assert forall|p: int|
                0 <= p < pending@.len() implies (#[trigger] pending@[p]).name@ == file_mods(items@.take(i as int + 1))[p].0
                    && opt_view(pending@[p].path_override) == file_mods(items@.take(i as int + 1))[p].1
                    && views(pending@[p].mod_path@) == views(mod_path@).push(file_mods(items@.take(i as int + 1))[p].0) by {
                if p < before.len() {
                    assert(pending@[p] == before[p]);
                }
            }
        }
        i = i + 1;
    }
    assert(items@.take(items@.len() as int) =~= items@);
    pending
}

/// The file modules among `items`, in order, by name and path override.
pub open spec fn file_mods(items: Seq<SourceItem>) -> Seq<(Seq<char>, Option<Seq<char>>)>
    decreases items.len(),
{
    if items.len() == 0 {
        Seq::empty()
    } else {
        let r = file_mods(items.drop_last());
        match items.last() {
            SourceItem::FileMod { name, path_override } => r.push((name@, opt_view(path_override))),
            _ => r,
        }
    }
}

/// Adds the call edges of the functions of one impl block or trait.
fn add_fns_calls(
    g: &mut Graph,
    index: &FunctionIndex,
    mode: CallMode,
    mod_path: &[String],
    self_type: Option<&TypeSegments>,
    fns: &Vec<FnBody>,
)
    requires
        wf(*old(g)),
        index.wf(),
    ensures
        wf(*final(g)),
        extends(*old(g), *final(g)),
        final(g).nodes@ == old(g).nodes@,
        forall|j: int|
            old(g).edges@.len() <= j < final(g).edges@.len() ==> (#[trigger] final(g).edges@[j]).kind
                == EdgeKind::CallsStatic,
        forall|i: int|
            0 <= i < fns@.len() ==> fn_ok(old(g).nodes@, *final(g), *index, mode, views(mod_path@), type_view(self_type), #[trigger] fns@[i]),
{
    let ghost g0 = *g;
    let ghost st = type_view(self_type);
    let ghost mp = views(mod_path@);
    proof { lemma_extends_refl(*g); }
    let mut i: usize = 0;
    while i < fns.len()
        invariant
            i <= fns@.len(),
            wf(*g),
            index.wf(),
            extends(g0, *g),
            g.nodes@ == g0.nodes@,
            st == type_view(self_type),
            mp == views(mod_path@),
            forall|j: int|
                g0.edges@.len() <= j < g.edges@.len() ==> (#[trigger] g.edges@[j]).kind == EdgeKind::CallsStatic,
            forall|i2: int| 0 <= i2 < i ==> fn_ok(g0.nodes@, *g, *index, mode, mp, st, #[trigger] fns@[i2]),
        decreases fns@.len() - i,
    {
        let ghost g1 = *g;
        let f = &fns[i];
        if let Some(caller) = resolve_method_caller(index, mod_path, self_type, f.name.as_str()) {
            add_body_calls(g, index, mode, caller.as_str(), mod_path, self_type, &f.calls);
            proof {
                lemma_extends_trans(g0, g1, *g);
                assert forall|j: int|
                    g0.edges@.len() <= j < g.edges@.len() implies (#[trigger] g.edges@[j]).kind == EdgeKind::CallsStatic by {
                    if j < g1.edges@.len() {
                        assert(g.edges@[j] == g1.edges@[j]);
                    }
                }
            }
        } else {
            proof { lemma_extends_refl(*g); }
        }
        proof {
            assert forall|i2: int| 0 <= i2 < i + 1 implies fn_ok(g0.nodes@, *g, *index, mode, mp, st, #[trigger] fns@[i2]) by {
                if i2 < i {
                    assert(fn_ok(g0.nodes@, g1, *index, mode, mp, st, fns@[i2]));
                    match method_caller(*index, mp, st, fns@[i2].name@) {
                        Some(c) => lemma_body_ok_mono(g0.nodes@, g1, *g, *index, mode, mp, st, c, fns@[i2].calls@),
                        None => {},
                    }
                }
            }
        }
        i = i + 1;
    }
}


/// The call edges of every item of a module of a file whose own module path is `fmp`.
pub open spec fn module_ok(ns: Seq<Node>, g: Graph, index: FunctionIndex, mode: CallMode, fmp: Seq<Seq<char>>, m: SourceModule) -> bool {
    forall|i: int| 0 <= i < m.items@.len() ==> item_ok(ns, g, index, mode, fmp + views(m.rel_path@), #[trigger] m.items@[i])
}

/// The view of pending modules: name, path override and module path.
pub open spec fn pending_views(p: Seq<PendingModule>) -> Seq<(Seq<char>, Option<Seq<char>>, Seq<Seq<char>>)> {
    p.map_values(|x: PendingModule| (x.name@, opt_view(x.path_override), views(x.mod_path@)))
}

/// The file modules the modules of a parsed file declare, in order, each with
/// its module path under the file's own module path `fmp`.
pub open spec fn pending_of(fmp: Seq<Seq<char>>, modules: Seq<SourceModule>) -> Seq<(Seq<char>, Option<Seq<char>>, Seq<Seq<char>>)>
    decreases modules.len(),
{
    if modules.len() == 0 {
        Seq::empty()
    } else {
        let m = modules.last();
        let base = fmp + views(m.rel_path@);
        pending_of(fmp, modules.drop_last()) + file_mods(m.items@).map_values(
            |f: (Seq<char>, Option<Seq<char>>)| (f.0, f.1, base.push(f.0)),
        )
    }
}

/// Adds the call edges of every module of one parsed file whose own module
/// path is `file_mod_path`, and returns the file modules it declares, in order.
pub fn add_file_calls(
    g: &mut Graph,
    index: &FunctionIndex,
    mode: CallMode,
    file_mod_path: &[String],
    modules: &Vec<SourceModule>,
) -> (pending: Vec<PendingModule>)
    requires
        wf(*old(g)),
        index.wf(),
    ensures
        wf(*final(g)),
        extends(*old(g), *final(g)),
        final(g).nodes@ == old(g).nodes@,
        forall|j: int|
            old(g).edges@.len() <= j < final(g).edges@.len() ==> (#[trigger] final(g).edges@[j]).kind
                == EdgeKind::CallsStatic,
        pending_views(pending@) == pending_of(views(file_mod_path@), modules@),
        forall|m: int| 0 <= m < modules@.len() ==> module_ok(old(g).nodes@, *final(g), *index, mode, views(file_mod_path@), #[trigger] modules@[m]),
{
    let ghost g0 = *g;
    proof { lemma_extends_refl(*g); }
    let mut pending: Vec<PendingModule> = Vec::new();
    let mut i: usize = 0;
    assert(pending_views(pending@) =~= pending_of(views(file_mod_path@), modules@.take(0)));
    while i < modules.len()
        invariant
            i <= modules@.len(),
            wf(*g),
            index.wf(),
            extends(g0, *g),
            g.nodes@ == g0.nodes@,
            forall|j: int|
                g0.edges@.len() <= j < g.edges@.len() ==> (#[trigger] g.edges@[j]).kind == EdgeKind::CallsStatic,
            pending_views(pending@) == pending_of(views(file_mod_path@), modules@.take(i as int)),
            forall|m2: int| 0 <= m2 < i ==> module_ok(g0.nodes@, *g, *index, mode, views(file_mod_path@), #[trigger] modules@[m2]),
        decreases modules@.len() - i,
    {
        let ghost g1 = *g;
        let m = &modules[i];
        let mut mod_path = copy_strings(file_mod_path);
        let mut r: usize = 0;
        while r < m.rel_path.len()
            invariant
                r <= m.rel_path@.len(),
                views(mod_path@) == views(file_mod_path@) + views(m.rel_path@).take(r as int),
            decreases m.rel_path@.len() - r,
        {
            let ghost before = views(mod_path@);
            let seg = m.rel_path[r].clone();
            let ghost sv = seg@;
            mod_path.push(seg);
            assert(sv == views(m.rel_path@)[r as int]);
            assert(views(mod_path@) =~= before.push(sv));
            assert(views(m.rel_path@).take(r as int + 1) =~= views(m.rel_path@).take(r as int).push(sv));
            assert(views(mod_path@) =~= views(file_mod_path@) + views(m.rel_path@).take(r as int + 1));
            r = r + 1;
        }
        assert(views(m.rel_path@).take(m.rel_path@.len() as int) =~= views(m.rel_path@));
        let ghost before = pending_views(pending@);
        let mut found = add_module_calls(g, index, mode, mod_path.as_slice(), &m.items);
        let ghost fv = pending_views(found@);
        let ghost fm = file_mods(m.items@);
        let ghost base = views(file_mod_path@) + views(m.rel_path@);
        assert(fv =~= fm.map_values(|f: (Seq<char>, Option<Seq<char>>)| (f.0, f.1, base.push(f.0))));
        let ghost pv = pending@;
        let ghost fd = found@;
        pending.append(&mut found);
        assert(pending@ == pv + fd);
        assert(pending_views(pending@) =~= before + fv);
        assert(modules@.take(i as int + 1).drop_last() =~= modules@.take(i as int));
        assert(modules@.take(i as int + 1).last() == modules@[i as int]);
        proof {
            lemma_extends_trans(g0, g1, *g);
            assert forall|j: int|
                g0.edges@.len() <= j < g.edges@.len() implies (#[trigger] g.edges@[j]).kind == EdgeKind::CallsStatic by {
                if j < g1.edges@.len() {
                    assert(g.edges@[j] == g1.edges@[j]);
                }
            }
            assert forall|m2: int| 0 <= m2 < i + 1 implies module_ok(g0.nodes@, *g, *index, mode, views(file_mod_path@), #[trigger] modules@[m2]) by {
                if m2 < i {
                    let mm = modules@[m2];
                    assert(module_ok(g0.nodes@, g1, *index, mode, views(file_mod_path@), mm));
                    assert forall|k: int| 0 <= k < mm.items@.len() implies item_ok(g0.nodes@, *g, *index, mode, views(file_mod_path@) + views(mm.rel_path@), #[trigger] mm.items@[k]) by {
                        lemma_item_ok_mono(g0.nodes@, g1, *g, *index, mode, views(file_mod_path@) + views(mm.rel_path@), mm.items@[k]);
                    }
                } else {
                    assert(views(mod_path@) == views(file_mod_path@) + views(m.rel_path@));
                }
            }
        }
        i = i + 1;
    }
    assert(modules@.take(modules@.len() as int) =~= modules@);
    pending
}

/// The directory part of a `/`-separated file path: the text before its last
/// `/`, or nothing when there is none.
pub open spec fn parent_dir_of(path: Seq<char>) -> Seq<char>
    decreases path.len(),
{
    if path.len() == 0 {
        Seq::empty()
    } else if path.last() == '/' {
        path.drop_last()
    } else {
        parent_dir_of(path.drop_last())
    }
}

/// `name` under directory `dir`.
pub open spec fn under_dir(dir: Seq<char>, name: Seq<char>) -> Seq<char> {
    if dir.len() == 0 {
        name
    } else if dir.last() == '/' {
        dir + name
    } else {
        dir + seq!['/'] + name
    }
}

/// The files a file module `name` declared in a file of directory `dir` may
/// live in, in the order they are tried: the path override (taken as it is
/// when absolute, else under `dir`), then `dir/name.rs`, then `dir/name/mod.rs`.
pub open spec fn module_files(dir: Seq<char>, name: Seq<char>, path_override: Option<Seq<char>>) -> Seq<Seq<char>> {
    let plain = seq![
        under_dir(dir, name + seq!['.', 'r', 's']),
        under_dir(under_dir(dir, name), seq!['m', 'o', 'd', '.', 'r', 's']),
    ];
    match path_override {
        Some(p) => seq![if starts_with(p, seq!['/']) { p } else { under_dir(dir, p) }] + plain,
        None => plain,
    }
}

/// The directory of a `/`-separated file path.
pub fn parent_dir(path: &str) -> (r: String)
    ensures
        r@ == parent_dir_of(path@),
{
    let n = path.unicode_len();
    let mut i: usize = n;
    assert(path@.take(n as int) =~= path@);
    while i > 0
        invariant
            i <= n == path@.len(),
            parent_dir_of(path@) == parent_dir_of(path@.take(i as int)),
        decreases i,
    {
        let ghost t = path@.take(i as int);
        assert(t.drop_last() =~= path@.take(i as int - 1));
        if path.get_char(i - 1) == '/' {
            return String::from_str(path.substring_char(0, i - 1));
        }
        i = i - 1;
    }
    String::new()
}

/// `name` under directory `dir`.
pub fn join_dir(dir: &str, name: &str) -> (r: String)
    ensures
        r@ == under_dir(dir@, name@),
{
    let n = dir.unicode_len();
    if n == 0 {
        return String::from_str(name);
    }
    let mut out = String::from_str(dir);
    if dir.get_char(n - 1) != '/' {
        let slash = "/";
        proof { reveal_strlit("/"); }
        out.append(slash);
    }
    out.append(name);
    out
}

/// The candidate files of a file module, in the order they are tried.
pub fn module_file_candidates(dir: &str, name: &str, path_override: Option<&str>) -> (r: Vec<String>)
    ensures
        views(r@) == module_files(dir@, name@, match path_override { Some(p) => Some(p@), None => None }),
{
    let mut out: Vec<String> = Vec::new();
    if let Some(p) = path_override {
        let absolute = p.unicode_len() > 0 && p.get_char(0) == '/';
        if absolute {
            assert(p@.subrange(0, 1) =~= seq!['/']);
            out.push(String::from_str(p));
        } else {
            proof {
                if p@.len() > 0 {
                    assert(p@.subrange(0, 1)[0] == p@[0]);
                }
            }
            out.push(join_dir(dir, p));
        }
    }
    let mut file = String::from_str(name);
    let ext = ".rs";
    let modrs = "mod.rs";
    proof { reveal_strlit(".rs"); reveal_strlit("mod.rs"); }
    assert(ext@ =~= seq!['.', 'r', 's']);
    assert(modrs@ =~= seq!['m', 'o', 'd', '.', 'r', 's']);
    file.append(ext);
    out.push(join_dir(dir, file.as_str()));
    let sub = join_dir(dir, name);
    out.push(join_dir(sub.as_str(), modrs));
    proof {
        let po = match path_override { Some(p) => Some(p@), None => None };
        assert(views(out@) =~= module_files(dir@, name@, po));
    }
    out
}

/// The content stored under `key`: the first entry with that key.
pub open spec fn lookup(files: Seq<(String, String)>, key: Seq<char>) -> Option<Seq<char>>
    decreases files.len(),
{
    if files.len() == 0 {
        None
    } else if files[0].0@ == key {
        Some(files[0].1@)
    } else {
        lookup(files.drop_first(), key)
    }
}

/// A path with `\\` separators turned into `/`.
pub open spec fn forward_slashes(p: Seq<char>) -> Seq<char> {
    replace_char(p, '\\', '/')
}

/// `p` with every `\\` replaced by `/`.
pub fn normalize_memory_key(p: &str) -> (r: String)
    ensures
        r@ == forward_slashes(p@),
{
    let slash = "/";
    proof { reveal_strlit("/"); }
    assert(slash@ =~= seq!['/']);
    replace_chars(p, '\\', '/', slash)
}

/// Source files held in memory, keyed by `/`-separated path.
pub struct MemorySourceProvider {
    pub files: Vec<(String, String)>,
}

impl MemorySourceProvider {
    /// A provider over `files`, with every key normalized to `/` separators.
    pub fn new(files: Vec<(String, String)>) -> (r: MemorySourceProvider)
        ensures
            r.files@.len() == files@.len(),
            forall|i: int|
                0 <= i < files@.len() ==> (#[trigger] r.files@[i]).0@ == forward_slashes(files@[i].0@)
                    && r.files@[i].1@ == files@[i].1@,
    {
        let mut out: Vec<(String, String)> = Vec::new();
        let mut i: usize = 0;
        while i < files.len()
            invariant
                i <= files@.len(),
                out@.len() == i,
                forall|j: int|
                    0 <= j < i ==> (#[trigger] out@[j]).0@ == forward_slashes(files@[j].0@) && out@[j].1@ == files@[j].1@,
            decreases files@.len() - i,
        {
            let key = normalize_memory_key(files[i].0.as_str());
            let content = files[i].1.clone();
            out.push((key, content));
            i = i + 1;
        }
        MemorySourceProvider { files: out }
    }

    fn find(&self, key: &str) -> (r: Option<usize>)
        ensures
            r matches Some(i) ==> i < self.files@.len() && lookup(self.files@, key@) == Some(self.files@[i as int].1@),
            r is None ==> lookup(self.files@, key@) is None,
    {
        let mut i: usize = 0;
        assert(self.files@.subrange(0, self.files@.len() as int) =~= self.files@);
        while i < self.files.len()
            invariant
                i <= self.files@.len(),
                lookup(self.files@, key@) == lookup(self.files@.subrange(i as int, self.files@.len() as int), key@),
            decreases self.files@.len() - i,
        {
            let ghost rest = self.files@.subrange(i as int, self.files@.len() as int);
            assert(rest.drop_first() =~= self.files@.subrange(i as int + 1, self.files@.len() as int));
            assert(rest[0] == self.files@[i as int]);
            if str_eq(self.files[i].0.as_str(), key) {
                return Some(i);
            }
            i = i + 1;
        }
        None
    }

    /// The content of the file at `path`, if the provider holds it.
    pub fn read_file(&self, path: &str) -> (r: Option<String>)
        ensures
            opt_view(r) == lookup(self.files@, forward_slashes(path@)),
    {
        let key = normalize_memory_key(path);
        match self.find(key.as_str()) {
            Some(i) => Some(self.files[i].1.clone()),
            None => None,
        }
    }

    /// Whether the provider holds a file at `path`.
    pub fn file_exists(&self, path: &str) -> (r: bool)
        ensures
            r == lookup(self.files@, forward_slashes(path@)) is Some,
    {
        let key = normalize_memory_key(path);
        self.find(key.as_str()).is_some()
    }
}

/// `s` holds a `/`.
pub open spec fn has_slash(s: Seq<char>) -> bool {
    exists|i: int| 0 <= i < s.len() && s[i] == '/'
}

/// Where the graph of a description file is written by default: the
/// `codeview/graph.json` file two directories above it, or under `target`
/// when the file has no such ancestor.
pub open spec fn default_graph_path_of(json_path: Seq<char>) -> Seq<char> {
    if has_slash(json_path) {
        under_dir(parent_dir_of(parent_dir_of(json_path)), "codeview/graph.json"@)
    } else {
        "target/codeview/graph.json"@
    }
}

/// Whether `s` holds a `/`.
fn contains_slash(s: &str) -> (r: bool)
    ensures
        r == has_slash(s@),
{
    let n = s.unicode_len();
    let mut i: usize = 0;
    while i < n
        invariant
            i <= n == s@.len(),
            forall|j: int| 0 <= j < i ==> s@[j] != '/',
        decreases n - i,
    {
        if s.get_char(i) == '/' {
            return true;
        }
        i = i + 1;
    }
    false
}

/// Where the graph of a description file is written by default.
pub fn default_graph_path(json_path: &str) -> (r: String)
    ensures
        r@ == default_graph_path_of(json_path@),
{
    if contains_slash(json_path) {
        let d = parent_dir(json_path);
        let dd = parent_dir(d.as_str());
        join_dir(dd.as_str(), "codeview/graph.json")
    } else {
        String::from_str("target/codeview/graph.json")
    }
}

/// The position of the first candidate file that exists, when one does.
pub fn first_existing(exists: &Vec<bool>) -> (r: Option<usize>)
    ensures
        r matches Some(i) ==> i < exists@.len() && exists@[i as int] && forall|j: int| 0 <= j < i ==> !exists@[j],
        r is None ==> forall|j: int| 0 <= j < exists@.len() ==> !exists@[j],
{
    let mut i: usize = 0;
    while i < exists.len()
        invariant
            i <= exists@.len(),
            forall|j: int| 0 <= j < i ==> !exists@[j],
        decreases exists@.len() - i,
    {
        if exists[i] {
            return Some(i);
        }
        i = i + 1;
    }
    None
}

/// Whether a file is among those already read.
pub fn already_visited(visited: &Vec<String>, path: &str) -> (r: bool)
    ensures
        r == views(visited@).contains(path@),
{
    crate::walker::contains_name(visited, path)
}

} // verus!
