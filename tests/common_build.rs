use codeview::api::{ApiDescription, ApiItem, CrateName, ItemInner, ItemKind, ItemTypes, Payload, PathSummary, TraitRef};
use codeview::api::{FieldExpr, VariantExpr};
use codeview::attrs::AttrExpr;
use codeview::types::{PathExpr, TypeExpr};
use codeview::calls::{CallExpr, CallMode};
use codeview::model::{Confidence, EdgeKind, Graph, NodeKind, Visibility};
use codeview::source::{FnBody, SourceItem, SourceModule};
use codeview::walker::{build_function_index, build_graph};

fn s(x: &str) -> String {
    x.to_string()
}

fn path(id: u32, segs: &[&str], kind: ItemKind) -> PathSummary {
    PathSummary { id, crate_id: 0, path: segs.iter().map(|x| s(x)).collect(), kind }
}

fn item(id: u32, name: &str, inner: ItemInner) -> ApiItem {
    ApiItem {
        id,
        crate_id: 0,
        name: Some(s(name)),
        visibility: Visibility::Public,
        span: None,
        attrs: Vec::new(),
        payload: Payload::Empty,
        generics: None,
        docs: None,
        doc_links: Vec::new(),
        link_types: Vec::new(),
        types: ItemTypes { types: Vec::new(), bounds: Vec::new(), trait_ref: None },
        inner,
    }
}

fn has_edge(g: &Graph, from: &str, to: &str, kind: EdgeKind) -> bool {
    g.edges.iter().any(|e| e.from == from && e.to == to && e.kind == kind)
}

fn edge_conf(g: &Graph, from: &str, to: &str, kind: EdgeKind) -> Option<Confidence> {
    g.edges.iter().find(|e| e.from == from && e.to == to && e.kind == kind).map(|e| e.confidence)
}

fn has_node(g: &Graph, id: &str) -> bool {
    g.nodes.iter().any(|n| n.id == id)
}

fn body(name: &str, calls: Vec<CallExpr>) -> FnBody {
    FnBody { name: s(name), calls }
}

fn call(segs: &[&str]) -> CallExpr {
    CallExpr::Path(segs.iter().map(|x| s(x)).collect())
}

fn two_fn_desc() -> ApiDescription {
    ApiDescription {
        paths: vec![
            path(1, &["pkg", "m"], ItemKind::Module),
            path(2, &["pkg", "m", "a"], ItemKind::Function),
            path(3, &["pkg", "m", "b"], ItemKind::Function),
        ],
        external_crates: Vec::new(),
        index: vec![
            item(1, "m", ItemInner::Module { items: vec![2, 3] }),
            item(2, "a", ItemInner::Function),
            item(3, "b", ItemInner::Function),
        ],
    }
}

#[test]
fn unique_static_call() {
    let desc = two_fn_desc();
    let mut g = build_graph(&desc, "pkg", None);
    let index = build_function_index(&desc, "pkg");
    let modules = vec![
        SourceModule { rel_path: vec![s("m")], items: vec![SourceItem::Fn(body("a", vec![call(&["b"])])), SourceItem::Fn(body("b", vec![]))] },
    ];
    let before = g.edges.len();
    codeview::source::add_file_calls(&mut g, &index, CallMode::Strict, &[], &modules);
    let calls: Vec<_> = g.edges[before..].iter().collect();
    assert_eq!(calls.len(), 1);
    assert_eq!(calls[0].from, "pkg::m::a");
    assert_eq!(calls[0].to, "pkg::m::b");
    assert_eq!(calls[0].kind, EdgeKind::CallsStatic);
    assert_eq!(calls[0].confidence, Confidence::Static);
}

fn ambiguous_desc() -> ApiDescription {
    ApiDescription {
        paths: vec![
            path(1, &["pkg", "x", "b"], ItemKind::Function),
            path(2, &["pkg", "y", "b"], ItemKind::Function),
            path(3, &["pkg", "z", "c"], ItemKind::Function),
        ],
        external_crates: Vec::new(),
        index: vec![item(1, "b", ItemInner::Function), item(2, "b", ItemInner::Function), item(3, "c", ItemInner::Function)],
    }
}

fn ambiguous_run(mode: CallMode) -> Graph {
    let desc = ambiguous_desc();
    let mut g = build_graph(&desc, "pkg", None);
    let index = build_function_index(&desc, "pkg");
    let modules = vec![SourceModule { rel_path: vec![s("z")], items: vec![SourceItem::Fn(body("c", vec![call(&["b"])]))] }];
    codeview::source::add_file_calls(&mut g, &index, mode, &[], &modules);
    g
}

#[test]
fn ambiguous_name_strict_and_ambiguous() {
    let strict = ambiguous_run(CallMode::Strict);
    assert!(!strict.edges.iter().any(|e| e.kind == EdgeKind::CallsStatic));
    let amb = ambiguous_run(CallMode::Ambiguous);
    let calls: Vec<_> = amb.edges.iter().filter(|e| e.kind == EdgeKind::CallsStatic).collect();
    assert_eq!(calls.len(), 2);
    assert_eq!(edge_conf(&amb, "pkg::z::c", "pkg::x::b", EdgeKind::CallsStatic), Some(Confidence::Inferred));
    assert_eq!(edge_conf(&amb, "pkg::z::c", "pkg::y::b", EdgeKind::CallsStatic), Some(Confidence::Inferred));
}

fn trait_impl_desc(second_impl: bool) -> ApiDescription {
    let mut paths = vec![path(1, &["pkg", "S"], ItemKind::Struct), path(2, &["pkg", "T"], ItemKind::Trait)];
    let mut index = vec![
        item(1, "S", ItemInner::Other),
        item(2, "T", ItemInner::Trait { items: vec![] }),
        item(
            3,
            "",
            ItemInner::Impl { trait_: Some(TraitRef { id: 2, path: s("T") }), for_id: Some(1), items: vec![4] },
        ),
        item(4, "m", ItemInner::Function),
        item(0, "pkg", ItemInner::Module { items: vec![1, 2, 3] }),
    ];
    paths.push(path(0, &["pkg"], ItemKind::Module));
    if second_impl {
        index.push(item(5, "", ItemInner::Impl { trait_: None, for_id: Some(1), items: vec![4] }));
    }
    ApiDescription { paths, external_crates: Vec::new(), index }
}

#[test]
fn trait_impl_nodes_and_edges() {
    let g = build_graph(&trait_impl_desc(false), "pkg", None);
    assert!(has_node(&g, "pkg::S"));
    assert!(has_node(&g, "pkg::T"));
    let imp = g.nodes.iter().find(|n| n.id == "pkg::impl-3").expect("impl node");
    assert_eq!(imp.kind, NodeKind::Impl);
    assert_eq!(imp.impl_type, Some(codeview::model::ImplType::Trait));
    assert_eq!(imp.impl_trait.as_deref(), Some("pkg::T"));
    assert_eq!(imp.name, "impl T for S");
    assert!(has_edge(&g, "pkg::S", "pkg::impl-3", EdgeKind::Defines));
    assert!(has_edge(&g, "pkg::S", "pkg::T", EdgeKind::Implements));
    let m = g.nodes.iter().find(|n| n.id == "pkg::impl-3::method-4").expect("method node");
    assert_eq!(m.kind, NodeKind::Method);
    assert_eq!(m.parent_impl.as_deref(), Some("pkg::impl-3"));
    assert!(has_edge(&g, "pkg::impl-3", "pkg::impl-3::method-4", EdgeKind::Defines));
    assert!(has_edge(&g, "pkg", "pkg::impl-3", EdgeKind::Contains));
}

#[test]
fn blanket_impl_children_are_distinct() {
    let g = build_graph(&trait_impl_desc(true), "pkg", None);
    assert!(has_node(&g, "pkg::impl-3::method-4"));
    assert!(has_node(&g, "pkg::impl-5::method-4"));
    let m3 = g.nodes.iter().find(|n| n.id == "pkg::impl-3::method-4").unwrap();
    let m5 = g.nodes.iter().find(|n| n.id == "pkg::impl-5::method-4").unwrap();
    assert_eq!(m3.parent_impl.as_deref(), Some("pkg::impl-3"));
    assert_eq!(m5.parent_impl.as_deref(), Some("pkg::impl-5"));
    let inherent = g.nodes.iter().find(|n| n.id == "pkg::impl-5").unwrap();
    assert_eq!(inherent.impl_type, Some(codeview::model::ImplType::Inherent));
    assert_eq!(inherent.name, "impl S");
}

#[test]
fn graph_invariants_hold_on_output() {
    let g = build_graph(&trait_impl_desc(true), "pkg", None);
    for e in &g.edges {
        assert!(has_node(&g, &e.from) && has_node(&g, &e.to));
        assert_ne!(e.from, e.to);
    }
    for (i, a) in g.edges.iter().enumerate() {
        for b in &g.edges[i + 1..] {
            assert!(!(a.from == b.from && a.to == b.to && a.kind == b.kind));
        }
    }
    for n in &g.nodes {
        let parents = g.edges.iter().filter(|e| e.kind == EdgeKind::Contains && e.to == n.id).count();
        if n.kind == NodeKind::Crate {
            assert_eq!(parents, 0);
        } else {
            assert!(parents <= 1);
        }
        if let Some(p) = &n.parent_impl {
            assert!(g.nodes.iter().any(|x| &x.id == p && x.kind == NodeKind::Impl));
        }
    }
}

#[test]
fn internal_paths_produce_nothing() {
    let desc = ApiDescription {
        paths: vec![
            path(1, &["pkg", "_", "Hidden"], ItemKind::Struct),
            path(2, &["pkg", "__FieldVisitor"], ItemKind::Struct),
        ],
        external_crates: Vec::new(),
        index: vec![item(1, "Hidden", ItemInner::Other), item(2, "__FieldVisitor", ItemInner::Other)],
    };
    let g = build_graph(&desc, "pkg", None);
    assert_eq!(g.nodes.len(), 1);
    assert_eq!(g.nodes[0].id, "pkg");
    assert_eq!(g.edges.len(), 0);
}

#[test]
fn module_chain_and_external_package() {
    let desc = ApiDescription {
        paths: vec![path(7, &["serde", "de", "Deserialize"], ItemKind::Trait)],
        external_crates: vec![CrateName { crate_id: 9, name: s("ser-de") }],
        index: Vec::new(),
    };
    let mut desc = desc;
    desc.paths[0].crate_id = 9;
    desc.paths[0].path = vec![s("ser_de"), s("de"), s("Deserialize")];
    let g = build_graph(&desc, "pkg", None);
    assert!(has_node(&g, "ser_de"));
    assert!(has_node(&g, "ser_de::de"));
    assert!(has_node(&g, "ser_de::de::Deserialize"));
    assert!(has_edge(&g, "ser_de", "ser_de::de", EdgeKind::Contains));
    assert!(has_edge(&g, "ser_de::de", "ser_de::de::Deserialize", EdgeKind::Contains));
    assert!(g.nodes.iter().find(|n| n.id == "ser_de").unwrap().is_external);
    assert!(!g.nodes.iter().find(|n| n.id == "pkg").unwrap().is_external);
}

#[test]
fn derives_and_uses_edges() {
    let mut s_item = item(1, "S", ItemInner::Other);
    s_item.attrs = vec![AttrExpr::Other(s("#[derive(Clone, Debug)]")), AttrExpr::Other(s("#[derive(other::Ser)]"))];
    s_item.types.types = vec![TypeExpr::Resolved(PathExpr { path: s("Clone"), id: 2, args: None })];
    let desc = ApiDescription {
        paths: vec![
            path(1, &["pkg", "S"], ItemKind::Struct),
            path(2, &["pkg", "Clone"], ItemKind::Trait),
            path(3, &["pkg", "a", "Debug"], ItemKind::Trait),
            path(4, &["pkg", "b", "Debug"], ItemKind::Trait),
        ],
        external_crates: Vec::new(),
        index: vec![s_item],
    };
    let g = build_graph(&desc, "pkg", None);
    assert_eq!(edge_conf(&g, "pkg::S", "pkg::Clone", EdgeKind::Derives), Some(Confidence::Inferred));
    assert!(!has_edge(&g, "pkg::S", "pkg::a::Debug", EdgeKind::Derives));
    assert!(!has_edge(&g, "pkg::S", "pkg::b::Debug", EdgeKind::Derives));
    assert!(has_edge(&g, "pkg::S", "pkg::Clone", EdgeKind::UsesType));
}

#[test]
fn reexport_edge_from_module() {
    let desc = ApiDescription {
        paths: vec![path(1, &["pkg", "m"], ItemKind::Module), path(2, &["pkg", "X"], ItemKind::Struct)],
        external_crates: Vec::new(),
        index: vec![item(1, "m", ItemInner::Module { items: vec![3] }), item(3, "X", ItemInner::Use { target: Some(2) })],
    };
    let g = build_graph(&desc, "pkg", None);
    assert!(has_edge(&g, "pkg::m", "pkg::X", EdgeKind::ReExports));
}

#[test]
fn extraction_is_repeatable() {
    let a = build_graph(&trait_impl_desc(true), "pkg", None);
    let b = build_graph(&trait_impl_desc(true), "pkg", None);
    assert_eq!(format!("{:?}", a), format!("{:?}", b));
}

#[test]
fn item_payload_text() {
    let mut st = item(1, "S", ItemInner::Other);
    st.payload = Payload::Fields(vec![FieldExpr {
        name: s("v"),
        ty: TypeExpr::Resolved(PathExpr { path: s("std::vec::Vec"), id: 9, args: None }),
        visibility: Visibility::Public,
    }]);
    let mut en = item(2, "E", ItemInner::Other);
    en.payload = Payload::Variants(vec![VariantExpr {
        name: s("A"),
        fields: vec![FieldExpr { name: s("0"), ty: TypeExpr::Primitive(s("u8")), visibility: Visibility::Inherited }],
    }]);
    let mut f = item(3, "f", ItemInner::Function);
    f.payload = Payload::Signature {
        inputs: vec![(s("x"), TypeExpr::Primitive(s("i32")))],
        output: Some(TypeExpr::Primitive(s("bool"))),
        is_async: true,
        is_unsafe: false,
        is_const: false,
    };
    let desc = ApiDescription {
        paths: vec![
            path(1, &["pkg", "S"], ItemKind::Struct),
            path(2, &["pkg", "E"], ItemKind::Enum),
            path(3, &["pkg", "f"], ItemKind::Function),
        ],
        external_crates: Vec::new(),
        index: vec![st, en, f],
    };
    let g = build_graph(&desc, "pkg", None);
    let sn = g.nodes.iter().find(|n| n.id == "pkg::S").unwrap();
    let fields = sn.fields.as_ref().unwrap();
    assert_eq!(fields[0].name, "v");
    assert_eq!(fields[0].type_text, "Vec");
    let e = g.nodes.iter().find(|n| n.id == "pkg::E").unwrap();
    assert_eq!(e.variants.as_ref().unwrap()[0].fields[0].type_text, "u8");
    let fnode = g.nodes.iter().find(|n| n.id == "pkg::f").unwrap();
    let sig = fnode.signature.as_ref().unwrap();
    assert_eq!(sig.inputs[0].type_text, "i32");
    assert_eq!(sig.output.as_deref(), Some("bool"));
    assert!(sig.is_async);
    assert!(sn.signature.is_none());
}

#[test]
fn private_imports_are_not_reexported() {
    let mut u = item(3, "X", ItemInner::Use { target: Some(2) });
    u.visibility = Visibility::Inherited;
    let desc = ApiDescription {
        paths: vec![path(1, &["pkg", "m"], ItemKind::Module), path(2, &["pkg", "X"], ItemKind::Struct)],
        external_crates: Vec::new(),
        index: vec![item(1, "m", ItemInner::Module { items: vec![3] }), u],
    };
    let g = build_graph(&desc, "pkg", None);
    assert!(!has_edge(&g, "pkg::m", "pkg::X", EdgeKind::ReExports));
}

#[test]
fn extraction_without_sources_has_no_calls() {
    let g = build_graph(&two_fn_desc(), "pkg", None);
    assert!(!g.edges.iter().any(|e| e.kind == EdgeKind::CallsStatic || e.kind == EdgeKind::CallsRuntime));
    assert_eq!(g.nodes[0].id, "pkg");
    assert_eq!(g.nodes[0].kind, NodeKind::Crate);
    assert!(!g.nodes[0].is_external);
}

#[test]
fn first_call_fixes_confidence() {
    let desc = ambiguous_desc();
    let mut g = build_graph(&desc, "pkg", None);
    let index = build_function_index(&desc, "pkg");
    let modules = vec![SourceModule {
        rel_path: vec![s("z")],
        items: vec![SourceItem::Fn(body("c", vec![call(&["b"]), call(&["x", "b"])]))],
    }];
    codeview::source::add_file_calls(&mut g, &index, CallMode::Ambiguous, &[], &modules);
    assert_eq!(edge_conf(&g, "pkg::z::c", "pkg::x::b", EdgeKind::CallsStatic), Some(Confidence::Inferred));
    assert_eq!(edge_conf(&g, "pkg::z::c", "pkg::y::b", EdgeKind::CallsStatic), Some(Confidence::Inferred));
}
