use codeview::merge::{merge_workspace, node_completeness_score, node_is_more_complete, package_name};
use codeview::mermaid::{export_mermaid, mermaid_id, mermaid_label, MermaidKind};
use codeview::model::{Confidence, Edge, EdgeKind, Graph, Node, NodeKind, Span, Visibility};

fn node(id: &str, kind: NodeKind) -> Node {
    let name = id.rsplit("::").next().unwrap().to_string();
    Node::bare(id.to_string(), name, kind, Visibility::Public, false)
}

fn edge(from: &str, to: &str, kind: EdgeKind) -> Edge {
    Edge { from: from.to_string(), to: to.to_string(), kind, confidence: Confidence::Static }
}

fn graph(nodes: Vec<Node>, edges: Vec<Edge>) -> Graph {
    let mut g = Graph::new();
    for n in nodes {
        g.add_node(n);
    }
    for e in edges {
        g.add_edge(e);
    }
    g
}

#[test]
fn two_package_merge() {
    let a = graph(
        vec![node("a", NodeKind::Crate), node("a::X", NodeKind::Struct), node("b::Y", NodeKind::Struct)],
        vec![edge("a", "a::X", EdgeKind::Contains), edge("a::X", "b::Y", EdgeKind::UsesType)],
    );
    let b = graph(
        vec![node("b", NodeKind::Crate), node("b::Y", NodeKind::Struct)],
        vec![edge("b", "b::Y", EdgeKind::Contains)],
    );
    let members = vec!["b".to_string(), "a".to_string()];
    let versions = vec![("a".to_string(), "1.2.3".to_string())];
    let ws = merge_workspace(vec![a, b], &members, &versions);
    let ids: Vec<_> = ws.crates.iter().map(|c| c.id.as_str()).collect();
    assert_eq!(ids, vec!["a", "b"]);
    assert_eq!(ws.crates[0].version, "1.2.3");
    assert_eq!(ws.crates[1].version, "0.0.0");
    assert_eq!(ws.crates[0].edges.len(), 1);
    assert_eq!(ws.crates[0].edges[0].to, "a::X");
    assert_eq!(ws.crates[1].edges.len(), 1);
    assert_eq!(ws.crates[1].nodes.len(), 2);
    assert_eq!(ws.cross_crate_edges.len(), 1);
    assert_eq!(ws.cross_crate_edges[0].from, "a::X");
    assert_eq!(ws.cross_crate_edges[0].to, "b::Y");
    assert!(ws.external_crates.is_empty());
}

#[test]
fn single_package_merge_is_identity() {
    let g = graph(
        vec![node("p", NodeKind::Crate), node("p::m", NodeKind::Module), node("p::m::f", NodeKind::Function)],
        vec![edge("p", "p::m", EdgeKind::Contains), edge("p::m", "p::m::f", EdgeKind::Contains)],
    );
    let expect_nodes: Vec<_> = g.nodes.iter().map(|n| n.id.clone()).collect();
    let ws = merge_workspace(vec![g], &vec!["p".to_string()], &Vec::new());
    assert_eq!(ws.crates.len(), 1);
    let got: Vec<_> = ws.crates[0].nodes.iter().map(|n| n.id.clone()).collect();
    assert_eq!(got, expect_nodes);
    assert_eq!(ws.crates[0].edges.len(), 2);
    assert!(ws.external_crates.is_empty());
    assert!(ws.cross_crate_edges.is_empty());
}

#[test]
fn external_stubs_and_dedup() {
    let a = graph(
        vec![node("a", NodeKind::Crate), node("std::vec::Vec", NodeKind::Struct), node("core::X", NodeKind::Struct)],
        vec![edge("a", "std::vec::Vec", EdgeKind::UsesType), edge("a", "std::vec::Vec", EdgeKind::UsesType)],
    );
    let ws = merge_workspace(vec![a], &vec!["a".to_string()], &Vec::new());
    let ext: Vec<_> = ws.external_crates.iter().map(|c| c.id.as_str()).collect();
    assert_eq!(ext, vec!["core", "std"]);
    assert_eq!(ws.cross_crate_edges.len(), 1);
}

#[test]
fn completeness_tie_break() {
    let mut rich = node("a::S", NodeKind::Struct);
    rich.span = Some(Span { file: "src/lib.rs".to_string(), line: 1, column: 1, end_line: Some(2), end_column: Some(3) });
    rich.docs = Some("doc".to_string());
    let mut poor = node("a::S", NodeKind::Struct);
    poor.visibility = Visibility::Unknown;
    assert_eq!(node_completeness_score(&rich), 3);
    assert_eq!(node_completeness_score(&poor), 0);
    assert!(node_is_more_complete(&rich, &poor));
    assert!(!node_is_more_complete(&poor, &rich));
    let mut external = rich.clone();
    external.is_external = true;
    assert!(node_is_more_complete(&poor, &external));
    let ws = merge_workspace(
        vec![graph(vec![node("a", NodeKind::Crate), poor], vec![]), graph(vec![rich], vec![])],
        &vec!["a".to_string()],
        &Vec::new(),
    );
    let s = ws.crates[0].nodes.iter().find(|n| n.id == "a::S").unwrap();
    assert_eq!(s.docs.as_deref(), Some("doc"));
    assert_eq!(ws.crates[0].nodes.len(), 2);
}

#[test]
fn package_prefix() {
    assert_eq!(package_name("a::b::c"), "a");
    assert_eq!(package_name("solo"), "solo");
}

#[test]
fn mermaid_flow_and_class() {
    let mut s = node("p::S", NodeKind::Struct);
    s.name = "S \"q\"".to_string();
    let g = graph(
        vec![node("p", NodeKind::Crate), s, node("p::T", NodeKind::Trait)],
        vec![edge("p", "p::S", EdgeKind::Contains), edge("p::S", "p::T", EdgeKind::Implements)],
    );
    assert_eq!(
        export_mermaid(&g, MermaidKind::Flow),
        "graph TD\n    p[\"p\"]\n    p__S[\"S \\\"q\\\"\"]\n    p__T[\"T\"]\n    p -->|contains| p__S\n    p__S -->|implements| p__T"
    );
    assert_eq!(
        export_mermaid(&g, MermaidKind::Class),
        "classDiagram\n    class p__S { }\n    class p__T { }\n    p__S ..|> p__T"
    );
    assert_eq!(mermaid_id(""), "node");
    assert_eq!(mermaid_id("a-b::c"), "a_b__c");
    assert_eq!(mermaid_label("x\"y"), "x\\\"y");
}

#[test]
fn edge_admission_rules() {
    let mut g = Graph::new();
    assert!(g.insert_node(node("p", NodeKind::Crate)));
    assert!(!g.insert_node(node("p", NodeKind::Crate)));
    assert!(g.insert_node(node("p::a", NodeKind::Module)));
    assert!(g.insert_node(node("p::a::b", NodeKind::Struct)));
    assert!(g.insert_node(node("p::c", NodeKind::Module)));
    // `p::a` is not yet placed under a package, so it cannot contain anything.
    assert!(!g.push_edge("p::a".to_string(), "p::a::b".to_string(), EdgeKind::Contains, Confidence::Static));
    assert!(g.push_edge("p".to_string(), "p::a".to_string(), EdgeKind::Contains, Confidence::Static));
    assert!(g.push_edge("p::a".to_string(), "p::a::b".to_string(), EdgeKind::Contains, Confidence::Static));
    assert!(g.push_edge("p".to_string(), "p::c".to_string(), EdgeKind::Contains, Confidence::Static));
    // second parent, package target, self-loop, missing endpoint, duplicate key
    assert!(!g.push_edge("p::c".to_string(), "p::a::b".to_string(), EdgeKind::Contains, Confidence::Static));
    assert!(!g.push_edge("p::c".to_string(), "p".to_string(), EdgeKind::Contains, Confidence::Static));
    assert!(!g.push_edge("p::c".to_string(), "p::c".to_string(), EdgeKind::UsesType, Confidence::Static));
    assert!(!g.push_edge("p::c".to_string(), "p::zzz".to_string(), EdgeKind::UsesType, Confidence::Static));
    assert!(g.push_edge("p::c".to_string(), "p::a::b".to_string(), EdgeKind::UsesType, Confidence::Static));
    assert!(!g.push_edge("p::c".to_string(), "p::a::b".to_string(), EdgeKind::UsesType, Confidence::Inferred));
    assert_eq!(g.edges.len(), 4);
}

#[test]
fn merge_keeps_attributes_of_both_descriptions() {
    let mut a = node("a::S", NodeKind::Struct);
    a.span = Some(Span { file: "src/lib.rs".to_string(), line: 3, column: 1, end_line: None, end_column: None });
    let mut b = node("a::S", NodeKind::Struct);
    b.docs = Some("doc".to_string());
    assert_eq!(node_completeness_score(&a), node_completeness_score(&b));
    let ws = merge_workspace(
        vec![graph(vec![node("a", NodeKind::Crate), a], vec![]), graph(vec![b], vec![])],
        &vec!["a".to_string()],
        &Vec::new(),
    );
    let s = ws.crates[0].nodes.iter().find(|n| n.id == "a::S").unwrap();
    assert_eq!(s.docs.as_deref(), Some("doc"));
    assert_eq!(s.span.as_ref().map(|x| x.line), Some(3));
}

#[test]
fn first_existing_candidate() {
    assert_eq!(codeview::source::first_existing(&vec![false, true, true]), Some(1));
    assert_eq!(codeview::source::first_existing(&vec![false, false]), None);
    assert!(codeview::source::already_visited(&vec!["src/a.rs".to_string()], "src/a.rs"));
    assert!(!codeview::source::already_visited(&vec!["src/a.rs".to_string()], "src/b.rs"));
}
