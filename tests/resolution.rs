use codeview::calls::{
    resolve_callee_method_candidates, resolve_callee_path_candidates, resolve_free_fn_caller, resolve_method_caller,
    resolve_type_segments, scoped_segments, split_path_anchor, merge_confidence, CallMode, PathAnchor,
};
use codeview::derives::{parse_derive_traits, trim_text, TraitLookup};
use codeview::ids::{
    clean_path, impl_node_id, is_internal, join_path, last_segment, method_node_id, normalize_package_name, parent_path_id,
    decimal_string,
};
use codeview::index::FunctionIndex;
use codeview::model::Confidence;
use codeview::source::{module_file_candidates, parent_dir, MemorySourceProvider};

fn v(xs: &[&str]) -> Vec<String> {
    xs.iter().map(|x| x.to_string()).collect()
}

fn index_of(paths: &[&str]) -> FunctionIndex {
    let mut idx = FunctionIndex::new();
    for p in paths {
        let name = p.rsplit("::").next().unwrap().to_string();
        idx.add_callable(p.to_string(), name);
    }
    idx
}

#[test]
fn normalization_is_idempotent() {
    let once = normalize_package_name("my-cool-crate");
    assert_eq!(once, "my_cool_crate");
    assert_eq!(normalize_package_name(&once), once);
    assert_eq!(normalize_package_name("plain"), "plain");
}

#[test]
fn ids_and_paths() {
    assert_eq!(join_path("pkg", &v(&["pkg", "m", "Item"])), "pkg::m::Item");
    assert_eq!(join_path("pkg", &v(&["m", "Item"])), "pkg::m::Item");
    assert_eq!(join_path("pkg", &v(&["pkg"])), "pkg");
    assert_eq!(join_path("pkg", &[]), "pkg");
    assert_eq!(parent_path_id("pkg", &v(&["pkg", "m", "Item"])), Some("pkg::m".to_string()));
    assert_eq!(parent_path_id("pkg", &v(&["Item"])), Some("pkg".to_string()));
    assert_eq!(parent_path_id("pkg", &[]), None);
    assert_eq!(last_segment("a::b::C"), "C");
    assert_eq!(last_segment("C"), "C");
    assert_eq!(clean_path("$crate::clone::Clone"), "Clone");
    assert_eq!(impl_node_id("pkg", 42), "pkg::impl-42");
    assert_eq!(method_node_id("pkg::impl-42", 7), "pkg::impl-42::method-7");
    assert_ne!(method_node_id("pkg::impl-1", 7), method_node_id("pkg::impl-2", 7));
    assert_eq!(decimal_string(0), "0");
    assert_eq!(decimal_string(1090), "1090");
    assert!(is_internal(&v(&["pkg", "_", "X"])));
    assert!(is_internal(&v(&["pkg", "__Visitor"])));
    assert!(!is_internal(&v(&["pkg", "_x", "X"])));
}

#[test]
fn anchors_and_scopes() {
    let (a, start) = split_path_anchor(&v(&["super", "super", "f"]));
    assert_eq!(a, PathAnchor::Super(2));
    assert_eq!(start, 2);
    assert_eq!(scoped_segments(a, &v(&["f"]), &v(&["a", "b", "c"])), v(&["a", "f"]));
    let (a, start) = split_path_anchor(&v(&["crate", "m", "f"]));
    assert_eq!((a, start), (PathAnchor::Crate, 1));
    assert_eq!(scoped_segments(a, &v(&["m", "f"]), &v(&["x", "y"])), v(&["m", "f"]));
    let (a, start) = split_path_anchor(&v(&["Self", "new"]));
    assert_eq!((a, start), (PathAnchor::SelfScope, 1));
    let (a, start) = split_path_anchor(&v(&["f"]));
    assert_eq!((a, start), (PathAnchor::Relative, 0));
    let t = resolve_type_segments(&v(&["super", "S"]), &v(&["a", "b"]));
    assert_eq!(t.segments, v(&["a", "S"]));
    assert!(t.is_scoped);
    let t = resolve_type_segments(&v(&["S"]), &v(&["a"]));
    assert_eq!(t.segments, v(&["S"]));
    assert!(!t.is_scoped);
}

#[test]
fn super_super_call_resolves_against_grandparent() {
    let idx = index_of(&["pkg::a::f", "pkg::a::b::f"]);
    let c = resolve_callee_path_candidates(&idx, &v(&["super", "super", "f"]), &v(&["a", "b", "c"]), CallMode::Strict);
    assert_eq!(c, vec![("pkg::a::f".to_string(), Confidence::Static)]);
}

#[test]
fn crate_rooted_call_resolves_in_any_module() {
    let idx = index_of(&["pkg::m::f", "pkg::other::f"]);
    for module in [v(&["x"]), v(&["deep", "er", "mod"]), v(&[])] {
        let c = resolve_callee_path_candidates(&idx, &v(&["crate", "m", "f"]), &module, CallMode::Strict);
        assert_eq!(c, vec![("pkg::m::f".to_string(), Confidence::Static)]);
    }
}

#[test]
fn ambiguous_candidates_by_mode() {
    let idx = index_of(&["pkg::x::g", "pkg::y::g"]);
    let strict = resolve_callee_path_candidates(&idx, &v(&["g"]), &v(&["z"]), CallMode::Strict);
    assert!(strict.is_empty());
    let amb = resolve_callee_path_candidates(&idx, &v(&["g"]), &v(&["z"]), CallMode::Ambiguous);
    assert_eq!(amb.len(), 2);
    assert!(amb.contains(&("pkg::x::g".to_string(), Confidence::Inferred)));
    assert!(amb.contains(&("pkg::y::g".to_string(), Confidence::Inferred)));
}

#[test]
fn unique_by_scope_beats_ambiguous_name() {
    let idx = index_of(&["pkg::x::g", "pkg::y::g"]);
    let c = resolve_callee_path_candidates(&idx, &v(&["g"]), &v(&["x"]), CallMode::Ambiguous);
    assert!(c.contains(&("pkg::x::g".to_string(), Confidence::Static)));
    assert_eq!(c.len(), 2);
}

#[test]
fn callers_and_methods() {
    let mut idx = index_of(&["pkg::m::run"]);
    idx.add_callable("pkg::m::S::go".to_string(), "go".to_string());
    idx.add_method("pkg::m::S::go".to_string(), "go".to_string());
    assert_eq!(resolve_free_fn_caller(&idx, &v(&["m"]), "run"), Some("pkg::m::run".to_string()));
    assert_eq!(resolve_free_fn_caller(&idx, &v(&["q"]), "run"), Some("pkg::m::run".to_string()));
    assert_eq!(resolve_free_fn_caller(&idx, &v(&["q"]), "missing"), None);
    let t = resolve_type_segments(&v(&["S"]), &v(&["m"]));
    assert_eq!(resolve_method_caller(&idx, &v(&["m"]), Some(&t), "go"), Some("pkg::m::S::go".to_string()));
    let c = resolve_callee_method_candidates(&idx, "go", &v(&["m"]), None, CallMode::Strict);
    assert_eq!(c, vec![("pkg::m::S::go".to_string(), Confidence::Static)]);
}

#[test]
fn confidence_merge_order() {
    assert_eq!(merge_confidence(Confidence::Inferred, Confidence::Static), Confidence::Static);
    assert_eq!(merge_confidence(Confidence::Static, Confidence::Runtime), Confidence::Runtime);
    assert_eq!(merge_confidence(Confidence::Inferred, Confidence::Inferred), Confidence::Inferred);
}

#[test]
fn derive_parsing_and_lookup() {
    let attrs = v(&["#[derive(Clone, Debug,  serde::Serialize , )]", "#[repr(C)]", "#[derive(Copy)]"]);
    assert_eq!(parse_derive_traits(&attrs), v(&["Clone", "Debug", "serde::Serialize", "Copy"]));
    assert_eq!(trim_text("  x y \t"), "x y");
    let lk = TraitLookup {
        fulls: v(&["pkg::Clone", "pkg::a::Debug", "pkg::b::Debug"]),
        named_paths: v(&["pkg::Clone", "pkg::a::Debug", "pkg::b::Debug"]),
        named_names: v(&["Clone", "Debug", "Debug"]),
    };
    assert_eq!(lk.derive_targets("Clone"), v(&["pkg::Clone"]));
    assert!(lk.derive_targets("Debug").is_empty());
    assert_eq!(lk.derive_targets("pkg::a::Debug"), v(&["pkg::a::Debug"]));
    assert!(lk.derive_targets("pkg::c::Debug").is_empty());
    assert!(lk.derive_targets("Missing").is_empty());
}

#[test]
fn module_files_with_path_override() {
    assert_eq!(
        module_file_candidates("src", "m", Some("alt.rs")),
        v(&["src/alt.rs", "src/m.rs", "src/m/mod.rs"])
    );
    assert_eq!(module_file_candidates("", "m", None), v(&["m.rs", "m/mod.rs"]));
    assert_eq!(module_file_candidates("src/", "m", Some("/abs/x.rs")), v(&["/abs/x.rs", "src/m.rs", "src/m/mod.rs"]));
    assert_eq!(parent_dir("src/a/lib.rs"), "src/a");
    assert_eq!(parent_dir("lib.rs"), "");
}

#[test]
fn memory_provider_normalizes_separators() {
    let p = MemorySourceProvider::new(vec![("src\\lib.rs".to_string(), "fn a() {}".to_string())]);
    assert!(p.file_exists("src/lib.rs"));
    assert!(p.file_exists("src\\lib.rs"));
    assert_eq!(p.read_file("src/lib.rs"), Some("fn a() {}".to_string()));
    assert_eq!(p.read_file("src/other.rs"), None);
}

#[test]
fn default_output_location() {
    assert_eq!(codeview::source::default_graph_path("ws/target/doc/pkg.json"), "ws/target/codeview/graph.json");
    assert_eq!(codeview::source::default_graph_path("doc/pkg.json"), "codeview/graph.json");
    assert_eq!(codeview::source::default_graph_path("pkg.json"), "target/codeview/graph.json");
}
