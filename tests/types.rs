use codeview::attrs::{attribute_to_string, AttrExpr, ReprKind};
use codeview::types::{
    collect_generics_ids, collect_type_ids, collect_type_links, format_generics, format_type, format_where_clause, ArgExpr,
    ArgsExpr, BoundExpr, GenericsExpr, ParamExpr, ParamKindExpr, PathExpr, PolyExpr, TermExpr, TypeExpr, WhereExpr,
};

fn path(p: &str, id: u32, args: Option<ArgsExpr>) -> PathExpr {
    PathExpr { path: p.to_string(), id, args: args.map(Box::new) }
}

fn prim(n: &str) -> TypeExpr {
    TypeExpr::Primitive(n.to_string())
}

fn vec_of(t: TypeExpr) -> TypeExpr {
    TypeExpr::Resolved(path(
        "std::vec::Vec",
        10,
        Some(ArgsExpr::Angle { args: vec![ArgExpr::Type(t)], constraints: vec![] }),
    ))
}

#[test]
fn type_display_text() {
    assert_eq!(format_type(&vec_of(prim("u8"))), "Vec<u8>");
    let r = TypeExpr::Ref { mutable: true, elem: Box::new(TypeExpr::Slice(Box::new(prim("str")))) };
    assert_eq!(format_type(&r), "&mut [str]");
    let t = TypeExpr::Tuple(vec![prim("u8"), TypeExpr::Generic("T".to_string())]);
    assert_eq!(format_type(&t), "(u8, T)");
    let f = TypeExpr::FnPtr { inputs: vec![prim("i32")], output: Some(Box::new(prim("bool"))), params: vec![] };
    assert_eq!(format_type(&f), "fn(i32) -> bool");
    let d = TypeExpr::Dyn(vec![
        PolyExpr { trait_: path("core::fmt::Debug", 1, None), params: vec![] },
        PolyExpr { trait_: path("core::marker::Send", 2, None), params: vec![] },
    ]);
    assert_eq!(format_type(&d), "dyn Debug + Send");
    let i = TypeExpr::ImplTrait(vec![BoundExpr::Trait { path: path("Iterator", 3, None), params: vec![] }, BoundExpr::Outlives("'a".to_string())]);
    assert_eq!(format_type(&i), "impl Iterator");
    let a = TypeExpr::Array { elem: Box::new(prim("u8")), len: "4".to_string() };
    assert_eq!(format_type(&a), "[u8; 4]");
    let p = TypeExpr::RawPtr { mutable: false, elem: Box::new(prim("u8")) };
    assert_eq!(format_type(&p), "*const u8");
    let q = TypeExpr::Qualified { self_ty: Box::new(TypeExpr::Generic("T".to_string())), name: "Item".to_string(), trait_: None, args: None };
    assert_eq!(format_type(&q), "<T>::Item");
    let fnonce = TypeExpr::Resolved(path(
        "FnOnce",
        4,
        Some(ArgsExpr::Paren { inputs: vec![prim("u8")], output: Some(Box::new(prim("u16"))) }),
    ));
    assert_eq!(format_type(&fnonce), "FnOnce(u8) -> u16");
    assert_eq!(format_type(&TypeExpr::Infer), "_");
}

#[test]
fn type_reference_ids() {
    let mut out = Vec::new();
    collect_type_ids(&vec_of(TypeExpr::Resolved(path("a::S", 5, None))), &mut out);
    assert_eq!(out, vec![10, 5]);
    let g = GenericsExpr {
        params: vec![ParamExpr {
            name: "T".to_string(),
            kind: ParamKindExpr::Type {
                bounds: vec![BoundExpr::Trait { path: path("Clone", 7, None), params: vec![] }],
                default: Some(Box::new(TypeExpr::Resolved(path("D", 8, None)))),
            },
        }],
        where_preds: vec![WhereExpr::Eq { lhs: TypeExpr::Generic("T".to_string()), rhs: TermExpr::Type(TypeExpr::Resolved(path("E", 9, None))) }],
    };
    let mut ids = Vec::new();
    collect_generics_ids(&g, &mut ids);
    assert_eq!(ids, vec![7, 8, 9]);
}

#[test]
fn generics_and_where_text() {
    let g = GenericsExpr {
        params: vec![
            ParamExpr { name: "'a".to_string(), kind: ParamKindExpr::Lifetime },
            ParamExpr {
                name: "T".to_string(),
                kind: ParamKindExpr::Type {
                    bounds: vec![BoundExpr::Trait { path: path("core::clone::Clone", 1, None), params: vec![] }, BoundExpr::Outlives("'a".to_string())],
                    default: Some(Box::new(prim("u8"))),
                },
            },
            ParamExpr { name: "N".to_string(), kind: ParamKindExpr::Const { ty: Box::new(prim("usize")) } },
        ],
        where_preds: vec![
            WhereExpr::Bound { ty: TypeExpr::Generic("T".to_string()), bounds: vec![BoundExpr::Trait { path: path("Send", 2, None), params: vec![] }], params: vec![] },
            WhereExpr::Bound { ty: TypeExpr::Generic("U".to_string()), bounds: vec![], params: vec![] },
            WhereExpr::Lifetime { lifetime: "'a".to_string(), outlives: vec!["'b".to_string()] },
        ],
    };
    assert_eq!(
        format_generics(&g),
        Some(vec!["'a".to_string(), "T: Clone + 'a = u8".to_string(), "const N: usize".to_string()])
    );
    assert_eq!(format_where_clause(&g), Some(vec!["T: Send".to_string(), "'a: 'b".to_string()]));
    let empty = GenericsExpr { params: vec![], where_preds: vec![] };
    assert_eq!(format_generics(&empty), None);
    assert_eq!(format_where_clause(&empty), None);
}

#[test]
fn type_link_pairs() {
    let mut out = Vec::new();
    collect_type_links(&vec_of(TypeExpr::Resolved(path("a::S", 5, None))), &mut out);
    assert_eq!(out, vec![("Vec".to_string(), 10), ("S".to_string(), 5)]);
}

#[test]
fn attribute_text() {
    let repr = AttrExpr::Repr { kind: ReprKind::C, int_type: Some("u8".to_string()), align: Some(8), packed: None };
    assert_eq!(attribute_to_string(&repr), "#[repr(C, u8, align(8))]");
    assert_eq!(attribute_to_string(&AttrExpr::MustUse(Some("why".to_string()))), "#[must_use = \"why\"]");
    assert_eq!(attribute_to_string(&AttrExpr::MustUse(None)), "#[must_use]");
    let tf = AttrExpr::TargetFeature(vec!["avx".to_string(), "sse2".to_string()]);
    assert_eq!(attribute_to_string(&tf), "#[target_feature(enable = \"avx\", enable = \"sse2\")]");
    assert_eq!(attribute_to_string(&AttrExpr::Other("#[derive(Clone)]".to_string())), "#[derive(Clone)]");
}
