//! Attributes of described items, rendered in their normalized source form.

use vstd::prelude::*;
use crate::text::{join, views, join_with};
use crate::ids::{decimal, decimal_string};

verus! {

/// The layout a `repr` attribute asks for.
#[derive(Debug, Clone, Copy, PartialEq, Eq, Structural)]
pub enum ReprKind {
    Rust,
    C,
    Transparent,
    Simd,
}

/// An attribute of an item.
pub enum AttrExpr {
    NonExhaustive,
    MustUse(Option<String>),
    MacroExport,
    ExportName(String),
    LinkSection(String),
    AutomaticallyDerived,
    Repr { kind: ReprKind, int_type: Option<String>, align: Option<u64>, packed: Option<u64> },
    NoMangle,
    TargetFeature(Vec<String>),
    Other(String),
}

/// The name of a layout.
pub open spec fn repr_kind_text(k: ReprKind) -> Seq<char> {
    match k {
        ReprKind::Rust => "rust"@,
        ReprKind::C => "C"@,
        ReprKind::Transparent => "transparent"@,
        ReprKind::Simd => "simd"@,
    }
}

/// The parts of a `repr` attribute: the layout, then the integer type,
/// alignment and packing it names.
pub open spec fn repr_parts(kind: ReprKind, int_type: Option<String>, align: Option<u64>, packed: Option<u64>) -> Seq<Seq<char>> {
    seq![repr_kind_text(kind)] + match int_type {
        Some(i) => seq![i@],
        None => Seq::empty(),
    } + match align {
        Some(a) => seq!["align("@ + decimal(a as nat) + ")"@],
        None => Seq::empty(),
    } + match packed {
        Some(p) => seq!["packed("@ + decimal(p as nat) + ")"@],
        None => Seq::empty(),
    }
}

/// `enable = "f"` for each feature.
pub open spec fn feature_parts(fs: Seq<String>) -> Seq<Seq<char>> {
    fs.map_values(|f: String| "enable = \""@ + f@ + "\""@)
}

/// The normalized text of an attribute.
pub open spec fn attr_text(a: AttrExpr) -> Seq<char> {
    match a {
        AttrExpr::NonExhaustive => "#[non_exhaustive]"@,
        AttrExpr::MustUse(Some(r)) => "#[must_use = \""@ + r@ + "\"]"@,
        AttrExpr::MustUse(None) => "#[must_use]"@,
        AttrExpr::MacroExport => "#[macro_export]"@,
        AttrExpr::ExportName(n) => "#[export_name = \""@ + n@ + "\"]"@,
        AttrExpr::LinkSection(n) => "#[link_section = \""@ + n@ + "\"]"@,
        AttrExpr::AutomaticallyDerived => "#[automatically_derived]"@,
        AttrExpr::Repr { kind, int_type, align, packed } => "#[repr("@ + join(repr_parts(kind, int_type, align, packed), ", "@) + ")]"@,
        AttrExpr::NoMangle => "#[no_mangle]"@,
        AttrExpr::TargetFeature(fs) => "#[target_feature("@ + join(feature_parts(fs@), ", "@) + ")]"@,
        AttrExpr::Other(v) => v@,
    }
}

/// The text of a `repr` attribute's contents.
pub fn format_repr(kind: ReprKind, int_type: &Option<String>, align: Option<u64>, packed: Option<u64>) -> (r: String)
    ensures
        r@ == join(repr_parts(kind, *int_type, align, packed), ", "@),
{
    let mut parts: Vec<String> = Vec::new();
    let k = match kind {
        ReprKind::Rust => "rust",
        ReprKind::C => "C",
        ReprKind::Transparent => "transparent",
        ReprKind::Simd => "simd",
    };
    parts.push(String::from_str(k));
    match int_type {
        Some(i) => parts.push(i.clone()),
        None => {},
    }
    match align {
        Some(a) => {
            let mut t = String::from_str("align(");
            let d = decimal_string(a);
            t.append(d.as_str());
            t.append(")");
            parts.push(t);
        },
        None => {},
    }
    match packed {
        Some(p) => {
            let mut t = String::from_str("packed(");
            let d = decimal_string(p);
            t.append(d.as_str());
            t.append(")");
            parts.push(t);
        },
        None => {},
    }
    assert(views(parts@) =~= repr_parts(kind, *int_type, align, packed));
    join_with(&parts, ", ")
}

/// The normalized text of an attribute.
pub fn attribute_to_string(a: &AttrExpr) -> (r: String)
    ensures
        r@ == attr_text(*a),
{
    match a {
        AttrExpr::NonExhaustive => String::from_str("#[non_exhaustive]"),
        AttrExpr::MustUse(Some(reason)) => {
            let mut t = String::from_str("#[must_use = \"");
            t.append(reason.as_str());
            t.append("\"]");
            t
        },
        AttrExpr::MustUse(None) => String::from_str("#[must_use]"),
        AttrExpr::MacroExport => String::from_str("#[macro_export]"),
        AttrExpr::ExportName(n) => {
            let mut t = String::from_str("#[export_name = \"");
            t.append(n.as_str());
            t.append("\"]");
            t
        },
        AttrExpr::LinkSection(n) => {
            let mut t = String::from_str("#[link_section = \"");
            t.append(n.as_str());
            t.append("\"]");
            t
        },
        AttrExpr::AutomaticallyDerived => String::from_str("#[automatically_derived]"),
        AttrExpr::Repr { kind, int_type, align, packed } => {
            let mut t = String::from_str("#[repr(");
            let inner = format_repr(*kind, int_type, *align, *packed);
            t.append(inner.as_str());
            t.append(")]");
            t
        },
        AttrExpr::NoMangle => String::from_str("#[no_mangle]"),
        AttrExpr::TargetFeature(fs) => {
            let mut parts: Vec<String> = Vec::new();
            let mut i: usize = 0;
            while i < fs.len()
                invariant
                    i <= fs@.len(),
                    views(parts@) == feature_parts(fs@.take(i as int)),
                decreases fs@.len() - i,
            {
                let mut p = String::from_str("enable = \"");
                p.append(fs[i].as_str());
                p.append("\"");
                let ghost before = views(parts@);
                let ghost pv = p@;
                parts.push(p);
                assert(fs@.take(i as int + 1) =~= fs@.take(i as int).push(fs@[i as int]));
                assert(views(parts@) =~= before.push(pv));
                assert(views(parts@) =~= feature_parts(fs@.take(i as int + 1)));
                i = i + 1;
            }
            assert(fs@.take(fs@.len() as int) =~= fs@);
            let mut t = String::from_str("#[target_feature(");
            let inner = join_with(&parts, ", ");
            t.append(inner.as_str());
            t.append(")]");
            t
        },
        AttrExpr::Other(v) => v.clone(),
    }
}

/// `texts` are the normalized texts of `attrs`, one for one.
pub open spec fn attrs_text_ok(texts: Seq<String>, attrs: Seq<AttrExpr>) -> bool {
    texts.len() == attrs.len() && forall|i: int| 0 <= i < attrs.len() ==> (#[trigger] texts[i])@ == attr_text(attrs[i])
}

/// The normalized texts of attributes, in order.
pub fn format_attributes(attrs: &Vec<AttrExpr>) -> (r: Vec<String>)
    ensures
        attrs_text_ok(r@, attrs@),
{
    let mut out: Vec<String> = Vec::new();
    let mut i: usize = 0;
    while i < attrs.len()
        invariant
            i <= attrs@.len(),
            out@.len() == i,
            forall|j: int| 0 <= j < i ==> (#[trigger] out@[j])@ == attr_text(attrs@[j]),
        decreases attrs@.len() - i,
    {
        out.push(attribute_to_string(&attrs[i]));
        i = i + 1;
    }
    out
}

} // verus!
