//! The parts of a package's API description that graph extraction reads.

use vstd::prelude::*;
use crate::model::{FieldInfo, VariantInfo, FunctionSignature, Span, Visibility};
use crate::types::{TypeExpr, BoundExpr, PathExpr, GenericsExpr};

verus! {

/// Where the API description of one package was written: the package's
/// normalized name, the description file and the package manifest.
pub struct RustdocJson {
    pub crate_name: String,
    pub json_path: String,
    pub manifest_path: String,
}

/// The kind tag of an entry of the description's path table.
#[derive(Debug, Clone, Copy, PartialEq, Eq, Structural)]
pub enum ItemKind {
    Module,
    Struct,
    Union,
    Enum,
    Trait,
    TraitAlias,
    Impl,
    Function,
    TypeAlias,
    Other,
}

/// One entry of the path table: an item's ID, its owning package ordinal,
/// its path segments and its kind.
pub struct PathSummary {
    pub id: u32,
    pub crate_id: u32,
    pub path: Vec<String>,
    pub kind: ItemKind,
}

/// One entry of the external-package table.
pub struct CrateName {
    pub crate_id: u32,
    pub name: String,
}

/// The trait an impl block implements, by ID and by the path as written.
pub struct TraitRef {
    pub id: u32,
    pub path: String,
}

/// The inner structure of an item, as far as extraction reads it.
pub enum ItemInner {
    Module { items: Vec<u32> },
    Impl { trait_: Option<TraitRef>, for_id: Option<u32>, items: Vec<u32> },
    Trait { items: Vec<u32> },
    Use { target: Option<u32> },
    Function,
    TypeAlias,
    Other,
}

/// The type-bearing positions of an item besides its generics: field and
/// signature types, alias, constant and static types, an impl's self type and
/// trait, and a trait's supertrait bounds.
pub struct ItemTypes {
    pub types: Vec<TypeExpr>,
    pub bounds: Vec<BoundExpr>,
    pub trait_ref: Option<PathExpr>,
}

/// The item IDs an item's generics and type-bearing positions reference.
pub open spec fn item_ref_ids(item: ApiItem) -> Seq<u32> {
    (match item.generics {
        Some(g) => crate::types::generics_ids(g),
        None => Seq::empty(),
    }) + crate::types::types_ids(item.types.types@) + crate::types::bounds_ids(item.types.bounds@) + match item.types.trait_ref {
        Some(p) => crate::types::path_ids(p),
        None => Seq::empty(),
    }
}

/// The item IDs an item's generics and type-bearing positions reference.
pub fn collect_item_ref_ids(item: &ApiItem) -> (r: Vec<u32>)
    ensures
        r@ == item_ref_ids(*item),
{
    let mut out: Vec<u32> = Vec::new();
    match &item.generics {
        Some(g) => crate::types::collect_generics_ids(g, &mut out),
        None => {},
    }
    crate::types::collect_types_ids(&item.types.types, &mut out);
    crate::types::collect_bounds_ids(&item.types.bounds, &mut out);
    match &item.types.trait_ref {
        Some(p) => crate::types::collect_path_ids(p, &mut out),
        None => {},
    }
    assert(out@ =~= item_ref_ids(*item));
    out
}

/// Display names paired with item IDs for an item's bound links: the trait
/// bounds of its generics, then every path its link types mention.
pub open spec fn item_link_pairs(item: ApiItem) -> Seq<(Seq<char>, u32)> {
    (match item.generics {
        Some(g) => crate::types::generics_bound_pairs(g),
        None => Seq::empty(),
    }) + crate::types::types_links(item.link_types@)
}

/// Display names paired with item IDs for an item's bound links.
pub fn collect_item_link_pairs(item: &ApiItem) -> (r: Vec<(String, u32)>)
    ensures
        crate::types::pair_views(r@) == item_link_pairs(*item),
{
    let mut out: Vec<(String, u32)> = Vec::new();
    assert(crate::types::pair_views(out@) =~= Seq::<(Seq<char>, u32)>::empty());
    match &item.generics {
        Some(g) => crate::types::collect_generics_bound_pairs(g, &mut out),
        None => {},
    }
    crate::types::collect_types_links(&item.link_types, &mut out);
    assert(crate::types::pair_views(out@) =~= item_link_pairs(*item));
    out
}

/// The display texts of an item's generic parameters.
pub fn item_generics_text(item: &ApiItem) -> (r: Option<Vec<String>>)
    ensures
        crate::types::opt_views(r) == match item.generics {
            Some(g) => crate::types::generics_text(g),
            None => None,
        },
{
    match &item.generics {
        Some(g) => crate::types::format_generics(g),
        None => None,
    }
}

/// The display texts of an item's where clause.
pub fn item_where_text(item: &ApiItem) -> (r: Option<Vec<String>>)
    ensures
        crate::types::opt_views(r) == match item.generics {
            Some(g) => crate::types::where_clause_text(g),
            None => None,
        },
{
    match &item.generics {
        Some(g) => crate::types::format_where_clause(g),
        None => None,
    }
}

/// A field of an aggregate or variant.
pub struct FieldExpr {
    pub name: String,
    pub ty: TypeExpr,
    pub visibility: Visibility,
}

/// A variant of an enum.
pub struct VariantExpr {
    pub name: String,
    pub fields: Vec<FieldExpr>,
}

/// The kind-specific part of an item.
pub enum Payload {
    Fields(Vec<FieldExpr>),
    Variants(Vec<VariantExpr>),
    Signature { inputs: Vec<(String, TypeExpr)>, output: Option<TypeExpr>, is_async: bool, is_unsafe: bool, is_const: bool },
    Empty,
}

/// The display form of a field.
pub open spec fn field_info_of(f: FieldExpr, i: FieldInfo) -> bool {
    i.name@ == f.name@ && i.type_text@ == crate::types::type_text(f.ty) && i.visibility == f.visibility
}

/// `infos` is the display form of `fields`, one for one.
pub open spec fn fields_info_of(fields: Seq<FieldExpr>, infos: Seq<FieldInfo>) -> bool {
    infos.len() == fields.len() && forall|k: int| 0 <= k < fields.len() ==> #[trigger] field_info_of(fields[k], infos[k])
}

/// The fields of an aggregate's node: their display form, or nothing when there are none.
pub open spec fn fields_ok(p: Payload, r: Option<Vec<FieldInfo>>) -> bool {
    match p {
        Payload::Fields(fs) => if fs@.len() > 0 { r is Some && fields_info_of(fs@, r->0@) } else { r is None },
        _ => r is None,
    }
}

/// The variants of an enum's node: their display form, or nothing when there are none.
pub open spec fn variants_ok(p: Payload, r: Option<Vec<VariantInfo>>) -> bool {
    match p {
        Payload::Variants(vs) => if vs@.len() > 0 {
            r is Some && r->0@.len() == vs@.len() && forall|k: int|
                0 <= k < vs@.len() ==> (#[trigger] r->0@[k]).name@ == vs@[k].name@ && fields_info_of(vs@[k].fields@, r->0@[k].fields@)
        } else {
            r is None
        },
        _ => r is None,
    }
}

/// The signature of a function's node: its display form; nothing for other items.
pub open spec fn signature_ok(p: Payload, r: Option<FunctionSignature>) -> bool {
    match p {
        Payload::Signature { inputs, output, is_async, is_unsafe, is_const } => r is Some && ({
            let s = r->0;
            &&& s.inputs@.len() == inputs@.len()
            &&& forall|k: int| 0 <= k < inputs@.len() ==> (#[trigger] s.inputs@[k]).name@ == inputs@[k].0@
                && s.inputs@[k].type_text@ == crate::types::type_text(inputs@[k].1)
            &&& crate::text::opt_view(s.output) == match output { Some(t) => Some(crate::types::type_text(t)), None => None }
            &&& s.is_async == is_async && s.is_unsafe == is_unsafe && s.is_const == is_const
        }),
        _ => r is None,
    }
}

/// The display form of fields.
pub fn format_fields(fields: &Vec<FieldExpr>) -> (r: Vec<FieldInfo>)
    ensures
        fields_info_of(fields@, r@),
{
    let mut out: Vec<FieldInfo> = Vec::new();
    let mut k: usize = 0;
    while k < fields.len()
        invariant
            k <= fields@.len(),
            fields_info_of(fields@.take(k as int), out@),
        decreases fields@.len() - k,
    {
        let f = &fields[k];
        out.push(FieldInfo { name: f.name.clone(), type_text: crate::types::format_type(&f.ty), visibility: f.visibility });
        assert forall|j: int| 0 <= j < k + 1 implies #[trigger] field_info_of(fields@.take(k as int + 1)[j], out@[j]) by {
            if j < k {
                assert(fields@.take(k as int + 1)[j] == fields@.take(k as int)[j]);
            }
        }
        k = k + 1;
    }
    assert(fields@.take(fields@.len() as int) =~= fields@);
    out
}

/// The fields of an aggregate for its node: nothing when there are none.
pub fn fields_info(payload: &Payload) -> (r: Option<Vec<FieldInfo>>)
    ensures
        fields_ok(*payload, r),
{
    match payload {
        Payload::Fields(fs) => if fs.len() > 0 { Some(format_fields(fs)) } else { None },
        _ => None,
    }
}

/// The variants of an enum for its node: nothing when there are none.
pub fn variants_info(payload: &Payload) -> (r: Option<Vec<VariantInfo>>)
    ensures
        variants_ok(*payload, r),
{
    match payload {
        Payload::Variants(vs) => {
            if vs.len() == 0 {
                return None;
            }
            let mut out: Vec<VariantInfo> = Vec::new();
            let mut k: usize = 0;
            while k < vs.len()
                invariant
                    k <= vs@.len(),
                    out@.len() == k,
                    forall|j: int| 0 <= j < k ==> (#[trigger] out@[j]).name@ == vs@[j].name@ && fields_info_of(vs@[j].fields@, out@[j].fields@),
                decreases vs@.len() - k,
            {
                out.push(VariantInfo { name: vs[k].name.clone(), fields: format_fields(&vs[k].fields) });
                k = k + 1;
            }
            Some(out)
        },
        _ => None,
    }
}

/// The signature of a function for its node.
pub fn signature_info(payload: &Payload) -> (r: Option<FunctionSignature>)
    ensures
        signature_ok(*payload, r),
{
    match payload {
        Payload::Signature { inputs, output, is_async, is_unsafe, is_const } => {
            let mut args: Vec<crate::model::ArgumentInfo> = Vec::new();
            let mut k: usize = 0;
            while k < inputs.len()
                invariant
                    k <= inputs@.len(),
                    args@.len() == k,
                    forall|j: int| 0 <= j < k ==> (#[trigger] args@[j]).name@ == inputs@[j].0@
                        && args@[j].type_text@ == crate::types::type_text(inputs@[j].1),
                decreases inputs@.len() - k,
            {
                args.push(crate::model::ArgumentInfo { name: inputs[k].0.clone(), type_text: crate::types::format_type(&inputs[k].1) });
                k = k + 1;
            }
            let out = match output {
                Some(t) => Some(crate::types::format_type(t)),
                None => None,
            };
            Some(FunctionSignature { inputs: args, output: out, is_async: *is_async, is_unsafe: *is_unsafe, is_const: *is_const })
        },
        _ => None,
    }
}

/// One item of the description's index.
pub struct ApiItem {
    pub id: u32,
    pub crate_id: u32,
    pub name: Option<String>,
    pub visibility: Visibility,
    pub span: Option<Span>,
    /// The item's attributes, in order.
    pub attrs: Vec<crate::attrs::AttrExpr>,
    pub payload: Payload,
    pub generics: Option<GenericsExpr>,
    pub docs: Option<String>,
    /// Intra-doc link text paired with the linked item's ID.
    pub doc_links: Vec<(String, u32)>,
    /// The types of the item's signature or fields, whose paths become bound links.
    pub link_types: Vec<TypeExpr>,
    /// The item's type-bearing positions.
    pub types: ItemTypes,
    pub inner: ItemInner,
}

/// A package's API description.
pub struct ApiDescription {
    pub paths: Vec<PathSummary>,
    pub external_crates: Vec<CrateName>,
    pub index: Vec<ApiItem>,
}

} // verus!
