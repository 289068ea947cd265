//! Type expressions of the API description: their display text and the
//! item IDs they reference.

use vstd::prelude::*;
use crate::ids::{last_segment_of, last_segment};
use crate::text::{join, views, join_with};

verus! {

/// A path to an item, with its ID and generic arguments.
pub struct PathExpr {
    pub path: String,
    pub id: u32,
    pub args: Option<Box<ArgsExpr>>,
}

/// A bound on a generic parameter or an `impl` type.
pub enum BoundExpr {
    Trait { path: PathExpr, params: Vec<ParamExpr> },
    Outlives(String),
    Other,
}

/// The kind of a generic parameter.
pub enum ParamKindExpr {
    Lifetime,
    Type { bounds: Vec<BoundExpr>, default: Option<Box<TypeExpr>> },
    Const { ty: Box<TypeExpr> },
}

/// A generic parameter.
pub struct ParamExpr {
    pub name: String,
    pub kind: ParamKindExpr,
}

/// One generic argument.
pub enum ArgExpr {
    Type(TypeExpr),
    Lifetime(String),
    Const(Option<String>),
    Infer,
}

/// What an associated-item constraint binds.
pub enum BindingExpr {
    EqType(TypeExpr),
    EqConst,
    Bounds(Vec<BoundExpr>),
}

/// An associated-item constraint such as `Item = T` or `Item: Bound`.
pub struct ConstraintExpr {
    pub args: Option<Box<ArgsExpr>>,
    pub binding: BindingExpr,
}

/// The generic arguments of a path.
pub enum ArgsExpr {
    Angle { args: Vec<ArgExpr>, constraints: Vec<ConstraintExpr> },
    Paren { inputs: Vec<TypeExpr>, output: Option<Box<TypeExpr>> },
    ReturnNotation,
}

/// A trait of a `dyn` type, with its higher-ranked parameters.
pub struct PolyExpr {
    pub trait_: PathExpr,
    pub params: Vec<ParamExpr>,
}

/// A type as the API description writes it.
pub enum TypeExpr {
    Resolved(PathExpr),
    Dyn(Vec<PolyExpr>),
    Generic(String),
    Primitive(String),
    FnPtr { inputs: Vec<TypeExpr>, output: Option<Box<TypeExpr>>, params: Vec<ParamExpr> },
    Tuple(Vec<TypeExpr>),
    Slice(Box<TypeExpr>),
    Array { elem: Box<TypeExpr>, len: String },
    Pat(Box<TypeExpr>),
    ImplTrait(Vec<BoundExpr>),
    Infer,
    RawPtr { mutable: bool, elem: Box<TypeExpr> },
    Ref { mutable: bool, elem: Box<TypeExpr> },
    Qualified { self_ty: Box<TypeExpr>, name: String, trait_: Option<PathExpr>, args: Option<Box<ArgsExpr>> },
}

// ---------------------------------------------------------------- IDs

/// The item IDs a type references, in traversal order.
pub open spec fn type_ids(t: TypeExpr) -> Seq<u32>
    decreases t,
{
    match t {
        TypeExpr::Resolved(p) => path_ids(p),
        TypeExpr::Dyn(polys) => polys_ids(polys@),
        TypeExpr::FnPtr { inputs, output, params } => types_ids(inputs@) + opt_type_ids(output) + params_ids(params@),
        TypeExpr::Tuple(ts) => types_ids(ts@),
        TypeExpr::Slice(e) => type_ids(*e),
        TypeExpr::Array { elem, .. } => type_ids(*elem),
        TypeExpr::Pat(e) => type_ids(*e),
        TypeExpr::ImplTrait(bounds) => bounds_ids(bounds@),
        TypeExpr::RawPtr { elem, .. } => type_ids(*elem),
        TypeExpr::Ref { elem, .. } => type_ids(*elem),
        TypeExpr::Qualified { self_ty, trait_, args, .. } => type_ids(*self_ty) + match trait_ {
            Some(p) => path_ids(p),
            None => Seq::empty(),
        } + opt_args_ids(args),
        _ => Seq::empty(),
    }
}

/// The IDs an optional type references.
pub open spec fn opt_type_ids(t: Option<Box<TypeExpr>>) -> Seq<u32>
    decreases t,
{
    match t {
        Some(b) => type_ids(*b),
        None => Seq::empty(),
    }
}

/// The IDs a path references: its own, then its arguments'.
pub open spec fn path_ids(p: PathExpr) -> Seq<u32>
    decreases p,
{
    seq![p.id] + opt_args_ids(p.args)
}

/// The IDs optional generic arguments reference.
pub open spec fn opt_args_ids(a: Option<Box<ArgsExpr>>) -> Seq<u32>
    decreases a,
{
    match a {
        Some(b) => args_ids(*b),
        None => Seq::empty(),
    }
}

/// The IDs generic arguments reference.
pub open spec fn args_ids(a: ArgsExpr) -> Seq<u32>
    decreases a,
{
    match a {
        ArgsExpr::Angle { args, constraints } => arg_list_ids(args@) + constraints_ids(constraints@),
        ArgsExpr::Paren { inputs, output } => types_ids(inputs@) + opt_type_ids(output),
        ArgsExpr::ReturnNotation => Seq::empty(),
    }
}

/// The IDs a list of generic arguments references.
pub open spec fn arg_list_ids(s: Seq<ArgExpr>) -> Seq<u32>
    decreases s,
{
    if s.len() == 0 {
        Seq::empty()
    } else {
        arg_list_ids(s.drop_last()) + match s.last() {
            ArgExpr::Type(t) => type_ids(t),
            _ => Seq::empty(),
        }
    }
}

/// The IDs a list of constraints references.
pub open spec fn constraints_ids(s: Seq<ConstraintExpr>) -> Seq<u32>
    decreases s,
{
    if s.len() == 0 {
        Seq::empty()
    } else {
        constraints_ids(s.drop_last()) + opt_args_ids(s.last().args) + match s.last().binding {
            BindingExpr::EqType(t) => type_ids(t),
            BindingExpr::EqConst => Seq::empty(),
            BindingExpr::Bounds(b) => bounds_ids(b@),
        }
    }
}

/// The IDs a list of types references.
pub open spec fn types_ids(s: Seq<TypeExpr>) -> Seq<u32>
    decreases s,
{
    if s.len() == 0 {
        Seq::empty()
    } else {
        types_ids(s.drop_last()) + type_ids(s.last())
    }
}

/// The IDs a list of bounds references.
pub open spec fn bounds_ids(s: Seq<BoundExpr>) -> Seq<u32>
    decreases s,
{
    if s.len() == 0 {
        Seq::empty()
    } else {
        bounds_ids(s.drop_last()) + match s.last() {
            BoundExpr::Trait { path, params } => path_ids(path) + params_ids(params@),
            _ => Seq::empty(),
        }
    }
}

/// The IDs a list of generic parameters references.
pub open spec fn params_ids(s: Seq<ParamExpr>) -> Seq<u32>
    decreases s,
{
    if s.len() == 0 {
        Seq::empty()
    } else {
        params_ids(s.drop_last()) + match s.last().kind {
            ParamKindExpr::Type { bounds, default } => bounds_ids(bounds@) + opt_type_ids(default),
            ParamKindExpr::Const { ty } => type_ids(*ty),
            ParamKindExpr::Lifetime => Seq::empty(),
        }
    }
}

/// The IDs a list of `dyn` traits references.
pub open spec fn polys_ids(s: Seq<PolyExpr>) -> Seq<u32>
    decreases s,
{
    if s.len() == 0 {
        Seq::empty()
    } else {
        polys_ids(s.drop_last()) + path_ids(s.last().trait_) + params_ids(s.last().params@)
    }
}

/// Appends the IDs `t` references.
pub fn collect_type_ids(t: &TypeExpr, out: &mut Vec<u32>)
    ensures
        final(out)@ == old(out)@ + type_ids(*t),
    decreases t,
{
    let ghost o = out@;
    match t {
        TypeExpr::Resolved(p) => collect_path_ids(p, out),
        TypeExpr::Dyn(polys) => collect_polys_ids(polys, out),
        TypeExpr::FnPtr { inputs, output, params } => {
            collect_types_ids(inputs, out);
            let ghost a = out@;
            collect_opt_type_ids(output, out);
            let ghost c = out@;
            collect_params_ids(params, out);
            assert(out@ =~= o + type_ids(*t));
        },
        TypeExpr::Tuple(ts) => collect_types_ids(ts, out),
        TypeExpr::Slice(e) => collect_type_ids(e, out),
        TypeExpr::Array { elem, .. } => collect_type_ids(elem, out),
        TypeExpr::Pat(e) => collect_type_ids(e, out),
        TypeExpr::ImplTrait(bounds) => collect_bounds_ids(bounds, out),
        TypeExpr::RawPtr { elem, .. } => collect_type_ids(elem, out),
        TypeExpr::Ref { elem, .. } => collect_type_ids(elem, out),
        TypeExpr::Qualified { self_ty, trait_, args, .. } => {
            collect_type_ids(self_ty, out);
            let ghost a = out@;
            match trait_ {
                Some(p) => collect_path_ids(p, out),
                None => {},
            }
            let ghost b = out@;
            assert(b == a + match *trait_ { Some(p) => path_ids(p), None => Seq::<u32>::empty() });
            collect_opt_args_ids(args, out);
            assert(out@ =~= o + type_ids(*t));
        },
        _ => {
            assert(out@ =~= o + type_ids(*t));
        },
    }
}

/// Appends the IDs an optional type references.
pub fn collect_opt_type_ids(t: &Option<Box<TypeExpr>>, out: &mut Vec<u32>)
    ensures
        final(out)@ == old(out)@ + opt_type_ids(*t),
    decreases t,
{
    let ghost o = out@;
    match t {
        Some(b) => collect_type_ids(b, out),
        None => {},
    }
    assert(out@ =~= o + opt_type_ids(*t));
}

/// Appends the IDs optional generic arguments reference.
pub fn collect_opt_args_ids(a: &Option<Box<ArgsExpr>>, out: &mut Vec<u32>)
    ensures
        final(out)@ == old(out)@ + opt_args_ids(*a),
    decreases a,
{
    let ghost o = out@;
    match a {
        Some(b) => collect_args_ids(b, out),
        None => {},
    }
    assert(out@ =~= o + opt_args_ids(*a));
}

/// Appends the IDs `p` references.
pub fn collect_path_ids(p: &PathExpr, out: &mut Vec<u32>)
    ensures
        final(out)@ == old(out)@ + path_ids(*p),
    decreases p,
{
    let ghost o = out@;
    out.push(p.id);
    collect_opt_args_ids(&p.args, out);
    assert(out@ =~= o + path_ids(*p));
}

/// Appends the IDs generic arguments reference.
pub fn collect_args_ids(a: &ArgsExpr, out: &mut Vec<u32>)
    ensures
        final(out)@ == old(out)@ + args_ids(*a),
    decreases a,
{
    let ghost o = out@;
    match a {
        ArgsExpr::Angle { args, constraints } => {
            collect_arg_list_ids(args, out);
            collect_constraints_ids(constraints, out);
        },
        ArgsExpr::Paren { inputs, output } => {
            collect_types_ids(inputs, out);
            collect_opt_type_ids(output, out);
        },
        ArgsExpr::ReturnNotation => {},
    }
    assert(out@ =~= o + args_ids(*a));
}

/// Appends the IDs a list of generic arguments references.
pub fn collect_arg_list_ids(s: &Vec<ArgExpr>, out: &mut Vec<u32>)
    ensures
        final(out)@ == old(out)@ + arg_list_ids(s@),
    decreases s,
{
    let ghost o = out@;
    let mut i: usize = 0;
    while i < s.len()
        invariant
            i <= s@.len(),
            out@ == o + arg_list_ids(s@.take(i as int)),
        decreases s@.len() - i,
    {
        assert(s@.take(i as int + 1).drop_last() =~= s@.take(i as int));
        assert(s@.take(i as int + 1).last() == s@[i as int]);
        assert(decreases_to!(s => s@[i as int]));
        match &s[i] {
            ArgExpr::Type(t) => {
                assert(decreases_to!(s@[i as int] => *t));
                collect_type_ids(t, out);
            },
            _ => {},
        }
        assert(out@ =~= o + arg_list_ids(s@.take(i as int + 1)));
        i = i + 1;
    }
    assert(s@.take(s@.len() as int) =~= s@);
}

/// Appends the IDs a list of constraints references.
pub fn collect_constraints_ids(s: &Vec<ConstraintExpr>, out: &mut Vec<u32>)
    ensures
        final(out)@ == old(out)@ + constraints_ids(s@),
    decreases s,
{
    let ghost o = out@;
    let mut i: usize = 0;
    while i < s.len()
        invariant
            i <= s@.len(),
            out@ == o + constraints_ids(s@.take(i as int)),
        decreases s@.len() - i,
    {
        assert(s@.take(i as int + 1).drop_last() =~= s@.take(i as int));
        assert(s@.take(i as int + 1).last() == s@[i as int]);
        assert(decreases_to!(s => s@[i as int]));
        let c = &s[i];
        collect_opt_args_ids(&c.args, out);
        match &c.binding {
            BindingExpr::EqType(t) => collect_type_ids(t, out),
            BindingExpr::EqConst => {},
            BindingExpr::Bounds(b) => collect_bounds_ids(b, out),
        }
        assert(out@ =~= o + constraints_ids(s@.take(i as int + 1)));
        i = i + 1;
    }
    assert(s@.take(s@.len() as int) =~= s@);
}

/// Appends the IDs a list of types references.
pub fn collect_types_ids(s: &Vec<TypeExpr>, out: &mut Vec<u32>)
    ensures
        final(out)@ == old(out)@ + types_ids(s@),
    decreases s,
{
    let ghost o = out@;
    let mut i: usize = 0;
    while i < s.len()
        invariant
            i <= s@.len(),
            out@ == o + types_ids(s@.take(i as int)),
        decreases s@.len() - i,
    {
        assert(s@.take(i as int + 1).drop_last() =~= s@.take(i as int));
        assert(s@.take(i as int + 1).last() == s@[i as int]);
        assert(decreases_to!(s => s@[i as int]));
        collect_type_ids(&s[i], out);
        assert(out@ =~= o + types_ids(s@.take(i as int + 1)));
        i = i + 1;
    }
    assert(s@.take(s@.len() as int) =~= s@);
}

/// Appends the IDs a list of bounds references.
pub fn collect_bounds_ids(s: &Vec<BoundExpr>, out: &mut Vec<u32>)
    ensures
        final(out)@ == old(out)@ + bounds_ids(s@),
    decreases s,
{
    let ghost o = out@;
    let mut i: usize = 0;
    while i < s.len()
        invariant
            i <= s@.len(),
            out@ == o + bounds_ids(s@.take(i as int)),
        decreases s@.len() - i,
    {
        assert(s@.take(i as int + 1).drop_last() =~= s@.take(i as int));
        assert(s@.take(i as int + 1).last() == s@[i as int]);
        assert(decreases_to!(s => s@[i as int]));
        match &s[i] {
            BoundExpr::Trait { path, params } => {
                collect_path_ids(path, out);
                collect_params_ids(params, out);
            },
            _ => {},
        }
        assert(out@ =~= o + bounds_ids(s@.take(i as int + 1)));
        i = i + 1;
    }
    assert(s@.take(s@.len() as int) =~= s@);
}

/// Appends the IDs a list of generic parameters references.
pub fn collect_params_ids(s: &Vec<ParamExpr>, out: &mut Vec<u32>)
    ensures
        final(out)@ == old(out)@ + params_ids(s@),
    decreases s,
{
    let ghost o = out@;
    let mut i: usize = 0;
    while i < s.len()
        invariant
            i <= s@.len(),
            out@ == o + params_ids(s@.take(i as int)),
        decreases s@.len() - i,
    {
        assert(s@.take(i as int + 1).drop_last() =~= s@.take(i as int));
        assert(s@.take(i as int + 1).last() == s@[i as int]);
        assert(decreases_to!(s => s@[i as int]));
        match &s[i].kind {
            ParamKindExpr::Type { bounds, default } => {
                collect_bounds_ids(bounds, out);
                collect_opt_type_ids(default, out);
            },
            ParamKindExpr::Const { ty } => collect_type_ids(ty, out),
            ParamKindExpr::Lifetime => {},
        }
        assert(out@ =~= o + params_ids(s@.take(i as int + 1)));
        i = i + 1;
    }
    assert(s@.take(s@.len() as int) =~= s@);
}

/// Appends the IDs a list of `dyn` traits references.
pub fn collect_polys_ids(s: &Vec<PolyExpr>, out: &mut Vec<u32>)
    ensures
        final(out)@ == old(out)@ + polys_ids(s@),
    decreases s,
{
    let ghost o = out@;
    let mut i: usize = 0;
    while i < s.len()
        invariant
            i <= s@.len(),
            out@ == o + polys_ids(s@.take(i as int)),
        decreases s@.len() - i,
    {
        assert(s@.take(i as int + 1).drop_last() =~= s@.take(i as int));
        assert(s@.take(i as int + 1).last() == s@[i as int]);
        assert(decreases_to!(s => s@[i as int]));
        collect_path_ids(&s[i].trait_, out);
        collect_params_ids(&s[i].params, out);
        assert(out@ =~= o + polys_ids(s@.take(i as int + 1)));
        i = i + 1;
    }
    assert(s@.take(s@.len() as int) =~= s@);
}

// ---------------------------------------------------------------- text

/// The display text of a type.
pub open spec fn type_text(t: TypeExpr) -> Seq<char>
    decreases t,
{
    match t {
        TypeExpr::Resolved(p) => path_text(p),
        TypeExpr::Dyn(polys) => "dyn "@ + join(poly_names(polys@), " + "@),
        TypeExpr::Generic(n) => n@,
        TypeExpr::Primitive(n) => n@,
        TypeExpr::FnPtr { inputs, output, .. } => "fn("@ + types_text(inputs@) + ")"@ + ret_text(output),
        TypeExpr::Tuple(ts) => "("@ + types_text(ts@) + ")"@,
        TypeExpr::Slice(e) => "["@ + type_text(*e) + "]"@,
        TypeExpr::Array { elem, len } => "["@ + type_text(*elem) + "; "@ + len@ + "]"@,
        TypeExpr::Pat(e) => type_text(*e),
        TypeExpr::ImplTrait(bounds) => "impl "@ + join(trait_bound_names(bounds@), " + "@),
        TypeExpr::Infer => "_"@,
        TypeExpr::RawPtr { mutable, elem } => "*"@ + (if mutable { "mut"@ } else { "const"@ }) + " "@ + type_text(*elem),
        TypeExpr::Ref { mutable, elem } => "&"@ + (if mutable { "mut "@ } else { ""@ }) + type_text(*elem),
        TypeExpr::Qualified { self_ty, name, .. } => "<"@ + type_text(*self_ty) + ">::"@ + name@,
    }
}

/// ` -> T` for a return type, nothing without one.
pub open spec fn ret_text(o: Option<Box<TypeExpr>>) -> Seq<char>
    decreases o,
{
    match o {
        Some(b) => " -> "@ + type_text(*b),
        None => Seq::empty(),
    }
}

/// A path's display text: its last segment and its generic arguments.
pub open spec fn path_text(p: PathExpr) -> Seq<char>
    decreases p,
{
    last_segment_of(p.path@) + opt_args_text(p.args)
}

/// The display text of optional generic arguments.
pub open spec fn opt_args_text(a: Option<Box<ArgsExpr>>) -> Seq<char>
    decreases a,
{
    match a {
        Some(b) => args_text(*b),
        None => Seq::empty(),
    }
}

/// The display text of generic arguments.
pub open spec fn args_text(a: ArgsExpr) -> Seq<char>
    decreases a,
{
    match a {
        ArgsExpr::Angle { args, .. } => if args@.len() == 0 {
            Seq::empty()
        } else {
            "<"@ + arg_list_text(args@) + ">"@
        },
        ArgsExpr::Paren { inputs, output } => "("@ + types_text(inputs@) + ")"@ + ret_text(output),
        ArgsExpr::ReturnNotation => "(..)"@,
    }
}

/// The display text of one generic argument.
pub open spec fn arg_text(a: ArgExpr) -> Seq<char>
    decreases a,
{
    match a {
        ArgExpr::Type(t) => type_text(t),
        ArgExpr::Lifetime(l) => l@,
        ArgExpr::Const(Some(v)) => v@,
        ArgExpr::Const(None) => Seq::empty(),
        ArgExpr::Infer => "_"@,
    }
}

/// Generic arguments joined with `, `.
pub open spec fn arg_list_text(s: Seq<ArgExpr>) -> Seq<char>
    decreases s,
{
    if s.len() == 0 {
        Seq::empty()
    } else if s.len() == 1 {
        arg_text(s[0])
    } else {
        arg_list_text(s.drop_last()) + ", "@ + arg_text(s.last())
    }
}

/// Types joined with `, `.
pub open spec fn types_text(s: Seq<TypeExpr>) -> Seq<char>
    decreases s,
{
    if s.len() == 0 {
        Seq::empty()
    } else if s.len() == 1 {
        type_text(s[0])
    } else {
        types_text(s.drop_last()) + ", "@ + type_text(s.last())
    }
}

/// The display names of `dyn` traits.
pub open spec fn poly_names(s: Seq<PolyExpr>) -> Seq<Seq<char>> {
    s.map_values(|p: PolyExpr| last_segment_of(p.trait_.path@))
}

/// The display names of the trait bounds among `s`.
pub open spec fn trait_bound_names(s: Seq<BoundExpr>) -> Seq<Seq<char>>
    decreases s.len(),
{
    if s.len() == 0 {
        Seq::empty()
    } else {
        let r = trait_bound_names(s.drop_last());
        match s.last() {
            BoundExpr::Trait { path, .. } => r.push(last_segment_of(path.path@)),
            _ => r,
        }
    }
}

/// The display text of a type.
pub fn format_type(t: &TypeExpr) -> (r: String)
    ensures
        r@ == type_text(*t),
    decreases t,
{
    match t {
        TypeExpr::Resolved(p) => format_path(p),
        TypeExpr::Dyn(polys) => {
            let mut names: Vec<String> = Vec::new();
            let mut i: usize = 0;
            while i < polys.len()
                invariant
                    i <= polys@.len(),
                    views(names@) == poly_names(polys@.take(i as int)),
                decreases polys@.len() - i,
            {
                let ghost before = views(names@);
                names.push(last_segment(polys[i].trait_.path.as_str()));
                assert(polys@.take(i as int + 1) =~= polys@.take(i as int).push(polys@[i as int]));
                assert(views(names@) =~= before.push(last_segment_of(polys@[i as int].trait_.path@)));
                assert(views(names@) =~= poly_names(polys@.take(i as int + 1)));
                i = i + 1;
            }
            assert(polys@.take(polys@.len() as int) =~= polys@);
            let mut out = String::from_str("dyn ");
            let joined = join_with(&names, " + ");
            out.append(joined.as_str());
            out
        },
        TypeExpr::Generic(n) => n.clone(),
        TypeExpr::Primitive(n) => n.clone(),
        TypeExpr::FnPtr { inputs, output, .. } => {
            let mut out = String::from_str("fn(");
            let inner = format_types(inputs);
            out.append(inner.as_str());
            out.append(")");
            let ret = format_ret(output);
            out.append(ret.as_str());
            out
        },
        TypeExpr::Tuple(ts) => {
            let mut out = String::from_str("(");
            let inner = format_types(ts);
            out.append(inner.as_str());
            out.append(")");
            out
        },
        TypeExpr::Slice(e) => {
            let mut out = String::from_str("[");
            let inner = format_type(e);
            out.append(inner.as_str());
            out.append("]");
            out
        },
        TypeExpr::Array { elem, len } => {
            let mut out = String::from_str("[");
            let inner = format_type(elem);
            out.append(inner.as_str());
            out.append("; ");
            out.append(len.as_str());
            out.append("]");
            out
        },
        TypeExpr::Pat(e) => format_type(e),
        TypeExpr::ImplTrait(bounds) => {
            let mut names: Vec<String> = Vec::new();
            let mut i: usize = 0;
            while i < bounds.len()
                invariant
                    i <= bounds@.len(),
                    views(names@) == trait_bound_names(bounds@.take(i as int)),
                decreases bounds@.len() - i,
            {
                assert(bounds@.take(i as int + 1).drop_last() =~= bounds@.take(i as int));
                assert(bounds@.take(i as int + 1).last() == bounds@[i as int]);
                match &bounds[i] {
                    BoundExpr::Trait { path, .. } => {
                        names.push(last_segment(path.path.as_str()));
                    },
                    _ => {},
                }
                assert(views(names@) =~= trait_bound_names(bounds@.take(i as int + 1)));
                i = i + 1;
            }
            assert(bounds@.take(bounds@.len() as int) =~= bounds@);
            let mut out = String::from_str("impl ");
            let joined = join_with(&names, " + ");
            out.append(joined.as_str());
            out
        },
        TypeExpr::Infer => String::from_str("_"),
        TypeExpr::RawPtr { mutable, elem } => {
            let mut out = String::from_str("*");
            if *mutable {
                out.append("mut");
            } else {
                out.append("const");
            }
            out.append(" ");
            let inner = format_type(elem);
            out.append(inner.as_str());
            out
        },
        TypeExpr::Ref { mutable, elem } => {
            let mut out = String::from_str("&");
            if *mutable {
                out.append("mut ");
            } else {
                out.append("");
            }
            let inner = format_type(elem);
            out.append(inner.as_str());
            out
        },
        TypeExpr::Qualified { self_ty, name, .. } => {
            let mut out = String::from_str("<");
            let inner = format_type(self_ty);
            out.append(inner.as_str());
            out.append(">::");
            out.append(name.as_str());
            out
        },
    }
}

/// ` -> T` for a return type, nothing without one.
pub fn format_ret(o: &Option<Box<TypeExpr>>) -> (r: String)
    ensures
        r@ == ret_text(*o),
    decreases o,
{
    match o {
        Some(b) => {
            let mut out = String::from_str(" -> ");
            let inner = format_type(b);
            out.append(inner.as_str());
            out
        },
        None => String::new(),
    }
}

/// A path's display text.
pub fn format_path(p: &PathExpr) -> (r: String)
    ensures
        r@ == path_text(*p),
    decreases p,
{
    let mut out = last_segment(p.path.as_str());
    match &p.args {
        Some(a) => {
            let inner = format_args(a);
            out.append(inner.as_str());
        },
        None => {},
    }
    out
}

/// The display text of generic arguments.
pub fn format_args(a: &ArgsExpr) -> (r: String)
    ensures
        r@ == args_text(*a),
    decreases a,
{
    match a {
        ArgsExpr::Angle { args, .. } => {
            if args.len() == 0 {
                String::new()
            } else {
                let mut out = String::from_str("<");
                let inner = format_arg_list(args);
                out.append(inner.as_str());
                out.append(">");
                out
            }
        },
        ArgsExpr::Paren { inputs, output } => {
            let mut out = String::from_str("(");
            let inner = format_types(inputs);
            out.append(inner.as_str());
            out.append(")");
            let ret = format_ret(output);
            out.append(ret.as_str());
            out
        },
        ArgsExpr::ReturnNotation => String::from_str("(..)"),
    }
}

/// The display text of one generic argument.
pub fn format_arg(a: &ArgExpr) -> (r: String)
    ensures
        r@ == arg_text(*a),
    decreases a,
{
    match a {
        ArgExpr::Type(t) => format_type(t),
        ArgExpr::Lifetime(l) => l.clone(),
        ArgExpr::Const(Some(v)) => v.clone(),
        ArgExpr::Const(None) => String::new(),
        ArgExpr::Infer => String::from_str("_"),
    }
}

/// Generic arguments joined with `, `.
pub fn format_arg_list(s: &Vec<ArgExpr>) -> (r: String)
    ensures
        r@ == arg_list_text(s@),
    decreases s,
{
    let mut out = String::new();
    let mut i: usize = 0;
    while i < s.len()
        invariant
            i <= s@.len(),
            out@ == arg_list_text(s@.take(i as int)),
        decreases s@.len() - i,
    {
        assert(decreases_to!(s => s@[i as int]));
        let piece = format_arg(&s[i]);
        let ghost t = s@.take(i as int + 1);
        assert(t.drop_last() =~= s@.take(i as int));
        assert(t.last() == s@[i as int]);
        if i > 0 {
            out.append(", ");
        } else {
            assert(t[0] == s@[0]);
        }
        out.append(piece.as_str());
        i = i + 1;
    }
    assert(s@.take(s@.len() as int) =~= s@);
    out
}

/// Types joined with `, `.
pub fn format_types(s: &Vec<TypeExpr>) -> (r: String)
    ensures
        r@ == types_text(s@),
    decreases s,
{
    let mut out = String::new();
    let mut i: usize = 0;
    while i < s.len()
        invariant
            i <= s@.len(),
            out@ == types_text(s@.take(i as int)),
        decreases s@.len() - i,
    {
        assert(decreases_to!(s => s@[i as int]));
        let piece = format_type(&s[i]);
        let ghost t = s@.take(i as int + 1);
        assert(t.drop_last() =~= s@.take(i as int));
        assert(t.last() == s@[i as int]);
        if i > 0 {
            out.append(", ");
        } else {
            assert(t[0] == s@[0]);
        }
        out.append(piece.as_str());
        i = i + 1;
    }
    assert(s@.take(s@.len() as int) =~= s@);
    out
}

// ---------------------------------------------------------------- links

/// The views of display-name and ID pairs.
pub open spec fn pair_views(v: Seq<(String, u32)>) -> Seq<(Seq<char>, u32)> {
    v.map_values(|p: (String, u32)| (p.0@, p.1))
}

/// The display names and IDs of the paths a type mentions, in traversal order.
pub open spec fn type_links(t: TypeExpr) -> Seq<(Seq<char>, u32)>
    decreases t,
{
    match t {
        TypeExpr::Resolved(p) => path_links(p),
        TypeExpr::Dyn(polys) => polys_links(polys@),
        TypeExpr::FnPtr { inputs, output, .. } => types_links(inputs@) + opt_type_links(output),
        TypeExpr::Tuple(ts) => types_links(ts@),
        TypeExpr::Slice(e) => type_links(*e),
        TypeExpr::Array { elem, .. } => type_links(*elem),
        TypeExpr::Pat(e) => type_links(*e),
        TypeExpr::ImplTrait(bounds) => bound_pairs(bounds@),
        TypeExpr::RawPtr { elem, .. } => type_links(*elem),
        TypeExpr::Ref { elem, .. } => type_links(*elem),
        TypeExpr::Qualified { self_ty, .. } => type_links(*self_ty),
        _ => Seq::empty(),
    }
}

/// The links of an optional type.
pub open spec fn opt_type_links(t: Option<Box<TypeExpr>>) -> Seq<(Seq<char>, u32)>
    decreases t,
{
    match t {
        Some(b) => type_links(*b),
        None => Seq::empty(),
    }
}

/// A path's own link, then those of its type arguments.
pub open spec fn path_links(p: PathExpr) -> Seq<(Seq<char>, u32)>
    decreases p,
{
    seq![(last_segment_of(p.path@), p.id)] + match p.args {
        Some(a) => args_links(*a),
        None => Seq::empty(),
    }
}

/// The links of generic arguments.
pub open spec fn args_links(a: ArgsExpr) -> Seq<(Seq<char>, u32)>
    decreases a,
{
    match a {
        ArgsExpr::Angle { args, .. } => arg_list_links(args@),
        ArgsExpr::Paren { inputs, output } => types_links(inputs@) + opt_type_links(output),
        ArgsExpr::ReturnNotation => Seq::empty(),
    }
}

/// The links of the type arguments among `s`.
pub open spec fn arg_list_links(s: Seq<ArgExpr>) -> Seq<(Seq<char>, u32)>
    decreases s,
{
    if s.len() == 0 {
        Seq::empty()
    } else {
        arg_list_links(s.drop_last()) + match s.last() {
            ArgExpr::Type(t) => type_links(t),
            _ => Seq::empty(),
        }
    }
}

/// The links of a list of types.
pub open spec fn types_links(s: Seq<TypeExpr>) -> Seq<(Seq<char>, u32)>
    decreases s,
{
    if s.len() == 0 {
        Seq::empty()
    } else {
        types_links(s.drop_last()) + type_links(s.last())
    }
}

/// The links of `dyn` traits.
pub open spec fn polys_links(s: Seq<PolyExpr>) -> Seq<(Seq<char>, u32)>
    decreases s,
{
    if s.len() == 0 {
        Seq::empty()
    } else {
        polys_links(s.drop_last()) + path_links(s.last().trait_)
    }
}

/// The display name and ID of each trait bound among `s`.
pub open spec fn bound_pairs(s: Seq<BoundExpr>) -> Seq<(Seq<char>, u32)>
    decreases s.len(),
{
    if s.len() == 0 {
        Seq::empty()
    } else {
        let r = bound_pairs(s.drop_last());
        match s.last() {
            BoundExpr::Trait { path, .. } => r.push((last_segment_of(path.path@), path.id)),
            _ => r,
        }
    }
}

/// Appends the links of `t`.
pub fn collect_type_links(t: &TypeExpr, out: &mut Vec<(String, u32)>)
    ensures
        pair_views(final(out)@) == pair_views(old(out)@) + type_links(*t),
    decreases t,
{
    let ghost o = pair_views(out@);
    match t {
        TypeExpr::Resolved(p) => collect_path_links(p, out),
        TypeExpr::Dyn(polys) => collect_polys_links(polys, out),
        TypeExpr::FnPtr { inputs, output, .. } => {
            collect_types_links(inputs, out);
            collect_opt_type_links(output, out);
            assert(pair_views(out@) =~= o + type_links(*t));
        },
        TypeExpr::Tuple(ts) => collect_types_links(ts, out),
        TypeExpr::Slice(e) => collect_type_links(e, out),
        TypeExpr::Array { elem, .. } => collect_type_links(elem, out),
        TypeExpr::Pat(e) => collect_type_links(e, out),
        TypeExpr::ImplTrait(bounds) => collect_bound_pairs(bounds, out),
        TypeExpr::RawPtr { elem, .. } => collect_type_links(elem, out),
        TypeExpr::Ref { elem, .. } => collect_type_links(elem, out),
        TypeExpr::Qualified { self_ty, .. } => collect_type_links(self_ty, out),
        _ => {
            assert(pair_views(out@) =~= o + type_links(*t));
        },
    }
}

/// Appends the links of an optional type.
pub fn collect_opt_type_links(t: &Option<Box<TypeExpr>>, out: &mut Vec<(String, u32)>)
    ensures
        pair_views(final(out)@) == pair_views(old(out)@) + opt_type_links(*t),
    decreases t,
{
    let ghost o = pair_views(out@);
    match t {
        Some(b) => collect_type_links(b, out),
        None => {},
    }
    assert(pair_views(out@) =~= o + opt_type_links(*t));
}

/// Appends the links of a path.
pub fn collect_path_links(p: &PathExpr, out: &mut Vec<(String, u32)>)
    ensures
        pair_views(final(out)@) == pair_views(old(out)@) + path_links(*p),
    decreases p,
{
    let ghost o = pair_views(out@);
    out.push((last_segment(p.path.as_str()), p.id));
    assert(pair_views(out@) =~= o + seq![(last_segment_of(p.path@), p.id)]);
    let ghost m = pair_views(out@);
    match &p.args {
        Some(a) => collect_args_links(a, out),
        None => {},
    }
    assert(pair_views(out@) =~= o + path_links(*p));
}

/// Appends the links of generic arguments.
pub fn collect_args_links(a: &ArgsExpr, out: &mut Vec<(String, u32)>)
    ensures
        pair_views(final(out)@) == pair_views(old(out)@) + args_links(*a),
    decreases a,
{
    let ghost o = pair_views(out@);
    match a {
        ArgsExpr::Angle { args, .. } => collect_arg_list_links(args, out),
        ArgsExpr::Paren { inputs, output } => {
            collect_types_links(inputs, out);
            collect_opt_type_links(output, out);
        },
        ArgsExpr::ReturnNotation => {},
    }
    assert(pair_views(out@) =~= o + args_links(*a));
}

/// Appends the links of a list of types.
pub fn collect_types_links(s: &Vec<TypeExpr>, out: &mut Vec<(String, u32)>)
    ensures
        pair_views(final(out)@) == pair_views(old(out)@) + types_links(s@),
    decreases s,
{
    let ghost o = pair_views(out@);
    let mut i: usize = 0;
    while i < s.len()
        invariant
            i <= s@.len(),
            pair_views(out@) == o + types_links(s@.take(i as int)),
        decreases s@.len() - i,
    {
        assert(s@.take(i as int + 1).drop_last() =~= s@.take(i as int));
        assert(s@.take(i as int + 1).last() == s@[i as int]);
        assert(decreases_to!(s => s@[i as int]));
        collect_type_links(&s[i], out);
        assert(pair_views(out@) =~= o + types_links(s@.take(i as int + 1)));
        i = i + 1;
    }
    assert(s@.take(s@.len() as int) =~= s@);
}

/// Appends the display name and ID of each trait bound.
pub fn collect_bound_pairs(s: &Vec<BoundExpr>, out: &mut Vec<(String, u32)>)
    ensures
        pair_views(final(out)@) == pair_views(old(out)@) + bound_pairs(s@),
{
    let ghost o = pair_views(out@);
    let mut i: usize = 0;
    while i < s.len()
        invariant
            i <= s@.len(),
            pair_views(out@) == o + bound_pairs(s@.take(i as int)),
        decreases s@.len() - i,
    {
        assert(s@.take(i as int + 1).drop_last() =~= s@.take(i as int));
        assert(s@.take(i as int + 1).last() == s@[i as int]);
        let ghost before = pair_views(out@);
        match &s[i] {
            BoundExpr::Trait { path, .. } => {
                out.push((last_segment(path.path.as_str()), path.id));
                assert(pair_views(out@) =~= before.push((last_segment_of(path.path@), path.id)));
            },
            _ => {},
        }
        assert(pair_views(out@) =~= o + bound_pairs(s@.take(i as int + 1)));
        i = i + 1;
    }
    assert(s@.take(s@.len() as int) =~= s@);
}

/// Appends the links of `dyn` traits.
pub fn collect_polys_links(s: &Vec<PolyExpr>, out: &mut Vec<(String, u32)>)
    ensures
        pair_views(final(out)@) == pair_views(old(out)@) + polys_links(s@),
    decreases s,
{
    let ghost o = pair_views(out@);
    let mut i: usize = 0;
    while i < s.len()
        invariant
            i <= s@.len(),
            pair_views(out@) == o + polys_links(s@.take(i as int)),
        decreases s@.len() - i,
    {
        assert(s@.take(i as int + 1).drop_last() =~= s@.take(i as int));
        assert(s@.take(i as int + 1).last() == s@[i as int]);
        assert(decreases_to!(s => s@[i as int]));
        collect_path_links(&s[i].trait_, out);
        assert(pair_views(out@) =~= o + polys_links(s@.take(i as int + 1)));
        i = i + 1;
    }
    assert(s@.take(s@.len() as int) =~= s@);
}

/// Appends the links of the type arguments among `s`.
pub fn collect_arg_list_links(s: &Vec<ArgExpr>, out: &mut Vec<(String, u32)>)
    ensures
        pair_views(final(out)@) == pair_views(old(out)@) + arg_list_links(s@),
    decreases s,
{
    let ghost o = pair_views(out@);
    let mut i: usize = 0;
    while i < s.len()
        invariant
            i <= s@.len(),
            pair_views(out@) == o + arg_list_links(s@.take(i as int)),
        decreases s@.len() - i,
    {
        assert(s@.take(i as int + 1).drop_last() =~= s@.take(i as int));
        assert(s@.take(i as int + 1).last() == s@[i as int]);
        assert(decreases_to!(s => s@[i as int]));
        match &s[i] {
            ArgExpr::Type(t) => collect_type_links(t, out),
            _ => {},
        }
        assert(pair_views(out@) =~= o + arg_list_links(s@.take(i as int + 1)));
        i = i + 1;
    }
    assert(s@.take(s@.len() as int) =~= s@);
}

// ---------------------------------------------------------------- generics

/// The right-hand side of an equality predicate.
pub enum TermExpr {
    Type(TypeExpr),
    Const(Option<String>),
}

/// A where-clause predicate.
pub enum WhereExpr {
    Bound { ty: TypeExpr, bounds: Vec<BoundExpr>, params: Vec<ParamExpr> },
    Lifetime { lifetime: String, outlives: Vec<String> },
    Eq { lhs: TypeExpr, rhs: TermExpr },
}

/// Generic parameters and where-clause predicates.
pub struct GenericsExpr {
    pub params: Vec<ParamExpr>,
    pub where_preds: Vec<WhereExpr>,
}

/// The names of the trait and lifetime bounds among `s`.
pub open spec fn bound_names(s: Seq<BoundExpr>) -> Seq<Seq<char>>
    decreases s.len(),
{
    if s.len() == 0 {
        Seq::empty()
    } else {
        let r = bound_names(s.drop_last());
        match s.last() {
            BoundExpr::Trait { path, .. } => r.push(last_segment_of(path.path@)),
            BoundExpr::Outlives(l) => r.push(l@),
            BoundExpr::Other => r,
        }
    }
}

/// The display text of a generic parameter.
pub open spec fn param_text(p: ParamExpr) -> Seq<char> {
    match p.kind {
        ParamKindExpr::Type { bounds, default } => p.name@ + (if bound_names(bounds@).len() > 0 {
            ": "@ + join(bound_names(bounds@), " + "@)
        } else {
            Seq::empty()
        }) + match default {
            Some(d) => " = "@ + type_text(*d),
            None => Seq::empty(),
        },
        ParamKindExpr::Lifetime => p.name@,
        ParamKindExpr::Const { ty } => "const "@ + p.name@ + ": "@ + type_text(*ty),
    }
}

/// The display text of a where-clause predicate, when it says anything.
pub open spec fn where_pred_text(w: WhereExpr) -> Option<Seq<char>> {
    match w {
        WhereExpr::Bound { ty, bounds, .. } => if bound_names(bounds@).len() > 0 {
            Some(type_text(ty) + ": "@ + join(bound_names(bounds@), " + "@))
        } else {
            None
        },
        WhereExpr::Lifetime { lifetime, outlives } => if outlives@.len() > 0 {
            Some(lifetime@ + ": "@ + join(views(outlives@), " + "@))
        } else {
            None
        },
        WhereExpr::Eq { lhs, rhs } => Some(type_text(lhs) + " = "@ + match rhs {
            TermExpr::Type(t) => type_text(t),
            TermExpr::Const(Some(v)) => v@,
            TermExpr::Const(None) => Seq::empty(),
        }),
    }
}

/// The texts of the predicates that say anything, in order.
pub open spec fn where_texts(s: Seq<WhereExpr>) -> Seq<Seq<char>>
    decreases s.len(),
{
    if s.len() == 0 {
        Seq::empty()
    } else {
        let r = where_texts(s.drop_last());
        match where_pred_text(s.last()) {
            Some(t) => r.push(t),
            None => r,
        }
    }
}

/// The IDs the predicates reference.
pub open spec fn where_ids(s: Seq<WhereExpr>) -> Seq<u32>
    decreases s.len(),
{
    if s.len() == 0 {
        Seq::empty()
    } else {
        where_ids(s.drop_last()) + match s.last() {
            WhereExpr::Bound { ty, bounds, params } => type_ids(ty) + bounds_ids(bounds@) + params_ids(params@),
            WhereExpr::Lifetime { .. } => Seq::empty(),
            WhereExpr::Eq { lhs, rhs } => type_ids(lhs) + match rhs {
                TermExpr::Type(t) => type_ids(t),
                TermExpr::Const(_) => Seq::empty(),
            },
        }
    }
}

/// The IDs generics reference.
pub open spec fn generics_ids(g: GenericsExpr) -> Seq<u32> {
    params_ids(g.params@) + where_ids(g.where_preds@)
}

/// The trait bounds of type parameters, in order.
pub open spec fn param_bound_pairs(s: Seq<ParamExpr>) -> Seq<(Seq<char>, u32)>
    decreases s.len(),
{
    if s.len() == 0 {
        Seq::empty()
    } else {
        param_bound_pairs(s.drop_last()) + match s.last().kind {
            ParamKindExpr::Type { bounds, .. } => bound_pairs(bounds@),
            _ => Seq::empty(),
        }
    }
}

/// The trait bounds of bound predicates, in order.
pub open spec fn where_bound_pairs(s: Seq<WhereExpr>) -> Seq<(Seq<char>, u32)>
    decreases s.len(),
{
    if s.len() == 0 {
        Seq::empty()
    } else {
        where_bound_pairs(s.drop_last()) + match s.last() {
            WhereExpr::Bound { bounds, .. } => bound_pairs(bounds@),
            _ => Seq::empty(),
        }
    }
}

/// The trait bounds mentioned in generics, with their IDs.
pub open spec fn generics_bound_pairs(g: GenericsExpr) -> Seq<(Seq<char>, u32)> {
    param_bound_pairs(g.params@) + where_bound_pairs(g.where_preds@)
}

/// The views of an optional list of strings.
pub open spec fn opt_views(o: Option<Vec<String>>) -> Option<Seq<Seq<char>>> {
    match o {
        Some(v) => Some(views(v@)),
        None => None,
    }
}

/// The parameter texts of generics, nothing when there is no parameter.
pub open spec fn generics_text(g: GenericsExpr) -> Option<Seq<Seq<char>>> {
    if g.params@.len() == 0 {
        None
    } else {
        Some(g.params@.map_values(|p: ParamExpr| param_text(p)))
    }
}

/// The where-clause texts of generics, nothing when no predicate says anything.
pub open spec fn where_clause_text(g: GenericsExpr) -> Option<Seq<Seq<char>>> {
    if where_texts(g.where_preds@).len() == 0 {
        None
    } else {
        Some(where_texts(g.where_preds@))
    }
}

/// The names of the trait and lifetime bounds.
pub fn format_bound_names(s: &Vec<BoundExpr>) -> (r: Vec<String>)
    ensures
        views(r@) == bound_names(s@),
{
    let mut out: Vec<String> = Vec::new();
    let mut i: usize = 0;
    while i < s.len()
        invariant
            i <= s@.len(),
            views(out@) == bound_names(s@.take(i as int)),
        decreases s@.len() - i,
    {
        assert(s@.take(i as int + 1).drop_last() =~= s@.take(i as int));
        assert(s@.take(i as int + 1).last() == s@[i as int]);
        let ghost before = views(out@);
        match &s[i] {
            BoundExpr::Trait { path, .. } => {
                out.push(last_segment(path.path.as_str()));
                assert(views(out@) =~= before.push(last_segment_of(path.path@)));
            },
            BoundExpr::Outlives(l) => {
                out.push(l.clone());
                assert(views(out@) =~= before.push(l@));
            },
            BoundExpr::Other => {},
        }
        i = i + 1;
    }
    assert(s@.take(s@.len() as int) =~= s@);
    out
}

/// The display text of a generic parameter.
pub fn format_param(p: &ParamExpr) -> (r: String)
    ensures
        r@ == param_text(*p),
{
    match &p.kind {
        ParamKindExpr::Type { bounds, default } => {
            let mut out = p.name.clone();
            let names = format_bound_names(bounds);
            if names.len() > 0 {
                out.append(": ");
                let joined = join_with(&names, " + ");
                out.append(joined.as_str());
            }
            match default {
                Some(d) => {
                    out.append(" = ");
                    let t = format_type(d);
                    out.append(t.as_str());
                },
                None => {},
            }
            out
        },
        ParamKindExpr::Lifetime => p.name.clone(),
        ParamKindExpr::Const { ty } => {
            let mut out = String::from_str("const ");
            out.append(p.name.as_str());
            out.append(": ");
            let t = format_type(ty);
            out.append(t.as_str());
            out
        },
    }
}

/// The display text of a where-clause predicate, when it says anything.
pub fn format_where_pred(w: &WhereExpr) -> (r: Option<String>)
    ensures
        crate::text::opt_view(r) == where_pred_text(*w),
{
    match w {
        WhereExpr::Bound { ty, bounds, .. } => {
            let names = format_bound_names(bounds);
            if names.len() > 0 {
                let mut out = format_type(ty);
                out.append(": ");
                let joined = join_with(&names, " + ");
                out.append(joined.as_str());
                Some(out)
            } else {
                None
            }
        },
        WhereExpr::Lifetime { lifetime, outlives } => {
            if outlives.len() > 0 {
                let mut out = lifetime.clone();
                out.append(": ");
                let joined = join_with(outlives, " + ");
                out.append(joined.as_str());
                Some(out)
            } else {
                None
            }
        },
        WhereExpr::Eq { lhs, rhs } => {
            let mut out = format_type(lhs);
            out.append(" = ");
            match rhs {
                TermExpr::Type(t) => {
                    let x = format_type(t);
                    out.append(x.as_str());
                },
                TermExpr::Const(Some(v)) => out.append(v.as_str()),
                TermExpr::Const(None) => {},
            }
            Some(out)
        },
    }
}

/// The display texts of generic parameters, or nothing when there are none.
pub fn format_generics(g: &GenericsExpr) -> (r: Option<Vec<String>>)
    ensures
        opt_views(r) == generics_text(*g),
{
    if g.params.len() == 0 {
        return None;
    }
    let mut out: Vec<String> = Vec::new();
    let mut i: usize = 0;
    while i < g.params.len()
        invariant
            i <= g.params@.len(),
            views(out@) == g.params@.take(i as int).map_values(|p: ParamExpr| param_text(p)),
        decreases g.params@.len() - i,
    {
        let ghost before = views(out@);
        let t = format_param(&g.params[i]);
        let ghost tv = t@;
        out.push(t);
        assert(views(out@) =~= before.push(tv));
        assert(tv == param_text(g.params@[i as int]));
        assert(g.params@.take(i as int + 1) =~= g.params@.take(i as int).push(g.params@[i as int]));
        assert(views(out@) =~= g.params@.take(i as int + 1).map_values(|p: ParamExpr| param_text(p)));
        i = i + 1;
    }
    assert(g.params@.take(g.params@.len() as int) =~= g.params@);
    Some(out)
}

/// The display texts of the where-clause predicates that say anything, or
/// nothing when none does.
pub fn format_where_clause(g: &GenericsExpr) -> (r: Option<Vec<String>>)
    ensures
        opt_views(r) == where_clause_text(*g),
{
    let mut out: Vec<String> = Vec::new();
    let mut i: usize = 0;
    while i < g.where_preds.len()
        invariant
            i <= g.where_preds@.len(),
            views(out@) == where_texts(g.where_preds@.take(i as int)),
        decreases g.where_preds@.len() - i,
    {
        assert(g.where_preds@.take(i as int + 1).drop_last() =~= g.where_preds@.take(i as int));
        assert(g.where_preds@.take(i as int + 1).last() == g.where_preds@[i as int]);
        let ghost before = views(out@);
        match format_where_pred(&g.where_preds[i]) {
            Some(t) => {
                out.push(t);
                assert(views(out@) =~= before.push(where_pred_text(g.where_preds@[i as int])->0));
            },
            None => {},
        }
        i = i + 1;
    }
    assert(g.where_preds@.take(g.where_preds@.len() as int) =~= g.where_preds@);
    if out.len() == 0 {
        None
    } else {
        Some(out)
    }
}

/// Appends the IDs generics reference.
pub fn collect_generics_ids(g: &GenericsExpr, out: &mut Vec<u32>)
    ensures
        final(out)@ == old(out)@ + generics_ids(*g),
{
    let ghost o = out@;
    collect_params_ids(&g.params, out);
    let ghost m = out@;
    let s = &g.where_preds;
    let mut i: usize = 0;
    while i < s.len()
        invariant
            i <= s@.len(),
            s == &g.where_preds,
            m == o + params_ids(g.params@),
            out@ == m + where_ids(s@.take(i as int)),
        decreases s@.len() - i,
    {
        assert(s@.take(i as int + 1).drop_last() =~= s@.take(i as int));
        assert(s@.take(i as int + 1).last() == s@[i as int]);
        match &s[i] {
            WhereExpr::Bound { ty, bounds, params } => {
                collect_type_ids(ty, out);
                collect_bounds_ids(bounds, out);
                collect_params_ids(params, out);
            },
            WhereExpr::Lifetime { .. } => {},
            WhereExpr::Eq { lhs, rhs } => {
                collect_type_ids(lhs, out);
                match rhs {
                    TermExpr::Type(t) => collect_type_ids(t, out),
                    TermExpr::Const(_) => {},
                }
            },
        }
        assert(out@ =~= m + where_ids(s@.take(i as int + 1)));
        i = i + 1;
    }
    assert(s@.take(s@.len() as int) =~= s@);
    assert(out@ =~= o + generics_ids(*g));
}

/// Appends the trait bounds mentioned in generics, with their IDs.
pub fn collect_generics_bound_pairs(g: &GenericsExpr, out: &mut Vec<(String, u32)>)
    ensures
        pair_views(final(out)@) == pair_views(old(out)@) + generics_bound_pairs(*g),
{
    let ghost o = pair_views(out@);
    let mut i: usize = 0;
    while i < g.params.len()
        invariant
            i <= g.params@.len(),
            pair_views(out@) == o + param_bound_pairs(g.params@.take(i as int)),
        decreases g.params@.len() - i,
    {
        assert(g.params@.take(i as int + 1).drop_last() =~= g.params@.take(i as int));
        assert(g.params@.take(i as int + 1).last() == g.params@[i as int]);
        match &g.params[i].kind {
            ParamKindExpr::Type { bounds, .. } => collect_bound_pairs(bounds, out),
            _ => {},
        }
        assert(pair_views(out@) =~= o + param_bound_pairs(g.params@.take(i as int + 1)));
        i = i + 1;
    }
    assert(g.params@.take(g.params@.len() as int) =~= g.params@);
    let ghost m = pair_views(out@);
    let mut j: usize = 0;
    while j < g.where_preds.len()
        invariant
            j <= g.where_preds@.len(),
            m == o + param_bound_pairs(g.params@),
            pair_views(out@) == m + where_bound_pairs(g.where_preds@.take(j as int)),
        decreases g.where_preds@.len() - j,
    {
        assert(g.where_preds@.take(j as int + 1).drop_last() =~= g.where_preds@.take(j as int));
        assert(g.where_preds@.take(j as int + 1).last() == g.where_preds@[j as int]);
        match &g.where_preds[j] {
            WhereExpr::Bound { bounds, .. } => collect_bound_pairs(bounds, out),
            _ => {},
        }
        assert(pair_views(out@) =~= m + where_bound_pairs(g.where_preds@.take(j as int + 1)));
        j = j + 1;
    }
    assert(g.where_preds@.take(g.where_preds@.len() as int) =~= g.where_preds@);
    assert(pair_views(out@) =~= o + generics_bound_pairs(*g));
}

} // verus!
