//! Lexical resolution of call sites against the function index.

use vstd::prelude::*;
use crate::text::{views, opt_view, str_eq, copy_strings};
use crate::index::{FunctionIndex, select_suffix, select_named, unique, matches_suffix, suffix_text};
use crate::ids::{path_id, strip_package};
use crate::text::{join, sep};
use crate::model::{Confidence, EdgeKind, Graph};
use crate::graph::{wf, extends, has_node, has_edge, lemma_extends_facts, lemma_extends_trans, lemma_extends_refl};

verus! {

/// How call sites with several candidate callees are treated.
#[derive(Debug, Clone, Copy, PartialEq, Eq, Structural)]
pub enum CallMode {
    /// Candidate sets with more than one member are dropped.
    Strict,
    /// Every member of a candidate set gets an edge with `Inferred` confidence.
    Ambiguous,
}

impl CallMode {
    /// Whether candidate sets with several members are kept.
    pub fn allow_ambiguous(self) -> (r: bool)
        ensures
            r == (self == CallMode::Ambiguous),
    {
        self == CallMode::Ambiguous
    }
}

/// Where a callee path is anchored.
#[derive(Debug, Clone, Copy, PartialEq, Eq, Structural)]
pub enum PathAnchor {
    Relative,
    Crate,
    SelfScope,
    Super(usize),
}

/// A self-type path as written at an impl or trait, with whether it was
/// rooted at `crate` or `super`.
pub struct TypeSegments {
    pub segments: Vec<String>,
    pub is_scoped: bool,
}

/// A call site found in a function body.
pub enum CallExpr {
    /// `a::b::f(..)`, by its path segments.
    Path(Vec<String>),
    /// `recv.m(..)`, by its method name.
    Method(String),
}

pub open spec fn kw_crate() -> Seq<char> { seq!['c', 'r', 'a', 't', 'e'] }
pub open spec fn kw_self() -> Seq<char> { seq!['s', 'e', 'l', 'f'] }
pub open spec fn kw_self_type() -> Seq<char> { seq!['S', 'e', 'l', 'f'] }
pub open spec fn kw_super() -> Seq<char> { seq!['s', 'u', 'p', 'e', 'r'] }

/// The anchor reached after `supers` leading `super` segments.
pub open spec fn supers_anchor(supers: nat) -> PathAnchor {
    if supers > 0 { PathAnchor::Super(supers as usize) } else { PathAnchor::Relative }
}

/// The anchor of `segs` scanned from `i`, and where the rest starts.
pub open spec fn anchor_scan(segs: Seq<Seq<char>>, i: int, supers: nat) -> (PathAnchor, int)
    decreases segs.len() - i,
{
    if i < 0 || i >= segs.len() {
        (supers_anchor(supers), i)
    } else if segs[i] == kw_crate() {
        (PathAnchor::Crate, i + 1)
    } else if segs[i] == kw_self() || segs[i] == kw_self_type() {
        (PathAnchor::SelfScope, i + 1)
    } else if segs[i] == kw_super() {
        anchor_scan(segs, i + 1, supers + 1)
    } else {
        (supers_anchor(supers), i)
    }
}

/// The anchor of a path and the index where its rest starts.
pub open spec fn split_anchor(segs: Seq<Seq<char>>) -> (PathAnchor, int) {
    anchor_scan(segs, 0, 0)
}

/// The segments after the anchor.
pub open spec fn rest_of(segs: Seq<Seq<char>>) -> Seq<Seq<char>> {
    segs.subrange(split_anchor(segs).1, segs.len() as int)
}

/// The module path a rest is resolved under.
pub open spec fn scoped(anchor: PathAnchor, rest: Seq<Seq<char>>, mod_path: Seq<Seq<char>>) -> Seq<Seq<char>> {
    match anchor {
        PathAnchor::Crate => rest,
        PathAnchor::Super(n) => mod_path.take(
            if mod_path.len() >= n { mod_path.len() - n } else { 0 },
        ) + rest,
        _ => mod_path + rest,
    }
}

/// A candidate list is kept: it is not empty, and it has one member or
/// ambiguity is allowed.
pub open spec fn accepted(l: Seq<Seq<char>>, mode: CallMode) -> bool {
    l.len() > 0 && (l.len() == 1 || mode == CallMode::Ambiguous)
}

/// Some list of `lists` is kept.
pub open spec fn any_accepted(lists: Seq<Seq<Seq<char>>>, mode: CallMode) -> bool {
    exists|j: int| 0 <= j < lists.len() && accepted(#[trigger] lists[j], mode)
}

/// `id` is in some kept list.
pub open spec fn is_candidate(lists: Seq<Seq<Seq<char>>>, mode: CallMode, id: Seq<char>) -> bool {
    exists|j: int| 0 <= j < lists.len() && accepted(#[trigger] lists[j], mode) && lists[j].contains(id)
}

/// `id` is the only member of some kept list.
pub open spec fn is_static_candidate(lists: Seq<Seq<Seq<char>>>, id: Seq<char>) -> bool {
    exists|j: int| 0 <= j < lists.len() && #[trigger] lists[j] == seq![id]
}

/// Some candidate of `c` has ID `id`.
pub open spec fn has_candidate(c: Seq<(String, Confidence)>, id: Seq<char>) -> bool {
    exists|i: int| 0 <= i < c.len() && (#[trigger] c[i]).0@ == id
}

/// `c` is the candidate set of the kept lists among `lists`: each candidate once,
/// with `Static` confidence when it is the single member of a list and
/// `Inferred` otherwise.
pub open spec fn candidates_of(c: Seq<(String, Confidence)>, lists: Seq<Seq<Seq<char>>>, mode: CallMode) -> bool {
    &&& forall|i: int, j: int| 0 <= i < j < c.len() ==> (#[trigger] c[i]).0@ != (#[trigger] c[j]).0@
    &&& forall|id: Seq<char>| #[trigger] has_candidate(c, id) <==> is_candidate(lists, mode, id)
    &&& forall|i: int|
        0 <= i < c.len() ==> (#[trigger] c[i]).1 == (if is_static_candidate(lists, c[i].0@) {
            Confidence::Static
        } else {
            Confidence::Inferred
        })
}

/// The lists a path call is matched against, in order.
pub open spec fn path_query_lists(
    index: FunctionIndex,
    segs: Seq<Seq<char>>,
    mod_path: Seq<Seq<char>>,
    mode: CallMode,
) -> Seq<Seq<Seq<char>>> {
    let anchor = split_anchor(segs).0;
    let rest = rest_of(segs);
    if rest.len() == 0 {
        Seq::empty()
    } else {
        let direct = select_suffix(index.callable_paths(), rest);
        let in_scope = select_suffix(index.callable_paths(), scoped(anchor, rest, mod_path));
        let first = if anchor == PathAnchor::Relative { seq![direct, in_scope] } else { seq![in_scope] };
        if !any_accepted(first, mode) && rest.len() == 1 && anchor == PathAnchor::Relative {
            first.push(select_named(index.callable_paths(), views(index.callable_names@), rest[0]))
        } else {
            first
        }
    }
}

/// The lists a method call `name` is matched against, in order.
pub open spec fn method_query_lists(
    index: FunctionIndex,
    name: Seq<char>,
    mod_path: Seq<Seq<char>>,
    self_type: Option<(Seq<Seq<char>>, bool)>,
    mode: CallMode,
) -> Seq<Seq<Seq<char>>> {
    let first = match self_type {
        Some((ts, is_scoped)) => {
            let direct = select_suffix(index.method_paths(), ts.push(name));
            if is_scoped {
                seq![direct]
            } else {
                seq![direct, select_suffix(index.method_paths(), (mod_path + ts).push(name))]
            }
        },
        None => Seq::empty(),
    };
    if !any_accepted(first, mode) {
        first.push(select_named(index.method_paths(), views(index.method_names@), name))
    } else {
        first
    }
}

/// The view of an optional self type.
pub open spec fn type_view(t: Option<&TypeSegments>) -> Option<(Seq<Seq<char>>, bool)> {
    match t {
        Some(ts) => Some((views(ts.segments@), ts.is_scoped)),
        None => None,
    }
}

/// The caller ID of a free function `name` in `mod_path`.
pub open spec fn free_fn_caller(index: FunctionIndex, mod_path: Seq<Seq<char>>, name: Seq<char>) -> Option<Seq<char>> {
    let by_suffix = unique(select_suffix(index.callable_paths(), mod_path.push(name)));
    if by_suffix is Some {
        by_suffix
    } else {
        unique(select_named(index.callable_paths(), views(index.callable_names@), name))
    }
}

/// The caller ID of a method `name` of the given self type in `mod_path`.
pub open spec fn method_caller(
    index: FunctionIndex,
    mod_path: Seq<Seq<char>>,
    self_type: Option<(Seq<Seq<char>>, bool)>,
    name: Seq<char>,
) -> Option<Seq<char>> {
    let by_name = unique(select_named(index.method_paths(), views(index.method_names@), name));
    match self_type {
        Some((ts, is_scoped)) => {
            let direct = unique(select_suffix(index.method_paths(), ts.push(name)));
            let in_scope = unique(select_suffix(index.method_paths(), (mod_path + ts).push(name)));
            if direct is Some {
                direct
            } else if !is_scoped && in_scope is Some {
                in_scope
            } else {
                by_name
            }
        },
        None => by_name,
    }
}

/// Merge of two confidences: `Runtime` over `Static` over `Inferred`.
pub open spec fn merged(l: Confidence, r: Confidence) -> Confidence {
    if l == Confidence::Runtime || r == Confidence::Runtime {
        Confidence::Runtime
    } else if l == Confidence::Static || r == Confidence::Static {
        Confidence::Static
    } else {
        Confidence::Inferred
    }
}

/// Merges two confidences with precedence `Runtime > Static > Inferred`.
pub fn merge_confidence(left: Confidence, right: Confidence) -> (r: Confidence)
    ensures
        r == merged(left, right),
{
    match (left, right) {
        (Confidence::Runtime, _) | (_, Confidence::Runtime) => Confidence::Runtime,
        (Confidence::Static, _) | (_, Confidence::Static) => Confidence::Static,
        _ => Confidence::Inferred,
    }
}

fn is_keyword(s: &str, kw: &str) -> (r: bool)
    ensures
        r == (s@ == kw@),
{
    str_eq(s, kw)
}

/// Splits a callee path into its anchor and the index where the rest starts.
pub fn split_path_anchor(segments: &[String]) -> (r: (PathAnchor, usize))
    ensures
        r.0 == split_anchor(views(segments@)).0,
        r.1 as int == split_anchor(views(segments@)).1,
        r.1 <= segments@.len(),
{
    let ghost segs = views(segments@);
    let kc = "crate";
    let ks = "self";
    let kt = "Self";
    let ku = "super";
    proof {
        reveal_strlit("crate");
        reveal_strlit("self");
        reveal_strlit("Self");
        reveal_strlit("super");
        assert(kc@ =~= kw_crate());
        assert(ks@ =~= kw_self());
        assert(kt@ =~= kw_self_type());
        assert(ku@ =~= kw_super());
    }
    let mut index: usize = 0;
    let mut supers: usize = 0;
    while index < segments.len()
        invariant
            index <= segments@.len(),
            supers == index,
            segs == views(segments@),
            kc@ == kw_crate(),
            ks@ == kw_self(),
            kt@ == kw_self_type(),
            ku@ == kw_super(),
            split_anchor(segs) == anchor_scan(segs, index as int, supers as nat),
        decreases segments@.len() - index,
    {
        let seg = segments[index].as_str();
        assert(segs[index as int] == seg@);
        if is_keyword(seg, kc) {
            return (PathAnchor::Crate, index + 1);
        }
        if is_keyword(seg, ks) || is_keyword(seg, kt) {
            return (PathAnchor::SelfScope, index + 1);
        }
        if !is_keyword(seg, ku) {
            let a = if supers > 0 { PathAnchor::Super(supers) } else { PathAnchor::Relative };
            return (a, index);
        }
        supers = supers + 1;
        index = index + 1;
    }
    let a = if supers > 0 { PathAnchor::Super(supers) } else { PathAnchor::Relative };
    (a, index)
}

/// The segments from `start` on.
fn tail_of(segments: &[String], start: usize) -> (r: Vec<String>)
    requires
        start <= segments@.len(),
    ensures
        r@ == segments@.subrange(start as int, segments@.len() as int),
{
    let mut out: Vec<String> = Vec::new();
    let mut i: usize = start;
    while i < segments.len()
        invariant
            start <= i <= segments@.len(),
            out@ == segments@.subrange(start as int, i as int),
        decreases segments@.len() - i,
    {
        out.push(segments[i].clone());
        assert(out@ =~= segments@.subrange(start as int, i as int + 1));
        i = i + 1;
    }
    out
}

/// `base` followed by `rest`.
fn concat_strings(base: Vec<String>, rest: &[String]) -> (r: Vec<String>)
    ensures
        r@ == base@ + rest@,
{
    let mut out = base;
    let ghost b = out@;
    let mut i: usize = 0;
    while i < rest.len()
        invariant
            i <= rest@.len(),
            out@ == b + rest@.take(i as int),
        decreases rest@.len() - i,
    {
        out.push(rest[i].clone());
        assert(out@ =~= b + rest@.take(i as int + 1));
        i = i + 1;
    }
    assert(rest@.take(rest@.len() as int) =~= rest@);
    out
}

/// The first `n` strings of `v`.
fn prefix_strings(v: &[String], n: usize) -> (r: Vec<String>)
    requires
        n <= v@.len(),
    ensures
        r@ == v@.take(n as int),
{
    let mut out: Vec<String> = Vec::new();
    let mut i: usize = 0;
    while i < n
        invariant
            i <= n <= v@.len(),
            out@ == v@.take(i as int),
        decreases n - i,
    {
        out.push(v[i].clone());
        assert(out@ =~= v@.take(i as int + 1));
        i = i + 1;
    }
    out
}

/// The module-scoped form of `rest` under `anchor`.
pub fn scoped_segments(anchor: PathAnchor, rest: &[String], mod_path: &[String]) -> (r: Vec<String>)
    ensures
        views(r@) == scoped(anchor, views(rest@), views(mod_path@)),
{
    let base = match anchor {
        PathAnchor::Crate => Vec::new(),
        PathAnchor::Super(count) => {
            let base_len = if mod_path.len() >= count { mod_path.len() - count } else { 0 };
            prefix_strings(mod_path, base_len)
        },
        PathAnchor::SelfScope | PathAnchor::Relative => copy_strings(mod_path),
    };
    let r = concat_strings(base, rest);
    assert(views(r@) =~= scoped(anchor, views(rest@), views(mod_path@)));
    r
}

/// A self-type path resolved against `mod_path`: the segments to match and
/// whether the path was rooted at `crate` or `super`.
pub open spec fn type_segments_of(segs: Seq<Seq<char>>, mod_path: Seq<Seq<char>>) -> (Seq<Seq<char>>, bool) {
    let anchor = split_anchor(segs).0;
    (
        match anchor {
            PathAnchor::Super(_) => scoped(anchor, rest_of(segs), mod_path),
            _ => rest_of(segs),
        },
        anchor is Crate || anchor is Super,
    )
}

/// The self-type path of an impl or trait, resolved against `mod_path`.
pub fn resolve_type_segments(segments: &[String], mod_path: &[String]) -> (r: TypeSegments)
    ensures
        (views(r.segments@), r.is_scoped) == type_segments_of(views(segments@), views(mod_path@)),
{
    let (anchor, start) = split_path_anchor(segments);
    let rest = tail_of(segments, start);
    assert(views(rest@) =~= rest_of(views(segments@)));
    match anchor {
        PathAnchor::Crate => TypeSegments { segments: rest, is_scoped: true },
        PathAnchor::Super(_) => TypeSegments { segments: scoped_segments(anchor, rest.as_slice(), mod_path), is_scoped: true },
        _ => TypeSegments { segments: rest, is_scoped: false },
    }
}

/// The position of candidate `id` in `c`, if present.
fn find_candidate(c: &Vec<(String, Confidence)>, id: &str) -> (r: Option<usize>)
    ensures
        r matches Some(i) ==> i < c@.len() && c@[i as int].0@ == id@,
        r is None ==> !has_candidate(c@, id@),
{
    let mut i: usize = 0;
    while i < c.len()
        invariant
            i <= c@.len(),
            forall|j: int| 0 <= j < i ==> (#[trigger] c@[j]).0@ != id@,
        decreases c@.len() - i,
    {
        if str_eq(c[i].0.as_str(), id) {
            return Some(i);
        }
        i = i + 1;
    }
    None
}

/// Adds the matches of one query to the candidate set when the list is kept;
/// returns whether it was kept. A list with several members is dropped
/// whole in `Strict` mode and contributes each member as `Inferred` in
/// `Ambiguous` mode.
pub fn add_candidates(
    candidates: &mut Vec<(String, Confidence)>,
    matches: Vec<String>,
    mode: CallMode,
    Ghost(lists): Ghost<Seq<Seq<Seq<char>>>>,
) -> (kept: bool)
    requires
        candidates_of(old(candidates)@, lists, mode),
    ensures
        kept == accepted(views(matches@), mode),
        candidates_of(final(candidates)@, lists.push(views(matches@)), mode),
        !kept ==> final(candidates)@ == old(candidates)@,
{
    let ghost m = views(matches@);
    let ghost all = lists.push(m);
    let ghost c0 = candidates@;
    assert forall|j: int| 0 <= j < lists.len() implies #[trigger] all[j] == lists[j] by {}
    assert(all[lists.len() as int] == m);
    if matches.len() == 0 || (matches.len() > 1 && !mode.allow_ambiguous()) {
        assert forall|id: Seq<char>| is_candidate(all, mode, id) <==> is_candidate(lists, mode, id) by {
            if is_candidate(all, mode, id) {
                let j = choose|j: int| 0 <= j < all.len() && accepted(#[trigger] all[j], mode) && all[j].contains(id);
                assert(j < lists.len());
            }
            if is_candidate(lists, mode, id) {
                let j = choose|j: int| 0 <= j < lists.len() && accepted(#[trigger] lists[j], mode) && lists[j].contains(id);
                assert(all[j] == lists[j]);
            }
        }
        assert forall|id: Seq<char>| is_static_candidate(all, id) <==> is_static_candidate(lists, id) by {
            if is_static_candidate(all, id) {
                let j = choose|j: int| 0 <= j < all.len() && #[trigger] all[j] == seq![id];
                if j == lists.len() {
                    assert(m.len() == 1);
                    assert(false);
                }
            }
            if is_static_candidate(lists, id) {
                let j = choose|j: int| 0 <= j < lists.len() && #[trigger] lists[j] == seq![id];
                assert(all[j] == lists[j]);
            }
        }
        return false;
    }
    let conf = if matches.len() == 1 { Confidence::Static } else { Confidence::Inferred };
    let mut k: usize = 0;
    while k < matches.len()
        invariant
            k <= matches@.len(),
            m == views(matches@),
            accepted(m, mode),
            conf == (if m.len() == 1 { Confidence::Static } else { Confidence::Inferred }),
            candidates_of(c0, lists, mode),
            forall|i: int, j: int|
                0 <= i < j < candidates@.len() ==> (#[trigger] candidates@[i]).0@ != (#[trigger] candidates@[j]).0@,
            forall|id: Seq<char>|
                #[trigger] has_candidate(candidates@, id) <==> (is_candidate(lists, mode, id) || m.take(k as int).contains(id)),
            forall|i: int|
                0 <= i < candidates@.len() ==> (#[trigger] candidates@[i]).1 == (if is_static_candidate(lists, candidates@[i].0@)
                    || (conf == Confidence::Static && m.take(k as int).contains(candidates@[i].0@)) {
                    Confidence::Static
                } else {
                    Confidence::Inferred
                }),
        decreases matches@.len() - k,
    {
        let ghost before = candidates@;
        let ghost id = m[k as int];
        assert(m.take(k as int + 1) =~= m.take(k as int).push(id));
        let name = matches[k].as_str();
        assert(name@ == id);
        match find_candidate(candidates, name) {
            Some(i) => {
                assert(before[i as int].0@ == id);
                assert(has_candidate(before, id));
                let old_conf = candidates[i].1;
                let new_conf = merge_confidence(old_conf, conf);
                let entry = candidates[i].0.clone();
                candidates.set(i, (entry, new_conf));
                assert forall|id2: Seq<char>| has_candidate(candidates@, id2) <==> has_candidate(before, id2) by {
                    if has_candidate(candidates@, id2) {
                        let j = choose|j: int| 0 <= j < candidates@.len() && (#[trigger] candidates@[j]).0@ == id2;
                        assert(before[j].0@ == id2);
                    }
                    if has_candidate(before, id2) {
                        let j = choose|j: int| 0 <= j < before.len() && (#[trigger] before[j]).0@ == id2;
                        assert(candidates@[j].0@ == id2);
                    }
                }
                assert forall|a: int, b: int|
                    0 <= a < b < candidates@.len() implies (#[trigger] candidates@[a]).0@ != (#[trigger] candidates@[b]).0@ by {
                    assert(candidates@[a].0@ == before[a].0@);
                    assert(candidates@[b].0@ == before[b].0@);
                }
            },
            None => {
                let entry = matches[k].clone();
                candidates.push((entry, conf));
                assert forall|id2: Seq<char>| #[trigger] has_candidate(candidates@, id2) <==> (has_candidate(before, id2) || id2 == id) by {
                    if has_candidate(candidates@, id2) {
                        let j = choose|j: int| 0 <= j < candidates@.len() && (#[trigger] candidates@[j]).0@ == id2;
                        if j < before.len() {
                            assert(before[j] == candidates@[j]);
                        }
                    }
                    if has_candidate(before, id2) {
                        let j = choose|j: int| 0 <= j < before.len() && (#[trigger] before[j]).0@ == id2;
                        assert(candidates@[j] == before[j]);
                    }
                    if id2 == id {
                        assert(candidates@[before.len() as int].0@ == id);
                    }
                }
                assert forall|a: int, b: int|
                    0 <= a < b < candidates@.len() implies (#[trigger] candidates@[a]).0@ != (#[trigger] candidates@[b]).0@ by {
                    assert(candidates@[a] == before[a]);
                    if b < before.len() {
                        assert(candidates@[b] == before[b]);
                    } else {
                        assert(has_candidate(before, before[a].0@));
                    }
                }
                assert(!is_candidate(lists, mode, id));
                assert(!m.take(k as int).contains(id));
                assert(!is_static_candidate(lists, id)) by {
                    if is_static_candidate(lists, id) {
                        let j = choose|j: int| 0 <= j < lists.len() && #[trigger] lists[j] == seq![id];
                        assert(lists[j][0] == id);
                        assert(lists[j].contains(id));
                        assert(accepted(lists[j], mode));
                    }
                }
            },
        }
        assert forall|id2: Seq<char>| #[trigger] m.take(k as int + 1).contains(id2) <==> (m.take(k as int).contains(id2) || id2 == id) by {
            if m.take(k as int + 1).contains(id2) {
                let j = choose|j: int| 0 <= j < m.take(k as int + 1).len() && #[trigger] m.take(k as int + 1)[j] == id2;
                if j < k {
                    assert(m.take(k as int)[j] == id2);
                }
            }
            if m.take(k as int).contains(id2) {
                let j = choose|j: int| 0 <= j < m.take(k as int).len() && #[trigger] m.take(k as int)[j] == id2;
                assert(m.take(k as int + 1)[j] == id2);
            }
            if id2 == id {
                assert(m.take(k as int + 1)[k as int] == id);
            }
        }
        assert forall|id2: Seq<char>| #[trigger] has_candidate(candidates@, id2) <==> (is_candidate(lists, mode, id2) || m.take(k as int + 1).contains(id2)) by {
            assert(has_candidate(before, id2) <==> (is_candidate(lists, mode, id2) || m.take(k as int).contains(id2)));
        }
        k = k + 1;
    }
    assert(m.take(m.len() as int) =~= m);
    let ghost c1 = candidates@;
    proof {
        assert forall|id: Seq<char>| is_candidate(all, mode, id) <==> (is_candidate(lists, mode, id) || m.contains(id)) by {
            if is_candidate(all, mode, id) {
                let j = choose|j: int| 0 <= j < all.len() && accepted(#[trigger] all[j], mode) && all[j].contains(id);
                if j < lists.len() {
                    assert(all[j] == lists[j]);
                }
            }
            if is_candidate(lists, mode, id) {
                let j = choose|j: int| 0 <= j < lists.len() && accepted(#[trigger] lists[j], mode) && lists[j].contains(id);
                assert(all[j] == lists[j]);
            }
        }
        assert forall|id: Seq<char>| is_static_candidate(all, id) <==> (is_static_candidate(lists, id) || (m.len() == 1 && m.contains(id))) by {
            if is_static_candidate(all, id) {
                let j = choose|j: int| 0 <= j < all.len() && #[trigger] all[j] == seq![id];
                if j < lists.len() {
                    assert(all[j] == lists[j]);
                } else {
                    assert(m[0] == id);
                }
            }
            if is_static_candidate(lists, id) {
                let j = choose|j: int| 0 <= j < lists.len() && #[trigger] lists[j] == seq![id];
                assert(all[j] == lists[j]);
            }
            if m.len() == 1 && m.contains(id) {
                assert(m =~= seq![id]);
            }
        }
    }
    true
}


proof fn lemma_any_accepted_one(a: Seq<Seq<char>>, mode: CallMode)
    ensures
        any_accepted(seq![a], mode) == accepted(a, mode),
{
    if accepted(a, mode) {
        assert(seq![a][0] == a);
    }
}

proof fn lemma_any_accepted_two(a: Seq<Seq<char>>, b: Seq<Seq<char>>, mode: CallMode)
    ensures
        any_accepted(seq![a, b], mode) == (accepted(a, mode) || accepted(b, mode)),
{
    if accepted(a, mode) {
        assert(seq![a, b][0] == a);
    }
    if accepted(b, mode) {
        assert(seq![a, b][1] == b);
    }
}

proof fn lemma_no_lists(c: Seq<(String, Confidence)>, mode: CallMode)
    requires
        c.len() == 0,
    ensures
        candidates_of(c, Seq::empty(), mode),
{
    assert forall|id: Seq<char>| #[trigger] has_candidate(c, id) <==> is_candidate(Seq::empty(), mode, id) by {}
}

/// The candidate callees of a path call `segments` made inside `mod_path`.
pub fn resolve_callee_path_candidates(
    index: &FunctionIndex,
    segments: &[String],
    mod_path: &[String],
    mode: CallMode,
) -> (r: Vec<(String, Confidence)>)
    requires
        index.wf(),
    ensures
        candidates_of(r@, path_query_lists(*index, views(segments@), views(mod_path@), mode), mode),
{
    let ghost segs = views(segments@);
    let (anchor, start) = split_path_anchor(segments);
    let rest = tail_of(segments, start);
    assert(views(rest@) =~= rest_of(segs));
    let mut c: Vec<(String, Confidence)> = Vec::new();
    proof { lemma_no_lists(c@, mode); }
    if rest.len() == 0 {
        return c;
    }
    let ghost mut lists: Seq<Seq<Seq<char>>> = Seq::empty();
    let mut found = false;
    if anchor == PathAnchor::Relative {
        let direct = index.resolve_callable_by_suffix_all(rest.as_slice());
        let ghost d = views(direct@);
        found = add_candidates(&mut c, direct, mode, Ghost(lists));
        proof { lists = lists.push(d); }
    }
    let scoped_path = scoped_segments(anchor, rest.as_slice(), mod_path);
    let in_scope = index.resolve_callable_by_suffix_all(scoped_path.as_slice());
    let ghost sv = views(in_scope@);
    let kept = add_candidates(&mut c, in_scope, mode, Ghost(lists));
    proof {
        lists = lists.push(sv);
        if anchor == PathAnchor::Relative {
            assert(lists =~= seq![lists[0], sv]);
            lemma_any_accepted_two(lists[0], sv, mode);
        } else {
            assert(lists =~= seq![sv]);
            lemma_any_accepted_one(sv, mode);
        }
    }
    found = found || kept;
    if !found && rest.len() == 1 && anchor == PathAnchor::Relative {
        let by_name = index.resolve_callable_by_name_all(rest[0].as_str());
        let ghost bv = views(by_name@);
        add_candidates(&mut c, by_name, mode, Ghost(lists));
        proof { lists = lists.push(bv); }
    }
    assert(lists =~= path_query_lists(*index, segs, views(mod_path@), mode));
    c
}

/// `segments` followed by `last`.
fn push_copy(segments: &[String], last: &str) -> (r: Vec<String>)
    ensures
        views(r@) == views(segments@).push(last@),
{
    let mut v = copy_strings(segments);
    v.push(String::from_str(last));
    assert(views(v@) =~= views(segments@).push(last@));
    v
}

/// The candidate callees of a method call `name` made inside `mod_path`,
/// from a body whose self type is `self_type`.
pub fn resolve_callee_method_candidates(
    index: &FunctionIndex,
    name: &str,
    mod_path: &[String],
    self_type: Option<&TypeSegments>,
    mode: CallMode,
) -> (r: Vec<(String, Confidence)>)
    requires
        index.wf(),
    ensures
        candidates_of(r@, method_query_lists(*index, name@, views(mod_path@), type_view(self_type), mode), mode),
{
    let mut c: Vec<(String, Confidence)> = Vec::new();
    proof { lemma_no_lists(c@, mode); }
    let ghost mut lists: Seq<Seq<Seq<char>>> = Seq::empty();
    let mut found = false;
    match self_type {
        Some(ts) => {
            let suffix = push_copy(ts.segments.as_slice(), name);
            let direct = index.resolve_method_by_suffix_all(suffix.as_slice());
            let ghost d = views(direct@);
            found = add_candidates(&mut c, direct, mode, Ghost(lists));
            proof {
                lists = lists.push(d);
                assert(lists =~= seq![d]);
                lemma_any_accepted_one(d, mode);
            }
            if !ts.is_scoped {
                let base = concat_strings(copy_strings(mod_path), ts.segments.as_slice());
                let in_scope_path = push_copy(base.as_slice(), name);
                assert(views(in_scope_path@) =~= (views(mod_path@) + views(ts.segments@)).push(name@));
                let in_scope = index.resolve_method_by_suffix_all(in_scope_path.as_slice());
                let ghost sv = views(in_scope@);
                let kept = add_candidates(&mut c, in_scope, mode, Ghost(lists));
                proof {
                    lists = lists.push(sv);
                    assert(lists =~= seq![d, sv]);
                    lemma_any_accepted_two(d, sv, mode);
                }
                found = found || kept;
            }
        },
        None => {},
    }
    if !found {
        let by_name = index.resolve_method_by_name_all(name);
        let ghost bv = views(by_name@);
        add_candidates(&mut c, by_name, mode, Ghost(lists));
        proof { lists = lists.push(bv); }
    }
    assert(lists =~= method_query_lists(*index, name@, views(mod_path@), type_view(self_type), mode));
    c
}

/// The ID of the free function `name` declared in `mod_path`, if it can be pinpointed.
pub fn resolve_free_fn_caller(index: &FunctionIndex, mod_path: &[String], name: &str) -> (r: Option<String>)
    requires
        index.wf(),
    ensures
        opt_view(r) == free_fn_caller(*index, views(mod_path@), name@),
{
    let segs = push_copy(mod_path, name);
    match index.resolve_callable_by_suffix(segs.as_slice()) {
        Some(id) => Some(id),
        None => index.resolve_callable_by_name_unique(name),
    }
}

/// The ID of the method `name` of `self_type` declared in `mod_path`, if it can be pinpointed.
pub fn resolve_method_caller(
    index: &FunctionIndex,
    mod_path: &[String],
    self_type: Option<&TypeSegments>,
    name: &str,
) -> (r: Option<String>)
    requires
        index.wf(),
    ensures
        opt_view(r) == method_caller(*index, views(mod_path@), type_view(self_type), name@),
{
    if let Some(ts) = self_type {
        let suffix = push_copy(ts.segments.as_slice(), name);
        if let Some(id) = index.resolve_method_by_suffix(suffix.as_slice()) {
            return Some(id);
        }
        if !ts.is_scoped {
            let base = concat_strings(copy_strings(mod_path), ts.segments.as_slice());
            let in_scope_path = push_copy(base.as_slice(), name);
            assert(views(in_scope_path@) =~= (views(mod_path@) + views(ts.segments@)).push(name@));
            if let Some(id) = index.resolve_method_by_suffix(in_scope_path.as_slice()) {
                return Some(id);
            }
        }
    }
    index.resolve_method_by_name_unique(name)
}

/// Adds a `CallsStatic` edge from `caller` to every candidate, with the
/// candidate's confidence; self-calls and edges already present are skipped.
pub fn add_call_edges(g: &mut Graph, caller: &str, candidates: &Vec<(String, Confidence)>)
    requires
        wf(*old(g)),
    ensures
        wf(*final(g)),
        extends(*old(g), *final(g)),
        final(g).nodes@ == old(g).nodes@,
        forall|i: int|
            0 <= i < candidates@.len() && has_node(*old(g), caller@) && has_node(*old(g), (#[trigger] candidates@[i]).0@)
                && caller@ != candidates@[i].0@ ==> has_edge(*final(g), caller@, candidates@[i].0@, EdgeKind::CallsStatic),
        forall|j: int|
            old(g).edges@.len() <= j < final(g).edges@.len() ==> (#[trigger] final(g).edges@[j]).kind == EdgeKind::CallsStatic
                && final(g).edges@[j].from@ == caller@ && exists|i: int|
                0 <= i < candidates@.len() && (#[trigger] candidates@[i]).0@ == final(g).edges@[j].to@
                    && candidates@[i].1 == final(g).edges@[j].confidence,
{
    let ghost g0 = *g;
    proof { lemma_extends_refl(*g); }
    let mut i: usize = 0;
    while i < candidates.len()
        invariant
            i <= candidates@.len(),
            wf(*g),
            extends(g0, *g),
            g.nodes@ == g0.nodes@,
            forall|k: int|
                0 <= k < i && has_node(g0, caller@) && has_node(g0, (#[trigger] candidates@[k]).0@) && caller@
                    != candidates@[k].0@ ==> has_edge(*g, caller@, candidates@[k].0@, EdgeKind::CallsStatic),
            forall|j: int|
                g0.edges@.len() <= j < g.edges@.len() ==> (#[trigger] g.edges@[j]).kind == EdgeKind::CallsStatic
                    && g.edges@[j].from@ == caller@ && exists|k: int|
                    0 <= k < candidates@.len() && (#[trigger] candidates@[k]).0@ == g.edges@[j].to@
                        && candidates@[k].1 == g.edges@[j].confidence,
        decreases candidates@.len() - i,
    {
        let ghost g1 = *g;
        let to = candidates[i].0.clone();
        let conf = candidates[i].1;
        g.push_edge(String::from_str(caller), to, EdgeKind::CallsStatic, conf);
        proof {
            lemma_extends_facts(g1, *g);
            lemma_extends_trans(g0, g1, *g);
            assert forall|j: int|
                g0.edges@.len() <= j < g.edges@.len() implies (#[trigger] g.edges@[j]).kind == EdgeKind::CallsStatic
                    && g.edges@[j].from@ == caller@ && exists|k: int|
                    0 <= k < candidates@.len() && (#[trigger] candidates@[k]).0@ == g.edges@[j].to@
                        && candidates@[k].1 == g.edges@[j].confidence by {
                if j < g1.edges@.len() {
                    assert(g.edges@[j] == g1.edges@[j]);
                } else {
                    assert(candidates@[i as int].0@ == g.edges@[j].to@);
                }
            }
        }
        i = i + 1;
    }
}


/// A segment that is none of the anchor keywords.
pub open spec fn plain_segment(s: Seq<char>) -> bool {
    s != kw_crate() && s != kw_self() && s != kw_self_type() && s != kw_super()
}

/// The ID of the item at a package-relative path ends with that path as a suffix.
pub proof fn lemma_id_matches_own_suffix(pkg: Seq<char>, p: Seq<Seq<char>>)
    requires
        p.len() > 0,
        p[0] != pkg,
    ensures
        matches_suffix(path_id(pkg, p), p),
{
    let full = seq![pkg] + p;
    assert(strip_package(pkg, p) == p);
    assert(full.drop_first() =~= p);
    assert(full[0] == pkg);
    assert(join(full, sep()) == pkg + sep() + join(p, sep()));
    let id = path_id(pkg, p);
    let suf = suffix_text(p);
    assert(id =~= pkg + suf);
    assert(id.subrange(id.len() - suf.len(), id.len() as int) =~= suf);
}

/// `super::super::f()` called from module `a::b::c` is matched only against
/// the paths ending in `a::f`, and `pkg::a::f` is one of them.
pub proof fn lemma_super_super_call(
    index: FunctionIndex,
    pkg: Seq<char>,
    a: Seq<char>,
    b: Seq<char>,
    c: Seq<char>,
    f: Seq<char>,
    mode: CallMode,
)
    requires
        plain_segment(f),
        a != pkg,
    ensures
        path_query_lists(index, seq![kw_super(), kw_super(), f], seq![a, b, c], mode) == seq![
            select_suffix(index.callable_paths(), seq![a, f]),
        ],
        matches_suffix(path_id(pkg, seq![a, f]), seq![a, f]),
{
    let segs = seq![kw_super(), kw_super(), f];
    assert(kw_super() != kw_crate());
    assert(kw_super() != kw_self());
    assert(kw_super() != kw_self_type());
    assert(anchor_scan(segs, 2, 2) == (PathAnchor::Super(2), 2int));
    assert(anchor_scan(segs, 1, 1) == anchor_scan(segs, 2, 2));
    assert(split_anchor(segs) == anchor_scan(segs, 1, 1));
    assert(rest_of(segs) =~= seq![f]);
    assert(seq![a, b, c].take(1) + seq![f] =~= seq![a, f]);
    lemma_id_matches_own_suffix(pkg, seq![a, f]);
}

/// `crate::m::f()` called from any module is matched only against the paths
/// ending in `m::f`, and `pkg::m::f` is one of them.
pub proof fn lemma_crate_rooted_call(
    index: FunctionIndex,
    pkg: Seq<char>,
    m: Seq<char>,
    f: Seq<char>,
    mod_path: Seq<Seq<char>>,
    mode: CallMode,
)
    requires
        m != pkg,
    ensures
        path_query_lists(index, seq![kw_crate(), m, f], mod_path, mode) == seq![
            select_suffix(index.callable_paths(), seq![m, f]),
        ],
        matches_suffix(path_id(pkg, seq![m, f]), seq![m, f]),
{
    let segs = seq![kw_crate(), m, f];
    assert(split_anchor(segs) == (PathAnchor::Crate, 1int));
    assert(rest_of(segs) =~= seq![m, f]);
    lemma_id_matches_own_suffix(pkg, seq![m, f]);
}

/// A candidate list with more than one member yields no candidate in `Strict`
/// mode and, in `Ambiguous` mode, each of its members once with `Inferred`
/// confidence.
pub proof fn lemma_ambiguous_candidates(c: Seq<(String, Confidence)>, l: Seq<Seq<char>>, mode: CallMode)
    requires
        l.len() > 1,
        candidates_of(c, seq![l], mode),
    ensures
        mode == CallMode::Strict ==> c.len() == 0,
        mode == CallMode::Ambiguous ==> (forall|id: Seq<char>| #[trigger] has_candidate(c, id) <==> l.contains(id)),
        mode == CallMode::Ambiguous ==> (forall|i: int| 0 <= i < c.len() ==> (#[trigger] c[i]).1 == Confidence::Inferred),
{
    let lists = seq![l];
    if mode == CallMode::Strict && c.len() > 0 {
        assert(has_candidate(c, c[0].0@));
        let j = choose|j: int| 0 <= j < lists.len() && accepted(#[trigger] lists[j], mode) && lists[j].contains(c[0].0@);
        assert(lists[j] == l);
    }
    if mode == CallMode::Ambiguous {
        assert forall|id: Seq<char>| #[trigger] has_candidate(c, id) <==> l.contains(id) by {
            if l.contains(id) {
                assert(lists[0] == l);
                assert(is_candidate(lists, mode, id));
            }
            if is_candidate(lists, mode, id) {
                let j = choose|j: int| 0 <= j < lists.len() && accepted(#[trigger] lists[j], mode) && lists[j].contains(id);
                assert(lists[j] == l);
            }
        }
        assert forall|i: int| 0 <= i < c.len() implies (#[trigger] c[i]).1 == Confidence::Inferred by {
            if is_static_candidate(lists, c[i].0@) {
                let j = choose|j: int| 0 <= j < lists.len() && #[trigger] lists[j] == seq![c[i].0@];
                assert(lists[j] == l);
            }
        }
    }
}

} // verus!
