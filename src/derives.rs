//! `Derives` edges: trait names parsed out of `derive(...)` attributes and
//! looked up among the traits of the path table.

use vstd::prelude::*;
use crate::text::{views, str_eq};
use crate::index::select_named;
use crate::model::{Graph, EdgeKind, Confidence};
use crate::graph::{wf, extends, has_node, has_edge, lemma_extends_facts, lemma_extends_trans, lemma_extends_refl};
use crate::api::{ApiDescription, ItemKind};
use crate::ids::{path_id};
use crate::walker::{entry_package, crate_name_for_id};

verus! {

/// A character of Unicode's `White_Space` property.
pub open spec fn is_space(c: char) -> bool {
    ('\u{9}' <= c && c <= '\u{d}') || c == ' ' || c == '\u{85}' || c == '\u{a0}' || c == '\u{1680}'
        || ('\u{2000}' <= c && c <= '\u{200a}') || c == '\u{2028}' || c == '\u{2029}' || c == '\u{202f}'
        || c == '\u{205f}' || c == '\u{3000}'
}

/// `s` without leading white space.
pub open spec fn trim_start(s: Seq<char>) -> Seq<char>
    decreases s.len(),
{
    if s.len() > 0 && is_space(s[0]) { trim_start(s.drop_first()) } else { s }
}

/// `s` without trailing white space.
pub open spec fn trim_end(s: Seq<char>) -> Seq<char>
    decreases s.len(),
{
    if s.len() > 0 && is_space(s.last()) { trim_end(s.drop_last()) } else { s }
}

/// `s` without leading and trailing white space.
pub open spec fn trimmed(s: Seq<char>) -> Seq<char> {
    trim_end(trim_start(s))
}

/// The pieces of `s` between commas.
pub open spec fn split_commas(s: Seq<char>) -> Seq<Seq<char>>
    decreases s.len(),
{
    if s.len() == 0 {
        seq![Seq::empty()]
    } else {
        let r = split_commas(s.drop_last());
        if s.last() == ',' {
            r.push(Seq::empty())
        } else {
            r.update(r.len() - 1, r.last().push(s.last()))
        }
    }
}

/// The trimmed pieces that are not empty, in order.
pub open spec fn names_of(pieces: Seq<Seq<char>>) -> Seq<Seq<char>>
    decreases pieces.len(),
{
    if pieces.len() == 0 {
        Seq::empty()
    } else {
        let r = names_of(pieces.drop_last());
        if trimmed(pieces.last()).len() > 0 { r.push(trimmed(pieces.last())) } else { r }
    }
}

/// The text `derive(`.
pub open spec fn derive_open() -> Seq<char> {
    seq!['d', 'e', 'r', 'i', 'v', 'e', '(']
}

/// `pat` occurs in `s` at `i`.
pub open spec fn occurs_at(s: Seq<char>, pat: Seq<char>, i: int) -> bool {
    0 <= i && i + pat.len() <= s.len() && s.subrange(i, i + pat.len()) == pat
}

/// The first position at or after `i` where `pat` occurs in `s`.
pub open spec fn find_from(s: Seq<char>, pat: Seq<char>, i: int) -> Option<int>
    decreases s.len() + 1 - i,
{
    if i < 0 || i + pat.len() > s.len() {
        None
    } else if occurs_at(s, pat, i) {
        Some(i)
    } else {
        find_from(s, pat, i + 1)
    }
}

/// The trait names listed by the first `derive(...)` in attribute `a`.
pub open spec fn derive_names(a: Seq<char>) -> Seq<Seq<char>> {
    match find_from(a, derive_open(), 0) {
        Some(st) => {
            let rem = a.subrange(st + 7, a.len() as int);
            match find_from(rem, seq![')'], 0) {
                Some(e) => names_of(split_commas(rem.take(e))),
                None => Seq::empty(),
            }
        },
        None => Seq::empty(),
    }
}

/// The derived trait names of all attributes, in order.
pub open spec fn all_derive_names(attrs: Seq<Seq<char>>) -> Seq<Seq<char>>
    decreases attrs.len(),
{
    if attrs.len() == 0 {
        Seq::empty()
    } else {
        all_derive_names(attrs.drop_last()) + derive_names(attrs.last())
    }
}

/// `s` holds `::`.
pub open spec fn is_qualified(s: Seq<char>) -> bool {
    exists|i: int| occurs_at(s, seq![':', ':'], i)
}

/// The first position at or after `from` where `pat` occurs in `s`.
pub fn find_text(s: &str, pat: &str, from: usize) -> (r: Option<usize>)
    requires
        from <= s@.len(),
    ensures
        r matches Some(i) ==> find_from(s@, pat@, from as int) == Some(i as int),
        r is None ==> find_from(s@, pat@, from as int) is None,
{
    let n = s.unicode_len();
    let k = pat.unicode_len();
    if k > n || from > n - k {
        return None;
    }
    if k == 0 {
        assert(s@.subrange(from as int, from as int) =~= pat@);
        return Some(from);
    }
    let mut i: usize = from;
    while i <= n - k
        invariant
            n == s@.len(),
            k == pat@.len(),
            1 <= k <= n,
            from <= i,
            i <= n - k + 1,
            find_from(s@, pat@, from as int) == find_from(s@, pat@, i as int),
        decreases n + 1 - i,
    {
        let piece = s.substring_char(i, i + k);
        if str_eq(piece, pat) {
            return Some(i);
        }
        i = i + 1;
    }
    None
}

/// `s` without leading and trailing white space.
pub fn trim_text(s: &str) -> (r: String)
    ensures
        r@ == trimmed(s@),
{
    let n = s.unicode_len();
    let mut a: usize = 0;
    assert(s@.subrange(0, n as int) =~= s@);
    while a < n && is_space_char(s.get_char(a))
        invariant
            a <= n == s@.len(),
            trim_start(s@) == trim_start(s@.subrange(a as int, n as int)),
        decreases n - a,
    {
        let ghost t = s@.subrange(a as int, n as int);
        assert(t.drop_first() =~= s@.subrange(a as int + 1, n as int));
        a = a + 1;
    }
    proof {
        let t = s@.subrange(a as int, n as int);
        assert(t.len() == 0 || !is_space(t[0]));
    }
    let mut b: usize = n;
    let ghost ts = s@.subrange(a as int, n as int);
    assert(ts.subrange(0, (n - a) as int) =~= ts);
    while b > a && is_space_char(s.get_char(b - 1))
        invariant
            a <= b <= n == s@.len(),
            ts == s@.subrange(a as int, n as int),
            trim_end(ts) == trim_end(s@.subrange(a as int, b as int)),
        decreases b - a,
    {
        let ghost t = s@.subrange(a as int, b as int);
        assert(t.drop_last() =~= s@.subrange(a as int, b as int - 1));
        b = b - 1;
    }
    assert(trim_start(s@) == trim_start(s@.subrange(a as int, n as int)));
    String::from_str(s.substring_char(a, b))
}

fn is_space_char(c: char) -> (r: bool)
    ensures
        r == is_space(c),
{
    ('\u{9}' <= c && c <= '\u{d}') || c == ' ' || c == '\u{85}' || c == '\u{a0}' || c == '\u{1680}'
        || ('\u{2000}' <= c && c <= '\u{200a}') || c == '\u{2028}' || c == '\u{2029}' || c == '\u{202f}'
        || c == '\u{205f}' || c == '\u{3000}'
}

/// The trimmed, non-empty comma-separated pieces of `s`.
pub fn split_names(s: &str) -> (r: Vec<String>)
    ensures
        views(r@) == names_of(split_commas(s@)),
{
    let n = s.unicode_len();
    let mut out: Vec<String> = Vec::new();
    let mut start: usize = 0;
    let mut i: usize = 0;
    let ghost mut pieces: Seq<Seq<char>> = Seq::empty();
    assert(s@.take(0) =~= Seq::<char>::empty());
    assert(s@.subrange(0, 0) =~= Seq::<char>::empty());
    assert(split_commas(Seq::<char>::empty()) == seq![Seq::<char>::empty()]);
    assert(pieces.push(s@.subrange(0, 0)) =~= seq![Seq::<char>::empty()]);
    while i < n
        invariant
            n == s@.len(),
            start <= i <= n,
            split_commas(s@.take(i as int)) == pieces.push(s@.subrange(start as int, i as int)),
            views(out@) == names_of(pieces),
        decreases n - i,
    {
        let c = s.get_char(i);
        let ghost t = s@.take(i as int + 1);
        assert(t.drop_last() =~= s@.take(i as int));
        assert(t.last() == c);
        if c == ',' {
            let piece = trim_text(s.substring_char(start, i));
            let ghost sub = s@.subrange(start as int, i as int);
            if piece.unicode_len() > 0 {
                out.push(piece);
            }
            proof {
                assert(pieces.push(sub).drop_last() =~= pieces);
                assert(views(out@) =~= names_of(pieces.push(sub)));
                pieces = pieces.push(sub);
                assert(s@.subrange(i as int + 1, i as int + 1) =~= Seq::<char>::empty());
            }
            start = i + 1;
        } else {
            proof {
                let r = pieces.push(s@.subrange(start as int, i as int));
                assert(s@.subrange(start as int, i as int + 1) =~= s@.subrange(start as int, i as int).push(c));
                assert(r.update(r.len() - 1, r.last().push(c)) =~= pieces.push(s@.subrange(start as int, i as int + 1)));
            }
        }
        i = i + 1;
    }
    let piece = trim_text(s.substring_char(start, n));
    let ghost sub = s@.subrange(start as int, n as int);
    if piece.unicode_len() > 0 {
        out.push(piece);
    }
    proof {
        assert(s@.take(n as int) =~= s@);
        assert(pieces.push(sub).drop_last() =~= pieces);
        assert(views(out@) =~= names_of(pieces.push(sub)));
    }
    out
}

/// The trait names listed by the first `derive(...)` of one attribute.
pub fn derive_names_of(a: &str) -> (r: Vec<String>)
    ensures
        views(r@) == derive_names(a@),
{
    let open = "derive(";
    let close = ")";
    proof {
        reveal_strlit("derive(");
        reveal_strlit(")");
    }
    assert(open@ =~= derive_open());
    assert(close@ =~= seq![')']);
    let n = a.unicode_len();
    match find_text(a, open, 0) {
        Some(st) => {
            proof { lemma_find_from_some(a@, open@, 0); }
            let rem = a.substring_char(st + 7, n);
            match find_text(rem, close, 0) {
                Some(e) => {
                    proof { lemma_find_from_some(rem@, close@, 0); }
                    let inside = rem.substring_char(0, e);
                    assert(inside@ =~= rem@.take(e as int));
                    split_names(inside)
                },
                None => Vec::new(),
            }
        },
        None => Vec::new(),
    }
}

/// The derived trait names of every attribute, in order.
pub fn parse_derive_traits(attrs: &Vec<String>) -> (r: Vec<String>)
    ensures
        views(r@) == all_derive_names(views(attrs@)),
{
    let mut out: Vec<String> = Vec::new();
    let mut i: usize = 0;
    while i < attrs.len()
        invariant
            i <= attrs@.len(),
            views(out@) == all_derive_names(views(attrs@).take(i as int)),
        decreases attrs@.len() - i,
    {
        assert(views(attrs@).take(i as int + 1).drop_last() =~= views(attrs@).take(i as int));
        assert(views(attrs@).take(i as int + 1).last() == attrs@[i as int]@);
        let mut names = derive_names_of(attrs[i].as_str());
        let ghost before = out@;
        let ghost added = names@;
        out.append(&mut names);
        assert(views(out@) =~= views(before) + views(added));
        i = i + 1;
    }
    assert(views(attrs@).take(attrs@.len() as int) =~= views(attrs@));
    out
}

/// The traits of the path table, by full ID, and by bare name for those with
/// a non-empty path.
pub struct TraitLookup {
    pub fulls: Vec<String>,
    pub named_paths: Vec<String>,
    pub named_names: Vec<String>,
}

/// The traits a derived name refers to: for a qualified name, the name itself
/// when some trait has that ID; for a bare name, the one trait of that name
/// when exactly one exists, and none otherwise.
pub open spec fn derive_targets_of(lk: TraitLookup, name: Seq<char>) -> Seq<Seq<char>> {
    if is_qualified(name) {
        if views(lk.fulls@).contains(name) { seq![name] } else { Seq::empty() }
    } else {
        let c = select_named(views(lk.named_paths@), views(lk.named_names@), name);
        if c.len() == 1 { c } else { Seq::empty() }
    }
}

/// The trait IDs of the path table, in order.
pub open spec fn trait_ids(desc: ApiDescription, pkg: Seq<char>, paths: Seq<crate::api::PathSummary>) -> Seq<Seq<char>>
    decreases paths.len(),
{
    if paths.len() == 0 {
        Seq::empty()
    } else {
        let r = trait_ids(desc, pkg, paths.drop_last());
        let e = paths.last();
        if e.kind == ItemKind::Trait { r.push(path_id(entry_package(desc, pkg, e), views(e.path@))) } else { r }
    }
}

/// The traits of the path table with a non-empty path: (ID, bare name), in order.
pub open spec fn named_traits(desc: ApiDescription, pkg: Seq<char>, paths: Seq<crate::api::PathSummary>) -> Seq<(Seq<char>, Seq<char>)>
    decreases paths.len(),
{
    if paths.len() == 0 {
        Seq::empty()
    } else {
        let r = named_traits(desc, pkg, paths.drop_last());
        let e = paths.last();
        if e.kind == ItemKind::Trait && e.path@.len() > 0 {
            r.push((path_id(entry_package(desc, pkg, e), views(e.path@)), e.path@.last()@))
        } else {
            r
        }
    }
}

impl TraitLookup {
    /// The lookup over the traits of `desc`.
    pub fn build(desc: &ApiDescription, pkg: &str) -> (r: TraitLookup)
        ensures
            views(r.fulls@) == trait_ids(*desc, pkg@, desc.paths@),
            r.named_paths@.len() == r.named_names@.len(),
            views(r.named_paths@) == named_traits(*desc, pkg@, desc.paths@).map_values(|t: (Seq<char>, Seq<char>)| t.0),
            views(r.named_names@) == named_traits(*desc, pkg@, desc.paths@).map_values(|t: (Seq<char>, Seq<char>)| t.1),
    {
        let mut lk = TraitLookup { fulls: Vec::new(), named_paths: Vec::new(), named_names: Vec::new() };
        let mut i: usize = 0;
        while i < desc.paths.len()
            invariant
                i <= desc.paths@.len(),
                views(lk.fulls@) == trait_ids(*desc, pkg@, desc.paths@.take(i as int)),
                lk.named_paths@.len() == lk.named_names@.len(),
                views(lk.named_paths@) == named_traits(*desc, pkg@, desc.paths@.take(i as int)).map_values(|t: (Seq<char>, Seq<char>)| t.0),
                views(lk.named_names@) == named_traits(*desc, pkg@, desc.paths@.take(i as int)).map_values(|t: (Seq<char>, Seq<char>)| t.1),
            decreases desc.paths@.len() - i,
        {
            assert(desc.paths@.take(i as int + 1).drop_last() =~= desc.paths@.take(i as int));
            let e = &desc.paths[i];
            if e.kind == ItemKind::Trait {
                let owner = crate_name_for_id(desc, e.crate_id, pkg);
                let full = crate::ids::join_path(owner.as_str(), e.path.as_slice());
                let ghost before = lk.fulls@;
                lk.fulls.push(full.clone());
                assert(views(lk.fulls@) =~= views(before).push(full@));
                if e.path.len() > 0 {
                    let ghost np = views(lk.named_paths@);
                    let ghost nn = views(lk.named_names@);
                    let nm = e.path[e.path.len() - 1].clone();
                    let ghost nmv = nm@;
                    lk.named_paths.push(full);
                    lk.named_names.push(nm);
                    assert(views(lk.named_paths@) =~= np.push(full@));
                    assert(views(lk.named_names@) =~= nn.push(nmv));
                }
            }
            i = i + 1;
        }
        assert(desc.paths@.take(desc.paths@.len() as int) =~= desc.paths@);
        lk
    }

    /// The traits a derived name refers to.
    pub fn derive_targets(&self, name: &str) -> (r: Vec<String>)
        requires
            self.named_paths@.len() == self.named_names@.len(),
        ensures
            views(r@) == derive_targets_of(*self, name@),
    {
        let sep = "::";
        proof { reveal_strlit("::"); }
        assert(sep@ =~= seq![':', ':']);
        let qualified = match find_text(name, sep, 0) {
            Some(i) => true,
            None => false,
        };
        proof {
            lemma_find_qualified(name@);
        }
        if qualified {
            if crate::walker::contains_name(&self.fulls, name) {
                let v = vec![String::from_str(name)];
                assert(views(v@) =~= seq![name@]);
                v
            } else {
                Vec::new()
            }
        } else {
            let c = crate::index::resolve_by_name(&self.named_paths, &self.named_names, name);
            if c.len() == 1 { c } else { Vec::new() }
        }
    }
}

pub(crate) proof fn lemma_find_from_none(s: Seq<char>, pat: Seq<char>, i: int)
    requires
        0 <= i,
        find_from(s, pat, i) is None,
    ensures
        forall|j: int| i <= j ==> !occurs_at(s, pat, j),
    decreases s.len() + 1 - i,
{
    if i + pat.len() <= s.len() {
        lemma_find_from_none(s, pat, i + 1);
    }
}

pub(crate) proof fn lemma_find_from_some(s: Seq<char>, pat: Seq<char>, i: int)
    requires
        find_from(s, pat, i) is Some,
    ensures
        occurs_at(s, pat, find_from(s, pat, i)->0),
    decreases s.len() + 1 - i,
{
    if !(i < 0 || i + pat.len() > s.len()) && !occurs_at(s, pat, i) {
        lemma_find_from_some(s, pat, i + 1);
    }
}

proof fn lemma_find_qualified(s: Seq<char>)
    ensures
        is_qualified(s) <==> find_from(s, seq![':', ':'], 0) is Some,
{
    if find_from(s, seq![':', ':'], 0) is Some {
        lemma_find_from_some(s, seq![':', ':'], 0);
    } else {
        lemma_find_from_none(s, seq![':', ':'], 0);
    }
}

/// A derived name that is bare and ambiguous gives no target; a bare name
/// with one trait gives that trait; a qualified name gives the trait of that ID.
pub proof fn lemma_derive_rule(lk: TraitLookup, name: Seq<char>)
    ensures
        !is_qualified(name) && select_named(views(lk.named_paths@), views(lk.named_names@), name).len() > 1
            ==> derive_targets_of(lk, name).len() == 0,
        !is_qualified(name) && select_named(views(lk.named_paths@), views(lk.named_names@), name).len() == 1
            ==> derive_targets_of(lk, name) == select_named(views(lk.named_paths@), views(lk.named_names@), name),
        is_qualified(name) && views(lk.fulls@).contains(name) ==> derive_targets_of(lk, name) == seq![name],
{
}

/// Adds a `Derives` edge with `Inferred` confidence from `owner` to every
/// target of every name its attributes derive.
pub fn add_derives_edges(g: &mut Graph, owner: &str, attrs: &Vec<String>, lk: &TraitLookup)
    requires
        wf(*old(g)),
        lk.named_paths@.len() == lk.named_names@.len(),
    ensures
        wf(*final(g)),
        extends(*old(g), *final(g)),
        final(g).nodes@ == old(g).nodes@,
        forall|k: int, t: Seq<char>|
            0 <= k < all_derive_names(views(attrs@)).len() && #[trigger] derive_targets_of(*lk, all_derive_names(views(attrs@))[k]).contains(t)
                && has_node(*old(g), owner@) && #[trigger] has_node(*old(g), t) && owner@ != t ==> has_edge(*final(g), owner@, t, EdgeKind::Derives),
        forall|j: int|
            old(g).edges@.len() <= j < final(g).edges@.len() ==> (#[trigger] final(g).edges@[j]).kind == EdgeKind::Derives
                && final(g).edges@[j].from@ == owner@ && final(g).edges@[j].confidence == Confidence::Inferred
                && exists|k: int| 0 <= k < all_derive_names(views(attrs@)).len()
                    && #[trigger] derive_targets_of(*lk, all_derive_names(views(attrs@))[k]).contains(final(g).edges@[j].to@),
{
    let ghost g0 = *g;
    proof { lemma_extends_refl(*g); }
    let names = parse_derive_traits(attrs);
    let ghost all = views(names@);
    let mut k: usize = 0;
    while k < names.len()
        invariant
            k <= names@.len(),
            all == views(names@),
            all == all_derive_names(views(attrs@)),
            wf(*g),
            extends(g0, *g),
            g.nodes@ == g0.nodes@,
            lk.named_paths@.len() == lk.named_names@.len(),
            forall|k2: int, t: Seq<char>|
                0 <= k2 < k && #[trigger] derive_targets_of(*lk, all[k2]).contains(t) && has_node(g0, owner@)
                    && #[trigger] has_node(g0, t) && owner@ != t ==> has_edge(*g, owner@, t, EdgeKind::Derives),
            forall|j: int|
                g0.edges@.len() <= j < g.edges@.len() ==> (#[trigger] g.edges@[j]).kind == EdgeKind::Derives
                    && g.edges@[j].from@ == owner@ && g.edges@[j].confidence == Confidence::Inferred
                    && exists|k3: int| 0 <= k3 < all.len() && #[trigger] derive_targets_of(*lk, all[k3]).contains(g.edges@[j].to@),
        decreases names@.len() - k,
    {
        let targets = lk.derive_targets(names[k].as_str());
        assert(all[k as int] == names@[k as int]@);
        let ghost tv = views(targets@);
        let ghost gk = *g;
        proof { lemma_extends_refl(*g); }
        let mut m: usize = 0;
        while m < targets.len()
            invariant
                m <= targets@.len(),
                tv == views(targets@),
                wf(*g),
                extends(gk, *g),
                extends(g0, gk),
                g.nodes@ == g0.nodes@,
                forall|m2: int| 0 <= m2 < m && has_node(g0, owner@) && has_node(g0, #[trigger] tv[m2]) && owner@ != tv[m2]
                    ==> has_edge(*g, owner@, tv[m2], EdgeKind::Derives),
                forall|j: int|
                    g0.edges@.len() <= j < g.edges@.len() ==> (#[trigger] g.edges@[j]).kind == EdgeKind::Derives
                        && g.edges@[j].from@ == owner@ && g.edges@[j].confidence == Confidence::Inferred
                        && exists|k3: int| 0 <= k3 < all.len() && #[trigger] derive_targets_of(*lk, all[k3]).contains(g.edges@[j].to@),
                k < all.len(),
                all == views(names@),
                tv == derive_targets_of(*lk, all[k as int]),
            decreases targets@.len() - m,
        {
            let ghost g1 = *g;
            g.push_edge(String::from_str(owner), targets[m].clone(), EdgeKind::Derives, Confidence::Inferred);
            proof {
                lemma_extends_facts(g1, *g);
                lemma_extends_trans(gk, g1, *g);
                assert(tv[m as int] == targets@[m as int]@);
                assert forall|j: int|
                    g0.edges@.len() <= j < g.edges@.len() implies (#[trigger] g.edges@[j]).kind == EdgeKind::Derives
                        && g.edges@[j].from@ == owner@ && g.edges@[j].confidence == Confidence::Inferred
                        && exists|k3: int| 0 <= k3 < all.len() && #[trigger] derive_targets_of(*lk, all[k3]).contains(g.edges@[j].to@) by {
                    if j < g1.edges@.len() {
                        assert(g.edges@[j] == g1.edges@[j]);
                    } else {
                        assert(g.edges@[j].to@ == tv[m as int]);
                        assert(tv.contains(tv[m as int]));
                        assert(derive_targets_of(*lk, all[k as int]).contains(g.edges@[j].to@));
                    }
                }
            }
            m = m + 1;
        }
        proof {
            lemma_extends_facts(gk, *g);
            lemma_extends_trans(g0, gk, *g);
            assert forall|k2: int, t: Seq<char>|
                0 <= k2 < k + 1 && #[trigger] derive_targets_of(*lk, all[k2]).contains(t) && has_node(g0, owner@)
                    && #[trigger] has_node(g0, t) && owner@ != t implies has_edge(*g, owner@, t, EdgeKind::Derives) by {
                if k2 == k {
                    let m2 = choose|m2: int| 0 <= m2 < tv.len() && tv[m2] == t;
                }
            }
        }
        k = k + 1;
    }
}

} // verus!
