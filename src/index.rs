//! The function index: every callable and every method by full path and by
//! bare name, queried by path suffix or by name.

use vstd::prelude::*;
use crate::text::{opt_view, join, sep, views, ends_with, str_eq, join_segments};

verus! {

/// The text a path must end with to match `segs`: `::s1::…::sk`.
pub open spec fn suffix_text(segs: Seq<Seq<char>>) -> Seq<char> {
    sep() + join(segs, sep())
}

/// `path` matches the non-empty segment list `segs` as a suffix.
pub open spec fn matches_suffix(path: Seq<char>, segs: Seq<Seq<char>>) -> bool {
    segs.len() > 0 && ends_with(path, suffix_text(segs))
}

/// The paths that match `segs` as a suffix, in index order.
pub open spec fn select_suffix(paths: Seq<Seq<char>>, segs: Seq<Seq<char>>) -> Seq<Seq<char>>
    decreases paths.len(),
{
    if paths.len() == 0 {
        Seq::empty()
    } else {
        let r = select_suffix(paths.drop_last(), segs);
        if matches_suffix(paths.last(), segs) {
            r.push(paths.last())
        } else {
            r
        }
    }
}

/// The paths whose recorded name is `name`, in index order.
pub open spec fn select_named(paths: Seq<Seq<char>>, names: Seq<Seq<char>>, name: Seq<char>) -> Seq<Seq<char>>
    decreases paths.len(),
{
    if paths.len() == 0 || names.len() == 0 {
        Seq::empty()
    } else {
        let r = select_named(paths.drop_last(), names.drop_last(), name);
        if names.last() == name {
            r.push(paths.last())
        } else {
            r
        }
    }
}

/// The single element of `s`, if it has exactly one.
pub open spec fn unique(s: Seq<Seq<char>>) -> Option<Seq<char>> {
    if s.len() == 1 {
        Some(s[0])
    } else {
        None
    }
}

/// Symbol table of callables built from the API description.
pub struct FunctionIndex {
    pub callables: Vec<String>,
    pub callable_names: Vec<String>,
    pub methods: Vec<String>,
    pub method_names: Vec<String>,
}

impl FunctionIndex {
    /// Each path is paired with its name.
    pub open spec fn wf(&self) -> bool {
        self.callables@.len() == self.callable_names@.len() && self.methods@.len() == self.method_names@.len()
    }

    pub open spec fn callable_paths(&self) -> Seq<Seq<char>> {
        views(self.callables@)
    }

    pub open spec fn method_paths(&self) -> Seq<Seq<char>> {
        views(self.methods@)
    }

    /// An empty index.
    pub fn new() -> (r: FunctionIndex)
        ensures
            r.wf(),
            r.callables@.len() == 0,
            r.methods@.len() == 0,
    {
        FunctionIndex { callables: Vec::new(), callable_names: Vec::new(), methods: Vec::new(), method_names: Vec::new() }
    }

    /// Records a callable under its full path and bare name.
    pub fn add_callable(&mut self, path: String, name: String)
        requires
            old(self).wf(),
        ensures
            final(self).wf(),
            final(self).callables@ == old(self).callables@.push(path),
            final(self).callable_names@ == old(self).callable_names@.push(name),
            final(self).methods@ == old(self).methods@,
            final(self).method_names@ == old(self).method_names@,
    {
        self.callables.push(path);
        self.callable_names.push(name);
    }

    /// Records a method under its full path and bare name.
    pub fn add_method(&mut self, path: String, name: String)
        requires
            old(self).wf(),
        ensures
            final(self).wf(),
            final(self).methods@ == old(self).methods@.push(path),
            final(self).method_names@ == old(self).method_names@.push(name),
            final(self).callables@ == old(self).callables@,
            final(self).callable_names@ == old(self).callable_names@,
    {
        self.methods.push(path);
        self.method_names.push(name);
    }

    /// The callable matching `segments` as a suffix, if exactly one does.
    pub fn resolve_callable_by_suffix(&self, segments: &[String]) -> (r: Option<String>)
        ensures
            opt_view(r) == unique(select_suffix(self.callable_paths(), views(segments@))),
    {
        resolve_by_suffix(&self.callables, segments)
    }

    /// All callables matching `segments` as a suffix.
    pub fn resolve_callable_by_suffix_all(&self, segments: &[String]) -> (r: Vec<String>)
        ensures
            views(r@) == select_suffix(self.callable_paths(), views(segments@)),
    {
        resolve_all_by_suffix(&self.callables, segments)
    }

    /// The method matching `segments` as a suffix, if exactly one does.
    pub fn resolve_method_by_suffix(&self, segments: &[String]) -> (r: Option<String>)
        ensures
            opt_view(r) == unique(select_suffix(self.method_paths(), views(segments@))),
    {
        resolve_by_suffix(&self.methods, segments)
    }

    /// All methods matching `segments` as a suffix.
    pub fn resolve_method_by_suffix_all(&self, segments: &[String]) -> (r: Vec<String>)
        ensures
            views(r@) == select_suffix(self.method_paths(), views(segments@)),
    {
        resolve_all_by_suffix(&self.methods, segments)
    }

    /// The callable named `name`, if exactly one is.
    pub fn resolve_callable_by_name_unique(&self, name: &str) -> (r: Option<String>)
        requires
            self.wf(),
        ensures
            opt_view(r) == unique(select_named(self.callable_paths(), views(self.callable_names@), name@)),
    {
        resolve_by_unique_name(&self.callables, &self.callable_names, name)
    }

    /// All callables named `name`.
    pub fn resolve_callable_by_name_all(&self, name: &str) -> (r: Vec<String>)
        requires
            self.wf(),
        ensures
            views(r@) == select_named(self.callable_paths(), views(self.callable_names@), name@),
    {
        resolve_by_name(&self.callables, &self.callable_names, name)
    }

    /// The method named `name`, if exactly one is.
    pub fn resolve_method_by_name_unique(&self, name: &str) -> (r: Option<String>)
        requires
            self.wf(),
        ensures
            opt_view(r) == unique(select_named(self.method_paths(), views(self.method_names@), name@)),
    {
        resolve_by_unique_name(&self.methods, &self.method_names, name)
    }

    /// All methods named `name`.
    pub fn resolve_method_by_name_all(&self, name: &str) -> (r: Vec<String>)
        requires
            self.wf(),
        ensures
            views(r@) == select_named(self.method_paths(), views(self.method_names@), name@),
    {
        resolve_by_name(&self.methods, &self.method_names, name)
    }
}

/// Whether `path` ends with `suffix`.
pub fn str_ends_with(path: &str, suffix: &str) -> (r: bool)
    ensures
        r == ends_with(path@, suffix@),
{
    let n = path.unicode_len();
    let k = suffix.unicode_len();
    if k > n {
        return false;
    }
    let tail = path.substring_char(n - k, n);
    str_eq(tail, suffix)
}

/// The paths that match `segments` as a suffix, in order.
pub fn resolve_all_by_suffix(paths: &Vec<String>, segments: &[String]) -> (r: Vec<String>)
    ensures
        views(r@) == select_suffix(views(paths@), views(segments@)),
{
    let ghost segs = views(segments@);
    let mut out: Vec<String> = Vec::new();
    if segments.len() == 0 {
        proof { lemma_select_suffix_empty(views(paths@), segs); }
        return out;
    }
    let mut suffix = String::new();
    proof { reveal_strlit("::"); }
    suffix.append("::");
    let joined = join_segments(segments);
    suffix.append(joined.as_str());
    assert(suffix@ == suffix_text(segs));
    let mut i: usize = 0;
    while i < paths.len()
        invariant
            i <= paths@.len(),
            segs == views(segments@),
            segs.len() > 0,
            suffix@ == suffix_text(segs),
            views(out@) == select_suffix(views(paths@).take(i as int), segs),
        decreases paths@.len() - i,
    {
        let ghost pre = views(paths@).take(i as int + 1);
        assert(pre.drop_last() =~= views(paths@).take(i as int));
        assert(pre.last() == paths@[i as int]@);
        if str_ends_with(paths[i].as_str(), suffix.as_str()) {
            let p = paths[i].clone();
            out.push(p);
            assert(views(out@) =~= select_suffix(views(paths@).take(i as int), segs).push(paths@[i as int]@));
        }
        i = i + 1;
    }
    assert(views(paths@).take(paths@.len() as int) =~= views(paths@));
    out
}

proof fn lemma_select_suffix_empty(paths: Seq<Seq<char>>, segs: Seq<Seq<char>>)
    requires
        segs.len() == 0,
    ensures
        select_suffix(paths, segs) == Seq::<Seq<char>>::empty(),
    decreases paths.len(),
{
    if paths.len() > 0 {
        lemma_select_suffix_empty(paths.drop_last(), segs);
    }
}

/// The path matching `segments` as a suffix, if exactly one does.
pub fn resolve_by_suffix(paths: &Vec<String>, segments: &[String]) -> (r: Option<String>)
    ensures
        opt_view(r) == unique(select_suffix(views(paths@), views(segments@))),
{
    let mut matches = resolve_all_by_suffix(paths, segments);
    if matches.len() == 1 {
        assert(views(matches@)[0] == matches@[0]@);
        matches.pop()
    } else {
        None
    }
}

/// The paths recorded under `name`, in order.
pub fn resolve_by_name(paths: &Vec<String>, names: &Vec<String>, name: &str) -> (r: Vec<String>)
    requires
        paths@.len() == names@.len(),
    ensures
        views(r@) == select_named(views(paths@), views(names@), name@),
{
    let mut out: Vec<String> = Vec::new();
    let mut i: usize = 0;
    while i < paths.len()
        invariant
            i <= paths@.len(),
            paths@.len() == names@.len(),
            views(out@) == select_named(views(paths@).take(i as int), views(names@).take(i as int), name@),
        decreases paths@.len() - i,
    {
        assert(views(paths@).take(i as int + 1).drop_last() =~= views(paths@).take(i as int));
        assert(views(names@).take(i as int + 1).drop_last() =~= views(names@).take(i as int));
        assert(views(names@).take(i as int + 1).last() == names@[i as int]@);
        assert(views(paths@).take(i as int + 1).last() == paths@[i as int]@);
        if str_eq(names[i].as_str(), name) {
            let p = paths[i].clone();
            out.push(p);
            assert(views(out@) =~= select_named(views(paths@).take(i as int), views(names@).take(i as int), name@).push(
                paths@[i as int]@,
            ));
        }
        i = i + 1;
    }
    assert(views(paths@).take(paths@.len() as int) =~= views(paths@));
    assert(views(names@).take(paths@.len() as int) =~= views(names@));
    out
}

/// The path recorded under `name`, if exactly one is.
pub fn resolve_by_unique_name(paths: &Vec<String>, names: &Vec<String>, name: &str) -> (r: Option<String>)
    requires
        paths@.len() == names@.len(),
    ensures
        opt_view(r) == unique(select_named(views(paths@), views(names@), name@)),
{
    let mut found = resolve_by_name(paths, names, name);
    if found.len() == 1 {
        assert(views(found@)[0] == found@[0]@);
        found.pop()
    } else {
        None
    }
}

} // verus!
