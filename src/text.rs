//! Character-sequence helpers shared by the identity, index and export code.

use vstd::prelude::*;

verus! {

/// The `::` separator between path segments.
pub open spec fn sep() -> Seq<char> {
    seq![':', ':']
}

/// The character views of a sequence of strings.
pub open spec fn views(v: Seq<String>) -> Seq<Seq<char>> {
    v.map_values(|s: String| s@)
}

/// The character view of an optional string.
pub open spec fn opt_view(o: Option<String>) -> Option<Seq<char>> {
    match o {
        Some(s) => Some(s@),
        None => None,
    }
}

/// The segments joined with `sep` between neighbours.
pub open spec fn join(segs: Seq<Seq<char>>, sp: Seq<char>) -> Seq<char>
    decreases segs.len(),
{
    if segs.len() == 0 {
        Seq::empty()
    } else if segs.len() == 1 {
        segs[0]
    } else {
        segs[0] + sp + join(segs.drop_first(), sp)
    }
}

/// `s` ends with `suffix`.
pub open spec fn ends_with(s: Seq<char>, suffix: Seq<char>) -> bool {
    suffix.len() <= s.len() && s.subrange(s.len() - suffix.len(), s.len() as int) == suffix
}

/// `s` starts with `prefix`.
pub open spec fn starts_with(s: Seq<char>, prefix: Seq<char>) -> bool {
    prefix.len() <= s.len() && s.subrange(0, prefix.len() as int) == prefix
}

/// Every `from` character replaced by `to`.
pub open spec fn replace_char(s: Seq<char>, from: char, to: char) -> Seq<char> {
    s.map_values(|c: char| if c == from { to } else { c })
}

/// Joining one more segment at the end adds the separator and the segment.
pub proof fn lemma_join_push(segs: Seq<Seq<char>>, sp: Seq<char>, last: Seq<char>)
    requires
        segs.len() > 0,
    ensures
        join(segs.push(last), sp) == join(segs, sp) + sp + last,
    decreases segs.len(),
{
    if segs.len() == 1 {
        assert(segs.push(last).drop_first() =~= seq![last]);
        assert(join(seq![last], sp) == last);
        assert(segs[0] == join(segs, sp));
    } else {
        assert(segs.push(last).drop_first() =~= segs.drop_first().push(last));
        lemma_join_push(segs.drop_first(), sp, last);
        assert(join(segs.push(last), sp) =~= join(segs, sp) + sp + last);
    }
}

/// The views of a prefix are the prefix of the views.
pub proof fn lemma_views_take(v: Seq<String>, i: int)
    requires
        0 <= i <= v.len(),
    ensures
        views(v.take(i)) == views(v).take(i),
{
    assert(views(v.take(i)) =~= views(v).take(i));
}

/// Character-wise equality of two strings.
pub fn str_eq(a: &str, b: &str) -> (r: bool)
    ensures
        r == (a@ == b@),
{
    let n = a.unicode_len();
    let m = b.unicode_len();
    if n != m {
        return false;
    }
    let mut i: usize = 0;
    while i < n
        invariant
            n == a@.len(),
            m == b@.len(),
            n == m,
            i <= n,
            a@.take(i as int) == b@.take(i as int),
        decreases n - i,
    {
        if a.get_char(i) != b.get_char(i) {
            return false;
        }
        assert(a@.take(i as int + 1) =~= a@.take(i as int).push(a@[i as int]));
        assert(b@.take(i as int + 1) =~= b@.take(i as int).push(b@[i as int]));
        i = i + 1;
    }
    assert(a@ =~= a@.take(n as int));
    assert(b@ =~= b@.take(n as int));
    true
}

/// A copy of `s` with every `from` character replaced by `to`, given as a
/// one-character string `to_str`.
pub fn replace_chars(s: &str, from: char, to: char, to_str: &str) -> (r: String)
    requires
        to_str@ == seq![to],
    ensures
        r@ == replace_char(s@, from, to),
{
    let n = s.unicode_len();
    let mut out = String::new();
    let mut i: usize = 0;
    while i < n
        invariant
            n == s@.len(),
            i <= n,
            to_str@ == seq![to],
            out@ == replace_char(s@.take(i as int), from, to),
        decreases n - i,
    {
        let c = s.get_char(i);
        if c == from {
            out.append(to_str);
        } else {
            let piece = s.substring_char(i, i + 1);
            assert(piece@ =~= seq![c]);
            out.append(piece);
        }
        assert(s@.take(i as int + 1) =~= s@.take(i as int).push(c));
        assert(replace_char(s@.take(i as int + 1), from, to) =~= replace_char(
            s@.take(i as int),
            from,
            to,
        ) + seq![if c == from { to } else { c }]);
        i = i + 1;
    }
    assert(s@.take(n as int) =~= s@);
    out
}

/// A copy of a slice of strings.
pub fn copy_strings(v: &[String]) -> (r: Vec<String>)
    ensures
        r@ == v@,
{
    let mut out: Vec<String> = Vec::new();
    let mut i: usize = 0;
    while i < v.len()
        invariant
            i <= v@.len(),
            out@ == v@.take(i as int),
        decreases v@.len() - i,
    {
        out.push(v[i].clone());
        assert(out@ =~= v@.take(i as int + 1));
        i = i + 1;
    }
    assert(v@.take(v@.len() as int) =~= v@);
    out
}

/// The segments joined with `::`.
pub fn join_segments(segs: &[String]) -> (r: String)
    ensures
        r@ == join(views(segs@), sep()),
{
    let mut out = String::new();
    let mut i: usize = 0;
    while i < segs.len()
        invariant
            i <= segs@.len(),
            out@ == join(views(segs@.take(i as int)), sep()),
        decreases segs@.len() - i,
    {
        proof {
            lemma_views_take(segs@, i as int);
            lemma_views_take(segs@, i as int + 1);
            assert(views(segs@).take(i as int + 1) =~= views(segs@).take(i as int).push(
                segs@[i as int]@,
            ));
        }
        if i > 0 {
            proof {
                reveal_strlit("::");
                lemma_join_push(views(segs@).take(i as int), sep(), segs@[i as int]@);
            }
            out.append("::");
        } else {
            assert(views(segs@).take(1) =~= seq![segs@[0]@]);
            assert(out@ =~= Seq::<char>::empty());
        }
        out.append(segs[i].as_str());
        i = i + 1;
    }
    assert(segs@.take(segs@.len() as int) =~= segs@);
    out
}

/// The strings joined with `sp` between neighbours.
pub fn join_with(v: &Vec<String>, sp: &str) -> (r: String)
    ensures
        r@ == join(views(v@), sp@),
{
    let mut out = String::new();
    let mut i: usize = 0;
    while i < v.len()
        invariant
            i <= v@.len(),
            out@ == join(views(v@.take(i as int)), sp@),
        decreases v@.len() - i,
    {
        proof {
            lemma_views_take(v@, i as int);
            lemma_views_take(v@, i as int + 1);
            assert(views(v@).take(i as int + 1) =~= views(v@).take(i as int).push(v@[i as int]@));
        }
        if i > 0 {
            proof {
                lemma_join_push(views(v@).take(i as int), sp@, v@[i as int]@);
            }
            out.append(sp);
        } else {
            assert(views(v@).take(1) =~= seq![v@[0]@]);
            assert(out@ =~= Seq::<char>::empty());
        }
        out.append(v[i].as_str());
        i = i + 1;
    }
    assert(v@.take(v@.len() as int) =~= v@);
    out
}

} // verus!
