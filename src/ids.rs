//! Canonical entity IDs and package-name normalization.

use vstd::prelude::*;
use crate::text::{join, sep, views, starts_with, replace_char, replace_chars, lemma_join_push};

verus! {

/// A package name with every `-` turned into `_`.
pub open spec fn normalized(s: Seq<char>) -> Seq<char> {
    replace_char(s, '-', '_')
}

/// A segment of upstream-generated scaffolding: `_`, or one that starts with `__`.
pub open spec fn is_internal_segment(s: Seq<char>) -> bool {
    s == seq!['_'] || starts_with(s, seq!['_', '_'])
}

/// A path with at least one internal segment.
pub open spec fn is_internal_path(p: Seq<Seq<char>>) -> bool {
    exists|i: int| 0 <= i < p.len() && is_internal_segment(#[trigger] p[i])
}

/// The path without its first segment when that segment is the package name.
pub open spec fn strip_package(pkg: Seq<char>, p: Seq<Seq<char>>) -> Seq<Seq<char>> {
    if p.len() > 0 && p[0] == pkg {
        p.drop_first()
    } else {
        p
    }
}

/// The ID of the entity at path `p` of package `pkg`.
pub open spec fn path_id(pkg: Seq<char>, p: Seq<Seq<char>>) -> Seq<char> {
    join(seq![pkg] + strip_package(pkg, p), sep())
}

/// The ID of the entity that contains the one at path `p`.
pub open spec fn parent_id_of(pkg: Seq<char>, p: Seq<Seq<char>>) -> Option<Seq<char>> {
    if p.len() == 0 {
        None
    } else if p.len() == 1 {
        Some(pkg)
    } else {
        Some(path_id(pkg, p.drop_last()))
    }
}

/// The text after the last `::` (all of `s` when there is none).
pub open spec fn last_segment_of(s: Seq<char>) -> Seq<char>
    decreases s.len(),
{
    if s.len() == 0 {
        Seq::empty()
    } else if s.len() >= 2 && s[s.len() - 2] == ':' && s[s.len() - 1] == ':' {
        Seq::empty()
    } else {
        last_segment_of(s.drop_last()).push(s.last())
    }
}

/// The decimal digit for `d < 10`.
pub open spec fn digit_char(d: nat) -> char {
    if d == 0 { '0' }
    else if d == 1 { '1' }
    else if d == 2 { '2' }
    else if d == 3 { '3' }
    else if d == 4 { '4' }
    else if d == 5 { '5' }
    else if d == 6 { '6' }
    else if d == 7 { '7' }
    else if d == 8 { '8' }
    else { '9' }
}

/// The decimal representation of `n`, without leading zeros.
pub open spec fn decimal(n: nat) -> Seq<char>
    decreases n,
{
    if n < 10 {
        seq![digit_char(n)]
    } else {
        decimal(n / 10).push(digit_char(n % 10))
    }
}

/// The value of a character that is a decimal digit.
pub open spec fn digit_value(c: char) -> nat {
    if c == '1' { 1 }
    else if c == '2' { 2 }
    else if c == '3' { 3 }
    else if c == '4' { 4 }
    else if c == '5' { 5 }
    else if c == '6' { 6 }
    else if c == '7' { 7 }
    else if c == '8' { 8 }
    else if c == '9' { 9 }
    else { 0 }
}

/// `c` is one of `0`..`9`.
pub open spec fn is_digit(c: char) -> bool {
    '0' <= c && c <= '9'
}

/// The number a digit sequence denotes.
pub open spec fn decimal_value(s: Seq<char>) -> nat
    decreases s.len(),
{
    if s.len() == 0 {
        0
    } else {
        decimal_value(s.drop_last()) * 10 + digit_value(s.last())
    }
}

/// `-impl-` marker between a package name and an impl block's upstream number.
pub open spec fn impl_marker() -> Seq<char> {
    seq![':', ':', 'i', 'm', 'p', 'l', '-']
}

/// `::method-` marker between an impl ID and an associated item's upstream number.
pub open spec fn method_marker() -> Seq<char> {
    seq![':', ':', 'm', 'e', 't', 'h', 'o', 'd', '-']
}

/// The ID of the impl block with upstream number `n` in package `pkg`.
pub open spec fn impl_id(pkg: Seq<char>, n: nat) -> Seq<char> {
    pkg + impl_marker() + decimal(n)
}

/// The ID of the associated item with upstream number `n` owned by impl `owner`.
pub open spec fn method_id(owner: Seq<char>, n: nat) -> Seq<char> {
    owner + method_marker() + decimal(n)
}

proof fn lemma_digit(d: nat)
    requires
        d < 10,
    ensures
        is_digit(digit_char(d)),
        digit_value(digit_char(d)) == d,
{
}

proof fn lemma_decimal(n: nat)
    ensures
        decimal_value(decimal(n)) == n,
        decimal(n).len() > 0,
        forall|i: int| 0 <= i < decimal(n).len() ==> is_digit(#[trigger] decimal(n)[i]),
    decreases n,
{
    if n < 10 {
        lemma_digit(n);
        assert(decimal(n).drop_last() =~= Seq::<char>::empty());
        assert(decimal_value(Seq::<char>::empty()) == 0);
        assert(decimal_value(decimal(n)) == decimal_value(decimal(n).drop_last()) * 10 + digit_value(digit_char(n)));
    } else {
        lemma_decimal(n / 10);
        lemma_digit(n % 10);
        assert(decimal(n).drop_last() =~= decimal(n / 10));
        assert(decimal(n).last() == digit_char(n % 10));
        assert((n / 10) * 10 + n % 10 == n) by (nonlinear_arith);
        assert(decimal_value(decimal(n)) == decimal_value(decimal(n / 10)) * 10 + digit_value(digit_char(n % 10)));
    }
}

/// A string that ends in a marker ending with `-` followed by digits splits
/// there in one way only.
proof fn lemma_split_digits(a1: Seq<char>, d1: Seq<char>, a2: Seq<char>, d2: Seq<char>)
    requires
        a1.len() > 0,
        a2.len() > 0,
        a1.last() == '-',
        a2.last() == '-',
        forall|i: int| 0 <= i < d1.len() ==> is_digit(#[trigger] d1[i]),
        forall|i: int| 0 <= i < d2.len() ==> is_digit(#[trigger] d2[i]),
        a1 + d1 == a2 + d2,
    ensures
        a1 == a2,
        d1 == d2,
{
    let s = a1 + d1;
    if d1.len() < d2.len() {
        let k = s.len() - d1.len() - 1;
        assert(s[k] == a1.last());
        assert(s[k] == (a2 + d2)[k]);
        assert((a2 + d2)[k] == d2[k - a2.len()]);
    } else if d2.len() < d1.len() {
        let k = s.len() - d2.len() - 1;
        assert((a2 + d2)[k] == a2.last());
        assert(s[k] == d1[k - a1.len()]);
    }
    assert(a1 =~= s.subrange(0, a1.len() as int));
    assert(a2 =~= (a2 + d2).subrange(0, a2.len() as int));
    assert(d1 =~= s.subrange(a1.len() as int, s.len() as int));
    assert(d2 =~= (a2 + d2).subrange(a2.len() as int, s.len() as int));
}

/// Impl blocks with different upstream numbers get different IDs.
pub proof fn lemma_impl_ids_distinct(pkg: Seq<char>, a: nat, b: nat)
    requires
        a != b,
    ensures
        impl_id(pkg, a) != impl_id(pkg, b),
{
    lemma_decimal(a);
    lemma_decimal(b);
    if impl_id(pkg, a) == impl_id(pkg, b) {
        lemma_split_digits(pkg + impl_marker(), decimal(a), pkg + impl_marker(), decimal(b));
    }
}

/// Per-impl item IDs differ whenever the owning impl or the upstream number differs,
/// so two impl blocks never share a child even when upstream numbers collide.
pub proof fn lemma_method_ids_distinct(owner1: Seq<char>, n1: nat, owner2: Seq<char>, n2: nat)
    requires
        owner1 != owner2 || n1 != n2,
    ensures
        method_id(owner1, n1) != method_id(owner2, n2),
{
    lemma_decimal(n1);
    lemma_decimal(n2);
    if method_id(owner1, n1) == method_id(owner2, n2) {
        lemma_split_digits(owner1 + method_marker(), decimal(n1), owner2 + method_marker(), decimal(n2));
        assert(owner1 =~= (owner1 + method_marker()).subrange(0, owner1.len() as int));
        assert(owner2 =~= (owner2 + method_marker()).subrange(0, owner2.len() as int));
    }
}

/// Normalizing a normalized package name changes nothing.
pub proof fn lemma_normalize_idempotent(s: Seq<char>)
    ensures
        normalized(normalized(s)) == normalized(s),
{
    assert(normalized(normalized(s)) =~= normalized(s));
}

/// `name` with every `-` replaced by `_`.
pub fn normalize_package_name(name: &str) -> (r: String)
    ensures
        r@ == normalized(name@),
{
    let underscore = "_";
    proof {
        reveal_strlit("_");
    }
    assert(underscore@ =~= seq!['_']);
    replace_chars(name, '-', '_', underscore)
}

/// Whether the path holds a `_` segment or one starting with `__`.
pub fn is_internal(path: &[String]) -> (r: bool)
    ensures
        r == is_internal_path(views(path@)),
{
    let mut i: usize = 0;
    while i < path.len()
        invariant
            i <= path@.len(),
            forall|j: int| 0 <= j < i ==> !is_internal_segment(#[trigger] views(path@)[j]),
        decreases path@.len() - i,
    {
        let seg = path[i].as_str();
        let n = seg.unicode_len();
        let hit = if n == 1 {
            seg.get_char(0) == '_'
        } else if n >= 2 {
            seg.get_char(0) == '_' && seg.get_char(1) == '_'
        } else {
            false
        };
        assert(views(path@)[i as int] == seg@);
        if hit {
            if n == 1 {
                assert(seg@ =~= seq!['_']);
            } else {
                assert(seg@.subrange(0, 2) =~= seq!['_', '_']);
            }
            assert(is_internal_segment(views(path@)[i as int]));
            return true;
        }
        if n >= 2 {
            assert(seg@.subrange(0, 2)[0] == seg@[0]);
            assert(seg@.subrange(0, 2)[1] == seg@[1]);
        }
        if n == 1 {
            assert(seq!['_'][0] == '_');
        }
        i = i + 1;
    }
    false
}

/// The ID of the entity at `path` in package `pkg`; a leading package-name
/// segment is dropped so the name is not doubled.
pub fn join_path(pkg: &str, path: &[String]) -> (r: String)
    ensures
        r@ == path_id(pkg@, views(path@)),
{
    assert(views(path@).take(path@.len() as int) =~= views(path@));
    join_path_prefix(pkg, path, path.len())
}

/// The ID of the entity at the first `end` segments of `path`.
pub fn join_path_prefix(pkg: &str, path: &[String], end: usize) -> (r: String)
    requires
        end <= path@.len(),
    ensures
        r@ == path_id(pkg@, views(path@).take(end as int)),
{
    let ghost p = views(path@).take(end as int);
    let start: usize = if end > 0 && crate::text::str_eq(path[0].as_str(), pkg) {
        1
    } else {
        0
    };
    let ghost rest = strip_package(pkg@, p);
    assert(rest =~= views(path@).subrange(start as int, end as int));
    let mut out = String::from_str(pkg);
    let mut i: usize = start;
    proof {
        reveal_strlit("::");
        assert(seq![pkg@] + rest.take(0) =~= seq![pkg@]);
    }
    while i < end
        invariant
            start <= i <= end <= path@.len(),
            rest == views(path@).subrange(start as int, end as int),
            out@ == join(seq![pkg@] + rest.take(i - start), sep()),
            "::"@ == sep(),
        decreases end - i,
    {
        let ghost before = seq![pkg@] + rest.take(i - start);
        proof {
            lemma_join_push(before, sep(), path@[i as int]@);
            assert(before.push(path@[i as int]@) =~= seq![pkg@] + rest.take(i - start + 1));
        }
        out.append("::");
        out.append(path[i].as_str());
        i = i + 1;
    }
    assert(rest.take(end - start) =~= rest);
    out
}

/// The ID of the entity that contains the one at `path`, if the path is not empty.
pub fn parent_path_id(pkg: &str, path: &[String]) -> (r: Option<String>)
    ensures
        r matches Some(s) ==> parent_id_of(pkg@, views(path@)) == Some(s@),
        r is None ==> parent_id_of(pkg@, views(path@)) is None,
{
    if path.len() == 0 {
        return None;
    }
    if path.len() == 1 {
        return Some(String::from_str(pkg));
    }
    let r = join_path_prefix(pkg, path, path.len() - 1);
    assert(views(path@).take(path@.len() - 1) =~= views(path@).drop_last());
    Some(r)
}

/// The text after the last `::` of `path`.
pub fn last_segment(path: &str) -> (r: String)
    ensures
        r@ == last_segment_of(path@),
{
    let n = path.unicode_len();
    let mut start: usize = 0;
    let mut i: usize = 0;
    while i < n
        invariant
            n == path@.len(),
            start <= i <= n,
            last_segment_of(path@.take(i as int)) == path@.subrange(start as int, i as int),
        decreases n - i,
    {
        let c = path.get_char(i);
        let ghost t = path@.take(i as int + 1);
        assert(t.drop_last() =~= path@.take(i as int));
        if i >= 1 && c == ':' && path.get_char(i - 1) == ':' {
            start = i + 1;
            assert(path@.subrange(start as int, start as int) =~= Seq::<char>::empty());
        } else {
            assert(path@.subrange(start as int, i as int + 1) =~= path@.subrange(start as int, i as int).push(c));
        }
        i = i + 1;
    }
    assert(path@.take(n as int) =~= path@);
    String::from_str(path.substring_char(start, n))
}

/// The display name of a path: its final segment.
pub fn clean_path(path: &str) -> (r: String)
    ensures
        r@ == last_segment_of(path@),
{
    last_segment(path)
}

/// The decimal text of `n`.
pub fn decimal_string(n: u64) -> (r: String)
    ensures
        r@ == decimal(n as nat),
    decreases n,
{
    let digits = "0123456789";
    proof {
        reveal_strlit("0123456789");
    }
    let d = (n % 10) as usize;
    let piece = digits.substring_char(d, d + 1);
    assert(piece@ =~= seq![digit_char(d as nat)]);
    if n < 10 {
        String::from_str(piece)
    } else {
        let mut s = decimal_string(n / 10);
        s.append(piece);
        s
    }
}

/// The ID of the impl block with upstream number `n` in package `pkg`.
pub fn impl_node_id(pkg: &str, n: u32) -> (r: String)
    ensures
        r@ == impl_id(pkg@, n as nat),
{
    let mut s = String::from_str(pkg);
    proof {
        reveal_strlit("::impl-");
    }
    s.append("::impl-");
    let d = decimal_string(n as u64);
    s.append(d.as_str());
    s
}

/// The ID of the associated item with upstream number `n` owned by impl `owner`.
pub fn method_node_id(owner: &str, n: u32) -> (r: String)
    ensures
        r@ == method_id(owner@, n as nat),
{
    let mut s = String::from_str(owner);
    proof {
        reveal_strlit("::method-");
    }
    s.append("::method-");
    let d = decimal_string(n as u64);
    s.append(d.as_str());
    s
}

} // verus!
