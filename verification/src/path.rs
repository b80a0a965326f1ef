//! Paths as text.
//!
//! A path is a sequence of characters in which `/` separates segments. An
//! empty segment and the segment `.` name nothing; every other segment is a
//! name, `..` included. A path that begins with `/` is rooted, and one whose
//! first segment is `.` begins in the current directory.

use vstd::prelude::*;
use crate::text::{chars_of, glue, piece};

verus! {

/// Where the segment that ends at `end` begins: just after the nearest
/// separator to the left of `end`, or at the start of the path.
pub open spec fn segment_start(p: Seq<char>, end: int) -> int
    decreases end,
{
    if end <= 0 {
        0
    } else if p[end - 1] == '/' {
        end
    } else {
        segment_start(p, end - 1)
    }
}

/// A segment begins no later than it ends.
pub proof fn lemma_segment_start_bound(p: Seq<char>, end: int)
    ensures
        end >= 0 ==> 0 <= segment_start(p, end) <= end,
    decreases end,
{
    if end > 0 && p[end - 1] != '/' {
        lemma_segment_start_bound(p, end - 1);
    }
}

/// A segment that names something: not empty and not `.`.
pub open spec fn is_name(seg: Seq<char>) -> bool {
    seg.len() > 0 && !(seg.len() == 1 && seg[0] == '.')
}

/// The segment `..`.
pub open spec fn is_parent_name(seg: Seq<char>) -> bool {
    seg.len() == 2 && seg[0] == '.' && seg[1] == '.'
}

/// The names among the segments of the first `end` characters of `p`, left
/// to right.
pub open spec fn names_before(p: Seq<char>, end: int) -> Seq<Seq<char>>
    decreases end,
    via names_before_decreases
{
    if end <= 0 {
        Seq::empty()
    } else {
        let s = segment_start(p, end);
        let head = if s <= 0 {
            Seq::empty()
        } else {
            names_before(p, s - 1)
        };
        if is_name(p.subrange(s, end)) {
            head.push(p.subrange(s, end))
        } else {
            head
        }
    }
}

#[via_fn]
proof fn names_before_decreases(p: Seq<char>, end: int) {
    lemma_segment_start_bound(p, end);
}

/// The names of a path, left to right.
pub open spec fn names(p: Seq<char>) -> Seq<Seq<char>> {
    names_before(p, p.len() as int)
}

/// The path begins with a separator.
pub open spec fn has_root(p: Seq<char>) -> bool {
    p.len() > 0 && p[0] == '/'
}

/// The first segment of the path is `.`.
pub open spec fn starts_here(p: Seq<char>) -> bool {
    p.len() > 0 && p[0] == '.' && (p.len() == 1 || p[1] == '/')
}

/// The number of leading characters that stand for the root or for the
/// current directory.
pub open spec fn anchor_len(p: Seq<char>) -> int {
    if has_root(p) || starts_here(p) {
        1
    } else {
        0
    }
}

/// The last name of a path, unless that name is `..`.
pub open spec fn spec_file_name(p: Seq<char>) -> Option<Seq<char>> {
    let n = names(p);
    if n.len() > 0 && !is_parent_name(n.last()) {
        Some(n.last())
    } else {
        None
    }
}

/// A segment holds no separator and is bounded by one on its left.
pub proof fn lemma_segment_start(p: Seq<char>, end: int)
    requires
        0 <= end <= p.len(),
    ensures
        0 <= segment_start(p, end) <= end,
        forall|i: int| segment_start(p, end) <= i < end ==> p[i] != '/',
        segment_start(p, end) > 0 ==> p[segment_start(p, end) - 1] == '/',
    decreases end,
{
    if end > 0 && p[end - 1] != '/' {
        lemma_segment_start(p, end - 1);
    }
}

/// A name holds no separator.
pub proof fn lemma_names_hold_no_separator(p: Seq<char>, end: int)
    requires
        0 <= end <= p.len(),
    ensures
        forall|k: int, i: int|
            0 <= k < names_before(p, end).len() && 0 <= i < names_before(p, end)[k].len()
                ==> (#[trigger] names_before(p, end)[k][i]) != '/',
        forall|k: int|
            0 <= k < names_before(p, end).len() ==> is_name(#[trigger] names_before(p, end)[k]),
    decreases end,
{
    if end > 0 {
        let s = segment_start(p, end);
        lemma_segment_start(p, end);
        if s > 0 {
            lemma_names_hold_no_separator(p, s - 1);
        }
        let head = names_before(p, s - 1);
        assert(s == 0 ==> head.len() == 0);
        assert forall|k: int| 0 <= k < names_before(p, end).len() implies is_name(
            #[trigger] names_before(p, end)[k],
        ) && forall|i: int|
            0 <= i < names_before(p, end)[k].len() ==> names_before(p, end)[k][i] != '/' by {
            if k < head.len() {
                assert(names_before(p, end)[k] == head[k]);
            } else {
                assert(names_before(p, end)[k] == p.subrange(s, end));
            }
        }
    }
}

fn find_segment_start(p: &Vec<char>, end: usize) -> (s: usize)
    requires
        end <= p.len(),
    ensures
        s == segment_start(p@, end as int),
        s <= end,
{
    let mut s: usize = end;
    while s > 0 && p[s - 1] != '/'
        invariant
            s <= end <= p.len(),
            segment_start(p@, s as int) == segment_start(p@, end as int),
        decreases s,
    {
        s = s - 1;
    }
    s
}

fn span_is_name(p: &Vec<char>, s: usize, e: usize) -> (r: bool)
    requires
        s <= e <= p.len(),
    ensures
        r == is_name(p@.subrange(s as int, e as int)),
{
    e > s && !(e - s == 1 && p[s] == '.')
}

fn span_is_parent_name(p: &Vec<char>, s: usize, e: usize) -> (r: bool)
    requires
        s <= e <= p.len(),
    ensures
        r == is_parent_name(p@.subrange(s as int, e as int)),
{
    e - s == 2 && p[s] == '.' && p[s + 1] == '.'
}

/// The span of the last name among the first `end` characters.
fn last_name(p: &Vec<char>, end: usize) -> (r: Option<(usize, usize)>)
    requires
        end <= p.len(),
    ensures
        match r {
            None => names_before(p@, end as int) =~= Seq::<Seq<char>>::empty(),
            Some((s, e)) => {
                &&& s < e <= end
                &&& s == segment_start(p@, e as int)
                &&& is_name(p@.subrange(s as int, e as int))
                &&& names_before(p@, end as int) == names_before(p@, s - 1).push(
                    p@.subrange(s as int, e as int),
                )
            },
        },
{
    let mut e: usize = end;
    loop
        invariant
            e <= end <= p.len(),
            names_before(p@, e as int) == names_before(p@, end as int),
        decreases e,
    {
        if e == 0 {
            return None;
        }
        let s = find_segment_start(p, e);
        if span_is_name(p, s, e) {
            return Some((s, e));
        }
        if s == 0 {
            assert(names_before(p@, s - 1).len() == 0);
            return None;
        }
        e = s - 1;
    }
}

/// The last name of `path`, unless it is `..`.
pub fn file_name(path: &str) -> (r: Option<String>)
    ensures
        match r {
            Some(name) => spec_file_name(path@) == Some(name@),
            None => spec_file_name(path@) is None,
        },
{
    let p = chars_of(path);
    match last_name(&p, p.len()) {
        None => None,
        Some((s, e)) => {
            if span_is_parent_name(&p, s, e) {
                None
            } else {
                Some(piece(path, s, e))
            }
        },
    }
}

/// The length to which the first `end` characters of `p` shrink once the
/// separators and `.` segments at their end are dropped. The anchor stays.
pub open spec fn trimmed_len(p: Seq<char>, end: int) -> int
    decreases end,
    via trimmed_len_decreases
{
    if end <= anchor_len(p) {
        end
    } else {
        let s = segment_start(p, end);
        if is_name(p.subrange(s, end)) {
            end
        } else if s - 1 > anchor_len(p) {
            trimmed_len(p, s - 1)
        } else {
            trimmed_len(p, anchor_len(p))
        }
    }
}

#[via_fn]
proof fn trimmed_len_decreases(p: Seq<char>, end: int) {
    lemma_segment_start_bound(p, end);
}

/// The path without its last component: what is left once the last name
/// goes, together with the separators and `.` segments before it. A path
/// that is only `.` has the empty path as its parent; a path without any
/// component, or with the root alone, has none.
pub open spec fn spec_parent(p: Seq<char>) -> Option<Seq<char>> {
    let t = trimmed_len(p, p.len() as int);
    if t > anchor_len(p) {
        let s = segment_start(p, t);
        if s - 1 > anchor_len(p) {
            Some(p.take(trimmed_len(p, s - 1)))
        } else {
            Some(p.take(trimmed_len(p, anchor_len(p))))
        }
    } else if starts_here(p) {
        Some(Seq::empty())
    } else {
        None
    }
}

/// `rel` appended to `base` as a further part of the path. A rooted `rel`
/// stands for itself; otherwise a separator goes between the two unless
/// `base` is empty or ends with one.
pub open spec fn spec_join(base: Seq<char>, rel: Seq<char>) -> Seq<char> {
    if has_root(rel) {
        rel
    } else if base.len() > 0 && base.last() != '/' {
        base.push('/') + rel
    } else {
        base + rel
    }
}

/// The path is rooted.
pub open spec fn spec_is_absolute(p: Seq<char>) -> bool {
    has_root(p)
}

fn anchor(p: &Vec<char>) -> (r: usize)
    ensures
        r == anchor_len(p@),
        r <= p.len(),
{
    if p.len() > 0 && (p[0] == '/' || (p[0] == '.' && (p.len() == 1 || p[1] == '/'))) {
        1
    } else {
        0
    }
}

fn trim_end(p: &Vec<char>, end: usize) -> (r: usize)
    requires
        end <= p.len(),
    ensures
        r == trimmed_len(p@, end as int),
        r <= end,
{
    let a = anchor(p);
    let mut e: usize = end;
    loop
        invariant
            e <= end <= p.len(),
            a == anchor_len(p@),
            trimmed_len(p@, e as int) == trimmed_len(p@, end as int),
        decreases e,
    {
        if e <= a {
            return e;
        }
        let s = find_segment_start(p, e);
        if span_is_name(p, s, e) {
            return e;
        }
        if s > a + 1 {
            e = s - 1;
        } else {
            e = a;
        }
    }
}

/// The path without its last component.
pub fn parent(path: &str) -> (r: Option<String>)
    ensures
        match r {
            Some(dir) => spec_parent(path@) == Some(dir@),
            None => spec_parent(path@) is None,
        },
{
    let p = chars_of(path);
    let a = anchor(&p);
    let t = trim_end(&p, p.len());
    if t > a {
        let s = find_segment_start(&p, t);
        let cut: usize = if s > a + 1 {
            s - 1
        } else {
            a
        };
        let k = trim_end(&p, cut);
        Some(piece(path, 0, k))
    } else if a == 1 && p[0] == '.' {
        Some(String::new())
    } else {
        None
    }
}

/// `rel` appended to `base` as a further part of the path.
pub fn join(base: &str, rel: &str) -> (r: String)
    ensures
        r@ == spec_join(base@, rel@),
{
    let b = chars_of(base);
    let c = chars_of(rel);
    if c.len() > 0 && c[0] == '/' {
        piece(rel, 0, c.len())
    } else if b.len() > 0 && b[b.len() - 1] != '/' {
        proof {
            reveal_strlit("/");
            assert("/"@ =~= seq!['/']);
            assert(base@ + "/"@ =~= base@.push('/'));
        }
        glue(glue(base, "/").as_str(), rel)
    } else {
        glue(base, rel)
    }
}

/// The path is rooted.
pub fn is_absolute(path: &str) -> (r: bool)
    ensures
        r == spec_is_absolute(path@),
{
    let p = chars_of(path);
    p.len() > 0 && p[0] == '/'
}

/// The element of `s` that stands `i` places before its last.
pub open spec fn from_end<T>(s: Seq<T>, i: int) -> T {
    s[s.len() - 1 - i]
}

/// The component that stands before the names: the root, written `/`, for
/// a rooted path; the current directory, written `.`, for a path that
/// begins there; none otherwise.
pub open spec fn anchor_of(p: Seq<char>) -> Seq<Seq<char>> {
    if has_root(p) {
        seq![seq!['/']]
    } else if starts_here(p) {
        seq![seq!['.']]
    } else {
        Seq::empty()
    }
}

/// The components of a path: its anchor, then its names.
pub open spec fn components(p: Seq<char>) -> Seq<Seq<char>> {
    anchor_of(p) + names(p)
}

/// The components of `child` are the last components of `p`.
pub open spec fn spec_ends_with(p: Seq<char>, child: Seq<char>) -> bool {
    components(child).is_suffix_of(components(p))
}

/// Matching from the back: `child` ends `p` when its names are the last
/// names of `p` and, if `child` has an anchor, the two paths have the same
/// anchor and equally many names.
pub proof fn lemma_ends_with_by_names(p: Seq<char>, child: Seq<char>)
    ensures
        spec_ends_with(p, child) <==> {
            &&& names(child).len() <= names(p).len()
            &&& forall|i: int|
                0 <= i < names(child).len() ==> #[trigger] from_end(names(child), i) == from_end(
                    names(p),
                    i,
                )
            &&& anchor_len(child) == 1 ==> {
                &&& names(p).len() == names(child).len()
                &&& anchor_len(p) == 1
                &&& p[0] == child[0]
            }
        },
{
    let pn = names(p);
    let cn = names(child);
    let pc = components(p);
    let cc = components(child);
    let pa = anchor_len(p);
    let ca = anchor_len(child);
    lemma_names_hold_no_separator(p, p.len() as int);
    lemma_names_hold_no_separator(child, child.len() as int);
    assert(pc.len() == pa + pn.len());
    assert(cc.len() == ca + cn.len());
    assert forall|k: int| 0 <= k < pn.len() implies pc[pa + k] == pn[k] by {}
    assert forall|k: int| 0 <= k < cn.len() implies cc[ca + k] == cn[k] by {}
    let by_names = {
        &&& cn.len() <= pn.len()
        &&& forall|i: int| 0 <= i < cn.len() ==> #[trigger] from_end(cn, i) == from_end(pn, i)
        &&& ca == 1 ==> {
            &&& pn.len() == cn.len()
            &&& pa == 1
            &&& p[0] == child[0]
        }
    };
    if spec_ends_with(p, child) {
        let off = pc.len() - cc.len();
        assert(cc =~= pc.subrange(off, pc.len() as int));
        assert forall|j: int| 0 <= j < cc.len() implies cc[j] == pc[off + j] by {
            assert(cc[j] == pc.subrange(off, pc.len() as int)[j]);
        }
        if ca == 1 {
            // the anchor of `child` is no name, so it meets the anchor of `p`
            assert(cc[0] == pc[off]);
            if off >= pa {
                assert(pc[off] == pn[off - pa]);
                assert(is_name(pn[off - pa]));
                assert(pn[off - pa][0] != '/');
            }
            assert(off == 0 && pa == 1);
            assert(cc[0][0] == child[0]);
            assert(pc[0][0] == p[0]);
        }
        if cn.len() > pn.len() {
            // then a name of `child` meets the anchor of `p`
            assert(ca == 0 && pa == 1 && off == 0);
            assert(cc[0] == pc[0]);
            assert(cc[0] == cn[0]);
            assert(is_name(cn[0]));
            assert(cn[0][0] != '/');
        }
        assert forall|i: int| 0 <= i < cn.len() implies #[trigger] from_end(cn, i) == from_end(
            pn,
            i,
        ) by {
            let j = ca + cn.len() - 1 - i;
            assert(cc[j] == pc[off + j]);
            assert(cc[j] == cn[cn.len() - 1 - i]);
            assert(pc[off + j] == pn[pn.len() - 1 - i]);
        }
        assert(by_names);
    }
    if by_names {
        let off = pc.len() - cc.len();
        if ca == 1 {
            assert(off == 0);
            assert(anchor_of(p) =~= anchor_of(child));
        }
        assert forall|j: int| 0 <= j < cc.len() implies cc[j] == pc[off + j] by {
            if j >= ca {
                let i = cn.len() - 1 - (j - ca);
                assert(from_end(cn, i) == from_end(pn, i));
                assert(cc[j] == cn[j - ca]);
                assert(pc[off + j] == pn[off + j - pa]);
            } else {
                assert(cc[0] == pc[0]);
            }
        }
        assert(cc =~= pc.subrange(off, pc.len() as int));
    }
}

/// The spans of the names of `p`, the last name first.
fn names_from_end(p: &Vec<char>) -> (r: Vec<(usize, usize)>)
    ensures
        r.len() == names(p@).len(),
        forall|i: int|
            0 <= i < r.len() ==> {
                &&& (#[trigger] r[i]).0 <= r[i].1 <= p.len()
                &&& from_end(names(p@), i) == p@.subrange(r[i].0 as int, r[i].1 as int)
            },
{
    let mut r: Vec<(usize, usize)> = Vec::new();
    let mut e: usize = p.len();
    let ghost all = names(p@);
    loop
        invariant
            e <= p.len(),
            all == names(p@),
            all.len() == names_before(p@, e as int).len() + r.len(),
            forall|k: int|
                0 <= k < names_before(p@, e as int).len() ==> all[k] == names_before(
                    p@,
                    e as int,
                )[k],
            forall|i: int|
                0 <= i < r.len() ==> {
                    &&& (#[trigger] r[i]).0 <= r[i].1 <= p.len()
                    &&& from_end(all, i) == p@.subrange(r[i].0 as int, r[i].1 as int)
                },
        decreases e,
    {
        match last_name(p, e) {
            None => {
                return r;
            },
            Some((s, e2)) => {
                r.push((s, e2));
                if s == 0 {
                    return r;
                }
                e = s - 1;
            },
        }
    }
}

fn same_span(p: &Vec<char>, ps: (usize, usize), c: &Vec<char>, cs: (usize, usize)) -> (r: bool)
    requires
        ps.0 <= ps.1 <= p.len(),
        cs.0 <= cs.1 <= c.len(),
    ensures
        r == (p@.subrange(ps.0 as int, ps.1 as int) == c@.subrange(cs.0 as int, cs.1 as int)),
{
    if ps.1 - ps.0 != cs.1 - cs.0 {
        assert(p@.subrange(ps.0 as int, ps.1 as int).len() != c@.subrange(
            cs.0 as int,
            cs.1 as int,
        ).len());
        return false;
    }
    let n = ps.1 - ps.0;
    let ghost a = p@.subrange(ps.0 as int, ps.1 as int);
    let ghost b = c@.subrange(cs.0 as int, cs.1 as int);
    let mut i: usize = 0;
    while i < n
        invariant
            i <= n,
            n == ps.1 - ps.0,
            n == cs.1 - cs.0,
            ps.1 <= p.len(),
            cs.1 <= c.len(),
            a == p@.subrange(ps.0 as int, ps.1 as int),
            b == c@.subrange(cs.0 as int, cs.1 as int),
            forall|j: int| 0 <= j < i ==> a[j] == b[j],
        decreases n - i,
    {
        if p[ps.0 + i] != c[cs.0 + i] {
            assert(a[i as int] != b[i as int]);
            return false;
        }
        i = i + 1;
    }
    assert(a =~= b);
    true
}

/// The components of `child` are the last components of `path`.
pub fn ends_with(path: &str, child: &str) -> (r: bool)
    ensures
        r == spec_ends_with(path@, child@),
{
    let p = chars_of(path);
    let c = chars_of(child);
    let pn = names_from_end(&p);
    let cn = names_from_end(&c);
    proof {
        lemma_ends_with_by_names(p@, c@);
    }
    if cn.len() > pn.len() {
        return false;
    }
    let mut i: usize = 0;
    while i < cn.len()
        invariant
            i <= cn.len() <= pn.len(),
            p@ == path@,
            c@ == child@,
            cn.len() == names(c@).len(),
            pn.len() == names(p@).len(),
            forall|k: int|
                0 <= k < cn.len() ==> {
                    &&& (#[trigger] cn[k]).0 <= cn[k].1 <= c.len()
                    &&& from_end(names(c@), k) == c@.subrange(cn[k].0 as int, cn[k].1 as int)
                },
            forall|k: int|
                0 <= k < pn.len() ==> {
                    &&& (#[trigger] pn[k]).0 <= pn[k].1 <= p.len()
                    &&& from_end(names(p@), k) == p@.subrange(pn[k].0 as int, pn[k].1 as int)
                },
            forall|k: int|
                0 <= k < i ==> #[trigger] from_end(names(c@), k) == from_end(names(p@), k),
        decreases cn.len() - i,
    {
        if !same_span(&p, pn[i], &c, cn[i]) {
            proof {
                lemma_ends_with_by_names(p@, c@);
                assert(from_end(names(c@), i as int) != from_end(names(p@), i as int));
            }
            return false;
        }
        i = i + 1;
    }
    if anchor(&c) == 0 {
        return true;
    }
    pn.len() == cn.len() && anchor(&p) == 1 && p[0] == c[0]
}

/// The texts that the vectors hold.
pub open spec fn texts(v: Seq<Vec<char>>) -> Seq<Seq<char>> {
    v.map_values(|c: Vec<char>| c@)
}

fn copy_span(p: &Vec<char>, s: usize, e: usize) -> (r: Vec<char>)
    requires
        s <= e <= p.len(),
    ensures
        r@ == p@.subrange(s as int, e as int),
{
    let mut r: Vec<char> = Vec::new();
    let mut i: usize = s;
    while i < e
        invariant
            s <= i <= e <= p.len(),
            r@ == p@.subrange(s as int, i as int),
        decreases e - i,
    {
        r.push(p[i]);
        assert(r@ =~= p@.subrange(s as int, i + 1));
        i = i + 1;
    }
    r
}

/// The components of `path`, the root written `/` and the current
/// directory `.`.
pub fn components_of(path: &str) -> (r: Vec<Vec<char>>)
    ensures
        texts(r@) == components(path@),
{
    let p = chars_of(path);
    let spans = names_from_end(&p);
    let mut r: Vec<Vec<char>> = Vec::new();
    if anchor(&p) == 1 {
        let mut mark: Vec<char> = Vec::new();
        mark.push(p[0]);
        assert(mark@ =~= seq![p@[0]]);
        r.push(mark);
        assert(texts(r@)[0] == mark@);
    }
    assert(texts(r@) =~= anchor_of(p@));
    let ghost all = names(p@);
    let mut i: usize = spans.len();
    while i > 0
        invariant
            i <= spans.len(),
            spans.len() == all.len(),
            all == names(p@),
            forall|k: int|
                0 <= k < spans.len() ==> {
                    &&& (#[trigger] spans[k]).0 <= spans[k].1 <= p.len()
                    &&& from_end(all, k) == p@.subrange(spans[k].0 as int, spans[k].1 as int)
                },
            texts(r@) == anchor_of(p@) + all.take(spans.len() - i),
        decreases i,
    {
        i = i - 1;
        let span = spans[i];
        let ghost before = texts(r@);
        let name = copy_span(&p, span.0, span.1);
        r.push(name);
        proof {
            let k = spans.len() - 1 - i;
            assert(name@ == from_end(all, i as int));
            assert(from_end(all, i as int) == all[k]);
            assert(texts(r@) =~= before.push(name@));
            assert(all.take(k + 1) =~= all.take(k).push(all[k]));
            assert(before.push(name@) =~= anchor_of(p@) + all.take(k + 1));
        }
    }
    assert(all.take(spans.len() as int) =~= all);
    r
}

/// A single name as one would give it to a file: not empty, without a
/// separator, and neither `.` nor `..`.
pub open spec fn is_plain_name(name: Seq<char>) -> bool {
    &&& is_name(name)
    &&& !is_parent_name(name)
    &&& forall|i: int| 0 <= i < name.len() ==> name[i] != '/'
}

/// Text without a separator that follows a separator, or begins the path,
/// is the last segment.
pub proof fn lemma_last_segment(front: Seq<char>, name: Seq<char>, k: int)
    requires
        front.len() == 0 || front.last() == '/',
        forall|i: int| 0 <= i < name.len() ==> name[i] != '/',
        0 <= k <= name.len(),
    ensures
        segment_start(front + name, front.len() + k) == front.len(),
    decreases k,
{
    let p = front + name;
    if k > 0 {
        assert(p[front.len() + k - 1] == name[k - 1]);
        lemma_last_segment(front, name, k - 1);
    } else if front.len() > 0 {
        assert(p[front.len() - 1] == front.last());
    }
}

/// A plain name joined to a directory is the file name of the result.
pub proof fn lemma_file_name_of_join(dir: Seq<char>, name: Seq<char>)
    requires
        is_plain_name(name),
    ensures
        spec_file_name(spec_join(dir, name)) == Some(name),
{
    let p = spec_join(dir, name);
    let front = if dir.len() > 0 && dir.last() != '/' {
        dir.push('/')
    } else {
        dir
    };
    assert(name[0] != '/');
    assert(p =~= front + name);
    lemma_last_segment(front, name, name.len() as int);
    assert(p.subrange(front.len() as int, p.len() as int) =~= name);
}

/// A path ends with a plain name exactly when that is its file name.
pub proof fn lemma_ends_with_plain_name(p: Seq<char>, name: Seq<char>)
    requires
        is_plain_name(name),
    ensures
        spec_ends_with(p, name) <==> spec_file_name(p) == Some(name),
{
    lemma_ends_with_by_names(p, name);
    lemma_last_segment(Seq::empty(), name, name.len() as int);
    assert(Seq::<char>::empty() + name =~= name);
    assert(name.subrange(0, name.len() as int) =~= name);
    assert(names(name) =~= seq![name]);
    assert(name[0] != '/');
    assert(anchor_len(name) == 0);
    assert(from_end(names(name), 0) == name);
    if names(p).len() > 0 {
        assert(from_end(names(p), 0) == names(p).last());
    }
}

/// A name filter is exact. Of two entries of one directory, one named `x`
/// and one whose name only ends in `x`, a search for `x` takes the first
/// and not the second.
pub proof fn lemma_name_filter_is_exact(dir: Seq<char>, x: Seq<char>, y: Seq<char>)
    requires
        is_plain_name(x),
        is_plain_name(y + x),
        y.len() > 0,
    ensures
        spec_ends_with(spec_join(dir, x), x),
        !spec_ends_with(spec_join(dir, y + x), x),
{
    lemma_file_name_of_join(dir, x);
    lemma_file_name_of_join(dir, y + x);
    lemma_ends_with_plain_name(spec_join(dir, x), x);
    lemma_ends_with_plain_name(spec_join(dir, y + x), x);
    assert((y + x).len() != x.len());
}

/// The segments of a path are those of every longer path that begins with
/// it, as far as it reaches.
pub proof fn lemma_segment_start_of_front(p: Seq<char>, q: Seq<char>, end: int)
    requires
        0 <= end <= p.len() <= q.len(),
        forall|i: int| 0 <= i < p.len() ==> p[i] == q[i],
    ensures
        segment_start(q, end) == segment_start(p, end),
    decreases end,
{
    if end > 0 && p[end - 1] != '/' {
        lemma_segment_start_of_front(p, q, end - 1);
    }
}

/// A directory whose own path ends in a name is the parent of what is
/// joined to it under a plain name.
pub proof fn lemma_parent_of_join(dir: Seq<char>, name: Seq<char>)
    requires
        is_plain_name(name),
        is_name(dir.subrange(segment_start(dir, dir.len() as int), dir.len() as int)),
    ensures
        spec_parent(spec_join(dir, name)) == Some(dir),
{
    let p = spec_join(dir, name);
    let n = dir.len() as int;
    lemma_segment_start(dir, n);
    let ds = segment_start(dir, n);
    assert(dir[n - 1] == dir.subrange(ds, n)[n - 1 - ds]);
    assert(dir.last() != '/');
    assert(name[0] != '/');
    let front = dir.push('/');
    assert(p =~= front + name);
    lemma_last_segment(front, name, name.len() as int);
    assert(p.subrange(n + 1, p.len() as int) =~= name);
    assert(anchor_len(p) == anchor_len(dir)) by {
        if dir[0] == '.' && n == 1 {
            assert(dir.subrange(ds, n) =~= dir);
        }
    }
    assert(anchor_len(dir) < n) by {
        if n == 1 && (dir[0] == '/' || dir[0] == '.') {
            assert(dir.subrange(ds, n) =~= dir);
        }
    }
    assert(trimmed_len(p, p.len() as int) == p.len());
    lemma_segment_start_of_front(dir, p, n);
    assert(p.subrange(ds, n) =~= dir.subrange(ds, n));
    assert(trimmed_len(p, n) == n);
    assert(p.take(n) =~= dir);
}

/// The anchor of a path holds no name.
pub proof fn lemma_no_name_in_anchor(p: Seq<char>)
    requires
        anchor_len(p) <= p.len(),
    ensures
        names_before(p, anchor_len(p)) =~= Seq::<Seq<char>>::empty(),
{
    if anchor_len(p) == 1 {
        reveal_with_fuel(segment_start, 2);
        reveal_with_fuel(names_before, 2);
        if p[0] == '/' {
            assert(segment_start(p, 1) == 1);
            assert(!is_name(p.subrange(1, 1)));
        } else {
            assert(segment_start(p, 1) == 0);
            assert(p.subrange(0, 1)[0] == '.');
            assert(!is_name(p.subrange(0, 1)));
        }
    }
}

/// Dropping what names nothing at the end of a path leaves its names as
/// they are, and leaves the path ending in its anchor or in a name.
pub proof fn lemma_trimmed_len(p: Seq<char>, end: int)
    requires
        anchor_len(p) <= end <= p.len(),
    ensures
        anchor_len(p) <= trimmed_len(p, end) <= end,
        names_before(p, trimmed_len(p, end)) == names_before(p, end),
        trimmed_len(p, end) > anchor_len(p) ==> is_name(
            p.subrange(segment_start(p, trimmed_len(p, end)), trimmed_len(p, end)),
        ),
        trimmed_len(p, trimmed_len(p, end)) == trimmed_len(p, end),
    decreases end,
{
    let a = anchor_len(p);
    if end > a {
        let s = segment_start(p, end);
        lemma_segment_start(p, end);
        if !is_name(p.subrange(s, end)) {
            let next = if s - 1 > a {
                s - 1
            } else {
                a
            };
            lemma_trimmed_len(p, next);
            if s - 1 <= a {
                lemma_no_name_in_anchor(p);
                if s - 1 == a {
                    assert(names_before(p, s - 1) == names_before(p, a));
                }
            }
        }
    }
}

/// The names of the front of a path are those that the path has there.
pub proof fn lemma_names_of_front(p: Seq<char>, k: int, end: int)
    requires
        0 <= end <= k <= p.len(),
    ensures
        names_before(p.take(k), end) == names_before(p, end),
    decreases end,
{
    if end > 0 {
        let q = p.take(k);
        lemma_segment_start_of_front(q, p, end);
        let s = segment_start(p, end);
        lemma_segment_start(p, end);
        assert(q.subrange(s, end) =~= p.subrange(s, end));
        if s > 0 {
            lemma_names_of_front(p, k, s - 1);
        }
    }
}

/// The parent of a path has the components of the path but the last, and
/// is the front of the path. No parent has a path without components and
/// the path of the root.
pub proof fn lemma_parent_components(p: Seq<char>)
    ensures
        match spec_parent(p) {
            Some(dir) => {
                &&& components(p).len() > 0
                &&& components(dir) == components(p).drop_last()
                &&& dir.is_prefix_of(p)
            },
            None => components(p).len() == 0 || components(p) == seq![seq!['/']],
        },
{
    let a = anchor_len(p);
    let n = p.len() as int;
    let t = trimmed_len(p, n);
    if a <= n {
        lemma_trimmed_len(p, n);
        lemma_no_name_in_anchor(p);
    }
    if t > a {
        let s = segment_start(p, t);
        lemma_segment_start(p, t);
        let cut = if s - 1 > a {
            s - 1
        } else {
            a
        };
        lemma_trimmed_len(p, cut);
        let k = trimmed_len(p, cut);
        let dir = p.take(k);
        assert(spec_parent(p) == Some(dir));
        // the names of the path are those before the last segment, and that segment
        assert(names(p) == names_before(p, t));
        let head = if s <= 0 {
            Seq::<Seq<char>>::empty()
        } else {
            names_before(p, s - 1)
        };
        assert(names_before(p, t) == head.push(p.subrange(s, t)));
        assert(names_before(p, cut) == head) by {
            if s - 1 <= a {
                if s - 1 == a {
                } else if s <= 0 {
                    assert(a == 0);
                } else {
                    // the segment begins right behind the root
                    assert(s == 1 && a == 1);
                    reveal_with_fuel(names_before, 2);
                }
            }
        }
        lemma_names_of_front(p, k, k);
        assert(names(dir) == head);
        assert(anchor_of(dir) =~= anchor_of(p)) by {
            if a == 1 {
                assert(dir[0] == p[0]);
                if k > 1 {
                    assert(dir[1] == p[1]);
                }
            } else if k > 0 {
                assert(dir[0] == p[0]);
                if dir[0] == '.' {
                    if k == 1 {
                        // a path that is only `.` would have been dropped
                        reveal_with_fuel(segment_start, 2);
                        assert(segment_start(p, 1) == 0);
                        assert(p.subrange(0, 1) =~= seq!['.']);
                        assert(!is_name(p.subrange(0, 1)));
                        assert(false);
                    } else {
                        assert(dir[1] == p[1]);
                    }
                }
            }
        }
        assert(components(dir) =~= components(p).drop_last());
        assert(dir.is_prefix_of(p));
    } else if starts_here(p) {
        assert(names(p) =~= Seq::<Seq<char>>::empty());
        assert(components(Seq::<char>::empty()) =~= Seq::<Seq<char>>::empty());
        assert(components(p).drop_last() =~= Seq::<Seq<char>>::empty());
        assert(Seq::<char>::empty().is_prefix_of(p));
    } else {
        assert(names(p) =~= Seq::<Seq<char>>::empty()) by {
            if n == 0 {
            }
        }
        if has_root(p) {
            assert(components(p) =~= seq![seq!['/']]);
        }
    }
}

/// The file name of a path, where it has one, is a plain name and the last
/// of the path's components.
pub proof fn lemma_file_name(p: Seq<char>)
    ensures
        spec_file_name(p) matches Some(name) ==> {
            &&& is_plain_name(name)
            &&& components(p).len() > 0
            &&& components(p).last() == name
        },
{
    lemma_names_hold_no_separator(p, p.len() as int);
    if spec_file_name(p) is Some {
        let n = names(p);
        assert(is_name(n[n.len() - 1]));
        assert(components(p).last() == n.last());
    }
}

/// What is joined to a path under a plain name has the components of the
/// path and then the name.
pub proof fn lemma_components_of_join(dir: Seq<char>, name: Seq<char>)
    requires
        is_plain_name(name),
    ensures
        components(spec_join(dir, name)) == components(dir).push(name),
{
    let p = spec_join(dir, name);
    let n = dir.len() as int;
    assert(name[0] != '/');
    let front = if n > 0 && dir.last() != '/' {
        dir.push('/')
    } else {
        dir
    };
    assert(p =~= front + name);
    lemma_last_segment(front, name, name.len() as int);
    let s = front.len() as int;
    assert(p.subrange(s, p.len() as int) =~= name);
    // the names before the last segment are those of `dir`
    let head = if s <= 0 {
        Seq::<Seq<char>>::empty()
    } else {
        names_before(p, s - 1)
    };
    assert(names(p) == head.push(name));
    assert(head == names(dir)) by {
        if n > 0 {
            assert(p.take(n) =~= dir);
            if dir.last() != '/' {
                lemma_names_of_front(p, n, n);
            } else {
                lemma_names_of_front(p, n, n - 1);
                assert(segment_start(dir, n) == n);
                assert(!is_name(dir.subrange(n, n)));
            }
        }
    }
    assert(anchor_of(p) =~= anchor_of(dir)) by {
        if n > 0 {
            assert(p[0] == dir[0]);
            if n > 1 {
                assert(p[1] == dir[1]);
            } else if dir[0] == '.' {
                assert(p[1] == '/');
            }
        }
    }
    assert(components(p) =~= components(dir).push(name));
}

/// A path with a file name is made up again of its parent and that name:
/// what the two are joined to has the components of the path.
pub proof fn lemma_parent_and_file_name(p: Seq<char>)
    requires
        spec_file_name(p) is Some,
    ensures
        spec_parent(p) matches Some(dir) && components(spec_join(dir, spec_file_name(p)->Some_0))
            == components(p),
{
    lemma_file_name(p);
    lemma_parent_components(p);
    let name = spec_file_name(p)->Some_0;
    let c = components(p);
    assert(c != seq![seq!['/']]) by {
        if c == seq![seq!['/']] {
            assert(c.last() == seq!['/']);
            assert(name[0] == '/');
        }
    }
    let dir = spec_parent(p)->Some_0;
    lemma_components_of_join(dir, name);
    assert(c =~= c.drop_last().push(c.last()));
}

} // verus!
