//! The order of paths, and putting things in order.
//!
//! Paths are compared component by component, a path before every path
//! that continues it. Of two components the root comes first, then the
//! current directory, then `..`, then the other names, which are compared
//! character by character.

use vstd::prelude::*;
use crate::path::{components, components_of, is_parent_name, texts};

verus! {

/// The text `a` comes no later than `b`, both read from position `i` on,
/// where the two agree on everything before `i`.
pub open spec fn text_precedes_from(a: Seq<char>, b: Seq<char>, i: int) -> bool
    decreases a.len() - i,
{
    if i >= a.len() {
        true
    } else if i >= b.len() {
        false
    } else if a[i] != b[i] {
        a[i] < b[i]
    } else {
        text_precedes_from(a, b, i + 1)
    }
}

/// The text `a` comes no later than `b`: at the first place where the two
/// differ `a` has the lesser character, or `a` has come to its end.
pub open spec fn text_precedes(a: Seq<char>, b: Seq<char>) -> bool {
    text_precedes_from(a, b, 0)
}

/// The rank of a component by its kind: the root, the current directory,
/// `..`, any other name.
pub open spec fn rank(c: Seq<char>) -> int {
    if c.len() == 1 && c[0] == '/' {
        0
    } else if c.len() == 1 && c[0] == '.' {
        1
    } else if is_parent_name(c) {
        2
    } else {
        3
    }
}

/// The component `c` comes no later than `d`: by rank, and among the names
/// of the last rank by their text.
pub open spec fn component_precedes(c: Seq<char>, d: Seq<char>) -> bool {
    rank(c) < rank(d) || (rank(c) == rank(d) && (rank(c) < 3 || text_precedes(c, d)))
}

/// The components `a` come no later than `b`, both read from position `i`
/// on, where the two agree on everything before `i`.
pub open spec fn components_precede_from(a: Seq<Seq<char>>, b: Seq<Seq<char>>, i: int) -> bool
    decreases a.len() - i,
{
    if i >= a.len() {
        true
    } else if i >= b.len() {
        false
    } else if a[i] != b[i] {
        component_precedes(a[i], b[i])
    } else {
        components_precede_from(a, b, i + 1)
    }
}

/// The components `a` come no later than `b`.
pub open spec fn components_precede(a: Seq<Seq<char>>, b: Seq<Seq<char>>) -> bool {
    components_precede_from(a, b, 0)
}

/// The path `a` comes no later than the path `b`.
pub open spec fn path_precedes(a: Seq<char>, b: Seq<char>) -> bool {
    components_precede(components(a), components(b))
}

proof fn lemma_text_precedes_from_reflexive(a: Seq<char>, i: int)
    requires
        0 <= i,
    ensures
        text_precedes_from(a, a, i),
    decreases a.len() - i,
{
    if i < a.len() {
        lemma_text_precedes_from_reflexive(a, i + 1);
    }
}

proof fn lemma_text_precedes_from_total(a: Seq<char>, b: Seq<char>, i: int)
    requires
        0 <= i,
    ensures
        text_precedes_from(a, b, i) || text_precedes_from(b, a, i),
    decreases a.len() - i,
{
    if i < a.len() && i < b.len() && a[i] == b[i] {
        lemma_text_precedes_from_total(a, b, i + 1);
    }
}

proof fn lemma_text_precedes_from_transitive(a: Seq<char>, b: Seq<char>, c: Seq<char>, i: int)
    requires
        0 <= i,
        text_precedes_from(a, b, i),
        text_precedes_from(b, c, i),
    ensures
        text_precedes_from(a, c, i),
    decreases a.len() - i,
{
    if i < a.len() && i < b.len() && i < c.len() && a[i] == b[i] && b[i] == c[i] {
        lemma_text_precedes_from_transitive(a, b, c, i + 1);
    }
}

proof fn lemma_text_precedes_from_antisymmetric(a: Seq<char>, b: Seq<char>, i: int)
    requires
        0 <= i <= a.len(),
        i <= b.len(),
        text_precedes_from(a, b, i),
        text_precedes_from(b, a, i),
    ensures
        a.len() == b.len(),
        forall|j: int| i <= j < a.len() ==> a[j] == b[j],
    decreases a.len() - i,
{
    if i < a.len() && i < b.len() {
        lemma_text_precedes_from_antisymmetric(a, b, i + 1);
    }
}

/// The order of texts is an order: every text comes no later than itself;
/// of two texts one comes no later than the other; what comes no later
/// than a text comes no later than all that follow it; and two texts that
/// each come no later than the other are the same.
pub proof fn lemma_text_precedes(a: Seq<char>, b: Seq<char>, c: Seq<char>)
    ensures
        text_precedes(a, a),
        text_precedes(a, b) || text_precedes(b, a),
        text_precedes(a, b) && text_precedes(b, c) ==> text_precedes(a, c),
        text_precedes(a, b) && text_precedes(b, a) ==> a == b,
{
    lemma_text_precedes_from_reflexive(a, 0);
    lemma_text_precedes_from_total(a, b, 0);
    if text_precedes(a, b) && text_precedes(b, c) {
        lemma_text_precedes_from_transitive(a, b, c, 0);
    }
    if text_precedes(a, b) && text_precedes(b, a) {
        lemma_text_precedes_from_antisymmetric(a, b, 0);
        assert(a =~= b);
    }
}

/// The order of components is an order in the same sense.
pub proof fn lemma_component_precedes(a: Seq<char>, b: Seq<char>, c: Seq<char>)
    ensures
        component_precedes(a, a),
        component_precedes(a, b) || component_precedes(b, a),
        component_precedes(a, b) && component_precedes(b, c) ==> component_precedes(a, c),
        component_precedes(a, b) && component_precedes(b, a) ==> a == b,
{
    lemma_text_precedes(a, b, c);
    if component_precedes(a, b) && component_precedes(b, a) && rank(a) < 3 {
        assert(a =~= b);
    }
}

proof fn lemma_components_precede_from_reflexive(a: Seq<Seq<char>>, i: int)
    requires
        0 <= i,
    ensures
        components_precede_from(a, a, i),
    decreases a.len() - i,
{
    if i < a.len() {
        lemma_components_precede_from_reflexive(a, i + 1);
    }
}

proof fn lemma_components_precede_from_total(a: Seq<Seq<char>>, b: Seq<Seq<char>>, i: int)
    requires
        0 <= i,
    ensures
        components_precede_from(a, b, i) || components_precede_from(b, a, i),
    decreases a.len() - i,
{
    if i < a.len() && i < b.len() {
        if a[i] == b[i] {
            lemma_components_precede_from_total(a, b, i + 1);
        } else {
            lemma_component_precedes(a[i], b[i], a[i]);
        }
    }
}

proof fn lemma_components_precede_from_transitive(
    a: Seq<Seq<char>>,
    b: Seq<Seq<char>>,
    c: Seq<Seq<char>>,
    i: int,
)
    requires
        0 <= i,
        components_precede_from(a, b, i),
        components_precede_from(b, c, i),
    ensures
        components_precede_from(a, c, i),
    decreases a.len() - i,
{
    if i < a.len() && i < b.len() && i < c.len() {
        if a[i] == b[i] && b[i] == c[i] {
            lemma_components_precede_from_transitive(a, b, c, i + 1);
        } else {
            lemma_component_precedes(a[i], b[i], c[i]);
            lemma_component_precedes(a[i], a[i], a[i]);
            if a[i] == c[i] {
                // then `b` lies between a component and itself
                lemma_component_precedes(a[i], b[i], a[i]);
            }
        }
    }
}

proof fn lemma_components_precede_from_antisymmetric(a: Seq<Seq<char>>, b: Seq<Seq<char>>, i: int)
    requires
        0 <= i <= a.len(),
        i <= b.len(),
        components_precede_from(a, b, i),
        components_precede_from(b, a, i),
    ensures
        a.len() == b.len(),
        forall|j: int| i <= j < a.len() ==> a[j] == b[j],
    decreases a.len() - i,
{
    if i < a.len() && i < b.len() {
        if a[i] != b[i] {
            lemma_component_precedes(a[i], b[i], a[i]);
        }
        lemma_components_precede_from_antisymmetric(a, b, i + 1);
    }
}

/// The order of component sequences is an order: every one comes no later
/// than itself; of two one comes no later than the other; what comes no
/// later than one comes no later than all that follow it; and two that each
/// come no later than the other are the same.
pub proof fn lemma_components_precede(a: Seq<Seq<char>>, b: Seq<Seq<char>>, c: Seq<Seq<char>>)
    ensures
        components_precede(a, a),
        components_precede(a, b) || components_precede(b, a),
        components_precede(a, b) && components_precede(b, c) ==> components_precede(a, c),
        components_precede(a, b) && components_precede(b, a) ==> a == b,
{
    lemma_components_precede_from_reflexive(a, 0);
    lemma_components_precede_from_total(a, b, 0);
    if components_precede(a, b) && components_precede(b, c) {
        lemma_components_precede_from_transitive(a, b, c, 0);
    }
    if components_precede(a, b) && components_precede(b, a) {
        lemma_components_precede_from_antisymmetric(a, b, 0);
        assert(a =~= b);
    }
}

/// The order of paths: every path comes no later than itself; of two paths
/// one comes no later than the other; what comes no later than a path comes
/// no later than all that follow it; and two paths that each come no later
/// than the other have the same components.
pub proof fn lemma_path_precedes(a: Seq<char>, b: Seq<char>, c: Seq<char>)
    ensures
        path_precedes(a, a),
        path_precedes(a, b) || path_precedes(b, a),
        path_precedes(a, b) && path_precedes(b, c) ==> path_precedes(a, c),
        path_precedes(a, b) && path_precedes(b, a) ==> components(a) == components(b),
{
    lemma_components_precede(components(a), components(b), components(c));
}

/// Of two elements one comes no later than the other.
pub open spec fn is_total<T>(le: spec_fn(T, T) -> bool) -> bool {
    forall|x: T, y: T| #[trigger] le(x, y) || le(y, x)
}

/// What comes no later than an element comes no later than all that
/// follow it.
pub open spec fn is_transitive<T>(le: spec_fn(T, T) -> bool) -> bool {
    forall|x: T, y: T, z: T| #[trigger] le(x, y) && #[trigger] le(y, z) ==> le(x, z)
}

/// `x` put into `s` behind the last element that comes no later than `x`.
pub open spec fn insert_by<T>(s: Seq<T>, x: T, le: spec_fn(T, T) -> bool) -> Seq<T>
    decreases s.len(),
{
    if s.len() == 0 || le(s.last(), x) {
        s.push(x)
    } else {
        insert_by(s.drop_last(), x, le).push(s.last())
    }
}

/// The elements of `s` in order. Of two elements that each come no later
/// than the other, the one that stands first in `s` stays first.
pub open spec fn sorted_by<T>(s: Seq<T>, le: spec_fn(T, T) -> bool) -> Seq<T>
    decreases s.len(),
{
    if s.len() == 0 {
        s
    } else {
        insert_by(sorted_by(s.drop_last(), le), s.last(), le)
    }
}

/// Every element comes no later than those behind it.
pub open spec fn is_ordered<T>(s: Seq<T>, le: spec_fn(T, T) -> bool) -> bool {
    forall|i: int, j: int| 0 <= i < j < s.len() ==> le(#[trigger] s[i], #[trigger] s[j])
}

/// No two elements come each no later than the other.
pub open spec fn is_distinct<T>(s: Seq<T>, le: spec_fn(T, T) -> bool) -> bool {
    forall|i: int, j: int|
        0 <= i < s.len() && 0 <= j < s.len() && i != j ==> !(le(#[trigger] s[i], #[trigger] s[j])
            && le(s[j], s[i]))
}

/// Where `x` goes into `s`: behind the last element that comes no later.
pub proof fn lemma_insert_by_position<T>(s: Seq<T>, x: T, le: spec_fn(T, T) -> bool, pos: int)
    requires
        0 <= pos <= s.len(),
        pos > 0 ==> le(s[pos - 1], x),
        forall|k: int| pos <= k < s.len() ==> !le(#[trigger] s[k], x),
    ensures
        insert_by(s, x, le) == s.insert(pos, x),
    decreases s.len(),
{
    if pos == s.len() {
        assert(s.insert(pos, x) =~= s.push(x));
    } else {
        assert(!le(s[s.len() - 1], x));
        lemma_insert_by_position(s.drop_last(), x, le, pos);
        assert(s.drop_last().insert(pos, x).push(s.last()) =~= s.insert(pos, x));
    }
}

/// Putting an element into an ordered sequence leaves it ordered, and adds
/// that element and nothing else.
pub proof fn lemma_insert_by_ordered<T>(s: Seq<T>, x: T, le: spec_fn(T, T) -> bool)
    requires
        is_total(le),
        is_transitive(le),
        is_ordered(s, le),
    ensures
        is_ordered(insert_by(s, x, le), le),
        insert_by(s, x, le).to_multiset() == s.to_multiset().insert(x),
        insert_by(s, x, le).len() == s.len() + 1,
    decreases s.len(),
{
    broadcast use vstd::seq_lib::group_to_multiset_ensures;

    let r = insert_by(s, x, le);
    if s.len() == 0 || le(s.last(), x) {
        assert forall|i: int, j: int| 0 <= i < j < r.len() implies le(
            #[trigger] r[i],
            #[trigger] r[j],
        ) by {
            if j == s.len() {
                if i < s.len() - 1 {
                    assert(le(s[i], s[s.len() - 1]));
                    assert(le(s.last(), x));
                }
            } else {
                assert(le(s[i], s[j]));
            }
        }
    } else {
        let head = s.drop_last();
        assert forall|i: int, j: int| 0 <= i < j < head.len() implies le(
            #[trigger] head[i],
            #[trigger] head[j],
        ) by {
            assert(le(s[i], s[j]));
        }
        lemma_insert_by_ordered(head, x, le);
        let h = insert_by(head, x, le);
        assert(r == h.push(s.last()));
        // every element of `h` is `x` or an element of `head`
        assert forall|i: int| 0 <= i < h.len() implies le(#[trigger] h[i], s.last()) by {
            assert(h.to_multiset().count(h[i]) > 0);
            if h[i] == x {
                assert(le(s.last(), x) || le(x, s.last()));
            } else {
                assert(head.to_multiset().count(h[i]) > 0);
                assert(head.contains(h[i]));
                let k = choose|k: int| 0 <= k < head.len() && head[k] == h[i];
                assert(le(s[k], s[s.len() - 1]));
            }
        }
        assert forall|i: int, j: int| 0 <= i < j < r.len() implies le(
            #[trigger] r[i],
            #[trigger] r[j],
        ) by {
            if j < h.len() {
                assert(le(h[i], h[j]));
            } else {
                assert(le(h[i], s.last()));
            }
        }
        assert(s =~= head.push(s.last()));
        assert(r.to_multiset() =~= s.to_multiset().insert(x));
    }
}

/// A sorted sequence is ordered and holds what the given one holds, each
/// element as often.
pub proof fn lemma_sorted_by<T>(s: Seq<T>, le: spec_fn(T, T) -> bool)
    requires
        is_total(le),
        is_transitive(le),
    ensures
        is_ordered(sorted_by(s, le), le),
        sorted_by(s, le).to_multiset() == s.to_multiset(),
        sorted_by(s, le).len() == s.len(),
    decreases s.len(),
{
    broadcast use vstd::seq_lib::group_to_multiset_ensures;

    if s.len() > 0 {
        lemma_sorted_by(s.drop_last(), le);
        lemma_insert_by_ordered(sorted_by(s.drop_last(), le), s.last(), le);
        assert(s =~= s.drop_last().push(s.last()));
    }
}

/// Every element of a sorted sequence is an element of the given one.
pub proof fn lemma_sorted_by_holds<T>(s: Seq<T>, le: spec_fn(T, T) -> bool, i: int) -> (j: int)
    requires
        0 <= i < sorted_by(s, le).len(),
    ensures
        0 <= j < s.len(),
        s[j] == sorted_by(s, le)[i],
    decreases s.len(),
{
    let head = sorted_by(s.drop_last(), le);
    let k = lemma_insert_by_holds(head, s.last(), le, i);
    if k < head.len() {
        lemma_sorted_by_holds(s.drop_last(), le, k)
    } else {
        s.len() - 1
    }
}

proof fn lemma_insert_by_holds<T>(s: Seq<T>, x: T, le: spec_fn(T, T) -> bool, i: int) -> (k: int)
    requires
        0 <= i < insert_by(s, x, le).len(),
    ensures
        0 <= k <= s.len(),
        k < s.len() ==> s[k] == insert_by(s, x, le)[i],
        k == s.len() ==> x == insert_by(s, x, le)[i],
    decreases s.len(),
{
    if s.len() == 0 || le(s.last(), x) {
        i
    } else {
        let h = insert_by(s.drop_last(), x, le);
        if i < h.len() {
            let k = lemma_insert_by_holds(s.drop_last(), x, le, i);
            if k < s.len() - 1 {
                k
            } else {
                s.len() as int
            }
        } else {
            s.len() - 1
        }
    }
}

/// Sorting commutes with a change of elements that keeps their order.
pub proof fn lemma_sorted_by_map<A, B>(
    s: Seq<A>,
    f: spec_fn(A) -> B,
    le_a: spec_fn(A, A) -> bool,
    le_b: spec_fn(B, B) -> bool,
)
    requires
        forall|i: int, j: int|
            0 <= i < s.len() && 0 <= j < s.len() ==> le_a(#[trigger] s[i], #[trigger] s[j]) == le_b(
                f(s[i]),
                f(s[j]),
            ),
    ensures
        sorted_by(s, le_a).map_values(f) == sorted_by(s.map_values(f), le_b),
    decreases s.len(),
{
    if s.len() == 0 {
        assert(sorted_by(s, le_a).map_values(f) =~= sorted_by(s.map_values(f), le_b));
    } else {
        let head = s.drop_last();
        assert forall|i: int, j: int| 0 <= i < head.len() && 0 <= j < head.len() implies le_a(
            #[trigger] head[i],
            #[trigger] head[j],
        ) == le_b(f(head[i]), f(head[j])) by {
            assert(head[i] == s[i] && head[j] == s[j]);
        }
        lemma_sorted_by_map(head, f, le_a, le_b);
        assert(s.map_values(f).drop_last() =~= head.map_values(f));
        assert(s.map_values(f).last() == f(s.last()));
        let sorted = sorted_by(head, le_a);
        assert forall|i: int| 0 <= i < sorted.len() implies le_a(#[trigger] sorted[i], s.last())
            == le_b(f(sorted[i]), f(s.last())) by {
            let j = lemma_sorted_by_holds(head, le_a, i);
            assert(head[j] == s[j]);
            assert(s[s.len() - 1] == s.last());
        }
        lemma_insert_by_map(sorted, s.last(), f, le_a, le_b);
    }
}

proof fn lemma_insert_by_map<A, B>(
    s: Seq<A>,
    x: A,
    f: spec_fn(A) -> B,
    le_a: spec_fn(A, A) -> bool,
    le_b: spec_fn(B, B) -> bool,
)
    requires
        forall|i: int| 0 <= i < s.len() ==> le_a(#[trigger] s[i], x) == le_b(f(s[i]), f(x)),
    ensures
        insert_by(s, x, le_a).map_values(f) == insert_by(s.map_values(f), f(x), le_b),
    decreases s.len(),
{
    let m = s.map_values(f);
    if s.len() == 0 {
        assert(s.push(x).map_values(f) =~= m.push(f(x)));
    } else {
        assert(m.last() == f(s.last()));
        assert(le_a(s[s.len() - 1], x) == le_b(f(s[s.len() - 1]), f(x)));
        if le_a(s.last(), x) {
            assert(s.push(x).map_values(f) =~= m.push(f(x)));
        } else {
            let head = s.drop_last();
            assert forall|i: int| 0 <= i < head.len() implies le_a(#[trigger] head[i], x) == le_b(
                f(head[i]),
                f(x),
            ) by {
                assert(head[i] == s[i]);
            }
            lemma_insert_by_map(head, x, f, le_a, le_b);
            assert(m.drop_last() =~= head.map_values(f));
            assert(insert_by(head, x, le_a).push(s.last()).map_values(f) =~= insert_by(
                head,
                x,
                le_a,
            ).map_values(f).push(f(s.last())));
        }
    }
}

/// There is one way only to put distinct elements in order.
pub proof fn lemma_ordered_unique<T>(x: Seq<T>, y: Seq<T>, le: spec_fn(T, T) -> bool)
    requires
        is_ordered(x, le),
        is_ordered(y, le),
        is_distinct(x, le),
        x.to_multiset() == y.to_multiset(),
    ensures
        x == y,
    decreases x.len(),
{
    broadcast use vstd::seq_lib::group_to_multiset_ensures;

    assert(x.len() == y.len()) by {
        vstd::seq_lib::to_multiset_len(x);
        vstd::seq_lib::to_multiset_len(y);
    }
    if x.len() > 0 {
        let n = x.len() as int;
        let u = x[n - 1];
        let v = y[n - 1];
        assert(x.to_multiset().count(v) > 0);
        assert(x.contains(v));
        let m = choose|m: int| 0 <= m < n && x[m] == v;
        assert(y.to_multiset().count(u) > 0);
        assert(y.contains(u));
        let k = choose|k: int| 0 <= k < n && y[k] == u;
        if m < n - 1 {
            // `v` comes no later than `u` in `x`, and `u` no later than `v` in `y`
            assert(le(x[m], x[n - 1]));
            if k < n - 1 {
                assert(le(y[k], y[n - 1]));
            }
            assert(!(le(x[m], x[n - 1]) && le(x[n - 1], x[m])));
        }
        assert(u == v);
        let xd = x.drop_last();
        let yd = y.drop_last();
        assert(x =~= xd.push(u));
        assert(y =~= yd.push(u));
        assert(xd.to_multiset() =~= yd.to_multiset()) by {
            assert forall|e: T| xd.to_multiset().count(e) == yd.to_multiset().count(e) by {
                assert(xd.to_multiset().insert(u).count(e) == yd.to_multiset().insert(u).count(e));
            }
        }
        assert forall|i: int, j: int| 0 <= i < j < xd.len() implies le(
            #[trigger] xd[i],
            #[trigger] xd[j],
        ) by {
            assert(le(x[i], x[j]));
        }
        assert forall|i: int, j: int| 0 <= i < j < yd.len() implies le(
            #[trigger] yd[i],
            #[trigger] yd[j],
        ) by {
            assert(le(y[i], y[j]));
        }
        assert forall|i: int, j: int| 0 <= i < xd.len() && 0 <= j < xd.len() && i != j implies !(le(
            #[trigger] xd[i],
            #[trigger] xd[j],
        ) && le(xd[j], xd[i])) by {
            assert(!(le(x[i], x[j]) && le(x[j], x[i])));
        }
        lemma_ordered_unique(xd, yd, le);
    } else {
        assert(x =~= y);
    }
}

proof fn lemma_count_two<T>(r: Seq<T>, i: int, j: int)
    requires
        0 <= i < j < r.len(),
        r[i] == r[j],
    ensures
        r.to_multiset().count(r[i]) >= 2,
    decreases r.len(),
{
    broadcast use vstd::seq_lib::group_to_multiset_ensures;

    let head = r.drop_last();
    assert(r =~= head.push(r.last()));
    if j < r.len() - 1 {
        lemma_count_two(head, i, j);
        assert(head[i] == r[i]);
    } else {
        assert(head[i] == r[i]);
        assert(head.contains(r[i]));
        assert(head.to_multiset().count(r[i]) > 0);
    }
}

proof fn lemma_count_one<T>(s: Seq<T>, a: int, le: spec_fn(T, T) -> bool)
    requires
        0 <= a < s.len(),
        is_total(le),
        is_distinct(s, le),
    ensures
        s.to_multiset().count(s[a]) == 1,
    decreases s.len(),
{
    broadcast use vstd::seq_lib::group_to_multiset_ensures;

    let head = s.drop_last();
    assert(s =~= head.push(s.last()));
    assert forall|i: int, j: int| 0 <= i < head.len() && 0 <= j < head.len() && i != j implies !(le(
        #[trigger] head[i],
        #[trigger] head[j],
    ) && le(head[j], head[i])) by {
        assert(!(le(s[i], s[j]) && le(s[j], s[i])));
    }
    assert(le(s[a], s[a]) || le(s[a], s[a]));
    if a < s.len() - 1 {
        lemma_count_one(head, a, le);
        assert(head[a] == s[a]);
        assert(!(le(s[a], s[s.len() - 1]) && le(s[s.len() - 1], s[a])));
    } else {
        if head.to_multiset().count(s[a]) > 0 {
            assert(head.contains(s[a]));
            let b = choose|b: int| 0 <= b < head.len() && head[b] == s[a];
            assert(!(le(s[b], s[a]) && le(s[a], s[b])));
        }
    }
}

/// Putting distinct elements in order leaves them distinct.
pub proof fn lemma_sorted_keeps_distinct<T>(s: Seq<T>, le: spec_fn(T, T) -> bool)
    requires
        is_total(le),
        is_transitive(le),
        is_distinct(s, le),
    ensures
        is_distinct(sorted_by(s, le), le),
{
    broadcast use vstd::seq_lib::group_to_multiset_ensures;

    let r = sorted_by(s, le);
    lemma_sorted_by(s, le);
    assert forall|i: int, j: int| 0 <= i < r.len() && 0 <= j < r.len() && i != j implies !(le(
        #[trigger] r[i],
        #[trigger] r[j],
    ) && le(r[j], r[i])) by {
        let a = lemma_sorted_by_holds(s, le, i);
        let b = lemma_sorted_by_holds(s, le, j);
        if a == b {
            // one element of `s` would stand twice in `r`
            assert(r[i] == r[j]);
            if i < j {
                lemma_count_two(r, i, j);
            } else {
                lemma_count_two(r, j, i);
            }
            lemma_count_one(s, a, le);
        } else {
            assert(!(le(s[a], s[b]) && le(s[b], s[a])));
        }
    }
}

/// The order in which distinct elements are given does not matter to the
/// order in which they come out.
pub proof fn lemma_sorted_by_any_order<T>(a: Seq<T>, b: Seq<T>, le: spec_fn(T, T) -> bool)
    requires
        is_total(le),
        is_transitive(le),
        is_distinct(a, le),
        a.to_multiset() == b.to_multiset(),
    ensures
        sorted_by(a, le) == sorted_by(b, le),
{
    lemma_sorted_by(a, le);
    lemma_sorted_by(b, le);
    lemma_sorted_keeps_distinct(a, le);
    lemma_ordered_unique(sorted_by(a, le), sorted_by(b, le), le);
}

/// The text `a` comes no later than `b`.
pub fn text_precedes_chars(a: &Vec<char>, b: &Vec<char>) -> (r: bool)
    ensures
        r == text_precedes(a@, b@),
{
    let mut i: usize = 0;
    loop
        invariant
            i <= a.len(),
            i <= b.len(),
            text_precedes_from(a@, b@, i as int) == text_precedes(a@, b@),
        decreases a.len() - i,
    {
        if i >= a.len() {
            return true;
        }
        if i >= b.len() {
            return false;
        }
        if a[i] != b[i] {
            return a[i] < b[i];
        }
        i = i + 1;
    }
}

fn same_chars(a: &Vec<char>, b: &Vec<char>) -> (r: bool)
    ensures
        r == (a@ == b@),
{
    if a.len() != b.len() {
        return false;
    }
    let mut i: usize = 0;
    while i < a.len()
        invariant
            i <= a.len(),
            a.len() == b.len(),
            forall|j: int| 0 <= j < i ==> a@[j] == b@[j],
        decreases a.len() - i,
    {
        if a[i] != b[i] {
            return false;
        }
        i = i + 1;
    }
    assert(a@ =~= b@);
    true
}

fn rank_of(c: &Vec<char>) -> (r: u8)
    ensures
        r == rank(c@),
{
    if c.len() == 1 && c[0] == '/' {
        0
    } else if c.len() == 1 && c[0] == '.' {
        1
    } else if c.len() == 2 && c[0] == '.' && c[1] == '.' {
        2
    } else {
        3
    }
}

/// The component `c` comes no later than `d`.
pub fn component_precedes_chars(c: &Vec<char>, d: &Vec<char>) -> (r: bool)
    ensures
        r == component_precedes(c@, d@),
{
    let rc = rank_of(c);
    let rd = rank_of(d);
    rc < rd || (rc == rd && (rc < 3 || text_precedes_chars(c, d)))
}

/// The components `a` come no later than `b`.
pub fn components_precede_chars(a: &Vec<Vec<char>>, b: &Vec<Vec<char>>) -> (r: bool)
    ensures
        r == components_precede(texts(a@), texts(b@)),
{
    let mut i: usize = 0;
    loop
        invariant
            i <= a.len(),
            i <= b.len(),
            components_precede_from(texts(a@), texts(b@), i as int) == components_precede(
                texts(a@),
                texts(b@),
            ),
        decreases a.len() - i,
    {
        if i >= a.len() {
            return true;
        }
        if i >= b.len() {
            return false;
        }
        assert(texts(a@)[i as int] == a@[i as int]@);
        assert(texts(b@)[i as int] == b@[i as int]@);
        if !same_chars(&a[i], &b[i]) {
            return component_precedes_chars(&a[i], &b[i]);
        }
        i = i + 1;
    }
}

/// The path `a` comes no later than the path `b`.
pub fn precedes(a: &str, b: &str) -> (r: bool)
    ensures
        r == path_precedes(a@, b@),
{
    let ca = components_of(a);
    let cb = components_of(b);
    components_precede_chars(&ca, &cb)
}

/// The positions `0`, `1`, ... below `n`.
pub open spec fn positions(n: nat) -> Seq<int> {
    Seq::new(n, |i: int| i)
}

/// The order of positions by the components that stand at them.
pub open spec fn by_components_at(keys: Seq<Vec<Vec<char>>>) -> spec_fn(int, int) -> bool {
    |i: int, j: int| components_precede(texts(keys[i]@), texts(keys[j]@))
}

/// Positions as plain numbers.
pub open spec fn as_positions(order: Seq<usize>) -> Seq<int> {
    order.map_values(|i: usize| i as int)
}

/// The positions of `keys`, in the order of the components they hold.
/// Positions that hold the same components stay in their order.
pub fn sort_positions(keys: &Vec<Vec<Vec<char>>>) -> (order: Vec<usize>)
    ensures
        order.len() == keys.len(),
        forall|k: int| 0 <= k < order.len() ==> (#[trigger] order[k]) < keys.len(),
        as_positions(order@) == sorted_by(positions(keys.len() as nat), by_components_at(keys@)),
{
    let mut order: Vec<usize> = Vec::new();
    let mut n: usize = 0;
    assert(as_positions(order@) =~= sorted_by(positions(0), by_components_at(keys@)));
    while n < keys.len()
        invariant
            n <= keys.len(),
            order.len() == n,
            forall|k: int| 0 <= k < order.len() ==> (#[trigger] order[k]) < n,
            as_positions(order@) == sorted_by(positions(n as nat), by_components_at(keys@)),
        decreases keys.len() - n,
    {
        let mut pos: usize = order.len();
        while pos > 0 && !components_precede_chars(&keys[order[pos - 1]], &keys[n])
            invariant
                pos <= order.len(),
                n < keys.len(),
                forall|k: int| 0 <= k < order.len() ==> (#[trigger] order[k]) < n,
                forall|k: int|
                    pos <= k < order.len() ==> !by_components_at(keys@)(
                        #[trigger] as_positions(order@)[k],
                        n as int,
                    ),
            decreases pos,
        {
            pos = pos - 1;
        }
        proof {
            let before = as_positions(order@);
            lemma_insert_by_position(before, n as int, by_components_at(keys@), pos as int);
            assert(positions((n + 1) as nat).drop_last() =~= positions(n as nat));
            assert(as_positions(order@.insert(pos as int, n)) =~= before.insert(
                pos as int,
                n as int,
            ));
        }
        order.insert(pos, n);
        n = n + 1;
    }
    order
}

} // verus!
