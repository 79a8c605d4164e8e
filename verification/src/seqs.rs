//! Facts about filtering sequences, and the removal of one identifier from a
//! list of identifiers.

use crate::id::{EdgeId, PortId};
use vstd::prelude::*;

verus! {

/// An element is in a filtered sequence exactly when it is in the sequence
/// and passes the filter.
pub proof fn lemma_filter_contains_iff<A>(s: Seq<A>, f: spec_fn(A) -> bool, x: A)
    ensures
        s.filter(f).contains(x) <==> s.contains(x) && f(x),
    decreases s.len(),
{
    reveal(Seq::filter);
    if s.len() > 0 {
        let t = s.drop_last();
        lemma_filter_contains_iff(t, f, x);
        assert(s =~= t.push(s.last()));
        if s.contains(x) && x != s.last() {
            let i = choose|i: int| 0 <= i < s.len() && s[i] == x;
            assert(t[i] == x);
        }
        if f(s.last()) {
            let r = t.filter(f).push(s.last());
            if r.contains(x) && x != s.last() {
                let i = choose|i: int| 0 <= i < r.len() && r[i] == x;
                assert(t.filter(f)[i] == x);
            }
            if t.filter(f).contains(x) {
                let i = choose|i: int| 0 <= i < t.filter(f).len() && t.filter(f)[i] == x;
                assert(r[i] == x);
            }
            assert(r[r.len() - 1] == s.last());
        }
        if t.contains(x) {
            let i = choose|i: int| 0 <= i < t.len() && t[i] == x;
            assert(s[i] == x);
        }
        assert(s[s.len() - 1] == s.last());
    }
}

/// An element is in a sequence with `x` pushed exactly when it is `x` or in
/// the sequence.
pub proof fn lemma_push_contains<A>(s: Seq<A>, x: A, y: A)
    ensures
        s.push(x).contains(y) <==> s.contains(y) || y == x,
{
    if s.contains(y) {
        let i = choose|i: int| 0 <= i < s.len() && s[i] == y;
        assert(s.push(x)[i] == y);
    }
    if s.push(x).contains(y) && y != x {
        let i = choose|i: int| 0 <= i < s.push(x).len() && s.push(x)[i] == y;
        assert(s[i] == y);
    }
    assert(s.push(x)[s.len() as int] == x);
}

/// Pushing an element that a duplicate-free sequence lacks keeps it
/// duplicate-free.
pub proof fn lemma_push_no_duplicates<A>(s: Seq<A>, x: A)
    requires
        s.no_duplicates(),
        !s.contains(x),
    ensures
        s.push(x).no_duplicates(),
{
    let t = s.push(x);
    assert forall|i: int, j: int| 0 <= i < j < t.len() implies t[i] != t[j] by {
        if j == t.len() - 1 {
            assert(s[i] == t[i]);
        } else {
            assert(s[i] == t[i] && s[j] == t[j]);
        }
    }
}

/// An element is in a flattened sequence of sequences exactly when it is in
/// one of them.
pub proof fn lemma_flatten_contains<A>(lists: Seq<Seq<A>>, x: A)
    ensures
        lists.flatten().contains(x) <==> exists|i: int| 0 <= i < lists.len() && (#[trigger] lists[i]).contains(x),
    decreases lists.len(),
{
    if lists.len() > 0 {
        let rest = lists.drop_first();
        lemma_flatten_contains(rest, x);
        let f = lists.first() + rest.flatten();
        assert(lists.flatten() == f);
        if f.contains(x) {
            let k = choose|k: int| 0 <= k < f.len() && f[k] == x;
            if k < lists.first().len() {
                assert(lists.first()[k] == x);
                assert(lists[0].contains(x));
            } else {
                assert(rest.flatten()[k - lists.first().len()] == x);
                let i = choose|i: int| 0 <= i < rest.len() && (#[trigger] rest[i]).contains(x);
                assert(lists[i + 1] == rest[i]);
            }
        }
        if exists|i: int| 0 <= i < lists.len() && (#[trigger] lists[i]).contains(x) {
            let i = choose|i: int| 0 <= i < lists.len() && (#[trigger] lists[i]).contains(x);
            if i == 0 {
                let k = choose|k: int| 0 <= k < lists[0].len() && lists[0][k] == x;
                assert(f[k] == x);
            } else {
                assert(rest[i - 1] == lists[i]);
                let k = choose|k: int| 0 <= k < rest.flatten().len() && rest.flatten()[k] == x;
                assert(f[k + lists.first().len()] == x);
            }
        }
    }
}

/// Filtering keeps a sequence free of duplicates.
pub proof fn lemma_filter_no_duplicates<A>(s: Seq<A>, f: spec_fn(A) -> bool)
    requires
        s.no_duplicates(),
    ensures
        s.filter(f).no_duplicates(),
    decreases s.len(),
{
    reveal(Seq::filter);
    if s.len() > 0 {
        let t = s.drop_last();
        assert(t.no_duplicates());
        lemma_filter_no_duplicates(t, f);
        if f(s.last()) {
            lemma_filter_contains_iff(t, f, s.last());
            if t.contains(s.last()) {
                let i = choose|i: int| 0 <= i < t.len() && t[i] == s.last();
                assert(s[i] == s[s.len() - 1]);
            }
            let r = t.filter(f).push(s.last());
            assert forall|i: int, j: int| 0 <= i < j < r.len() implies r[i] != r[j] by {
                if j == r.len() - 1 {
                    assert(t.filter(f)[i] == r[i]);
                }
            }
        }
    }
}

/// Filters that agree on every element of a sequence filter it alike.
pub proof fn lemma_filter_ext<A>(s: Seq<A>, f: spec_fn(A) -> bool, g: spec_fn(A) -> bool)
    requires
        forall|i: int| 0 <= i < s.len() ==> f(#[trigger] s[i]) == g(s[i]),
    ensures
        s.filter(f) == s.filter(g),
    decreases s.len(),
{
    reveal(Seq::filter);
    if s.len() > 0 {
        let t = s.drop_last();
        assert forall|i: int| 0 <= i < t.len() implies f(#[trigger] t[i]) == g(t[i]) by {
            assert(t[i] == s[i]);
        }
        lemma_filter_ext(t, f, g);
        assert(f(s[s.len() - 1]) == g(s[s.len() - 1]));
    }
}

/// A filter that every element passes leaves a sequence as it is.
pub proof fn lemma_filter_all<A>(s: Seq<A>, f: spec_fn(A) -> bool)
    requires
        forall|i: int| 0 <= i < s.len() ==> f(#[trigger] s[i]),
    ensures
        s.filter(f) == s,
    decreases s.len(),
{
    reveal(Seq::filter);
    if s.len() > 0 {
        let t = s.drop_last();
        assert forall|i: int| 0 <= i < t.len() implies f(#[trigger] t[i]) by {
            assert(t[i] == s[i]);
        }
        lemma_filter_all(t, f);
        assert(f(s[s.len() - 1]));
        assert(s =~= t.push(s.last()));
    }
}

/// Filtering twice is filtering once by both filters.
pub proof fn lemma_filter_filter<A>(s: Seq<A>, f: spec_fn(A) -> bool, g: spec_fn(A) -> bool)
    ensures
        s.filter(f).filter(g) == s.filter(|x: A| f(x) && g(x)),
    decreases s.len(),
{
    reveal(Seq::filter);
    let fg = |x: A| f(x) && g(x);
    if s.len() > 0 {
        let t = s.drop_last();
        lemma_filter_filter(t, f, g);
        if f(s.last()) {
            t.filter(f).lemma_filter_push(s.last(), g);
        }
    } else {
        assert(s.filter(f).filter(g) =~= s.filter(fg));
    }
}

/// The filter that keeps every port but `x`.
pub open spec fn other_port(x: PortId) -> spec_fn(PortId) -> bool {
    |p: PortId| p != x
}

/// The filter that keeps every edge but `x`.
pub open spec fn other_edge(x: EdgeId) -> spec_fn(EdgeId) -> bool {
    |e: EdgeId| e != x
}

/// The filter that keeps every edge not in `s`.
pub open spec fn edge_not_in(s: Seq<EdgeId>) -> spec_fn(EdgeId) -> bool {
    |e: EdgeId| !s.contains(e)
}

/// A copy of a list of ports.
pub fn copy_ports(v: &Vec<PortId>) -> (r: Vec<PortId>)
    ensures
        r@ == v@,
{
    let mut r: Vec<PortId> = Vec::new();
    let mut i: usize = 0;
    while i < v.len()
        invariant
            i <= v.len(),
            r@ == v@.take(i as int),
        decreases v.len() - i,
    {
        r.push(v[i]);
        i = i + 1;
        assert(r@ =~= v@.take(i as int));
    }
    assert(v@.take(v.len() as int) =~= v@);
    r
}

/// A copy of a list of edges.
pub fn copy_edges(v: &Vec<EdgeId>) -> (r: Vec<EdgeId>)
    ensures
        r@ == v@,
{
    let mut r: Vec<EdgeId> = Vec::new();
    let mut i: usize = 0;
    while i < v.len()
        invariant
            i <= v.len(),
            r@ == v@.take(i as int),
        decreases v.len() - i,
    {
        r.push(v[i]);
        i = i + 1;
        assert(r@ =~= v@.take(i as int));
    }
    assert(v@.take(v.len() as int) =~= v@);
    r
}

/// The ports of `v` other than `x`, in order.
pub fn ports_without(v: &Vec<PortId>, x: PortId) -> (r: Vec<PortId>)
    ensures
        r@ == v@.filter(other_port(x)),
{
    let ghost f = other_port(x);
    let mut r: Vec<PortId> = Vec::new();
    let mut i: usize = 0;
    while i < v.len()
        invariant
            i <= v.len(),
            f == other_port(x),
            r@ == v@.take(i as int).filter(f),
        decreases v.len() - i,
    {
        proof {
            assert(v@.take(i as int + 1) =~= v@.take(i as int).push(v@[i as int]));
            v@.take(i as int).lemma_filter_push(v@[i as int], f);
        }
        let y = v[i];
        if y != x {
            r.push(y);
        }
        i = i + 1;
    }
    assert(v@.take(v.len() as int) =~= v@);
    r
}

/// The edges of `v` other than `x`, in order.
pub fn edges_without(v: &Vec<EdgeId>, x: EdgeId) -> (r: Vec<EdgeId>)
    ensures
        r@ == v@.filter(other_edge(x)),
{
    let ghost f = other_edge(x);
    let mut r: Vec<EdgeId> = Vec::new();
    let mut i: usize = 0;
    while i < v.len()
        invariant
            i <= v.len(),
            f == other_edge(x),
            r@ == v@.take(i as int).filter(f),
        decreases v.len() - i,
    {
        proof {
            assert(v@.take(i as int + 1) =~= v@.take(i as int).push(v@[i as int]));
            v@.take(i as int).lemma_filter_push(v@[i as int], f);
        }
        let y = v[i];
        if y != x {
            r.push(y);
        }
        i = i + 1;
    }
    assert(v@.take(v.len() as int) =~= v@);
    r
}

} // verus!
