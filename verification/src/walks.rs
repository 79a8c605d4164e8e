//! Walks over a step relation, and the "joined" relation they induce.
//!
//! A walk is a non-empty sequence whose consecutive elements are related by
//! a step; `x` is joined to `y` when some walk starts at `x` and ends at
//! `y`. Reachability between nodes and connectivity between ports are both
//! instances.

use vstd::prelude::*;

verus! {

/// `w` is non-empty and each element is one step from the one before.
pub open spec fn is_walk<T>(step: spec_fn(T, T) -> bool, w: Seq<T>) -> bool
    decreases w.len(),
{
    if w.len() <= 1 {
        w.len() == 1
    } else {
        step(w[0], w[1]) && is_walk(step, w.drop_first())
    }
}

/// Some walk leads from `x` to `y`.
pub open spec fn joined<T>(step: spec_fn(T, T) -> bool, x: T, y: T) -> bool {
    exists|w: Seq<T>| #[trigger] is_walk(step, w) && w[0] == x && w.last() == y
}

/// Every element is joined to itself.
pub proof fn lemma_joined_refl<T>(step: spec_fn(T, T) -> bool, x: T)
    ensures
        joined(step, x, x),
{
    let w = seq![x];
    assert(is_walk(step, w));
}

/// A step from `x` joins `x` to where it leads.
pub proof fn lemma_joined_one_step<T>(step: spec_fn(T, T) -> bool, x: T, y: T)
    requires
        step(x, y),
    ensures
        joined(step, x, y),
{
    let w = seq![x, y];
    assert(w.drop_first() =~= seq![y]);
    assert(is_walk(step, w.drop_first()));
    assert(is_walk(step, w));
}

/// Joining is transitive.
pub proof fn lemma_joined_trans<T>(step: spec_fn(T, T) -> bool, x: T, y: T, z: T)
    requires
        joined(step, x, y),
        joined(step, y, z),
    ensures
        joined(step, x, z),
{
    let w1 = choose|w: Seq<T>| #[trigger] is_walk(step, w) && w[0] == x && w.last() == y;
    let w2 = choose|w: Seq<T>| #[trigger] is_walk(step, w) && w[0] == y && w.last() == z;
    lemma_walk_concat(step, w1, w2);
    let w = w1 + w2.drop_first();
    assert(w[0] == x);
    if w2.len() == 1 {
        assert(w =~= w1);
    } else {
        assert(w.last() == w2.last());
    }
}

/// Gluing a walk that ends where a second one starts gives a walk.
pub proof fn lemma_walk_concat<T>(step: spec_fn(T, T) -> bool, w1: Seq<T>, w2: Seq<T>)
    requires
        is_walk(step, w1),
        is_walk(step, w2),
        w1.last() == w2[0],
    ensures
        is_walk(step, w1 + w2.drop_first()),
    decreases w1.len(),
{
    if w1.len() == 1 {
        assert(w1 + w2.drop_first() =~= w2);
    } else {
        lemma_walk_concat(step, w1.drop_first(), w2);
        assert((w1 + w2.drop_first()).drop_first() =~= w1.drop_first() + w2.drop_first());
    }
}

/// A set that holds `x` and is closed under steps holds everything `x` is
/// joined to.
pub proof fn lemma_closed_holds_joined<T>(step: spec_fn(T, T) -> bool, s: Set<T>, x: T, y: T)
    requires
        s.contains(x),
        forall|u: T, v: T| #[trigger] s.contains(u) && step(u, v) ==> #[trigger] s.contains(v),
        joined(step, x, y),
    ensures
        s.contains(y),
{
    let w = choose|w: Seq<T>| #[trigger] is_walk(step, w) && w[0] == x && w.last() == y;
    lemma_walk_in_closed(step, s, w);
}

proof fn lemma_walk_in_closed<T>(step: spec_fn(T, T) -> bool, s: Set<T>, w: Seq<T>)
    requires
        is_walk(step, w),
        s.contains(w[0]),
        forall|u: T, v: T| #[trigger] s.contains(u) && step(u, v) ==> #[trigger] s.contains(v),
    ensures
        s.contains(w.last()),
    decreases w.len(),
{
    if w.len() > 1 {
        assert(step(w[0], w[1]));
        assert(s.contains(w[1]));
        assert(w.drop_first()[0] == w[1]);
        lemma_walk_in_closed(step, s, w.drop_first());
        assert(w.drop_first().last() == w.last());
    }
}

/// A map that sends steps to steps sends joined pairs to joined pairs.
pub proof fn lemma_joined_map<A, B>(
    s1: spec_fn(A, A) -> bool,
    s2: spec_fn(B, B) -> bool,
    f: spec_fn(A) -> B,
    x: A,
    y: A,
)
    requires
        forall|u: A, v: A| #[trigger] s1(u, v) ==> s2(f(u), f(v)),
        joined(s1, x, y),
    ensures
        joined(s2, f(x), f(y)),
{
    let w = choose|w: Seq<A>| #[trigger] is_walk(s1, w) && w[0] == x && w.last() == y;
    lemma_walk_map(s1, s2, f, w);
    let m = w.map_values(f);
    assert(m[0] == f(x));
    assert(m.last() == f(y));
}

proof fn lemma_walk_map<A, B>(
    s1: spec_fn(A, A) -> bool,
    s2: spec_fn(B, B) -> bool,
    f: spec_fn(A) -> B,
    w: Seq<A>,
)
    requires
        forall|u: A, v: A| #[trigger] s1(u, v) ==> s2(f(u), f(v)),
        is_walk(s1, w),
    ensures
        is_walk(s2, w.map_values(f)),
    decreases w.len(),
{
    if w.len() > 1 {
        lemma_walk_map(s1, s2, f, w.drop_first());
        assert(w.map_values(f).drop_first() =~= w.drop_first().map_values(f));
        assert(s1(w[0], w[1]));
    }
}

/// With a symmetric step, joining is symmetric.
pub proof fn lemma_joined_symmetric<T>(step: spec_fn(T, T) -> bool, x: T, y: T)
    requires
        forall|u: T, v: T| #[trigger] step(u, v) ==> step(v, u),
        joined(step, x, y),
    ensures
        joined(step, y, x),
{
    let w = choose|w: Seq<T>| #[trigger] is_walk(step, w) && w[0] == x && w.last() == y;
    lemma_walk_reverse(step, w);
}

proof fn lemma_walk_reverse<T>(step: spec_fn(T, T) -> bool, w: Seq<T>)
    requires
        forall|u: T, v: T| #[trigger] step(u, v) ==> step(v, u),
        is_walk(step, w),
    ensures
        joined(step, w.last(), w[0]),
    decreases w.len(),
{
    if w.len() == 1 {
        lemma_joined_refl(step, w[0]);
    } else {
        let t = w.drop_first();
        lemma_walk_reverse(step, t);
        assert(t.last() == w.last());
        assert(step(w[0], w[1]));
        assert(step(w[1], w[0]));
        lemma_joined_one_step(step, w[1], w[0]);
        lemma_joined_trans(step, w.last(), w[1], w[0]);
    }
}

} // verus!
