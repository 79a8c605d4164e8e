//! A union-find over `0..n`, with path halving and union by size.

use vstd::prelude::*;
use vstd::set_lib::{lemma_int_range, lemma_len_subset, lemma_set_disjoint_lens, set_int_range};

verus! {

/// The indices of `rep` whose representative is `r`.
spec fn class_of(rep: Seq<int>, r: int) -> Set<int> {
    Set::new(|x: int| 0 <= x < rep.len() && rep[x] == r)
}

/// Disjoint sets over the indices `0..n`.
pub struct UnionFind {
    parent: Vec<usize>,
    size: Vec<usize>,
    /// The root of the set of each index.
    rep: Ghost<Seq<int>>,
    /// A rank that strictly grows from an index to its parent.
    rank: Ghost<Seq<nat>>,
    /// A bound above every rank.
    bound: Ghost<nat>,
}

impl UnionFind {
    /// The number of indices.
    pub closed spec fn len(&self) -> nat {
        self.parent@.len()
    }

    /// The representative of the set that holds `x`.
    pub closed spec fn root_of(&self, x: int) -> int {
        self.rep@[x]
    }

    /// The indices whose representative is `r`.
    closed spec fn class(&self, r: int) -> Set<int> {
        class_of(self.rep@, r)
    }

    /// Each root's size is the number of indices in its set.
    closed spec fn sizes_ok(&self) -> bool {
        forall|r: int|
            0 <= r < self.parent@.len() && #[trigger] self.parent@[r] == r ==> self.size@[r]
                == class_of(self.rep@, r).len()
    }

    /// The union-find is well formed.
    pub closed spec fn wf(&self) -> bool {
        let n = self.parent@.len();
        &&& self.size@.len() == n
        &&& self.rep@.len() == n
        &&& self.rank@.len() == n
        &&& forall|x: int| 0 <= x < n ==> #[trigger] self.parent@[x] < n
        &&& forall|x: int| 0 <= x < n ==> 0 <= #[trigger] self.rep@[x] < n
        &&& forall|x: int| 0 <= x < n ==> #[trigger] self.parent@[self.rep@[x]] == self.rep@[x]
        &&& forall|x: int|
            0 <= x < n ==> #[trigger] self.rep@[self.parent@[x] as int] == self.rep@[x]
        &&& forall|x: int| 0 <= x < n && #[trigger] self.parent@[x] == x ==> self.rep@[x] == x
        &&& forall|x: int|
            0 <= x < n && #[trigger] self.parent@[x] != x ==> self.rank@[x] < self.rank@[self.parent@[x] as int]
        &&& forall|x: int| 0 <= x < n ==> #[trigger] self.rank@[x] < self.bound@
        &&& self.sizes_ok()
    }

    proof fn lemma_class_finite(&self, r: int)
        ensures
            self.class(r).finite(),
            self.class(r).len() <= self.rep@.len(),
    {
        lemma_int_range(0, self.rep@.len() as int);
        lemma_len_subset(self.class(r), set_int_range(0, self.rep@.len() as int));
    }

    /// Every representative is an index.
    pub proof fn lemma_roots_in_range(&self)
        requires
            self.wf(),
        ensures
            forall|x: int| 0 <= x < self.len() ==> 0 <= #[trigger] self.root_of(x) < self.len(),
    {
    }

    /// `n` singleton sets, one per index.
    pub fn new(n: usize) -> (uf: UnionFind)
        ensures
            uf.wf(),
            uf.len() == n,
            forall|x: int| 0 <= x < n ==> #[trigger] uf.root_of(x) == x,
    {
        let mut parent: Vec<usize> = Vec::new();
        let mut size: Vec<usize> = Vec::new();
        let mut i: usize = 0;
        while i < n
            invariant
                i <= n,
                parent@.len() == i,
                size@.len() == i,
                forall|x: int| 0 <= x < i ==> #[trigger] parent@[x] == x,
                forall|x: int| 0 <= x < i ==> #[trigger] size@[x] == 1,
            decreases n - i,
        {
            parent.push(i);
            size.push(1);
            i = i + 1;
        }
        let ghost rep = Seq::new(n as nat, |x: int| x);
        let ghost rank = Seq::new(n as nat, |x: int| 0nat);
        let uf = UnionFind { parent, size, rep: Ghost(rep), rank: Ghost(rank), bound: Ghost(1) };
        proof {
            assert forall|r: int| 0 <= r < n && #[trigger] uf.parent@[r] == r implies uf.size@[r]
                == class_of(uf.rep@, r).len() by {
                assert(class_of(uf.rep@, r) =~= set![r]);
            }
        }
        uf
    }

    /// The representative of the set that holds `x`, halving the path to it
    /// on the way; no set changes.
    pub fn find(&mut self, x: usize) -> (r: usize)
        requires
            old(self).wf(),
            x < old(self).len(),
        ensures
            final(self).wf(),
            final(self).len() == old(self).len(),
            r == old(self).root_of(x as int),
            r < old(self).len(),
            old(self).root_of(r as int) == r,
            forall|y: int| 0 <= y < old(self).len() ==> #[trigger] final(self).root_of(y) == old(self).root_of(y),
    {
        proof {
            let rx = old(self).rep@[x as int];
            assert(old(self).parent@[old(self).rep@[x as int]] == rx);
            assert(old(self).rep@[rx] == rx);
        }
        let ghost n = self.parent@.len();
        let ghost x0 = x as int;
        let mut x = x;
        while self.parent[x] != x
            invariant
                self.wf(),
                self.parent@.len() == n,
                x < n,
                self.rep@ == old(self).rep@,
                self.rank@ == old(self).rank@,
                self.bound@ == old(self).bound@,
                self.size@ == old(self).size@,
                0 <= x0 < n,
                self.rep@[x as int] == old(self).rep@[x0],
            decreases self.bound@ - self.rank@[x as int],
        {
            let p = self.parent[x];
            let gp = self.parent[p];
            proof {
                assert(self.rep@[self.parent@[x as int] as int] == self.rep@[x as int]);
                assert(self.rep@[self.parent@[p as int] as int] == self.rep@[p as int]);
                assert(self.rep@[p as int] == self.rep@[x as int]);
                assert(self.rank@[x as int] < self.rank@[p as int]);
                if gp != p {
                    assert(self.rank@[p as int] < self.rank@[gp as int]);
                }
                assert(self.rep@[gp as int] == self.rep@[x as int]);
            }
            let ghost before = self.parent@;
            self.parent.set(x, gp);
            proof {
                assert forall|r: int| 0 <= r < n && #[trigger] self.parent@[r] == r implies self.size@[r]
                    == class_of(self.rep@, r).len() by {
                    assert(before[r] == r);
                }
            }
            x = gp;
        }
        proof {
            assert(self.parent@[x as int] == x);
        }
        x
    }

    /// Merges the sets that hold `a` and `b`.
    pub fn union(&mut self, a: usize, b: usize)
        requires
            old(self).wf(),
            a < old(self).len(),
            b < old(self).len(),
        ensures
            final(self).wf(),
            final(self).len() == old(self).len(),
            forall|x: int, y: int|
                0 <= x < old(self).len() && 0 <= y < old(self).len() ==> (#[trigger] final(self).root_of(x)
                    == #[trigger] final(self).root_of(y) <==> old(self).root_of(x) == old(self).root_of(y)
                    || (old(self).root_of(x) == old(self).root_of(a as int) && old(self).root_of(y)
                    == old(self).root_of(b as int)) || (old(self).root_of(x) == old(self).root_of(b as int)
                    && old(self).root_of(y) == old(self).root_of(a as int))),
    {
        let ghost n = self.parent@.len();
        let ghost orig = self.rep@;
        let mut ra = self.find(a);
        let mut rb = self.find(b);
        proof {
            assert forall|y: int| 0 <= y < n implies self.rep@[y] == orig[y] by {
                assert(self.root_of(y) == orig[y]);
            }
            assert(self.rep@ =~= orig);
        }
        if ra == rb {
            return;
        }
        proof {
            assert(self.root_of(a as int) == ra);
            assert(self.root_of(b as int) == rb);
        }
        if self.size[ra] < self.size[rb] {
            let t = ra;
            ra = rb;
            rb = t;
        }
        proof {
            assert(self.parent@[self.rep@[a as int]] == self.rep@[a as int]);
            assert(self.parent@[self.rep@[b as int]] == self.rep@[b as int]);
            assert(self.parent@[ra as int] == ra);
            assert(self.parent@[rb as int] == rb);
            self.lemma_class_finite(ra as int);
            self.lemma_class_finite(rb as int);
            assert(self.size@[ra as int] == class_of(self.rep@, ra as int).len());
            assert(self.size@[rb as int] == class_of(self.rep@, rb as int).len());
            assert(self.class(ra as int).disjoint(self.class(rb as int)));
            lemma_set_disjoint_lens(self.class(ra as int), self.class(rb as int));
            lemma_int_range(0, n as int);
            assert(self.class(ra as int) + self.class(rb as int) <= set_int_range(0, n as int));
            lemma_len_subset(
                self.class(ra as int) + self.class(rb as int),
                set_int_range(0, n as int),
            );
            assert(self.size@[ra as int] + self.size@[rb as int] <= n);
            assert(self.parent@.len() == self.parent.len());
            assert(n <= usize::MAX);
        }
        let ghost old_rep = self.rep@;
        let ghost old_rank = self.rank@;
        let ghost merged = self.class(ra as int) + self.class(rb as int);
        self.parent.set(rb, ra);
        let new_size = self.size[ra] + self.size[rb];
        self.size.set(ra, new_size);
        proof {
            let rai = ra as int;
            let rbi = rb as int;
            self.rep@ = old_rep.map_values(|r: int| if r == rbi { rai } else { r });
            let new_rank: nat = if old_rank[rai] > old_rank[rbi] { old_rank[rai] } else { old_rank[rbi] + 1 };
            self.rank@ = old_rank.update(rai, new_rank);
            self.bound@ = if self.bound@ > new_rank { self.bound@ } else { new_rank + 1 };
            assert forall|r: int| 0 <= r < n && #[trigger] self.parent@[r] == r implies self.size@[r]
                == class_of(self.rep@, r).len() by {
                if r == rai {
                    assert(class_of(self.rep@, r) =~= merged);
                } else {
                    assert(class_of(self.rep@, r) =~= class_of(old_rep, r));
                }
            }
            assert forall|x: int| 0 <= x < n && #[trigger] self.parent@[x] != x implies self.rank@[x]
                < self.rank@[self.parent@[x] as int] by {
                if x == rbi {
                } else if self.parent@[x] as int == rai {
                }
            }
            assert forall|x: int| 0 <= x < n implies #[trigger] self.rank@[x] < self.bound@ by {}
            assert(orig[a as int] == rai || orig[a as int] == rbi);
            assert(orig[b as int] == rai || orig[b as int] == rbi);
        }
    }
}

} // verus!
