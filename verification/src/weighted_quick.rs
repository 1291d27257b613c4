use vstd::prelude::*;

use vstd::arithmetic::power::lemma_pow0;
use vstd::arithmetic::power2::{lemma_pow2, lemma_pow2_unfold, pow2};

use crate::count::lemma_count_at_most;
use crate::forest::{
    component_size, depth, lemma_identity, lemma_identity_sizes, lemma_link,
    lemma_relabeled_joins, lemma_root, ranks, root,
};
use crate::union_find::{Sites, UnionFindAlgo};

verus! {

/// Weighted quick-union: like quick-union, but the smaller tree is always hung below
/// the root of the larger one, keeping the trees shallow.
pub struct WeightedQuickUnion {
    sites: Sites,
    lengths: Vec<usize>,
}

impl WeightedQuickUnion {
    /// The size kept for each site; for a root, the number of sites in its tree.
    pub closed spec fn lengths_spec(&self) -> Seq<usize> {
        self.lengths@
    }

    /// The size counters after `union(p, q)`: the root that stays a root counts the
    /// sites of both trees.
    pub open spec fn lengths_after_union(&self, p: int, q: int) -> Seq<usize> {
        let arr = self.sites_spec().arr@;
        let a = root(arr, p);
        let b = root(arr, q);
        let la = self.lengths_spec()[a];
        let lb = self.lengths_spec()[b];
        if a == b {
            self.lengths_spec()
        } else if la < lb {
            self.lengths_spec().update(b, (la + lb) as usize)
        } else {
            self.lengths_spec().update(a, (la + lb) as usize)
        }
    }

    /// There is one counter per site, and the counter of each root is the number of
    /// sites in its tree.
    pub proof fn lemma_sizes(&self)
        requires
            self.inv(),
        ensures
            self.lengths_spec().len() == self.sites_spec().arr@.len(),
            forall|r: int|
                0 <= r < self.sites_spec().arr@.len() && self.sites_spec().arr@[r] == r
                    ==> #[trigger] self.lengths_spec()[r] == component_size(self.sites_spec().arr@, r),
    {
    }

    /// The trees stay shallow: a site at depth `d` lies in a tree of at least `2^d`
    /// sites, so no site lies deeper than `log2(n)`.
    pub proof fn lemma_shallow(&self)
        requires
            self.inv(),
        ensures
            forall|i: int|
                0 <= i < self.sites_spec().arr@.len() ==> pow2(#[trigger] depth(self.sites_spec().arr@, i))
                    <= component_size(self.sites_spec().arr@, root(self.sites_spec().arr@, i)),
            forall|i: int|
                0 <= i < self.sites_spec().arr@.len() ==> pow2(#[trigger] depth(self.sites_spec().arr@, i))
                    <= self.sites_spec().arr@.len(),
    {
        let arr = self.sites.arr@;
        assert forall|i: int| 0 <= i < arr.len() implies pow2(#[trigger] depth(arr, i)) <= arr.len() by {
            assert(pow2(depth(arr, i)) <= component_size(arr, root(arr, i)));
            lemma_count_at_most(arr.len() as int, |k: int| root(arr, k) == root(arr, i));
        }
    }
}

impl UnionFindAlgo for WeightedQuickUnion {
    closed spec fn sites_spec(&self) -> Sites {
        self.sites
    }

    closed spec fn inv(&self) -> bool {
        &&& self.sites.wf()
        &&& self.lengths@.len() == self.sites.arr@.len()
        &&& forall|r: int|
            0 <= r < self.sites.arr@.len() && self.sites.arr@[r] == r ==> #[trigger] self.lengths@[r]
                == component_size(self.sites.arr@, r)
        &&& forall|i: int|
            0 <= i < self.sites.arr@.len() ==> pow2(#[trigger] depth(self.sites.arr@, i))
                <= component_size(self.sites.arr@, root(self.sites.arr@, i))
    }

    open spec fn after_union(&self, p: int, q: int) -> Seq<usize> {
        let arr = self.sites_spec().arr@;
        let a = root(arr, p);
        let b = root(arr, q);
        if a == b {
            arr
        } else if self.lengths_spec()[a] < self.lengths_spec()[b] {
            arr.update(a, b as usize)
        } else {
            arr.update(b, a as usize)
        }
    }

    proof fn lemma_inv(&self) {
    }

    proof fn lemma_after_union_same(&self, p: int, q: int) {
    }

    /// Every site starts alone, with a size counter of one.
    fn new(n: usize) -> (r: Self)
        ensures
            r.lengths_spec() == Seq::new(n as nat, |i: int| 1usize),
    {
        let sites = Sites::new(n);
        let lengths = vec![1; n];
        proof {
            lemma_identity(n as nat);
            lemma_identity_sizes(n as nat);
            assert forall|r: int| 0 <= r < n implies #[trigger] lengths@[r] == 1 by {}
            assert(lengths@ =~= Seq::new(n as nat, |i: int| 1usize));
            lemma_pow2(0);
            lemma_pow0(2);
        }
        WeightedQuickUnion { sites, lengths }
    }

    fn find(&mut self, p: usize) -> (r: usize) {
        let ghost arr = self.sites.arr@;
        let ghost start = p as int;
        let ghost depth = choose|d: Seq<nat>| ranks(arr, d);
        let mut p = p;
        proof {
            lemma_root(arr, start);
        }
        while p != self.sites.arr[p]
            invariant
                self.sites.wf(),
                self.sites.arr@ == arr,
                ranks(arr, depth),
                p < arr.len(),
                root(arr, p as int) == root(arr, start),
            decreases depth[p as int],
        {
            proof {
                lemma_root(arr, p as int);
            }
            p = self.sites.arr[p];
        }
        proof {
            lemma_root(arr, p as int);
        }
        p
    }

    /// Hangs the root with the smaller tree below the other root; on a tie the root
    /// of `q` goes below the root of `p`.
    fn union(&mut self, p: usize, q: usize)
        ensures
            final(self).lengths_spec() == old(self).lengths_after_union(p as int, q as int),
            ({
                let arr = old(self).sites_spec().arr@;
                let a = root(arr, p as int);
                let b = root(arr, q as int);
                let la = old(self).lengths_spec()[a];
                let lb = old(self).lengths_spec()[b];
                a != b ==> if la < lb {
                    &&& final(self).sites_spec().arr@ == arr.update(a, b as usize)
                    &&& final(self).lengths_spec() == old(self).lengths_spec().update(b, (la + lb) as usize)
                } else {
                    &&& final(self).sites_spec().arr@ == arr.update(b, a as usize)
                    &&& final(self).lengths_spec() == old(self).lengths_spec().update(a, (la + lb) as usize)
                }
            }),
    {
        let i = self.find(p);
        let j = self.find(q);
        if i == j {
            return;
        }
        let ghost before = self.sites.arr@;
        let ghost lens = self.lengths@;
        proof {
            lemma_root(before, p as int);
            lemma_root(before, q as int);
            assert(lens[i as int] == component_size(before, i as int));
            assert(lens[j as int] == component_size(before, j as int));
            assert(before.len() == self.sites.arr.len());
        }
        if self.lengths[i] < self.lengths[j] {
            proof {
                lemma_link(before, i as int, j as int);
                lemma_relabeled_joins(before, before.update(i as int, j), p as int, q as int);
                assert(lens[i as int] + lens[j as int] <= usize::MAX);
            }
            self.sites.arr[i] = j;
            self.lengths[j] += self.lengths[i];
            proof {
                let after = self.sites.arr@;
                assert forall|r: int| 0 <= r < after.len() && after[r] == r implies #[trigger] self.lengths@[r]
                    == component_size(after, r) by {
                    if r != j as int {
                        assert(before[r] == r);
                    }
                }
                assert forall|x: int| 0 <= x < after.len() implies pow2(#[trigger] depth(after, x))
                    <= component_size(after, root(after, x)) by {
                    lemma_root(before, x);
                    assert(pow2(depth(before, x)) <= component_size(before, root(before, x)));
                    if root(before, x) == i as int {
                        lemma_pow2_unfold(depth(after, x));
                    }
                }
            }
        } else {
            proof {
                lemma_link(before, j as int, i as int);
                lemma_relabeled_joins(before, before.update(j as int, i), p as int, q as int);
                assert(lens[i as int] + lens[j as int] <= usize::MAX);
            }
            self.sites.arr[j] = i;
            self.lengths[i] += self.lengths[j];
            proof {
                let after = self.sites.arr@;
                assert forall|r: int| 0 <= r < after.len() && after[r] == r implies #[trigger] self.lengths@[r]
                    == component_size(after, r) by {
                    if r != i as int {
                        assert(before[r] == r);
                    }
                }
                assert forall|x: int| 0 <= x < after.len() implies pow2(#[trigger] depth(after, x))
                    <= component_size(after, root(after, x)) by {
                    lemma_root(before, x);
                    assert(pow2(depth(before, x)) <= component_size(before, root(before, x)));
                    if root(before, x) == j as int {
                        lemma_pow2_unfold(depth(after, x));
                    }
                }
            }
        }
        self.sites.count -= 1;
    }

    fn get_sites(&self) -> (r: &Sites) {
        &self.sites
    }
}

}
