use vstd::prelude::*;

use crate::forest::{
    is_flat, lemma_flat, lemma_flat_relabel, lemma_link, lemma_relabeled_joins,
    lemma_root, ranks, relabel, root, same_tree,
};
use crate::union_find::{Sites, UnionFindAlgo};

verus! {

/// Quick-union: each site points at its parent; `union` hangs the root of `p`
/// below the root of `q`.
#[derive(Debug)]
pub struct QuickUnion {
    sites: Sites,
}

impl UnionFindAlgo for QuickUnion {
    closed spec fn sites_spec(&self) -> Sites {
        self.sites
    }

    closed spec fn inv(&self) -> bool {
        self.sites.wf()
    }

    open spec fn after_union(&self, p: int, q: int) -> Seq<usize> {
        let arr = self.sites_spec().arr@;
        if root(arr, p) == root(arr, q) {
            arr
        } else {
            arr.update(root(arr, p), root(arr, q) as usize)
        }
    }

    proof fn lemma_inv(&self) {
    }

    proof fn lemma_after_union_same(&self, p: int, q: int) {
    }

    fn new(n: usize) -> (r: Self) {
        QuickUnion { sites: Sites::new(n) }
    }

    fn find(&mut self, p: usize) -> (r: usize) {
        let ghost arr = self.sites.arr@;
        let ghost start = p as int;
        let ghost depth = choose|d: Seq<nat>| ranks(arr, d);
        let mut p = p;
        proof {
            lemma_root(arr, start);
        }
        while p != self.sites.get(p)
            invariant
                self.sites.wf(),
                self.sites.arr@ == arr,
                ranks(arr, depth),
                p < arr.len(),
                root(arr, p as int) == root(arr, start),
            decreases depth[p as int],
        {
            proof {
                lemma_root(arr, p as int);
            }
            p = self.sites.get(p);
        }
        proof {
            lemma_root(arr, p as int);
        }
        p
    }

    /// Links the root of `p` below the root of `q`.
    fn union(&mut self, p: usize, q: usize)
        ensures
            !same_tree(old(self).sites_spec().arr@, p as int, q as int) ==> final(self).sites_spec().arr@ == old(self).sites_spec().arr@.update(
                root(old(self).sites_spec().arr@, p as int),
                root(old(self).sites_spec().arr@, q as int) as usize,
            ),
    {
        let p_root = self.find(p);
        let q_root = self.find(q);

        if p_root == q_root {
            return;
        }
        let ghost before = self.sites.arr@;
        proof {
            lemma_root(before, p as int);
            lemma_root(before, q as int);
            lemma_link(before, p_root as int, q_root as int);
            lemma_relabeled_joins(before, before.update(p_root as int, q_root), p as int, q as int);
        }
        self.sites.set(p_root, q_root);

        self.sites.count -= 1;
    }

    fn get_sites(&self) -> (r: &Sites) {
        &self.sites
    }
}

/// Quick-find: each site points straight at the identifier of its component;
/// `union` renames the component of `p` to that of `q`.
#[derive(Debug)]
pub struct QuickFind {
    sites: Sites,
}

impl QuickFind {
    /// Every site points straight at the root of its tree: the forest is flat.
    pub proof fn lemma_flat_sites(&self)
        requires
            self.inv(),
        ensures
            is_flat(self.sites_spec().arr@),
            forall|i: int|
                0 <= i < self.sites_spec().arr@.len() ==> #[trigger] root(self.sites_spec().arr@, i)
                    == self.sites_spec().arr@[i],
    {
        lemma_flat(self.sites.arr@);
    }
}

impl UnionFindAlgo for QuickFind {
    closed spec fn sites_spec(&self) -> Sites {
        self.sites
    }

    closed spec fn inv(&self) -> bool {
        self.sites.wf() && is_flat(self.sites.arr@)
    }

    open spec fn after_union(&self, p: int, q: int) -> Seq<usize> {
        let arr = self.sites_spec().arr@;
        relabel(arr, arr[p], arr[q])
    }

    proof fn lemma_inv(&self) {
    }

    proof fn lemma_after_union_same(&self, p: int, q: int) {
        let arr = self.sites.arr@;
        lemma_flat(arr);
        assert(relabel(arr, arr[p], arr[q]) =~= arr);
    }

    fn new(n: usize) -> (r: Self) {
        let sites = Sites::new(n);
        assert(is_flat(sites.arr@));
        QuickFind { sites }
    }

    /// The identifier stored for `p` is its root.
    fn find(&mut self, p: usize) -> (r: usize)
        ensures
            r == old(self).sites_spec().arr@[p as int],
    {
        proof {
            lemma_flat(self.sites.arr@);
        }
        self.sites.get(p)
    }

    /// Every site in the component of `p` takes the identifier of `q`'s component.
    fn union(&mut self, p: usize, q: usize)
        ensures
            final(self).sites_spec().arr@ == relabel(
                old(self).sites_spec().arr@,
                old(self).sites_spec().arr@[p as int],
                old(self).sites_spec().arr@[q as int],
            ),
    {
        let ghost before = self.sites.arr@;
        let p_id = self.find(p);
        let q_id = self.find(q);

        proof {
            lemma_flat(before);
        }
        if p_id == q_id {
            assert(self.sites.arr@ =~= relabel(before, p_id, q_id));
            return;
        }
        proof {
            lemma_flat(before);
            lemma_flat_relabel(before, p_id, q_id);
            lemma_relabeled_joins(before, relabel(before, p_id, q_id), p as int, q as int);
        }
        let n = self.sites.length();
        for i in 0..n
            invariant
                n == before.len(),
                self.sites.arr@.len() == before.len(),
                self.sites.count == old(self).sites.count,
                forall|k: int|
                    0 <= k < i ==> #[trigger] self.sites.arr@[k] == relabel(before, p_id, q_id)[k],
                forall|k: int| i <= k < n ==> #[trigger] self.sites.arr@[k] == before[k],
        {
            if self.sites.get(i) == p_id {
                self.sites.set(i, q_id);
            }
        }
        assert(self.sites.arr@ =~= relabel(before, p_id, q_id));
        self.sites.count -= 1;
    }

    fn get_sites(&self) -> (r: &Sites) {
        &self.sites
    }
}

}
