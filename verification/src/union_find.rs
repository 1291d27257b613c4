use vstd::prelude::*;

use vstd::utf8::encode_utf8;

use crate::forest::{
    child_of, identity, is_forest, law_tree_children, law_tree_roots, num_children, strictly_increasing, joined, lemma_identity, num_roots, root, same_tree, tree_children,
    tree_roots,
};
use crate::text::{
    find_space, lemma_fields, pair_line_readable, pair_of_line, parse_usize, parse_usize_range,
    usize_literal,
};
use crate::quick::{QuickFind, QuickUnion};
use crate::weighted_quick::WeightedQuickUnion;

verus! {

/// The most sites that the playground draws.
pub const MAX_DISPLAYED_SITES: usize = 1000;

/// Which union-find algorithm to run.
#[derive(Debug, PartialEq, Eq, Structural, Clone)]
pub enum UnionFindChoice {
    QuickFind,
    QuickUnion,
    WeightedQuickUnion,
}

impl Default for UnionFindChoice {
    fn default() -> (r: Self)
        ensures
            r == UnionFindChoice::QuickFind,
    {
        UnionFindChoice::QuickFind
    }
}

/// One of the union-find algorithms, as picked by a [`UnionFindChoice`].
pub enum AnyUnionFind {
    QuickFind(QuickFind),
    QuickUnion(QuickUnion),
    WeightedQuickUnion(WeightedQuickUnion),
}

impl AnyUnionFind {
    /// Which algorithm this is.
    pub open spec fn kind(&self) -> UnionFindChoice {
        match self {
            AnyUnionFind::QuickFind(_) => UnionFindChoice::QuickFind,
            AnyUnionFind::QuickUnion(_) => UnionFindChoice::QuickUnion,
            AnyUnionFind::WeightedQuickUnion(_) => UnionFindChoice::WeightedQuickUnion,
        }
    }
}

impl UnionFindChoice {
    /// A fresh algorithm of the chosen kind over `n` sites, each its own component.
    pub fn create(&self, n: usize) -> (r: AnyUnionFind)
        ensures
            r.kind() == *self,
            r matches AnyUnionFind::WeightedQuickUnion(w) ==> w.lengths_spec() == Seq::new(
                n as nat,
                |i: int| 1usize,
            ),
            r.inv(),
            r.sites_spec().arr@ == identity(n as nat),
            r.sites_spec().count == n,
    {
        match self {
            UnionFindChoice::QuickFind => AnyUnionFind::QuickFind(QuickFind::new(n)),
            UnionFindChoice::QuickUnion => AnyUnionFind::QuickUnion(QuickUnion::new(n)),
            UnionFindChoice::WeightedQuickUnion => AnyUnionFind::WeightedQuickUnion(
                WeightedQuickUnion::new(n),
            ),
        }
    }
}

/// A union-find algorithm over the sites `0 .. n`.
pub trait UnionFindAlgo: Sized {
    /// The sites as the algorithm holds them.
    spec fn sites_spec(&self) -> Sites;

    /// The algorithm's own invariant.
    spec fn inv(&self) -> bool;

    /// The parent array that `union(p, q)` leaves behind.
    spec fn after_union(&self, p: int, q: int) -> Seq<usize>;

    /// The invariant keeps the sites well formed.
    proof fn lemma_inv(&self)
        requires
            self.inv(),
        ensures
            self.sites_spec().wf(),
    ;

    /// Joining two sites of one component changes nothing.
    proof fn lemma_after_union_same(&self, p: int, q: int)
        requires
            self.inv(),
            0 <= p < self.sites_spec().arr@.len(),
            0 <= q < self.sites_spec().arr@.len(),
            same_tree(self.sites_spec().arr@, p, q),
        ensures
            self.after_union(p, q) == self.sites_spec().arr@,
    ;

    /// `n` sites, each in a component of its own.
    fn new(n: usize) -> (r: Self)
        ensures
            r.inv(),
            r.sites_spec().arr@ == identity(n as nat),
            r.sites_spec().count == n,
    ;

    /// The root of the tree that holds `p`.
    fn find(&mut self, p: usize) -> (r: usize)
        requires
            old(self).inv(),
            p < old(self).sites_spec().arr@.len(),
        ensures
            *final(self) == *old(self),
            r == root(old(self).sites_spec().arr@, p as int),
    ;

    /// Merges the components of `p` and `q`.
    fn union(&mut self, p: usize, q: usize)
        requires
            old(self).inv(),
            p < old(self).sites_spec().arr@.len(),
            q < old(self).sites_spec().arr@.len(),
        ensures
            final(self).inv(),
            final(self).sites_spec().arr@ == old(self).after_union(p as int, q as int),
            joined(old(self).sites_spec().arr@, final(self).sites_spec().arr@, p as int, q as int),
            same_tree(old(self).sites_spec().arr@, p as int, q as int) ==> *final(self)
                == *old(self),
            !same_tree(old(self).sites_spec().arr@, p as int, q as int) ==> final(self).sites_spec().count + 1 == old(self).sites_spec().count,
    ;

    /// Whether `p` and `q` lie in the same component.
    fn connected(&mut self, p: usize, q: usize) -> (r: bool)
        requires
            old(self).inv(),
            p < old(self).sites_spec().arr@.len(),
            q < old(self).sites_spec().arr@.len(),
        ensures
            *final(self) == *old(self),
            r == same_tree(old(self).sites_spec().arr@, p as int, q as int),
    {
        let a = self.find(p);
        let b = self.find(q);
        a == b
    }

    /// The sites, read only.
    fn get_sites(&self) -> (r: &Sites)
        ensures
            *r == self.sites_spec(),
    ;
}

/// The parent array of a union-find forest and its number of components.
#[derive(Debug, Clone)]
pub struct Sites {
    pub arr: Vec<usize>,
    pub count: usize,
}

impl Sites {
    /// `arr` is a forest and `count` is its number of trees.
    pub open spec fn wf(&self) -> bool {
        is_forest(self.arr@) && self.count == num_roots(self.arr@)
    }

    /// `n` sites, each its own root.
    pub fn new(n: usize) -> (r: Self)
        ensures
            r.arr@ == identity(n as nat),
            r.count == n,
            r.wf(),
    {
        let mut arr: Vec<usize> = Vec::new();
        let mut i: usize = 0;
        while i < n
            invariant
                i <= n,
                arr@ == identity(i as nat),
            decreases n - i,
        {
            arr.push(i);
            i = i + 1;
            assert(arr@ =~= identity(i as nat));
        }
        proof {
            lemma_identity(n as nat);
        }
        Sites { arr, count: n }
    }

    /// The number of sites.
    pub fn length(&self) -> (r: usize)
        ensures
            r == self.arr@.len(),
    {
        self.arr.len()
    }

    /// The parent of site `i`.
    pub fn get(&self, i: usize) -> (r: usize)
        requires
            i < self.arr@.len(),
        ensures
            r == self.arr@[i as int],
    {
        self.arr[i]
    }

    /// Makes `v` the parent of site `i`.
    pub fn set(&mut self, i: usize, v: usize)
        requires
            i < old(self).arr@.len(),
        ensures
            final(self).arr@ == old(self).arr@.update(i as int, v),
            final(self).count == old(self).count,
    {
        self.arr[i] = v;
    }
}

impl UnionFindAlgo for AnyUnionFind {
    open spec fn sites_spec(&self) -> Sites {
        match self {
            AnyUnionFind::QuickFind(a) => a.sites_spec(),
            AnyUnionFind::QuickUnion(a) => a.sites_spec(),
            AnyUnionFind::WeightedQuickUnion(a) => a.sites_spec(),
        }
    }

    open spec fn inv(&self) -> bool {
        match self {
            AnyUnionFind::QuickFind(a) => a.inv(),
            AnyUnionFind::QuickUnion(a) => a.inv(),
            AnyUnionFind::WeightedQuickUnion(a) => a.inv(),
        }
    }

    open spec fn after_union(&self, p: int, q: int) -> Seq<usize> {
        match self {
            AnyUnionFind::QuickFind(a) => a.after_union(p, q),
            AnyUnionFind::QuickUnion(a) => a.after_union(p, q),
            AnyUnionFind::WeightedQuickUnion(a) => a.after_union(p, q),
        }
    }

    proof fn lemma_inv(&self) {
        match self {
            AnyUnionFind::QuickFind(a) => a.lemma_inv(),
            AnyUnionFind::QuickUnion(a) => a.lemma_inv(),
            AnyUnionFind::WeightedQuickUnion(a) => a.lemma_inv(),
        }
    }

    proof fn lemma_after_union_same(&self, p: int, q: int) {
        match self {
            AnyUnionFind::QuickFind(a) => a.lemma_after_union_same(p, q),
            AnyUnionFind::QuickUnion(a) => a.lemma_after_union_same(p, q),
            AnyUnionFind::WeightedQuickUnion(a) => a.lemma_after_union_same(p, q),
        }
    }

    /// With no choice given, the default algorithm: quick-find.
    fn new(n: usize) -> (r: Self) {
        AnyUnionFind::QuickFind(QuickFind::new(n))
    }

    fn find(&mut self, p: usize) -> (r: usize) {
        match self {
            AnyUnionFind::QuickFind(a) => a.find(p),
            AnyUnionFind::QuickUnion(a) => a.find(p),
            AnyUnionFind::WeightedQuickUnion(a) => a.find(p),
        }
    }

    fn union(&mut self, p: usize, q: usize)
        ensures
            final(self).kind() == old(self).kind(),
            *old(self) matches AnyUnionFind::WeightedQuickUnion(a) ==> (*final(self) matches AnyUnionFind::WeightedQuickUnion(b)
                && b.lengths_spec() == a.lengths_after_union(p as int, q as int)),
    {
        match self {
            AnyUnionFind::QuickFind(a) => a.union(p, q),
            AnyUnionFind::QuickUnion(a) => a.union(p, q),
            AnyUnionFind::WeightedQuickUnion(a) => a.union(p, q),
        }
    }

    fn get_sites(&self) -> (r: &Sites) {
        match self {
            AnyUnionFind::QuickFind(a) => a.get_sites(),
            AnyUnionFind::QuickUnion(a) => a.get_sites(),
            AnyUnionFind::WeightedQuickUnion(a) => a.get_sites(),
        }
    }
}

/// Reads the pair `p q` that a line of the input file names: its first two
/// space-separated fields, or `None` when the line holds no space.
pub fn read_usize_pair(line: String) -> (r: Option<(usize, usize)>)
    requires
        pair_line_readable(encode_utf8(line@)),
    ensures
        r == pair_of_line(encode_utf8(line@)),
{
    let bytes = line.as_str().as_bytes();
    proof {
        lemma_fields(bytes@);
    }
    let first_end = find_space(bytes, 0);
    let p = parse_usize_range(bytes, 0, first_end).unwrap();
    if first_end == bytes.len() {
        return None;
    }
    let second_end = find_space(bytes, first_end + 1);
    let q = parse_usize_range(bytes, first_end + 1, second_end).unwrap();
    Some((p, q))
}

/// The pair named by a line, if there is a line.
pub open spec fn pair_of_next_line(line: Option<String>) -> Option<(usize, usize)> {
    match line {
        Some(l) => pair_of_line(encode_utf8(l@)),
        None => None,
    }
}

/// A line, if there is one, that `read_usize_pair` can read.
pub open spec fn next_line_readable(line: Option<String>) -> bool {
    match line {
        Some(l) => pair_line_readable(encode_utf8(l@)),
        None => true,
    }
}

/// A run of union-find over the pairs of an input file: the algorithm, the pair it
/// will join next, and the number of sites.
pub struct UnionFind {
    algo: AnyUnionFind,
    next: Option<(usize, usize)>,
    n: usize,
}

impl UnionFind {
    /// The algorithm is sound and works on `n` sites.
    pub open spec fn wf(&self) -> bool {
        self.algo_spec().inv() && self.parents().len() == self.n_spec()
    }

    /// The algorithm of the run.
    pub closed spec fn algo_spec(&self) -> AnyUnionFind {
        self.algo
    }

    /// The pair to be joined next, if any.
    pub closed spec fn next_spec(&self) -> Option<(usize, usize)> {
        self.next
    }

    /// The number of sites.
    pub closed spec fn n_spec(&self) -> usize {
        self.n
    }

    /// The parent array of the run's forest.
    pub open spec fn parents(&self) -> Seq<usize> {
        self.algo_spec().sites_spec().arr@
    }

    /// The number of components.
    pub open spec fn components(&self) -> usize {
        self.algo_spec().sites_spec().count
    }

    /// Starts a run from the first lines of an input file: the first holds the
    /// number of sites, the second, if there is one, the first pair to join.
    pub fn new(first_line: String, second_line: Option<String>, choice: &UnionFindChoice) -> (r:
        Self)
        requires
            usize_literal(encode_utf8(first_line@)) is Some,
            next_line_readable(second_line),
        ensures
            r.wf(),
            r.n_spec() == usize_literal(encode_utf8(first_line@))->0,
            r.algo_spec().kind() == *choice,
            r.parents() == identity(r.n_spec() as nat),
            r.components() == r.n_spec(),
            r.next_spec() == pair_of_next_line(second_line),
    {
        let n = parse_usize(first_line.as_str()).unwrap();
        let algo = choice.create(n);
        let next = match second_line {
            Some(val) => read_usize_pair(val),
            None => None,
        };
        UnionFind { algo, next, n }
    }

    /// The number of sites.
    pub fn get_n(&self) -> (r: usize)
        ensures
            r == self.n_spec(),
    {
        self.n
    }

    /// The forest as trees: its roots, and for every site its children, each list in
    /// increasing order.
    pub fn to_tree(&self) -> (r: (Vec<usize>, Vec<Vec<usize>>))
        requires
            self.wf(),
        ensures
            r.0@ == tree_roots(self.parents()),
            r.1@.len() == self.n_spec(),
            forall|p: int| 0 <= p < self.n_spec() ==> (#[trigger] r.1@[p])@ == tree_children(self.parents(), p),
            // the roots: every root once, in increasing order, and nothing else
            strictly_increasing(r.0@),
            forall|k: int|
                0 <= k < r.0@.len() ==> #[trigger] r.0@[k] < self.n_spec() && self.parents()[r.0@[k] as int]
                    == r.0@[k],
            forall|x: int|
                0 <= x < self.n_spec() && self.parents()[x] == x ==> #[trigger] r.0@.contains(x as usize),
            r.0@.len() == self.components(),
            // the children of each site: every other site whose parent it is, once, in
            // increasing order, and nothing else
            forall|p: int| 0 <= p < self.n_spec() ==> strictly_increasing(#[trigger] r.1@[p]@),
            forall|p: int, k: int|
                0 <= p < self.n_spec() && 0 <= k < r.1@[p]@.len() ==> #[trigger] r.1@[p]@[k]
                    < self.n_spec() && self.parents()[r.1@[p]@[k] as int] == p && r.1@[p]@[k] != p,
            forall|p: int, x: int|
                0 <= p < self.n_spec() && 0 <= x < self.n_spec() && self.parents()[x] == p && x != p
                    ==> #[trigger] r.1@[p]@.contains(x as usize),
            forall|p: int|
                0 <= p < self.n_spec() ==> (#[trigger] r.1@[p])@.len() == num_children(
                    self.parents(),
                    p,
                ),
    {
        let arr = &self.algo.get_sites().arr;
        let n = self.n;
        let ghost parents = arr@;
        proof {
            self.algo.lemma_inv();
        }
        let mut children: Vec<Vec<usize>> = Vec::new();
        let mut k: usize = 0;
        while k < n
            invariant
                k <= n,
                children@.len() == k,
                forall|p: int| 0 <= p < k ==> (#[trigger] children@[p])@ == Seq::<usize>::empty(),
            decreases n - k,
        {
            children.push(Vec::new());
            k = k + 1;
        }
        let mut roots: Vec<usize> = Vec::new();
        let mut i: usize = 0;
        while i < n
            invariant
                i <= n,
                n == parents.len(),
                arr@ == parents,
                is_forest(parents),
                children@.len() == n,
                roots@ == identity(i as nat).filter(|x: usize| parents[x as int] == x),
                forall|p: int|
                    0 <= p < n ==> (#[trigger] children@[p])@ == identity(i as nat).filter(
                        child_of(parents, p),
                    ),
            decreases n - i,
        {
            let parent = arr[i];
            let ghost prev = identity(i as nat);
            let ghost grown = identity((i + 1) as nat);
            proof {
                reveal(Seq::filter);
                assert(grown.drop_last() =~= prev);
                assert(grown.last() == i);
            }
            if i == parent {
                roots.push(i);
            } else {
                children[parent].push(i);
            }
            i = i + 1;
        }
        proof {
            law_tree_roots(parents);
            assert forall|p: int| 0 <= p < n implies #[trigger] tree_children(parents, p)
                == children@[p]@ by {
                law_tree_children(parents, p);
            }
            assert forall|p: int| 0 <= p < n implies strictly_increasing(#[trigger] children@[p]@) by {
                law_tree_children(parents, p);
            }
            assert forall|p: int, k: int| 0 <= p < n && 0 <= k < children@[p]@.len() implies #[trigger] children@[p]@[k]
                < n && parents[children@[p]@[k] as int] == p && children@[p]@[k] != p by {
                law_tree_children(parents, p);
            }
            assert forall|p: int, x: int|
                0 <= p < n && 0 <= x < n && parents[x] == p && x != p implies #[trigger] children@[p]@.contains(
                x as usize,
            ) by {
                law_tree_children(parents, p);
            }
            assert forall|p: int| 0 <= p < n implies (#[trigger] children@[p])@.len() == num_children(
                parents,
                p,
            ) by {
                law_tree_children(parents, p);
            }
        }
        (roots, children)
    }

    /// The parent array of the run's forest.
    pub fn get_sites(&self) -> (r: &Vec<usize>)
        ensures
            r@ == self.parents(),
    {
        &self.algo.get_sites().arr
    }

    /// The pair to be joined next, if any.
    pub fn peak_next(&self) -> (r: Option<(usize, usize)>)
        ensures
            r == self.next_spec(),
    {
        self.next
    }

    /// One step of the run: joins the next pair unless it is already connected, and
    /// takes the pair after it from `following_line`, the next line of the file.
    /// Returns the pair and whether it was joined; `None` once the pairs are used up.
    pub fn next(&mut self, following_line: Option<String>) -> (r: Option<(usize, usize, bool)>)
        requires
            old(self).wf(),
            old(self).next_spec() matches Some((p, q)) ==> p < old(self).n_spec() && q < old(self).n_spec() && next_line_readable(following_line),
        ensures
            final(self).wf(),
            old(self).next_spec() is None ==> r is None && *final(self) == *old(self),
            old(self).next_spec() matches Some((p, q)) ==> {
                &&& r == Some((p, q, !same_tree(old(self).parents(), p as int, q as int)))
                &&& final(self).parents() == old(self).algo_spec().after_union(p as int, q as int)
                &&& joined(old(self).parents(), final(self).parents(), p as int, q as int)
                &&& final(self).components() == if same_tree(
                    old(self).parents(),
                    p as int,
                    q as int,
                ) {
                    old(self).components() as int
                } else {
                    old(self).components() - 1
                }
                &&& final(self).algo_spec().kind() == old(self).algo_spec().kind()
                &&& final(self).n_spec() == old(self).n_spec()
                &&& final(self).next_spec() == pair_of_next_line(following_line)
                &&& same_tree(final(self).parents(), p as int, q as int)
                &&& same_tree(old(self).parents(), p as int, q as int) ==> final(self).algo_spec()
                    == old(self).algo_spec() && final(self).parents() == old(self).parents()
                &&& old(self).algo_spec() matches AnyUnionFind::WeightedQuickUnion(a) ==> (final(self).algo_spec() matches AnyUnionFind::WeightedQuickUnion(b) && b.lengths_spec()
                    == a.lengths_after_union(p as int, q as int))
            },
    {
        let (p, q) = match self.next {
            Some(pair) => pair,
            None => {
                return None;
            },
        };
        let ghost before = self.algo.sites_spec().arr@;
        let res = if self.algo.connected(p, q) {
            proof {
                self.algo.lemma_after_union_same(p as int, q as int);
                self.algo.lemma_inv();
                crate::forest::lemma_root(before, p as int);
            }
            Some((p, q, false))
        } else {
            self.algo.union(p, q);
            Some((p, q, true))
        };
        self.next = match following_line {
            Some(val) => read_usize_pair(val),
            None => None,
        };
        proof {
            assert(same_tree(before, p as int, p as int));
            assert(same_tree(self.algo.sites_spec().arr@, p as int, q as int));
        }
        res
    }
}

}
