use vstd::prelude::*;

use crate::count::{
    count_below, lemma_count_all, lemma_count_disjoint, lemma_count_drop_one, lemma_count_ext,
    lemma_count_at_most, lemma_count_le, lemma_count_more, lemma_count_none, lemma_count_split,
};

verus! {

/// Every parent link of `parents` points inside the array.
pub open spec fn in_bounds(parents: Seq<usize>) -> bool {
    forall|i: int| 0 <= i < parents.len() ==> #[trigger] parents[i] < parents.len()
}

/// `depth` ranks `parents`: along every link from a site to a different parent the rank drops.
pub open spec fn ranks(parents: Seq<usize>, depth: Seq<nat>) -> bool {
    &&& depth.len() == parents.len()
    &&& forall|i: int|
        0 <= i < parents.len() && parents[i] != i ==> #[trigger] depth[parents[i] as int] < depth[i]
}

/// `parents` describes a forest: links stay in bounds and following them always ends at a root.
pub open spec fn is_forest(parents: Seq<usize>) -> bool {
    in_bounds(parents) && exists|depth: Seq<nat>| ranks(parents, depth)
}

/// The root reached from `i` by following parent links, measured by `depth`.
pub open spec fn root_by(parents: Seq<usize>, depth: Seq<nat>, i: int) -> int
    decreases depth[i],
{
    if 0 <= i < parents.len() && parents[i] != i && depth[parents[i] as int] < depth[i] {
        root_by(parents, depth, parents[i] as int)
    } else {
        i
    }
}

/// The root of the tree that holds site `i`.
pub open spec fn root(parents: Seq<usize>, i: int) -> int {
    root_by(parents, choose|depth: Seq<nat>| ranks(parents, depth), i)
}

/// How many links lead from `i` to its root, measured by `depth`.
pub open spec fn depth_by(parents: Seq<usize>, rank: Seq<nat>, i: int) -> nat
    decreases rank[i],
{
    if 0 <= i < parents.len() && parents[i] != i && rank[parents[i] as int] < rank[i] {
        depth_by(parents, rank, parents[i] as int) + 1
    } else {
        0
    }
}

/// How many links lead from site `i` to its root.
pub open spec fn depth(parents: Seq<usize>, i: int) -> nat {
    depth_by(parents, choose|rank: Seq<nat>| ranks(parents, rank), i)
}

/// The number of roots, that is of trees, in `parents`.
pub open spec fn num_roots(parents: Seq<usize>) -> nat {
    count_below(parents.len() as int, |i: int| parents[i] == i)
}

/// The number of sites whose root is `r`.
pub open spec fn component_size(parents: Seq<usize>, r: int) -> nat {
    count_below(parents.len() as int, |i: int| root(parents, i) == r)
}

/// `n` sites, each one its own root.
pub open spec fn identity(n: nat) -> Seq<usize> {
    Seq::new(n, |i: int| i as usize)
}

/// Sites `i` and `j` lie in the same tree.
pub open spec fn same_tree(parents: Seq<usize>, i: int, j: int) -> bool {
    root(parents, i) == root(parents, j)
}

/// `after` is the forest `before` with the tree of `a` hung below `b`: sites whose
/// root was `a` now have root `b`, every other site keeps its root.
pub open spec fn relabeled(before: Seq<usize>, after: Seq<usize>, a: int, b: int) -> bool {
    &&& is_forest(after)
    &&& after.len() == before.len()
    &&& forall|i: int|
        0 <= i < before.len() ==> #[trigger] root(after, i) == if root(before, i) == a {
            b
        } else {
            root(before, i)
        }
}

/// `after` partitions the sites as `before` does, except that the trees of `p` and `q`
/// are now one: two sites share a tree exactly when they did before, or one of them
/// was with `p` and the other with `q`.
pub open spec fn joined(before: Seq<usize>, after: Seq<usize>, p: int, q: int) -> bool {
    &&& after.len() == before.len()
    &&& forall|i: int, j: int|
        0 <= i < before.len() && 0 <= j < before.len() ==> (#[trigger] same_tree(after, i, j) <==> (
        same_tree(before, i, j) || (same_tree(before, i, p) && same_tree(before, j, q)) || (
        same_tree(before, i, q) && same_tree(before, j, p))))
}

/// Every site points straight at a root: a forest of height at most one.
pub open spec fn is_flat(parents: Seq<usize>) -> bool {
    &&& in_bounds(parents)
    &&& forall|i: int| 0 <= i < parents.len() ==> #[trigger] parents[parents[i] as int] == parents[i]
}

/// Every site whose parent is `a` gets parent `b`.
pub open spec fn relabel(parents: Seq<usize>, a: usize, b: usize) -> Seq<usize> {
    Seq::new(parents.len(), |i: int| if parents[i] == a { b } else { parents[i] })
}

proof fn lemma_root_by_props(parents: Seq<usize>, depth: Seq<nat>, i: int)
    requires
        in_bounds(parents),
        ranks(parents, depth),
        0 <= i < parents.len(),
    ensures
        0 <= root_by(parents, depth, i) < parents.len(),
        parents[root_by(parents, depth, i)] == root_by(parents, depth, i),
        parents[i] == i ==> root_by(parents, depth, i) == i,
        parents[i] != i ==> root_by(parents, depth, i) == root_by(parents, depth, parents[i] as int),
    decreases depth[i],
{
    if parents[i] != i {
        lemma_root_by_props(parents, depth, parents[i] as int);
    }
}

proof fn lemma_root_by_unique(parents: Seq<usize>, d1: Seq<nat>, d2: Seq<nat>, i: int)
    requires
        in_bounds(parents),
        ranks(parents, d1),
        ranks(parents, d2),
        0 <= i < parents.len(),
    ensures
        root_by(parents, d1, i) == root_by(parents, d2, i),
    decreases d1[i],
{
    if parents[i] != i {
        lemma_root_by_unique(parents, d1, d2, parents[i] as int);
    }
}

proof fn lemma_depth_by_unique(parents: Seq<usize>, d1: Seq<nat>, d2: Seq<nat>, i: int)
    requires
        in_bounds(parents),
        ranks(parents, d1),
        ranks(parents, d2),
        0 <= i < parents.len(),
    ensures
        depth_by(parents, d1, i) == depth_by(parents, d2, i),
    decreases d1[i],
{
    if parents[i] != i {
        lemma_depth_by_unique(parents, d1, d2, parents[i] as int);
    }
}

/// Any ranking computes the same depths.
proof fn lemma_depth_is(parents: Seq<usize>, depth: Seq<nat>, i: int)
    requires
        in_bounds(parents),
        ranks(parents, depth),
        0 <= i < parents.len(),
    ensures
        crate::forest::depth(parents, i) == depth_by(parents, depth, i),
{
    let d0 = choose|d: Seq<nat>| ranks(parents, d);
    lemma_depth_by_unique(parents, d0, depth, i);
}

/// A root lies at depth zero; any other site lies one link below its parent.
pub proof fn lemma_depth(parents: Seq<usize>, i: int)
    requires
        is_forest(parents),
        0 <= i < parents.len(),
    ensures
        parents[i] == i ==> depth(parents, i) == 0,
        parents[i] != i ==> depth(parents, i) == depth(parents, parents[i] as int) + 1,
{
}

/// Any ranking computes the same roots.
proof fn lemma_root_is(parents: Seq<usize>, depth: Seq<nat>, i: int)
    requires
        in_bounds(parents),
        ranks(parents, depth),
        0 <= i < parents.len(),
    ensures
        root(parents, i) == root_by(parents, depth, i),
{
    let d0 = choose|d: Seq<nat>| ranks(parents, d);
    lemma_root_by_unique(parents, d0, depth, i);
}

/// The root of a site is a root in range, a root is its own root, and a site shares
/// its root with its parent.
pub proof fn lemma_root(parents: Seq<usize>, i: int)
    requires
        is_forest(parents),
        0 <= i < parents.len(),
    ensures
        0 <= root(parents, i) < parents.len(),
        parents[root(parents, i)] == root(parents, i),
        parents[i] == i ==> root(parents, i) == i,
        parents[i] != i ==> root(parents, i) == root(parents, parents[i] as int),
        root(parents, root(parents, i)) == root(parents, i),
{
    let d = choose|d: Seq<nat>| ranks(parents, d);
    lemma_root_by_props(parents, d, i);
    let r = root_by(parents, d, i);
    lemma_root_by_props(parents, d, r);
    if parents[i] != i {
        lemma_root_by_props(parents, d, parents[i] as int);
    }
}

/// Every site is its own root.
pub proof fn lemma_identity(n: nat)
    requires
        n <= usize::MAX,
    ensures
        is_forest(identity(n)),
        num_roots(identity(n)) == n,
        forall|i: int| 0 <= i < n ==> #[trigger] root(identity(n), i) == i,
        forall|i: int| 0 <= i < n ==> #[trigger] depth(identity(n), i) == 0,
{
    let p = identity(n);
    let d = Seq::new(n, |i: int| 0nat);
    assert forall|i: int| 0 <= i < n implies #[trigger] p[i] == i by {}
    assert(in_bounds(p));
    assert(ranks(p, d));
    assert forall|i: int| 0 <= i < n implies #[trigger] root(p, i) == i by {
        lemma_root(p, i);
    }
    assert forall|i: int| 0 <= i < n implies #[trigger] depth(p, i) == 0 by {
        lemma_depth(p, i);
    }
    lemma_count_all(n as int, |i: int| p[i] == i);
}

proof fn lemma_link_root_by(
    parents: Seq<usize>,
    depth: Seq<nat>,
    after: Seq<usize>,
    d2: Seq<nat>,
    a: int,
    b: int,
    i: int,
)
    requires
        in_bounds(parents),
        ranks(parents, depth),
        0 <= a < parents.len(),
        0 <= b < parents.len(),
        parents[a] == a,
        parents[b] == b,
        a != b,
        after == parents.update(a, b as usize),
        ranks(after, d2),
        0 <= i < parents.len(),
    ensures
        root_by(after, d2, i) == if root_by(parents, depth, i) == a {
            b
        } else {
            root_by(parents, depth, i)
        },
        depth_by(after, d2, i) == if root_by(parents, depth, i) == a {
            depth_by(parents, depth, i) + 1
        } else {
            depth_by(parents, depth, i)
        },
    decreases depth[i],
{
    lemma_root_by_props(parents, depth, i);
    if i == a {
        assert(root_by(after, d2, b) == b);
        assert(depth_by(after, d2, b) == 0);
    } else if parents[i] != i {
        lemma_link_root_by(parents, depth, after, d2, a, b, parents[i] as int);
    }
}

/// Hanging root `a` below root `b` merges their trees, removes one root, and gives
/// `b` the sites of both.
pub proof fn lemma_link(parents: Seq<usize>, a: int, b: int)
    requires
        is_forest(parents),
        0 <= a < parents.len(),
        0 <= b < parents.len(),
        parents[a] == a,
        parents[b] == b,
        a != b,
    ensures
        relabeled(parents, parents.update(a, b as usize), a, b),
        num_roots(parents.update(a, b as usize)) + 1 == num_roots(parents),
        component_size(parents.update(a, b as usize), b) == component_size(parents, a)
            + component_size(parents, b),
        component_size(parents, a) + component_size(parents, b) <= parents.len(),
        forall|c: int|
            c != a && c != b ==> #[trigger] component_size(parents.update(a, b as usize), c)
                == component_size(parents, c),
        forall|i: int|
            0 <= i < parents.len() ==> #[trigger] depth(parents.update(a, b as usize), i) == if root(
                parents,
                i,
            ) == a {
                depth(parents, i) + 1
            } else {
                depth(parents, i)
            },
{
    let n = parents.len();
    let after = parents.update(a, b as usize);
    let d = choose|d: Seq<nat>| ranks(parents, d);
    let d2 = Seq::new(
        n,
        |i: int| if root_by(parents, d, i) == a { d[i] + d[b] + 1 } else { d[i] },
    );
    assert(in_bounds(after));
    assert forall|i: int| 0 <= i < n && after[i] != i implies #[trigger] d2[after[i] as int] < d2[i] by {
        lemma_root_by_props(parents, d, i);
        lemma_root_by_props(parents, d, b);
        if i != a {
            lemma_root_by_props(parents, d, parents[i] as int);
        }
    }
    assert(ranks(after, d2));
    assert forall|i: int| 0 <= i < n implies #[trigger] root(after, i) == if root(parents, i) == a {
        b
    } else {
        root(parents, i)
    } by {
        lemma_link_root_by(parents, d, after, d2, a, b, i);
        lemma_root_is(after, d2, i);
    }
    assert forall|i: int| 0 <= i < n implies #[trigger] depth(after, i) == if root(parents, i) == a {
        depth(parents, i) + 1
    } else {
        depth(parents, i)
    } by {
        lemma_link_root_by(parents, d, after, d2, a, b, i);
        lemma_depth_is(after, d2, i);
        lemma_root_is(parents, d, i);
        lemma_depth_is(parents, d, i);
    }
    assert(relabeled(parents, after, a, b));
    lemma_count_drop_one(n as int, |i: int| parents[i] == i, |i: int| after[i] == i, a);
    assert forall|i: int| 0 <= i < n implies (root(after, i) == b) == (root(parents, i) == a || root(
        parents,
        i,
    ) == b) by {
        lemma_root(parents, i);
    }
    lemma_count_split(
        n as int,
        |i: int| root(after, i) == b,
        |i: int| root(parents, i) == a,
        |i: int| root(parents, i) == b,
    );
    lemma_count_disjoint(n as int, |i: int| root(parents, i) == a, |i: int| root(parents, i) == b);
    assert forall|c: int| c != a && c != b implies #[trigger] component_size(after, c)
        == component_size(parents, c) by {
        lemma_count_ext(n as int, |i: int| root(after, i) == c, |i: int| root(parents, i) == c);
    }
}

/// A flat array is a forest in which every site's parent is its root.
pub proof fn lemma_flat(parents: Seq<usize>)
    requires
        is_flat(parents),
    ensures
        is_forest(parents),
        forall|i: int| 0 <= i < parents.len() ==> #[trigger] root(parents, i) == parents[i],
{
    let n = parents.len();
    let d = Seq::new(n, |i: int| if parents[i] == i { 0nat } else { 1nat });
    assert(ranks(parents, d));
    assert forall|i: int| 0 <= i < n implies #[trigger] root(parents, i) == parents[i] by {
        lemma_root_is(parents, d, i);
        lemma_root_by_props(parents, d, i);
        lemma_root_by_props(parents, d, parents[i] as int);
    }
}

/// Relabelling root `a` as root `b` in a flat array keeps it flat, merges the two
/// trees and removes one root.
pub proof fn lemma_flat_relabel(parents: Seq<usize>, a: usize, b: usize)
    requires
        is_flat(parents),
        a < parents.len(),
        b < parents.len(),
        parents[a as int] == a,
        parents[b as int] == b,
        a != b,
    ensures
        is_flat(relabel(parents, a, b)),
        relabeled(parents, relabel(parents, a, b), a as int, b as int),
        num_roots(relabel(parents, a, b)) + 1 == num_roots(parents),
{
    let n = parents.len();
    let after = relabel(parents, a, b);
    lemma_flat(parents);
    assert(is_flat(after));
    lemma_flat(after);
    assert(relabeled(parents, after, a as int, b as int));
    assert forall|i: int| 0 <= i < n && i != a implies (parents[i] == i) == (after[i] == i) by {
        if parents[i] == a {
            assert(parents[i] != i);
        }
    }
    lemma_count_drop_one(n as int, |i: int| parents[i] == i, |i: int| after[i] == i, a as int);
}

/// Relabelling the root of `p` as the root of `q` joins their trees.
pub proof fn lemma_relabeled_joins(before: Seq<usize>, after: Seq<usize>, p: int, q: int)
    requires
        is_forest(before),
        0 <= p < before.len(),
        0 <= q < before.len(),
        relabeled(before, after, root(before, p), root(before, q))
            || relabeled(before, after, root(before, q), root(before, p)),
    ensures
        joined(before, after, p, q),
{
    assert forall|i: int, j: int|
        0 <= i < before.len() && 0 <= j < before.len() implies (#[trigger] same_tree(after, i, j) <==> (
    same_tree(before, i, j) || (same_tree(before, i, p) && same_tree(before, j, q)) || (
    same_tree(before, i, q) && same_tree(before, j, p)))) by {
        assert(root(after, i) == root(after, i));
        assert(root(after, j) == root(after, j));
    }
}

/// In the identity forest every tree holds exactly one site.
pub proof fn lemma_identity_sizes(n: nat)
    requires
        n <= usize::MAX,
    ensures
        forall|r: int| 0 <= r < n ==> #[trigger] component_size(identity(n), r) == 1,
{
    let p = identity(n);
    lemma_identity(n);
    assert forall|r: int| 0 <= r < n implies #[trigger] component_size(p, r) == 1 by {
        let none = |i: int| false;
        lemma_count_none(n as int, none);
        lemma_count_drop_one(n as int, |i: int| root(p, i) == r, none, r);
    }
}

/// The roots of `parents`, in increasing order.
pub open spec fn tree_roots(parents: Seq<usize>) -> Seq<usize> {
    identity(parents.len()).filter(|i: usize| parents[i as int] == i)
}

/// The children of site `p`, in increasing order: the other sites whose parent is `p`.
pub open spec fn tree_children(parents: Seq<usize>, p: int) -> Seq<usize> {
    identity(parents.len()).filter(child_of(parents, p))
}

/// The number of sites other than `p` whose parent is `p`.
pub open spec fn num_children(parents: Seq<usize>, p: int) -> nat {
    count_below(parents.len() as int, child_site(parents, p))
}

/// Site `x` is a site other than `p` whose parent is `p`.
pub open spec fn child_site(parents: Seq<usize>, p: int) -> spec_fn(int) -> bool {
    |x: int| parents[x] == p && x != p
}

/// Site `i` is another site whose parent is `p`.
pub open spec fn child_of(parents: Seq<usize>, p: int) -> spec_fn(usize) -> bool {
    |i: usize| parents[i as int] == p && i != p
}

/// A site at depth `d` has, for every `e <= d`, an ancestor at depth `e`.
proof fn lemma_ancestor_at(parents: Seq<usize>, i: int, e: nat)
    requires
        is_forest(parents),
        0 <= i < parents.len(),
        e <= depth(parents, i),
    ensures
        exists|x: int| 0 <= x < parents.len() && #[trigger] depth(parents, x) == e,
    decreases depth(parents, i),
{
    lemma_depth(parents, i);
    if e < depth(parents, i) {
        lemma_ancestor_at(parents, parents[i] as int, e);
    }
}

/// At least `d + 1` sites lie at depth at most `d`, when some site lies at depth `d`.
proof fn lemma_depths_counted(parents: Seq<usize>, i: int, d: nat)
    requires
        is_forest(parents),
        0 <= i < parents.len(),
        d <= depth(parents, i),
    ensures
        count_below(parents.len() as int, |x: int| depth(parents, x) <= d) >= d + 1,
    decreases d,
{
    let n = parents.len() as int;
    lemma_ancestor_at(parents, i, d);
    let x = choose|x: int| 0 <= x < parents.len() && #[trigger] depth(parents, x) == d;
    if d == 0 {
        lemma_count_more(n, |y: int| false, |y: int| depth(parents, y) <= d, x);
    } else {
        let e = (d - 1) as nat;
        lemma_depths_counted(parents, i, e);
        lemma_count_more(n, |y: int| depth(parents, y) <= e, |y: int| depth(parents, y) <= d, x);
    }
}

/// No site lies `n` or more links below its root: following parents from any site
/// reaches the root in fewer than `n` steps.
pub proof fn lemma_depth_below_len(parents: Seq<usize>, i: int)
    requires
        is_forest(parents),
        0 <= i < parents.len(),
    ensures
        depth(parents, i) < parents.len(),
{
    let d = depth(parents, i);
    lemma_depths_counted(parents, i, d);
    lemma_count_at_most(parents.len() as int, |x: int| depth(parents, x) <= d);
}

/// Each entry of `s` is smaller than the next: `s` is sorted and repeats nothing.
pub open spec fn strictly_increasing(s: Seq<usize>) -> bool {
    forall|i: int, j: int| 0 <= i < j < s.len() ==> s[i] < s[j]
}

/// The sites below `k` that satisfy `f`, kept in order, are sorted, hold exactly those
/// sites, and number as many as satisfy `f`.
proof fn lemma_sites_where(k: nat, f: spec_fn(usize) -> bool)
    requires
        k <= usize::MAX,
    ensures
        strictly_increasing(identity(k).filter(f)),
        forall|i: int|
            0 <= i < identity(k).filter(f).len() ==> #[trigger] identity(k).filter(f)[i] < k && f(
                identity(k).filter(f)[i],
            ),
        forall|x: usize| x < k && f(x) ==> #[trigger] identity(k).filter(f).contains(x),
        identity(k).filter(f).len() == count_below(k as int, |i: int| f(i as usize)),
    decreases k,
{
    reveal(Seq::filter);
    let s = identity(k).filter(f);
    if k == 0 {
        assert(s.len() == 0);
    } else {
        let m = (k - 1) as nat;
        lemma_sites_where(m, f);
        let prev = identity(m).filter(f);
        assert(identity(k).drop_last() =~= identity(m));
        assert(identity(k).last() == m as usize);
        assert(s == if f(m as usize) {
            prev.push(m as usize)
        } else {
            prev
        });
        assert forall|x: usize| x < k && f(x) implies #[trigger] s.contains(x) by {
            if x < m {
                assert(prev.contains(x));
                let j = choose|j: int| 0 <= j < prev.len() && prev[j] == x;
                assert(s[j] == x);
            } else {
                assert(s[s.len() - 1] == x);
            }
        }
    }
}

/// The roots list holds every root of `parents` once, in increasing order, and
/// nothing else: it has one entry per tree.
pub proof fn law_tree_roots(parents: Seq<usize>)
    requires
        parents.len() <= usize::MAX,
    ensures
        strictly_increasing(tree_roots(parents)),
        forall|k: int|
            0 <= k < tree_roots(parents).len() ==> #[trigger] tree_roots(parents)[k] < parents.len()
                && parents[tree_roots(parents)[k] as int] == tree_roots(parents)[k],
        forall|x: int|
            0 <= x < parents.len() && parents[x] == x ==> #[trigger] tree_roots(parents).contains(
                x as usize,
            ),
        tree_roots(parents).len() == num_roots(parents),
{
    let n = parents.len();
    let f = |i: usize| parents[i as int] == i;
    lemma_sites_where(n, f);
    assert forall|x: int| 0 <= x < n && parents[x] == x implies #[trigger] tree_roots(parents).contains(
        x as usize,
    ) by {
        assert(f(x as usize));
    }
    lemma_count_ext(n as int, |i: int| f(i as usize), |i: int| parents[i] == i);
}

/// The children list of `p` holds every other site whose parent is `p`, once each, in
/// increasing order, and nothing else.
pub proof fn law_tree_children(parents: Seq<usize>, p: int)
    requires
        parents.len() <= usize::MAX,
    ensures
        strictly_increasing(tree_children(parents, p)),
        forall|k: int|
            0 <= k < tree_children(parents, p).len() ==> #[trigger] tree_children(parents, p)[k]
                < parents.len() && parents[tree_children(parents, p)[k] as int] == p
                && tree_children(parents, p)[k] != p,
        forall|x: int|
            0 <= x < parents.len() && parents[x] == p && x != p ==> #[trigger] tree_children(
                parents,
                p,
            ).contains(x as usize),
        tree_children(parents, p).len() == num_children(parents, p),
{
    let n = parents.len();
    let f = child_of(parents, p);
    lemma_sites_where(n, f);
    assert forall|x: int| 0 <= x < n && parents[x] == p && x != p implies #[trigger] tree_children(
        parents,
        p,
    ).contains(x as usize) by {
        assert(f(x as usize));
    }
    lemma_count_ext(n as int, |i: int| f(i as usize), child_site(parents, p));
}

}
