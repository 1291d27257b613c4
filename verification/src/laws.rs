use vstd::prelude::*;

use crate::count::{count_below, lemma_count_all, lemma_count_drop_one, lemma_count_ext};
use crate::forest::{identity, is_forest, joined, lemma_identity, num_roots, same_tree};
use crate::paths::{
    is_walk, lemma_linked_edge, lemma_linked_grow, lemma_linked_none, lemma_linked_refl,
    lemma_linked_symm, lemma_linked_trans, linked, pair_joins, walk_step,
};

verus! {

/// `a` and `b` group the same sites together.
pub open spec fn same_partition(a: Seq<usize>, b: Seq<usize>) -> bool {
    &&& a.len() == b.len()
    &&& forall|i: int, j: int|
        0 <= i < a.len() && 0 <= j < a.len() ==> #[trigger] same_tree(a, i, j) == #[trigger] same_tree(
            b,
            i,
            j,
        )
}

/// Being connected is an equivalence: every site is connected to itself, the relation
/// is symmetric, and it is transitive.
pub proof fn law_connected_is_equivalence(parents: Seq<usize>, i: int, j: int, k: int)
    ensures
        same_tree(parents, i, i),
        same_tree(parents, i, j) == same_tree(parents, j, i),
        same_tree(parents, i, j) && same_tree(parents, j, k) ==> same_tree(parents, i, k),
{
}

/// After `union(p, q)`, `p` and `q` are connected, and every pair that was connected
/// before still is.
pub proof fn law_union_connects(before: Seq<usize>, after: Seq<usize>, p: int, q: int)
    requires
        joined(before, after, p, q),
        0 <= p < before.len(),
        0 <= q < before.len(),
    ensures
        same_tree(after, p, q),
        forall|i: int, j: int|
            0 <= i < before.len() && 0 <= j < before.len() && #[trigger] same_tree(before, i, j)
                ==> #[trigger] same_tree(after, i, j),
{
    assert(same_tree(after, p, q) <==> same_tree(before, p, q) || (same_tree(before, p, p)
        && same_tree(before, q, q)) || (same_tree(before, p, q) && same_tree(before, q, p)));
}

/// `union(p, q)` and `union(q, p)` group the sites alike.
pub proof fn law_union_symmetric(before: Seq<usize>, after: Seq<usize>, p: int, q: int)
    ensures
        joined(before, after, p, q) == joined(before, after, q, p),
{
    if joined(before, after, p, q) {
        assert forall|i: int, j: int|
            0 <= i < before.len() && 0 <= j < before.len() implies (#[trigger] same_tree(after, i, j) <==> (
        same_tree(before, i, j) || (same_tree(before, i, q) && same_tree(before, j, p)) || (
        same_tree(before, i, p) && same_tree(before, j, q)))) by {}
    }
    if joined(before, after, q, p) {
        assert forall|i: int, j: int|
            0 <= i < before.len() && 0 <= j < before.len() implies (#[trigger] same_tree(after, i, j) <==> (
        same_tree(before, i, j) || (same_tree(before, i, p) && same_tree(before, j, q)) || (
        same_tree(before, i, q) && same_tree(before, j, p)))) by {}
    }
}

/// Joining two sites that are already connected leaves the grouping as it was.
pub proof fn law_union_of_connected(before: Seq<usize>, after: Seq<usize>, p: int, q: int)
    requires
        joined(before, after, p, q),
        0 <= p < before.len(),
        0 <= q < before.len(),
        same_tree(before, p, q),
    ensures
        same_partition(before, after),
{
    assert forall|i: int, j: int| 0 <= i < before.len() && 0 <= j < before.len() implies #[trigger] same_tree(
        before,
        i,
        j,
    ) == #[trigger] same_tree(after, i, j) by {
        assert(same_tree(after, i, j) <==> same_tree(before, i, j) || (same_tree(before, i, p)
            && same_tree(before, j, q)) || (same_tree(before, i, q) && same_tree(before, j, p)));
    }
}

/// The grouping after `union(p, q)` depends only on the grouping before: whichever
/// algorithm runs a sequence of unions, the same pairs end up connected.
pub proof fn law_union_determined(
    before1: Seq<usize>,
    after1: Seq<usize>,
    before2: Seq<usize>,
    after2: Seq<usize>,
    p: int,
    q: int,
)
    requires
        same_partition(before1, before2),
        joined(before1, after1, p, q),
        joined(before2, after2, p, q),
        0 <= p < before1.len(),
        0 <= q < before1.len(),
    ensures
        same_partition(after1, after2),
{
    assert forall|i: int, j: int| 0 <= i < after1.len() && 0 <= j < after1.len() implies #[trigger] same_tree(
        after1,
        i,
        j,
    ) == #[trigger] same_tree(after2, i, j) by {
        assert(same_tree(before1, i, j) == same_tree(before2, i, j));
        assert(same_tree(before1, i, p) == same_tree(before2, i, p));
        assert(same_tree(before1, j, q) == same_tree(before2, j, q));
        assert(same_tree(before1, i, q) == same_tree(before2, i, q));
        assert(same_tree(before1, j, p) == same_tree(before2, j, p));
    }
}

/// `pairs` followed by a pair joining `p` and `q` links `i` and `j`: `pairs` links
/// them, or links one of them to `p` and the other to `q`.
spec fn linked_after(pairs: Seq<(usize, usize)>, p: int, q: int, i: int, j: int) -> bool {
    linked(pairs, i, j) || (linked(pairs, i, p) && linked(pairs, j, q)) || (linked(pairs, i, q)
        && linked(pairs, j, p))
}

proof fn lemma_linked_after_step(
    pairs: Seq<(usize, usize)>,
    p: int,
    q: int,
    x: int,
    a: int,
    b: int,
)
    requires
        linked_after(pairs, p, q, x, a),
        linked(pairs, a, b) || (a == p && b == q) || (a == q && b == p),
    ensures
        linked_after(pairs, p, q, x, b),
{
    lemma_linked_refl(pairs, p);
    lemma_linked_refl(pairs, q);
    if linked(pairs, a, b) {
        lemma_linked_symm(pairs, a, b);
        if linked(pairs, x, a) {
            lemma_linked_trans(pairs, x, a, b);
        }
        if linked(pairs, a, q) {
            lemma_linked_trans(pairs, b, a, q);
        }
        if linked(pairs, a, p) {
            lemma_linked_trans(pairs, b, a, p);
        }
    } else if a == p && b == q {
        if linked(pairs, x, p) && linked(pairs, p, q) {
            lemma_linked_trans(pairs, x, p, q);
        }
    } else {
        if linked(pairs, x, q) && linked(pairs, q, p) {
            lemma_linked_trans(pairs, x, q, p);
        }
    }
}

proof fn lemma_walk_linked_after(pairs: Seq<(usize, usize)>, k: int, path: Seq<int>, m: int)
    requires
        0 <= k < pairs.len(),
        is_walk(pairs.take(k + 1), path),
        0 <= m < path.len(),
    ensures
        linked_after(pairs.take(k), pairs[k].0 as int, pairs[k].1 as int, path[0], path[m]),
    decreases m,
{
    let before = pairs.take(k);
    let p = pairs[k].0 as int;
    let q = pairs[k].1 as int;
    if m == 0 {
        lemma_linked_refl(before, path[0]);
    } else {
        lemma_walk_linked_after(pairs, k, path, m - 1);
        assert(walk_step(pairs.take(k + 1), path, m - 1));
        let a = path[m - 1];
        let b = path[m];
        let e = choose|e: int| 0 <= e < k + 1 && #[trigger] pair_joins(pairs.take(k + 1)[e], a, b);
        if e < k {
            let edge = seq![a, b];
            assert(pair_joins(before[e], edge[0], edge[1]));
            assert(walk_step(before, edge, 0));
            assert(is_walk(before, edge));
        }
        lemma_linked_after_step(before, p, q, path[0], a, b);
    }
}

proof fn lemma_linked_after_is_linked(pairs: Seq<(usize, usize)>, k: int, i: int, j: int)
    requires
        0 <= k < pairs.len(),
        linked_after(pairs.take(k), pairs[k].0 as int, pairs[k].1 as int, i, j),
    ensures
        linked(pairs.take(k + 1), i, j),
{
    let before = pairs.take(k);
    let after = pairs.take(k + 1);
    let p = pairs[k].0 as int;
    let q = pairs[k].1 as int;
    lemma_linked_edge(after, k);
    lemma_linked_symm(after, p, q);
    if linked(before, i, j) {
        lemma_linked_grow(pairs, k, k + 1, i, j);
    } else if linked(before, i, p) && linked(before, j, q) {
        lemma_linked_grow(pairs, k, k + 1, i, p);
        lemma_linked_grow(pairs, k, k + 1, j, q);
        lemma_linked_trans(after, i, p, q);
        lemma_linked_symm(after, j, q);
        lemma_linked_trans(after, i, q, j);
    } else {
        lemma_linked_grow(pairs, k, k + 1, i, q);
        lemma_linked_grow(pairs, k, k + 1, j, p);
        lemma_linked_trans(after, i, q, p);
        lemma_linked_symm(after, j, p);
        lemma_linked_trans(after, i, p, j);
    }
}

/// The forests that a run of unions passes through, starting from `n` separate sites.
pub open spec fn union_run(n: nat, pairs: Seq<(usize, usize)>, forests: Seq<Seq<usize>>) -> bool {
    &&& n <= usize::MAX
    &&& forests.len() == pairs.len() + 1
    &&& forests[0] == identity(n)
    &&& forall|k: int|
        #![trigger pairs[k]]
        0 <= k < pairs.len() ==> pairs[k].0 < n && pairs[k].1 < n && joined(
            forests[k],
            forests[k + 1],
            pairs[k].0 as int,
            pairs[k].1 as int,
        )
}

proof fn lemma_union_run_prefix(
    n: nat,
    pairs: Seq<(usize, usize)>,
    forests: Seq<Seq<usize>>,
    k: int,
)
    requires
        union_run(n, pairs, forests),
        0 <= k <= pairs.len(),
    ensures
        forests[k].len() == n,
        forall|i: int, j: int|
            0 <= i < n && 0 <= j < n ==> #[trigger] same_tree(forests[k], i, j) == linked(
                pairs.take(k),
                i,
                j,
            ),
    decreases k,
{
    if k == 0 {
        lemma_identity(n);
        assert forall|i: int, j: int| 0 <= i < n && 0 <= j < n implies #[trigger] same_tree(
            forests[k],
            i,
            j,
        ) == linked(pairs.take(k), i, j) by {
            if linked(pairs.take(k), i, j) {
                lemma_linked_none(pairs.take(k), i, j);
            }
            if i == j {
                lemma_linked_refl(pairs.take(k), i);
            }
        }
    } else {
        let m = k - 1;
        lemma_union_run_prefix(n, pairs, forests, m);
        assert(pairs[m].0 < n && pairs[m].1 < n);
        let p = pairs[m].0 as int;
        let q = pairs[m].1 as int;
        assert forall|i: int, j: int| 0 <= i < n && 0 <= j < n implies #[trigger] same_tree(
            forests[k],
            i,
            j,
        ) == linked(pairs.take(k), i, j) by {
            assert(same_tree(forests[m], i, j) == linked(pairs.take(m), i, j));
            assert(same_tree(forests[m], i, p) == linked(pairs.take(m), i, p));
            assert(same_tree(forests[m], j, q) == linked(pairs.take(m), j, q));
            assert(same_tree(forests[m], i, q) == linked(pairs.take(m), i, q));
            assert(same_tree(forests[m], j, p) == linked(pairs.take(m), j, p));
            if linked(pairs.take(k), i, j) {
                let path = choose|path: Seq<int>| #[trigger] is_walk(pairs.take(k), path) && path[0]
                    == i && path.last() == j;
                lemma_walk_linked_after(pairs, m, path, path.len() - 1);
            }
            if linked_after(pairs.take(m), p, q, i, j) {
                lemma_linked_after_is_linked(pairs, m, i, j);
            }
        }
    }
}

/// After the unions of a run, two sites are connected exactly when a chain of the
/// joined pairs links them: union-find computes the connected components of the
/// graph whose edges are the pairs.
pub proof fn law_connected_iff_linked(n: nat, pairs: Seq<(usize, usize)>, forests: Seq<Seq<usize>>)
    requires
        union_run(n, pairs, forests),
    ensures
        forall|i: int, j: int|
            0 <= i < n && 0 <= j < n ==> #[trigger] same_tree(forests.last(), i, j) == linked(
                pairs,
                i,
                j,
            ),
{
    lemma_union_run_prefix(n, pairs, forests, pairs.len() as int);
    assert(pairs.take(pairs.len() as int) =~= pairs);
}

/// The two ways of saying that the first `k + 1` pairs link `i` and `j` agree.
proof fn lemma_linked_push(pairs: Seq<(usize, usize)>, k: int, i: int, j: int)
    requires
        0 <= k < pairs.len(),
    ensures
        linked(pairs.take(k + 1), i, j) == linked_after(
            pairs.take(k),
            pairs[k].0 as int,
            pairs[k].1 as int,
            i,
            j,
        ),
{
    if linked(pairs.take(k + 1), i, j) {
        let path = choose|path: Seq<int>| #[trigger] is_walk(pairs.take(k + 1), path) && path[0] == i
            && path.last() == j;
        lemma_walk_linked_after(pairs, k, path, path.len() - 1);
    }
    if linked_after(pairs.take(k), pairs[k].0 as int, pairs[k].1 as int, i, j) {
        lemma_linked_after_is_linked(pairs, k, i, j);
    }
}

/// Site `x` is the least site of its class: no smaller site is linked to it.
pub open spec fn least_in_class(pairs: Seq<(usize, usize)>, x: int) -> bool {
    forall|y: int| 0 <= y < x ==> !#[trigger] linked(pairs, x, y)
}

/// The number of classes of the equivalence that `pairs` generate on the sites
/// `0 .. n`, each class counted at its least site.
pub open spec fn num_classes(n: nat, pairs: Seq<(usize, usize)>) -> nat {
    count_below(n as int, |x: int| least_in_class(pairs, x))
}

/// Every site is linked to a least site of its class, at most as large as itself.
proof fn lemma_least_exists(pairs: Seq<(usize, usize)>, x: int)
    requires
        0 <= x,
    ensures
        exists|m: int| 0 <= m <= x && linked(pairs, x, m) && #[trigger] least_in_class(pairs, m),
    decreases x,
{
    if least_in_class(pairs, x) {
        lemma_linked_refl(pairs, x);
        assert(least_in_class(pairs, x));
    } else {
        let y = choose|y: int| 0 <= y < x && #[trigger] linked(pairs, x, y);
        lemma_least_exists(pairs, y);
        let m = choose|m: int| 0 <= m <= y && linked(pairs, y, m) && #[trigger] least_in_class(pairs, m);
        lemma_linked_trans(pairs, x, y, m);
        assert(least_in_class(pairs, m));
    }
}

/// The least site `m` of the class of `p` is at most any site of that class.
proof fn lemma_least_le(pairs: Seq<(usize, usize)>, p: int, m: int, z: int)
    requires
        least_in_class(pairs, m),
        linked(pairs, p, m),
        linked(pairs, z, p),
        0 <= z,
        0 <= m,
    ensures
        m <= z,
        linked(pairs, z, m),
        least_in_class(pairs, z) == (z == m),
{
    lemma_linked_trans(pairs, z, p, m);
    lemma_linked_symm(pairs, z, m);
    if z < m {
        assert(linked(pairs, m, z));
    }
    if z > m {
        assert(linked(pairs, z, m));
        assert(!least_in_class(pairs, z));
    }
}

/// After joining the classes of `p` and `q` (not linked before), a site is least in
/// its new class exactly when it is the smaller of the two least sites, or, outside
/// the two classes, when it was least before.
proof fn lemma_least_after(
    pairs: Seq<(usize, usize)>,
    p: int,
    q: int,
    mp: int,
    mq: int,
    x: int,
)
    requires
        0 <= mp,
        0 <= mq,
        0 <= x,
        least_in_class(pairs, mp),
        least_in_class(pairs, mq),
        linked(pairs, p, mp),
        linked(pairs, q, mq),
        !linked(pairs, p, q),
    ensures
        (forall|y: int| 0 <= y < x ==> !#[trigger] linked_after(pairs, p, q, x, y)) == if linked(
            pairs,
            x,
            p,
        ) || linked(pairs, x, q) {
            x == if mp < mq {
                mp
            } else {
                mq
            }
        } else {
            least_in_class(pairs, x)
        },
{
    let m0 = if mp < mq {
        mp
    } else {
        mq
    };
    if linked(pairs, x, p) || linked(pairs, x, q) {
        if linked(pairs, x, p) {
            lemma_least_le(pairs, p, mp, x);
        } else {
            lemma_least_le(pairs, q, mq, x);
        }
        if x == m0 {
            assert forall|y: int| 0 <= y < x implies !#[trigger] linked_after(pairs, p, q, x, y) by {
                if linked(pairs, x, y) {
                    lemma_linked_symm(pairs, x, y);
                    if linked(pairs, x, p) {
                        lemma_linked_trans(pairs, y, x, p);
                        lemma_least_le(pairs, p, mp, y);
                    } else {
                        lemma_linked_trans(pairs, y, x, q);
                        lemma_least_le(pairs, q, mq, y);
                    }
                }
                if linked(pairs, y, q) {
                    lemma_least_le(pairs, q, mq, y);
                }
                if linked(pairs, y, p) {
                    lemma_least_le(pairs, p, mp, y);
                }
            }
        } else {
            lemma_linked_symm(pairs, p, mp);
            lemma_linked_symm(pairs, q, mq);
            assert(m0 < x);
            assert(linked_after(pairs, p, q, x, m0));
        }
    } else {
        assert forall|y: int| 0 <= y < x implies #[trigger] linked_after(pairs, p, q, x, y) == linked(
            pairs,
            x,
            y,
        ) by {}
        if !least_in_class(pairs, x) {
            let y = choose|y: int| 0 <= y < x && #[trigger] linked(pairs, x, y);
            assert(linked_after(pairs, p, q, x, y));
        }
    }
}

/// The pairs up to `k + 1` make one class fewer than those up to `k`, unless the
/// last pair was already linked.
proof fn lemma_classes_step(n: nat, pairs: Seq<(usize, usize)>, k: int)
    requires
        0 <= k < pairs.len(),
        pairs[k].0 < n,
        pairs[k].1 < n,
    ensures
        num_classes(n, pairs.take(k + 1)) + (if linked(
            pairs.take(k),
            pairs[k].0 as int,
            pairs[k].1 as int,
        ) {
            0int
        } else {
            1int
        }) == num_classes(n, pairs.take(k)),
{
    let before = pairs.take(k);
    let after = pairs.take(k + 1);
    let p = pairs[k].0 as int;
    let q = pairs[k].1 as int;
    let f = |x: int| least_in_class(before, x);
    let g = |x: int| least_in_class(after, x);
    if linked(before, p, q) {
        assert forall|x: int| 0 <= x < n implies #[trigger] f(x) == g(x) by {
            assert forall|y: int|
                #![trigger linked(after, x, y)]
                #![trigger linked(before, x, y)]
                0 <= y < x implies linked(after, x, y) == linked(before, x, y) by {
                lemma_linked_push(pairs, k, x, y);
                if linked(before, y, q) {
                    lemma_linked_symm(before, y, q);
                }
                if linked(before, y, p) {
                    lemma_linked_symm(before, y, p);
                }
                if linked(before, x, p) && linked(before, y, q) {
                    lemma_linked_trans(before, x, p, q);
                    lemma_linked_trans(before, x, q, y);
                }
                if linked(before, x, q) && linked(before, y, p) {
                    lemma_linked_symm(before, p, q);
                    lemma_linked_trans(before, x, q, p);
                    lemma_linked_trans(before, x, p, y);
                }
            }
        }
        lemma_count_ext(n as int, f, g);
    } else {
        lemma_least_exists(before, p);
        let mp = choose|m: int| 0 <= m <= p && linked(before, p, m) && #[trigger] least_in_class(before, m);
        lemma_least_exists(before, q);
        let mq = choose|m: int| 0 <= m <= q && linked(before, q, m) && #[trigger] least_in_class(before, m);
        if mp == mq {
            lemma_linked_symm(before, q, mq);
            lemma_linked_trans(before, p, mp, q);
        }
        let r = if mp < mq {
            mq
        } else {
            mp
        };
        lemma_linked_refl(before, p);
        lemma_linked_refl(before, q);
        assert forall|x: int| 0 <= x < n implies #[trigger] g(x) == (if linked(before, x, p) || linked(
            before,
            x,
            q,
        ) {
            x == if mp < mq {
                mp
            } else {
                mq
            }
        } else {
            f(x)
        }) by {
            assert forall|y: int|
                #![trigger linked(after, x, y)]
                #![trigger linked_after(before, p, q, x, y)]
                0 <= y < x implies linked(after, x, y) == linked_after(before, p, q, x, y) by {
                lemma_linked_push(pairs, k, x, y);
            }
            lemma_least_after(before, p, q, mp, mq, x);
        }
        assert forall|x: int| 0 <= x < n && (linked(before, x, p) || linked(before, x, q)) implies #[trigger] f(
            x,
        ) == (x == mp || x == mq) by {
            if linked(before, x, p) {
                lemma_least_le(before, p, mp, x);
                if x == mq {
                    lemma_linked_symm(before, q, mq);
                    lemma_linked_trans(before, p, x, q);
                }
            } else {
                lemma_least_le(before, q, mq, x);
                if x == mp {
                    lemma_linked_symm(before, p, mp);
                    lemma_linked_symm(before, x, q);
                    lemma_linked_trans(before, p, x, q);
                }
            }
        }
        lemma_linked_symm(before, p, mp);
        lemma_linked_symm(before, q, mq);
        assert(linked(before, mp, p));
        assert(linked(before, mq, q));
        assert(g(r) == false);
        assert(f(r));
        lemma_count_drop_one(n as int, f, g, r);
    }
}

/// A run whose forests are all well formed and in which each union that joins two
/// trees removes exactly one root, as `union` does.
pub open spec fn counted_union_run(
    n: nat,
    pairs: Seq<(usize, usize)>,
    forests: Seq<Seq<usize>>,
) -> bool {
    &&& union_run(n, pairs, forests)
    &&& forall|k: int| 0 <= k < forests.len() ==> is_forest(#[trigger] forests[k])
    &&& forall|k: int|
        #![trigger pairs[k]]
        0 <= k < pairs.len() ==> num_roots(forests[k + 1]) + (if same_tree(
            forests[k],
            pairs[k].0 as int,
            pairs[k].1 as int,
        ) {
            0int
        } else {
            1int
        }) == num_roots(forests[k])
}

/// Step `k` of a run joins two trees exactly when the pairs before it do not
/// already link its two sites.
pub proof fn law_run_flags(n: nat, pairs: Seq<(usize, usize)>, forests: Seq<Seq<usize>>)
    requires
        union_run(n, pairs, forests),
    ensures
        forall|k: int|
            #![trigger pairs[k]]
            0 <= k < pairs.len() ==> same_tree(forests[k], pairs[k].0 as int, pairs[k].1 as int)
                == linked(pairs.take(k), pairs[k].0 as int, pairs[k].1 as int),
{
    assert forall|k: int| #![trigger pairs[k]] 0 <= k < pairs.len() implies same_tree(
        forests[k],
        pairs[k].0 as int,
        pairs[k].1 as int,
    ) == linked(pairs.take(k), pairs[k].0 as int, pairs[k].1 as int) by {
        lemma_union_run_prefix(n, pairs, forests, k);
        assert(pairs[k].0 < n && pairs[k].1 < n);
    }
}

/// The pairs among the first `k` that were not linked by the pairs before them.
pub open spec fn new_joins(pairs: Seq<(usize, usize)>, k: int) -> nat {
    count_below(k, |j: int| !linked(pairs.take(j), pairs[j].0 as int, pairs[j].1 as int))
}

proof fn lemma_counted_prefix(n: nat, pairs: Seq<(usize, usize)>, forests: Seq<Seq<usize>>, k: int)
    requires
        counted_union_run(n, pairs, forests),
        0 <= k <= pairs.len(),
    ensures
        num_roots(forests[k]) == num_classes(n, pairs.take(k)),
        num_roots(forests[k]) + new_joins(pairs, k) == n,
    decreases k,
{
    if k == 0 {
        lemma_identity(n);
        assert forall|x: int| 0 <= x < n implies #[trigger] least_in_class(pairs.take(0), x) by {
            assert forall|y: int| 0 <= y < x implies !#[trigger] linked(pairs.take(0), x, y) by {
                if linked(pairs.take(0), x, y) {
                    lemma_linked_none(pairs.take(0), x, y);
                }
            }
        }
        lemma_count_all(n as int, |x: int| least_in_class(pairs.take(0), x));
    } else {
        let m = k - 1;
        lemma_counted_prefix(n, pairs, forests, m);
        law_run_flags(n, pairs, forests);
        assert(pairs[m].0 < n && pairs[m].1 < n);
        lemma_classes_step(n, pairs, m);
        assert(num_roots(forests[k]) + (if same_tree(forests[m], pairs[m].0 as int, pairs[m].1 as int) {
            0int
        } else {
            1int
        }) == num_roots(forests[m]));
    }
}

/// After a run, the number of trees is the number of classes of the equivalence that
/// the pairs generate, and every pair that joined two trees lowered it by one: the
/// joins number `n` minus the final count.
pub proof fn law_components_are_classes(
    n: nat,
    pairs: Seq<(usize, usize)>,
    forests: Seq<Seq<usize>>,
)
    requires
        counted_union_run(n, pairs, forests),
    ensures
        num_roots(forests.last()) == num_classes(n, pairs),
        num_roots(forests.last()) + new_joins(pairs, pairs.len() as int) == n,
{
    lemma_counted_prefix(n, pairs, forests, pairs.len() as int);
    assert(pairs.take(pairs.len() as int) =~= pairs);
}

}
