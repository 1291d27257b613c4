use vstd::prelude::*;

verus! {

/// `pair` joins `a` and `b`, in either order.
pub open spec fn pair_joins(pair: (usize, usize), a: int, b: int) -> bool {
    (pair.0 == a && pair.1 == b) || (pair.0 == b && pair.1 == a)
}

/// One of `pairs` joins `a` and `b`.
pub open spec fn is_edge(pairs: Seq<(usize, usize)>, a: int, b: int) -> bool {
    exists|e: int| 0 <= e < pairs.len() && #[trigger] pair_joins(pairs[e], a, b)
}

/// Step `k` of `path` follows one of `pairs`.
pub open spec fn walk_step(pairs: Seq<(usize, usize)>, path: Seq<int>, k: int) -> bool {
    is_edge(pairs, path[k], path[k + 1])
}

/// `path` is a non-empty walk along `pairs`.
pub open spec fn is_walk(pairs: Seq<(usize, usize)>, path: Seq<int>) -> bool {
    &&& path.len() > 0
    &&& forall|k: int| 0 <= k < path.len() - 1 ==> #[trigger] walk_step(pairs, path, k)
}

/// A chain of `pairs` links `i` to `j`.
pub open spec fn linked(pairs: Seq<(usize, usize)>, i: int, j: int) -> bool {
    exists|path: Seq<int>| #[trigger] is_walk(pairs, path) && path[0] == i && path.last() == j
}

pub proof fn lemma_linked_refl(pairs: Seq<(usize, usize)>, x: int)
    ensures
        linked(pairs, x, x),
{
    let path = seq![x];
    assert(is_walk(pairs, path));
}

pub proof fn lemma_linked_symm(pairs: Seq<(usize, usize)>, x: int, y: int)
    requires
        linked(pairs, x, y),
    ensures
        linked(pairs, y, x),
{
    let path = choose|path: Seq<int>| #[trigger] is_walk(pairs, path) && path[0] == x && path.last() == y;
    let n = path.len();
    let rev = Seq::new(n, |k: int| path[n - 1 - k]);
    assert forall|k: int| 0 <= k < rev.len() - 1 implies #[trigger] walk_step(pairs, rev, k) by {
        assert(walk_step(pairs, path, n - 2 - k));
        let e = choose|e: int| 0 <= e < pairs.len() && #[trigger] pair_joins(pairs[e], path[n - 2 - k], path[n - 1 - k]);
        assert(pair_joins(pairs[e], rev[k], rev[k + 1]));
    }
    assert(is_walk(pairs, rev));
}

pub proof fn lemma_linked_trans(pairs: Seq<(usize, usize)>, x: int, y: int, z: int)
    requires
        linked(pairs, x, y),
        linked(pairs, y, z),
    ensures
        linked(pairs, x, z),
{
    let p1 = choose|path: Seq<int>| #[trigger] is_walk(pairs, path) && path[0] == x && path.last() == y;
    let p2 = choose|path: Seq<int>| #[trigger] is_walk(pairs, path) && path[0] == y && path.last() == z;
    let joined_path = p1 + p2.drop_first();
    assert forall|k: int| 0 <= k < joined_path.len() - 1 implies #[trigger] walk_step(pairs, joined_path, k) by {
        if k < p1.len() - 1 {
            assert(walk_step(pairs, p1, k));
        } else {
            assert(walk_step(pairs, p2, k - (p1.len() - 1)));
        }
    }
    assert(is_walk(pairs, joined_path));
    if p2.len() == 1 {
        assert(joined_path.last() == p1.last());
    }
}

/// The last pair links its two sites.
pub proof fn lemma_linked_edge(pairs: Seq<(usize, usize)>, e: int)
    requires
        0 <= e < pairs.len(),
    ensures
        linked(pairs, pairs[e].0 as int, pairs[e].1 as int),
{
    let path = seq![pairs[e].0 as int, pairs[e].1 as int];
    assert(pair_joins(pairs[e], path[0], path[1]));
    assert(walk_step(pairs, path, 0));
    assert(is_walk(pairs, path));
}

/// A chain of the first `k` pairs is a chain of the first `m >= k` pairs.
pub proof fn lemma_linked_grow(pairs: Seq<(usize, usize)>, k: int, m: int, x: int, y: int)
    requires
        0 <= k <= m <= pairs.len(),
        linked(pairs.take(k), x, y),
    ensures
        linked(pairs.take(m), x, y),
{
    let small = pairs.take(k);
    let big = pairs.take(m);
    let path = choose|path: Seq<int>| #[trigger] is_walk(small, path) && path[0] == x && path.last() == y;
    assert forall|s: int| 0 <= s < path.len() - 1 implies #[trigger] walk_step(big, path, s) by {
        assert(walk_step(small, path, s));
        let e = choose|e: int| 0 <= e < small.len() && #[trigger] pair_joins(small[e], path[s], path[s + 1]);
        assert(pair_joins(big[e], path[s], path[s + 1]));
    }
    assert(is_walk(big, path));
}

/// Without pairs, a site is linked only to itself.
pub proof fn lemma_linked_none(pairs: Seq<(usize, usize)>, x: int, y: int)
    requires
        pairs.len() == 0,
        linked(pairs, x, y),
    ensures
        x == y,
{
    let path = choose|path: Seq<int>| #[trigger] is_walk(pairs, path) && path[0] == x && path.last() == y;
    if path.len() > 1 {
        assert(walk_step(pairs, path, 0));
    }
}

}
