use vstd::prelude::*;

verus! {

/// How many of the sites `0 .. k` satisfy `f`.
pub open spec fn count_below(k: int, f: spec_fn(int) -> bool) -> nat
    decreases k,
{
    if k <= 0 {
        0
    } else {
        count_below(k - 1, f) + if f(k - 1) { 1nat } else { 0nat }
    }
}

pub proof fn lemma_count_at_most(k: int, f: spec_fn(int) -> bool)
    requires
        0 <= k,
    ensures
        count_below(k, f) <= k,
    decreases k,
{
    if k > 0 {
        lemma_count_at_most(k - 1, f);
    }
}

pub proof fn lemma_count_all(k: int, f: spec_fn(int) -> bool)
    requires
        0 <= k,
        forall|i: int| 0 <= i < k ==> #[trigger] f(i),
    ensures
        count_below(k, f) == k,
    decreases k,
{
    if k > 0 {
        lemma_count_all(k - 1, f);
    }
}

pub proof fn lemma_count_ext(k: int, f: spec_fn(int) -> bool, g: spec_fn(int) -> bool)
    requires
        forall|i: int| #![trigger f(i)] #![trigger g(i)] 0 <= i < k ==> f(i) == g(i),
    ensures
        count_below(k, f) == count_below(k, g),
    decreases k,
{
    if k > 0 {
        lemma_count_ext(k - 1, f, g);
        assert(f(k - 1) == g(k - 1));
    }
}

/// Counting a disjoint union adds the counts.
pub proof fn lemma_count_split(
    k: int,
    f: spec_fn(int) -> bool,
    g: spec_fn(int) -> bool,
    h: spec_fn(int) -> bool,
)
    requires
        forall|i: int| #![trigger f(i)] #![trigger g(i)] #![trigger h(i)] 0 <= i < k ==> f(i) == (g(i) || h(i)),
        forall|i: int| #![trigger g(i)] #![trigger h(i)] 0 <= i < k ==> !(g(i) && h(i)),
    ensures
        count_below(k, f) == count_below(k, g) + count_below(k, h),
    decreases k,
{
    if k > 0 {
        lemma_count_split(k - 1, f, g, h);
        assert(f(k - 1) == (g(k - 1) || h(k - 1)));
        assert(!(g(k - 1) && h(k - 1)));
    }
}

/// Two predicates that never hold together count at most `k` sites between them.
pub proof fn lemma_count_disjoint(k: int, g: spec_fn(int) -> bool, h: spec_fn(int) -> bool)
    requires
        0 <= k,
        forall|i: int| #![trigger g(i)] #![trigger h(i)] 0 <= i < k ==> !(g(i) && h(i)),
    ensures
        count_below(k, g) + count_below(k, h) <= k,
    decreases k,
{
    if k > 0 {
        lemma_count_disjoint(k - 1, g, h);
        assert(!(g(k - 1) && h(k - 1)));
    }
}

/// Dropping one site from a predicate lowers the count by one.
pub proof fn lemma_count_drop_one(k: int, f: spec_fn(int) -> bool, g: spec_fn(int) -> bool, r: int)
    requires
        0 <= r < k,
        f(r),
        !g(r),
        forall|i: int| #![trigger f(i)] #![trigger g(i)] 0 <= i < k && i != r ==> f(i) == g(i),
    ensures
        count_below(k, g) + 1 == count_below(k, f),
    decreases k,
{
    if k - 1 == r {
        lemma_count_ext(k - 1, f, g);
    } else {
        lemma_count_drop_one(k - 1, f, g, r);
        assert(f(k - 1) == g(k - 1));
    }
}

/// A predicate that holds nowhere counts nothing.
pub proof fn lemma_count_none(k: int, f: spec_fn(int) -> bool)
    requires
        forall|i: int| 0 <= i < k ==> !#[trigger] f(i),
    ensures
        count_below(k, f) == 0,
    decreases k,
{
    if k > 0 {
        lemma_count_none(k - 1, f);
    }
}

/// A predicate that holds wherever `f` does, and also at `r` where `f` does not,
/// counts at least one more site.
pub proof fn lemma_count_more(k: int, f: spec_fn(int) -> bool, g: spec_fn(int) -> bool, r: int)
    requires
        0 <= r < k,
        forall|i: int| 0 <= i < k && #[trigger] f(i) ==> g(i),
        g(r),
        !f(r),
    ensures
        count_below(k, f) + 1 <= count_below(k, g),
    decreases k,
{
    if k - 1 == r {
        lemma_count_le(k - 1, f, g);
    } else {
        lemma_count_more(k - 1, f, g, r);
    }
}

/// A predicate that holds wherever `f` does counts at least as many sites.
pub proof fn lemma_count_le(k: int, f: spec_fn(int) -> bool, g: spec_fn(int) -> bool)
    requires
        forall|i: int| 0 <= i < k && #[trigger] f(i) ==> g(i),
    ensures
        count_below(k, f) <= count_below(k, g),
    decreases k,
{
    if k > 0 {
        lemma_count_le(k - 1, f, g);
    }
}

}
