use union_find_rust::quick::{QuickFind, QuickUnion};
use union_find_rust::union_find::{AnyUnionFind, Sites, UnionFindAlgo, UnionFindChoice};
use union_find_rust::weighted_quick::WeightedQuickUnion;

fn depth_of(arr: &[usize], mut i: usize) -> u32 {
    let mut d = 0;
    while arr[i] != i {
        i = arr[i];
        d += 1;
    }
    d
}

#[test]
fn sites_new_is_identity() {
    let s = Sites::new(5);
    assert_eq!(s.arr, vec![0, 1, 2, 3, 4]);
    assert_eq!(s.count, 5);
    assert_eq!(s.length(), 5);
}

#[test]
fn sites_new_empty() {
    let s = Sites::new(0);
    assert!(s.arr.is_empty());
    assert_eq!(s.count, 0);
    assert_eq!(s.length(), 0);
}

#[test]
fn sites_get_and_set() {
    let mut s = Sites::new(3);
    s.set(0, 2);
    assert_eq!(s.get(0), 2);
    assert_eq!(s.arr, vec![2, 1, 2]);
    assert_eq!(s.count, 3);
}

#[test]
fn quick_find_union_renames_component() {
    let mut a = QuickFind::new(5);
    a.union(0, 1);
    assert_eq!(a.get_sites().arr, vec![1, 1, 2, 3, 4]);
    assert_eq!(a.get_sites().count, 4);
    a.union(1, 2);
    assert_eq!(a.get_sites().arr, vec![2, 2, 2, 3, 4]);
    assert_eq!(a.get_sites().count, 3);
    a.union(3, 0);
    assert_eq!(a.get_sites().arr, vec![2, 2, 2, 2, 4]);
    assert_eq!(a.get_sites().count, 2);
    assert_eq!(a.find(0), 2);
    assert!(a.connected(0, 3));
    assert!(!a.connected(0, 4));
}

#[test]
fn quick_union_links_roots() {
    let mut a = QuickUnion::new(5);
    a.union(0, 1);
    assert_eq!(a.get_sites().arr, vec![1, 1, 2, 3, 4]);
    a.union(1, 2);
    assert_eq!(a.get_sites().arr, vec![1, 2, 2, 3, 4]);
    a.union(0, 3);
    assert_eq!(a.get_sites().arr, vec![1, 2, 3, 3, 4]);
    assert_eq!(a.get_sites().count, 2);
    assert_eq!(a.find(0), 3);
    assert_eq!(a.find(4), 4);
    assert!(a.connected(0, 3));
    assert!(!a.connected(2, 4));
}

#[test]
fn weighted_hangs_smaller_tree() {
    let mut a = WeightedQuickUnion::new(4);
    // tie: the root of q goes below the root of p
    a.union(0, 1);
    assert_eq!(a.get_sites().arr, vec![0, 0, 2, 3]);
    // the single site 2 is smaller than the tree of 0
    a.union(2, 0);
    assert_eq!(a.get_sites().arr, vec![0, 0, 0, 3]);
    a.union(1, 3);
    assert_eq!(a.get_sites().arr, vec![0, 0, 0, 0]);
    assert_eq!(a.get_sites().count, 1);
    assert!(a.connected(3, 2));
}

#[test]
fn union_of_connected_pair_changes_nothing() {
    let mut a = QuickUnion::new(4);
    a.union(0, 1);
    a.union(1, 2);
    let before = a.get_sites().clone();
    a.union(2, 0);
    assert_eq!(a.get_sites().arr, before.arr);
    assert_eq!(a.get_sites().count, before.count);
    let mut b = WeightedQuickUnion::new(4);
    b.union(0, 1);
    b.union(1, 0);
    assert_eq!(b.get_sites().arr, vec![0, 0, 2, 3]);
    assert_eq!(b.get_sites().count, 3);
    let mut c = QuickFind::new(4);
    c.union(0, 0);
    assert_eq!(c.get_sites().arr, vec![0, 1, 2, 3]);
    assert_eq!(c.get_sites().count, 4);
}

#[test]
fn connected_is_an_equivalence() {
    let mut a = QuickUnion::new(6);
    a.union(0, 1);
    a.union(2, 1);
    a.union(4, 5);
    for i in 0..6 {
        assert!(a.connected(i, i));
        for j in 0..6 {
            assert_eq!(a.connected(i, j), a.connected(j, i));
            for k in 0..6 {
                if a.connected(i, j) && a.connected(j, k) {
                    assert!(a.connected(i, k));
                }
            }
        }
    }
}

#[test]
fn union_connects_and_keeps_connections() {
    let mut a = QuickFind::new(6);
    a.union(0, 1);
    a.union(2, 3);
    assert!(a.connected(0, 1));
    assert!(!a.connected(1, 2));
    a.union(1, 3);
    assert!(a.connected(1, 3));
    assert!(a.connected(0, 2));
    assert!(a.connected(0, 1));
    assert!(!a.connected(0, 4));
}

#[test]
fn union_order_does_not_change_grouping() {
    let mut a = QuickUnion::new(5);
    let mut b = QuickUnion::new(5);
    a.union(0, 1);
    a.union(3, 4);
    b.union(1, 0);
    b.union(4, 3);
    for i in 0..5 {
        for j in 0..5 {
            assert_eq!(a.connected(i, j), b.connected(i, j));
        }
    }
}

#[test]
fn all_algorithms_agree() {
    let pairs = [(4, 3), (3, 8), (6, 5), (9, 4), (2, 1), (8, 9), (5, 0), (7, 2), (6, 1), (1, 0), (6, 7)];
    let mut algos: Vec<AnyUnionFind> = vec![
        UnionFindChoice::QuickFind.create(10),
        UnionFindChoice::QuickUnion.create(10),
        UnionFindChoice::WeightedQuickUnion.create(10),
    ];
    for &(p, q) in pairs.iter() {
        for a in algos.iter_mut() {
            a.union(p, q);
        }
    }
    for a in algos.iter() {
        assert_eq!(a.get_sites().count, 2);
    }
    for i in 0..10 {
        for j in 0..10 {
            let r0 = algos[0].connected(i, j);
            let r1 = algos[1].connected(i, j);
            let r2 = algos[2].connected(i, j);
            assert_eq!(r0, r1);
            assert_eq!(r1, r2);
        }
    }
}

#[test]
fn weighted_trees_stay_shallow() {
    let n = 64;
    let mut a = WeightedQuickUnion::new(n);
    let mut q = QuickUnion::new(n);
    // join a chain 0-1, 1-2, ... which makes quick-union a long path
    for i in 0..n - 1 {
        a.union(i, i + 1);
        q.union(i, i + 1);
    }
    let wa = a.get_sites().arr.clone();
    let qa = q.get_sites().arr.clone();
    let max_w = (0..n).map(|i| depth_of(&wa, i)).max().unwrap();
    let max_q = (0..n).map(|i| depth_of(&qa, i)).max().unwrap();
    assert!(2usize.pow(max_w) <= n);
    assert_eq!(max_q, (n - 1) as u32);
    // doubling steps build balanced trees of depth exactly log2(n)
    let mut b = WeightedQuickUnion::new(n);
    let mut step = 1;
    while step < n {
        let mut i = 0;
        while i + step < n {
            b.union(i, i + step);
            i += 2 * step;
        }
        step *= 2;
    }
    let ba = b.get_sites().arr.clone();
    let max_b = (0..n).map(|i| depth_of(&ba, i)).max().unwrap();
    assert_eq!(max_b, 6);
    assert_eq!(b.get_sites().count, 1);
}

#[test]
fn create_builds_chosen_algorithm() {
    assert!(matches!(UnionFindChoice::QuickFind.create(3), AnyUnionFind::QuickFind(_)));
    assert!(matches!(UnionFindChoice::QuickUnion.create(3), AnyUnionFind::QuickUnion(_)));
    assert!(matches!(
        UnionFindChoice::WeightedQuickUnion.create(3),
        AnyUnionFind::WeightedQuickUnion(_)
    ));
    let a = UnionFindChoice::WeightedQuickUnion.create(3);
    assert_eq!(a.get_sites().arr, vec![0, 1, 2]);
    assert_eq!(a.get_sites().count, 3);
}

#[test]
fn default_choice_is_quick_find() {
    assert_eq!(UnionFindChoice::default(), UnionFindChoice::QuickFind);
    let a = <AnyUnionFind as UnionFindAlgo>::new(2);
    assert!(matches!(a, AnyUnionFind::QuickFind(_)));
}

#[test]
fn count_drops_once_per_new_join() {
    let mut a = WeightedQuickUnion::new(6);
    let mut expected = 6;
    for &(p, q) in [(0, 1), (1, 0), (2, 3), (0, 3), (3, 1), (4, 5), (5, 4)].iter() {
        let was = a.connected(p, q);
        a.union(p, q);
        if !was {
            expected -= 1;
        }
        assert_eq!(a.get_sites().count, expected);
    }
    assert_eq!(expected, 2);
}

fn reachable(n: usize, pairs: &[(usize, usize)], from: usize) -> Vec<bool> {
    let mut seen = vec![false; n];
    let mut stack = vec![from];
    seen[from] = true;
    while let Some(x) = stack.pop() {
        for &(a, b) in pairs {
            for (u, v) in [(a, b), (b, a)] {
                if u == x && !seen[v] {
                    seen[v] = true;
                    stack.push(v);
                }
            }
        }
    }
    seen
}

#[test]
fn connected_matches_graph_reachability() {
    let n = 20;
    let mut pairs = Vec::new();
    let mut x: usize = 7;
    for _ in 0..15 {
        x = (x * 31 + 11) % 97;
        let p = x % n;
        x = (x * 31 + 11) % 97;
        let q = x % n;
        pairs.push((p, q));
    }
    for choice in [
        UnionFindChoice::QuickFind,
        UnionFindChoice::QuickUnion,
        UnionFindChoice::WeightedQuickUnion,
    ] {
        let mut a = choice.create(n);
        let mut joins = 0;
        for (k, &(p, q)) in pairs.iter().enumerate() {
            let before = &pairs[..k];
            let linked_before = reachable(n, before, p)[q];
            let was_connected = a.connected(p, q);
            assert_eq!(was_connected, linked_before);
            if !was_connected {
                joins += 1;
            }
            a.union(p, q);
            let done = &pairs[..=k];
            let mut classes = 0;
            for i in 0..n {
                if (0..i).all(|j| !reachable(n, done, i)[j]) {
                    classes += 1;
                }
            }
            assert_eq!(a.get_sites().count, classes);
            assert_eq!(a.get_sites().count + joins, n);
            for i in 0..n {
                let seen = reachable(n, done, i);
                for j in 0..n {
                    assert_eq!(a.connected(i, j), seen[j]);
                }
            }
        }
    }
}

#[test]
fn quick_find_stays_flat() {
    let mut a = QuickFind::new(8);
    for &(p, q) in [(0, 1), (2, 3), (1, 3), (5, 4), (7, 5), (4, 0)].iter() {
        a.union(p, q);
        let arr = a.get_sites().arr.clone();
        for i in 0..8 {
            assert_eq!(arr[arr[i]], arr[i]);
            assert_eq!(a.find(i), arr[i]);
        }
    }
    assert_eq!(a.get_sites().count, 2);
}
