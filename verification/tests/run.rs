use union_find_rust::union_find::{UnionFind, UnionFindChoice};

fn start(lines: &[&str], choice: UnionFindChoice) -> (UnionFind, usize) {
    let uf = UnionFind::new(lines[0].to_string(), lines.get(1).map(|l| l.to_string()), &choice);
    (uf, 2)
}

fn step(uf: &mut UnionFind, lines: &[&str], at: &mut usize) -> Option<(usize, usize, bool)> {
    let following = lines.get(*at).map(|l| l.to_string());
    if uf.peak_next().is_some() {
        *at += 1;
    }
    uf.next(following)
}

#[test]
fn run_from_lines() {
    let lines = ["4", "0 1", "1 2", "0 2", "2 3"];
    let (mut uf, mut at) = start(&lines, UnionFindChoice::QuickUnion);
    assert_eq!(uf.get_n(), 4);
    assert_eq!(uf.peak_next(), Some((0, 1)));
    assert_eq!(uf.get_sites(), &vec![0, 1, 2, 3]);
    assert_eq!(step(&mut uf, &lines, &mut at), Some((0, 1, true)));
    assert_eq!(uf.get_sites(), &vec![1, 1, 2, 3]);
    assert_eq!(uf.peak_next(), Some((1, 2)));
    assert_eq!(step(&mut uf, &lines, &mut at), Some((1, 2, true)));
    assert_eq!(step(&mut uf, &lines, &mut at), Some((0, 2, false)));
    assert_eq!(uf.get_sites(), &vec![1, 2, 2, 3]);
    assert_eq!(step(&mut uf, &lines, &mut at), Some((2, 3, true)));
    assert_eq!(uf.peak_next(), None);
    assert_eq!(step(&mut uf, &lines, &mut at), None);
    assert_eq!(step(&mut uf, &lines, &mut at), None);
    assert_eq!(uf.get_sites(), &vec![1, 2, 3, 3]);
}

#[test]
fn run_stops_at_single_field_line() {
    let lines = ["3", "0 1", "5", "1 2"];
    let (mut uf, mut at) = start(&lines, UnionFindChoice::QuickFind);
    assert_eq!(step(&mut uf, &lines, &mut at), Some((0, 1, true)));
    assert_eq!(uf.peak_next(), None);
    assert_eq!(step(&mut uf, &lines, &mut at), None);
    assert_eq!(uf.get_sites(), &vec![1, 1, 2]);
}

#[test]
fn run_without_pairs() {
    let uf = UnionFind::new("5".to_string(), None, &UnionFindChoice::WeightedQuickUnion);
    assert_eq!(uf.get_n(), 5);
    assert_eq!(uf.peak_next(), None);
    let (roots, children) = uf.to_tree();
    assert_eq!(roots, vec![0, 1, 2, 3, 4]);
    assert_eq!(children, vec![Vec::<usize>::new(); 5]);
}

#[test]
fn to_tree_lists_roots_and_children() {
    let lines = ["5", "0 1", "2 1", "3 4", "0 4"];
    let (mut uf, mut at) = start(&lines, UnionFindChoice::QuickUnion);
    while step(&mut uf, &lines, &mut at).is_some() {}
    assert_eq!(uf.get_sites(), &vec![1, 4, 1, 4, 4]);
    let (roots, children) = uf.to_tree();
    assert_eq!(roots, vec![4]);
    assert_eq!(children, vec![vec![], vec![0, 2], vec![], vec![], vec![1, 3]]);
}

#[test]
fn weighted_run_reports_joins() {
    let lines = ["6", "0 1", "2 3", "1 3", "0 2", "4 5", "5 4"];
    let (mut uf, mut at) = start(&lines, UnionFindChoice::WeightedQuickUnion);
    let mut joined = Vec::new();
    while let Some((_, _, b)) = step(&mut uf, &lines, &mut at) {
        joined.push(b);
    }
    assert_eq!(joined, vec![true, true, true, false, true, false]);
    assert_eq!(uf.get_sites(), &vec![0, 0, 0, 2, 4, 4]);
    let (roots, children) = uf.to_tree();
    assert_eq!(roots, vec![0, 4]);
    assert_eq!(children[0], vec![1, 2]);
    assert_eq!(children[2], vec![3]);
    assert_eq!(children[4], vec![5]);
}

#[test]
fn runs_of_every_choice_agree() {
    let lines = ["10", "4 3", "3 8", "6 5", "9 4", "2 1", "8 9", "5 0", "7 2", "6 1", "1 0", "6 7"];
    let mut results = Vec::new();
    for choice in [UnionFindChoice::QuickFind, UnionFindChoice::QuickUnion, UnionFindChoice::WeightedQuickUnion] {
        let (mut uf, mut at) = start(&lines, choice);
        let mut flags = Vec::new();
        while let Some((_, _, b)) = step(&mut uf, &lines, &mut at) {
            flags.push(b);
        }
        results.push(flags);
    }
    assert_eq!(results[0], vec![true, true, true, true, true, false, true, true, true, false, false]);
    assert_eq!(results[0], results[1]);
    assert_eq!(results[1], results[2]);
}

#[test]
fn quick_find_choice_in_run() {
    let uf = UnionFind::new("+2".to_string(), Some("1 0".to_string()), &UnionFindChoice::QuickFind);
    assert_eq!(uf.get_n(), 2);
    assert_eq!(uf.peak_next(), Some((1, 0)));
}
