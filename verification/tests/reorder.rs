use gen_tree_images::{
    collect_siblings, leader_depth, promote, relink, reorder_progenitors, HaloProps, TreeError,
};

const FACTOR: u64 = 1_000_000_000_000;

fn id(snap: u64, ind: u64) -> u64 {
    snap * FACTOR + ind + 1
}

fn store(progenitors: Vec<Vec<u64>>, next: Vec<Vec<u64>>) -> HaloProps {
    let mut store = HaloProps::new(progenitors.len());
    for (p, n) in progenitors.into_iter().zip(next) {
        let types = vec![0; p.len()];
        store.push_snapshot(p, n, types).unwrap();
    }
    assert!(store.is_well_formed());
    store
}

/// Follows the next-progenitor links from the first progenitor of `n`
/// until they come back to it, for at most `cap` steps.
fn cycle(store: &HaloProps, n: u64, cap: usize) -> Option<Vec<u64>> {
    let first = store.progenitor(n);
    let mut seen = vec![first];
    let mut cur = store.next_progenitor(first);
    while cur != first {
        if seen.len() >= cap {
            return None;
        }
        seen.push(cur);
        cur = store.next_progenitor(cur);
    }
    Some(seen)
}

/// A root with two progenitors, the second of which has a progenitor of
/// its own.
fn two_branches() -> HaloProps {
    let (c, a, b, r) = (id(1, 0), id(2, 0), id(2, 1), id(3, 0));
    store(
        vec![vec![], vec![c], vec![a, c], vec![a]],
        vec![vec![], vec![c], vec![b, a], vec![r]],
    )
}

/// A root with the progenitors P, X, S, Y, whose branches reach the
/// depths 1, 2, 2 and 3.
fn four_branches() -> HaloProps {
    let y2 = id(1, 0);
    let (x1, s1, y1) = (id(2, 0), id(2, 1), id(2, 2));
    let (p, x, s, y) = (id(3, 0), id(3, 1), id(3, 2), id(3, 3));
    let r = id(4, 0);
    store(
        vec![vec![], vec![y2], vec![x1, s1, y2], vec![p, x1, s1, y1], vec![p]],
        vec![vec![], vec![y2], vec![x1, s1, y1], vec![x, s, y, p], vec![r]],
    )
}

#[test]
fn a_leaf_reaches_its_own_depth() {
    let mut s = two_branches();
    assert_eq!(reorder_progenitors(id(1, 0), 0, &mut s), Ok(0));
    assert_eq!(reorder_progenitors(id(1, 0), 2, &mut s), Ok(2));
    assert_eq!(s.progenitor(id(1, 0)), id(1, 0));
    assert_eq!(s.next_progenitor(id(1, 0)), id(1, 0));
}

#[test]
fn the_deeper_branch_becomes_first() {
    let (a, b, r) = (id(2, 0), id(2, 1), id(3, 0));
    let mut s = two_branches();
    assert_eq!(reorder_progenitors(r, 0, &mut s), Ok(2));
    assert_eq!(s.progenitor(r), b);
    assert_eq!(s.next_progenitor(b), a);
    assert_eq!(s.next_progenitor(a), b);
    assert_eq!(s.progenitor(b), id(1, 0));
    assert_eq!(s.progenitor(a), a);
}

#[test]
fn reordering_twice_changes_nothing_more() {
    let (a, b, r) = (id(2, 0), id(2, 1), id(3, 0));
    let mut s = two_branches();
    assert_eq!(reorder_progenitors(r, 0, &mut s), Ok(2));
    assert_eq!(reorder_progenitors(r, 0, &mut s), Ok(2));
    assert_eq!(s.progenitor(r), b);
    assert_eq!(s.next_progenitor(b), a);
    assert_eq!(s.next_progenitor(a), b);
}

#[test]
fn equal_depths_keep_the_first_branch() {
    let (a, b, r) = (id(1, 0), id(1, 1), id(2, 0));
    let mut s = store(vec![vec![], vec![a, b], vec![a]], vec![vec![], vec![b, a], vec![r]]);
    assert_eq!(reorder_progenitors(r, 0, &mut s), Ok(1));
    assert_eq!(s.progenitor(r), a);
    assert_eq!(s.next_progenitor(a), b);
    assert_eq!(s.next_progenitor(b), a);
}

#[test]
fn a_leader_changes_place_with_the_branch_that_displaces_it() {
    let (p, x, s, y, r) = (id(3, 0), id(3, 1), id(3, 2), id(3, 3), id(4, 0));
    let mut f = four_branches();
    assert_eq!(reorder_progenitors(r, 0, &mut f), Ok(3));
    assert_eq!(f.progenitor(r), y);
    assert_eq!(f.next_progenitor(y), p);
    assert_eq!(f.next_progenitor(p), s);
    assert_eq!(f.next_progenitor(s), x);
    assert_eq!(f.next_progenitor(x), y);
}

#[test]
fn the_list_closes_on_the_new_first_progenitor() {
    let r = id(4, 0);
    let mut f = four_branches();
    let before = cycle(&f, r, 10).unwrap();
    assert_eq!(before.len(), 4);
    reorder_progenitors(r, 0, &mut f).unwrap();
    let after = cycle(&f, r, before.len()).unwrap();
    assert_eq!(after.len(), before.len());
    let mut a = after.clone();
    let mut b = before.clone();
    a.sort();
    b.sort();
    assert_eq!(a, b);
    a.dedup();
    assert_eq!(a.len(), before.len());
}

#[test]
fn no_deeper_sibling_stays_behind() {
    let r = id(4, 0);
    let mut f = four_branches();
    reorder_progenitors(r, 0, &mut f).unwrap();
    let list = cycle(&f, r, 10).unwrap();
    let first_depth = reorder_progenitors(list[0], 1, &mut f).unwrap();
    for sib in list.iter().skip(1) {
        let depth = reorder_progenitors(*sib, 1, &mut f).unwrap();
        assert!(first_depth >= depth);
    }
    assert_eq!(first_depth, 3);
}

#[test]
fn inner_branch_points_are_reordered_too() {
    let (l, d1, d2, m, r) = (id(0, 0), id(1, 0), id(1, 1), id(2, 0), id(3, 0));
    // m has the progenitors d1 (a leaf) and d2 (which has the progenitor l)
    let mut f = store(
        vec![vec![l], vec![d1, l], vec![d1], vec![m]],
        vec![vec![l], vec![d2, d1], vec![m], vec![r]],
    );
    assert_eq!(reorder_progenitors(r, 0, &mut f), Ok(3));
    assert_eq!(f.progenitor(r), m);
    assert_eq!(f.progenitor(m), d2);
    assert_eq!(f.next_progenitor(d2), d1);
    assert_eq!(f.next_progenitor(d1), d2);
}

#[test]
fn a_list_that_ends_at_the_descendant_is_closed() {
    let (c, a, b, r) = (id(1, 0), id(2, 0), id(2, 1), id(3, 0));
    // the last sibling links to the descendant instead of the first progenitor
    let mut f = store(
        vec![vec![], vec![c], vec![a, c], vec![a]],
        vec![vec![], vec![c], vec![b, r], vec![r]],
    );
    assert_eq!(collect_siblings(r, &f), Ok(vec![a, b]));
    assert_eq!(reorder_progenitors(r, 0, &mut f), Ok(2));
    assert_eq!(f.progenitor(r), b);
    assert_eq!(f.next_progenitor(b), a);
    assert_eq!(f.next_progenitor(a), b);
}

#[test]
fn a_list_that_never_closes_is_corrupt() {
    let (z, p, a, r) = (id(0, 0), id(1, 0), id(1, 1), id(2, 0));
    // p -> a -> z -> z: the walk leaves the list of r and never comes back
    let mut f = store(
        vec![vec![z], vec![p, a], vec![p]],
        vec![vec![z], vec![a, z], vec![r]],
    );
    assert_eq!(reorder_progenitors(r, 0, &mut f), Err(TreeError::CorruptForestError));
    assert_eq!(collect_siblings(r, &f), Err(TreeError::CorruptForestError));
    assert_eq!(f.progenitor(r), p);
    assert_eq!(f.next_progenitor(p), a);
    assert_eq!(f.next_progenitor(a), z);
    assert_eq!(f.next_progenitor(z), z);
}

#[test]
fn a_cycle_beside_the_first_progenitor_is_corrupt() {
    let (p, a, b, r) = (id(1, 0), id(1, 1), id(1, 2), id(2, 0));
    // p -> a -> b -> a: a cycle that does not hold the first progenitor
    let mut f = store(
        vec![vec![], vec![p, a, b], vec![p]],
        vec![vec![], vec![a, b, a], vec![r]],
    );
    assert_eq!(reorder_progenitors(r, 0, &mut f), Err(TreeError::CorruptForestError));
}

#[test]
fn the_longest_list_allowed_is_walked() {
    let r = id(1, 0);
    let n: u64 = 5001;
    let progenitors: Vec<u64> = (0..n).map(|i| id(0, i)).collect();
    let next: Vec<u64> = (0..n).map(|i| id(0, (i + 1) % n)).collect();
    let mut f = store(vec![progenitors.clone(), vec![id(0, 0)]], vec![next, vec![r]]);
    assert_eq!(collect_siblings(r, &f), Ok(progenitors));
    assert_eq!(reorder_progenitors(r, 0, &mut f), Ok(1));
    assert_eq!(f.progenitor(r), id(0, 0));
}

#[test]
fn a_list_one_longer_than_allowed_is_corrupt() {
    let r = id(1, 0);
    let n: u64 = 5002;
    let progenitors: Vec<u64> = (0..n).map(|i| id(0, i)).collect();
    let next: Vec<u64> = (0..n).map(|i| id(0, (i + 1) % n)).collect();
    let mut f = store(vec![progenitors, vec![id(0, 0)]], vec![next, vec![r]]);
    assert_eq!(collect_siblings(r, &f), Err(TreeError::CorruptForestError));
    assert_eq!(reorder_progenitors(r, 0, &mut f), Err(TreeError::CorruptForestError));
}

#[test]
fn a_tree_deeper_than_the_snapshots_is_corrupt() {
    let (y, x) = (id(0, 0), id(1, 0));
    // x and y are each other's progenitor
    let mut f = store(vec![vec![x], vec![y]], vec![vec![y], vec![x]]);
    assert_eq!(reorder_progenitors(x, 0, &mut f), Err(TreeError::CorruptForestError));
}

#[test]
fn a_start_below_the_snapshots_is_corrupt() {
    let mut f = two_branches();
    assert_eq!(reorder_progenitors(id(1, 0), 4, &mut f), Ok(4));
    assert_eq!(reorder_progenitors(id(1, 0), 5, &mut f), Err(TreeError::CorruptForestError));
}

#[test]
fn promote_exchanges_leader_and_challenger() {
    assert_eq!(promote(vec![10, 20, 30, 40], &vec![1, 2, 2, 3]), vec![40, 10, 30, 20]);
    assert_eq!(promote(vec![10, 20, 30], &vec![1, 1, 2]), vec![30, 20, 10]);
    assert_eq!(promote(vec![10, 20, 30], &vec![1, 2, 1]), vec![20, 10, 30]);
    assert_eq!(promote(vec![10, 20, 30], &vec![5, 5, 5]), vec![10, 20, 30]);
    assert_eq!(promote(vec![10, 20, 30], &vec![3, 2, 1]), vec![10, 20, 30]);
    assert_eq!(promote(vec![10], &vec![7]), vec![10]);
    assert_eq!(promote(vec![], &vec![]), Vec::<u64>::new());
}

#[test]
fn leader_depth_is_the_greatest() {
    assert_eq!(leader_depth(&vec![1, 2, 2, 3]), 3);
    assert_eq!(leader_depth(&vec![4, 2, 4, 3]), 4);
    assert_eq!(leader_depth(&vec![9]), 9);
}

#[test]
fn relink_chains_a_cycle() {
    let (p, x, s, y, r) = (id(3, 0), id(3, 1), id(3, 2), id(3, 3), id(4, 0));
    let mut f = four_branches();
    relink(r, &vec![s, y, p, x], &mut f);
    assert_eq!(f.progenitor(r), s);
    assert_eq!(cycle(&f, r, 4), Some(vec![s, y, p, x]));
    assert_eq!(collect_siblings(r, &f), Ok(vec![s, y, p, x]));
    relink(r, &vec![p], &mut f);
    assert_eq!(cycle(&f, r, 4), Some(vec![p]));
    assert_eq!(f.next_progenitor(p), p);
}

#[test]
fn reordering_leaves_types_alone() {
    let (c, a, b, r) = (id(1, 0), id(2, 0), id(2, 1), id(3, 0));
    let mut f = HaloProps::new(4);
    f.push_snapshot(vec![], vec![], vec![]).unwrap();
    f.push_snapshot(vec![c], vec![c], vec![5]).unwrap();
    f.push_snapshot(vec![a, c], vec![b, a], vec![6, 7]).unwrap();
    f.push_snapshot(vec![a], vec![r], vec![8]).unwrap();
    assert!(f.is_well_formed());
    reorder_progenitors(r, 0, &mut f).unwrap();
    assert_eq!(f.halo_type(c), 5);
    assert_eq!(f.halo_type(a), 6);
    assert_eq!(f.halo_type(b), 7);
    assert_eq!(f.halo_type(r), 8);
    assert_eq!(f.snapshot_count(), 4);
    assert!(f.is_well_formed());
}
