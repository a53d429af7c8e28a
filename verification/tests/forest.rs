use gen_tree_images::{halo_types, HaloProps, TreeError};

const FACTOR: u64 = 1_000_000_000_000;

fn id(snap: u64, ind: u64) -> u64 {
    snap * FACTOR + ind + 1
}

fn small_store() -> HaloProps {
    let mut store = HaloProps::new(3);
    store.push_snapshot(vec![], vec![], vec![]).unwrap();
    store
        .push_snapshot(vec![id(1, 0), id(1, 1)], vec![id(1, 1), id(1, 0)], vec![0, 1])
        .unwrap();
    store.push_snapshot(vec![id(1, 0)], vec![id(2, 0)], vec![1]).unwrap();
    store
}

#[test]
fn a_new_store_is_empty_and_well_formed() {
    let store = HaloProps::new(16);
    assert_eq!(store.snapshot_count(), 0);
    assert!(store.is_well_formed());
    assert!(!store.contains(1));
}

#[test]
fn pushed_columns_are_read_back() {
    let store = small_store();
    assert_eq!(store.snapshot_count(), 3);
    assert!(store.is_well_formed());
    assert_eq!(store.progenitor(id(2, 0)), id(1, 0));
    assert_eq!(store.next_progenitor(id(2, 0)), id(2, 0));
    assert_eq!(store.progenitor(id(1, 1)), id(1, 1));
    assert_eq!(store.next_progenitor(id(1, 0)), id(1, 1));
    assert_eq!(store.next_progenitor(id(1, 1)), id(1, 0));
    assert_eq!(store.halo_type(id(1, 0)), 0);
    assert_eq!(store.halo_type(id(1, 1)), 1);
    assert_eq!(store.halo_type(id(2, 0)), 1);
}

#[test]
fn contains_knows_the_shape() {
    let store = small_store();
    assert!(store.contains(id(1, 0)));
    assert!(store.contains(id(1, 1)));
    assert!(store.contains(id(2, 0)));
    assert!(!store.contains(id(0, 0)));
    assert!(!store.contains(id(1, 2)));
    assert!(!store.contains(id(2, 1)));
    assert!(!store.contains(id(3, 0)));
    assert!(!store.contains(0));
    assert!(!store.contains(2 * FACTOR));
}

#[test]
fn misaligned_columns_are_refused() {
    let mut store = small_store();
    assert_eq!(
        store.push_snapshot(vec![id(1, 0)], vec![], vec![0]),
        Err(TreeError::ArrayShapeMismatch)
    );
    assert_eq!(
        store.push_snapshot(vec![id(1, 0)], vec![id(1, 0)], vec![0, 0]),
        Err(TreeError::ArrayShapeMismatch)
    );
    assert_eq!(store.snapshot_count(), 3);
    assert!(store.is_well_formed());
}

#[test]
fn a_dangling_link_makes_the_store_ill_formed() {
    let mut store = small_store();
    store.push_snapshot(vec![id(7, 0)], vec![id(3, 0)], vec![0]).unwrap();
    assert!(!store.is_well_formed());

    let mut store = small_store();
    store.push_snapshot(vec![id(3, 0)], vec![id(1, 5)], vec![0]).unwrap();
    assert!(!store.is_well_formed());

    let mut store = small_store();
    store.push_snapshot(vec![id(3, 0)], vec![3 * FACTOR], vec![0]).unwrap();
    assert!(!store.is_well_formed());

    let mut store = small_store();
    store.push_snapshot(vec![id(3, 0)], vec![id(3, 0)], vec![0]).unwrap();
    assert!(store.is_well_formed());
}

#[test]
fn setters_change_one_link_only() {
    let mut store = small_store();
    store.set_progenitor(id(2, 0), id(1, 1));
    assert_eq!(store.progenitor(id(2, 0)), id(1, 1));
    assert_eq!(store.progenitor(id(1, 0)), id(1, 0));
    assert_eq!(store.progenitor(id(1, 1)), id(1, 1));
    assert_eq!(store.next_progenitor(id(2, 0)), id(2, 0));

    store.set_next_progenitor(id(1, 1), id(1, 1));
    assert_eq!(store.next_progenitor(id(1, 1)), id(1, 1));
    assert_eq!(store.next_progenitor(id(1, 0)), id(1, 1));
    assert_eq!(store.progenitor(id(1, 1)), id(1, 1));
    assert_eq!(store.halo_type(id(1, 1)), 1);
    assert!(store.is_well_formed());
}

#[test]
fn types_follow_the_hosts() {
    assert_eq!(halo_types(&vec![-1, 0, 17, -1, -2]), vec![0, 1, 1, 0, 1]);
    assert_eq!(halo_types(&vec![]), Vec::<i8>::new());
}
