use disjoint_set::{DisjointSet, SafeDisjointSet};

#[test]
fn fresh_elements_resolve_to_themselves() {
    let ds = DisjointSet::new(7);
    for k in 0..7 {
        assert_eq!(ds.find(k), k);
    }
    assert_eq!(ds.table(), &vec![None; 7]);
}

#[test]
fn empty_structure_has_no_slots() {
    let ds = DisjointSet::new(0);
    assert!(ds.table().is_empty());
    let safe = SafeDisjointSet::new(0);
    assert_eq!(safe.find(0), None);
}

#[test]
fn union_of_fresh_pair_resolves_to_smaller() {
    let mut ds = DisjointSet::new(6);
    ds.union(5, 2);
    assert_eq!(ds.find(5), 2);
    assert_eq!(ds.find(2), 2);
    assert_eq!(ds.table(), &vec![None, None, None, None, None, Some(2)]);
}

#[test]
fn union_of_key_with_itself_records_self_reference() {
    let mut ds = DisjointSet::new(3);
    ds.union(1, 1);
    assert_eq!(ds.table(), &vec![None, Some(1), None]);
    assert_eq!(ds.find(1), 1);
}

#[test]
fn repeated_union_only_adds_self_reference() {
    let mut ds = DisjointSet::new(2);
    ds.union(0, 1);
    assert_eq!(ds.table(), &vec![None, Some(0)]);
    ds.union(0, 1);
    assert_eq!(ds.table(), &vec![Some(0), Some(0)]);
    ds.union(0, 1);
    assert_eq!(ds.table(), &vec![Some(0), Some(0)]);
    assert_eq!(ds.find(0), 0);
    assert_eq!(ds.find(1), 0);
}

#[test]
fn case_two_redirects_every_slot_of_loser() {
    let mut ds = DisjointSet::new(7);
    ds.union(0, 1);
    ds.union(2, 3);
    ds.union(2, 4);
    ds.union(2, 5);
    assert_eq!(
        ds.table(),
        &vec![None, Some(0), None, Some(2), Some(2), Some(2), None]
    );
    ds.union(5, 1);
    assert_eq!(
        ds.table(),
        &vec![None, Some(0), Some(0), Some(0), Some(0), Some(0), None]
    );
    for k in 0..6 {
        assert_eq!(ds.find(k), 0);
    }
    assert_eq!(ds.find(6), 6);
}

#[test]
fn case_three_attaches_representative_under_other_side() {
    let mut ds = DisjointSet::new(5);
    ds.union(3, 4);
    ds.union(0, 4);
    assert_eq!(ds.table(), &vec![Some(3), None, None, None, Some(3)]);
    assert_eq!(ds.find(0), 3);
}

#[test]
fn safe_find_bounds() {
    let safe = SafeDisjointSet::new(5);
    assert_eq!(safe.find(10), None);
    assert_eq!(safe.find(2), Some(2));
    assert_eq!(safe.find(5), None);
    assert_eq!(safe.find(4), Some(4));
    assert_eq!(safe.find(-1), None);
    assert_eq!(safe.find(i32::MIN), None);
}
