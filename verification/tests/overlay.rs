//! Tests of the transactional overlay: staging, the mutable-item handle,
//! and committing a patch onto a real sequence.

use txslab::{Error, ItemMut, List, TxList};

/// Reads the whole merged view of the overlay through `get`.
fn to_vec(list: &TxList<'_, Vec<u32>>) -> Vec<u32> {
    let mut result: Vec<u32> = Vec::new();
    let mut idx = 0;
    while let Some(item) = list.get(idx) {
        result.push(*item);
        idx += 1;
    }
    assert_eq!(result.len(), list.len());
    result
}

/// The overlay must read as `expected`, and committing its patch onto a
/// fresh copy of the base must produce `expected` as well.
fn expect_values(base: &[u32], tx: &TxList<'_, Vec<u32>>, expected: &[u32]) {
    assert_eq!(to_vec(tx), expected);
    let mut values = base.to_vec();
    tx.clone().into_inner().1.apply(&mut values).unwrap();
    assert_eq!(values, expected);
}

#[test]
fn push() {
    let base: Vec<u32> = vec![4];
    let mut tx = TxList::new(&base);
    tx.push(2);
    expect_values(&[4], &tx, &[4, 2]);
}

#[test]
fn entry_original() {
    let base: Vec<u32> = vec![2, 3];
    let mut tx = TxList::new(&base);
    let mut entry = tx.get_mut(0).unwrap();
    assert_eq!(*entry.get(&tx), 2);
    entry.set(&mut tx, 5);
    assert_eq!(*entry.get(&tx), 5);
    expect_values(&[2, 3], &tx, &[5, 3]);
}

#[test]
fn entry_original_set_twice() {
    let base: Vec<u32> = vec![2, 3];
    let mut tx = TxList::new(&base);
    let mut entry = tx.get_mut(0).unwrap();
    entry.set(&mut tx, 5);
    entry.set(&mut tx, 8);
    assert_eq!(*entry.get(&tx), 8);
    expect_values(&[2, 3], &tx, &[8, 3]);
}

#[test]
fn entry_pushed() {
    let base: Vec<u32> = vec![2, 3];
    let mut tx = TxList::new(&base);
    tx.push(6);
    let mut entry = tx.get_mut(2).unwrap();
    assert_eq!(*entry.get(&tx), 6);
    entry.set(&mut tx, 4);
    assert_eq!(*entry.get(&tx), 4);
    expect_values(&[2, 3], &tx, &[2, 3, 4]);
}

#[test]
fn entry_pushed_set_twice() {
    let base: Vec<u32> = vec![2, 3];
    let mut tx = TxList::new(&base);
    tx.push(6);
    let mut entry = tx.get_mut(2).unwrap();
    entry.set(&mut tx, 4);
    entry.set(&mut tx, 7);
    assert_eq!(*entry.get(&tx), 7);
    expect_values(&[2, 3], &tx, &[2, 3, 7]);
}

#[test]
fn overlay_reads_merge_base_and_appends() {
    let base: Vec<u32> = vec![4];
    let mut tx = TxList::new(&base);
    tx.push(2);
    assert_eq!(tx.len(), 2);
    assert_eq!(*tx.get(0).unwrap(), 4);
    assert_eq!(*tx.get(1).unwrap(), 2);
    assert!(tx.get(2).is_none());
    let mut copy = vec![4u32];
    tx.into_inner().1.apply(&mut copy).unwrap();
    assert_eq!(copy, vec![4, 2]);
}

#[test]
fn overlay_set_at_out_of_range_changes_nothing() {
    let base: Vec<u32> = vec![1, 2];
    let mut tx = TxList::new(&base);
    assert!(!tx.set_at(2, 9));
    assert_eq!(to_vec(&tx), vec![1, 2]);
    assert!(tx.get_mut(2).is_none());
}

#[test]
fn read_only_overlay_applies_as_noop() {
    let base: Vec<u32> = vec![7, 8, 9];
    let tx = TxList::new(&base);
    assert_eq!(to_vec(&tx), vec![7, 8, 9]);
    let mut copy = vec![7u32, 8, 9];
    tx.into_inner().1.apply(&mut copy).unwrap();
    assert_eq!(copy, vec![7, 8, 9]);
}

#[test]
fn apply_rejects_short_target() {
    let base: Vec<u32> = vec![1, 2, 3];
    let mut tx = TxList::new(&base);
    assert!(tx.set_at(2, 30));
    let patch = tx.into_inner().1;
    let mut short = vec![1u32];
    assert_eq!(patch.apply(&mut short), Err(Error::IndexOutOfRange));
    assert_eq!(short, vec![1]);
}

#[test]
fn independent_overlays_share_one_base() {
    let base: Vec<u32> = vec![10, 20];
    let mut first = TxList::new(&base);
    let mut second = TxList::new(&base);
    assert!(first.set_at(0, 11));
    second.push(30);
    assert_eq!(to_vec(&first), vec![11, 20]);
    assert_eq!(to_vec(&second), vec![10, 20, 30]);
    assert_eq!(base, vec![10, 20]);
}

#[test]
fn overlay_stacks_on_overlay() {
    let base: Vec<u32> = vec![1];
    let mut lower = TxList::new(&base);
    lower.push(2);
    let mut upper = TxList::new(&lower);
    upper.push(3);
    assert!(upper.set_at(0, 9));
    assert_eq!(upper.len(), 3);
    assert_eq!(*upper.get(0).unwrap(), 9);
    assert_eq!(*upper.get(1).unwrap(), 2);
    assert_eq!(*upper.get(2).unwrap(), 3);
    assert_eq!(to_vec(&lower), vec![1, 2]);
}
