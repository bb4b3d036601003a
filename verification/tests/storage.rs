//! Tests of the sequence abstraction and the default backend's optional
//! capabilities.

use txslab::{
    AsSliceListStorage, ClearableListStorage, List, ListStorage, MutRefListStorage, VecStorage,
};

#[test]
fn vec_implements_the_sequence_capability() {
    let mut list: Vec<u32> = <VecStorage as ListStorage<u32>>::new_list();
    assert_eq!(List::len(&list), 0);
    List::push(&mut list, 10);
    List::push(&mut list, 20);
    assert_eq!(List::len(&list), 2);
    assert_eq!(List::get(&list, 0), Some(&10));
    assert_eq!(List::get(&list, 1), Some(&20));
    assert_eq!(List::get(&list, 2), None);
    assert!(List::set_at(&mut list, 1, 21));
    assert_eq!(List::get(&list, 1), Some(&21));
    assert!(!List::set_at(&mut list, 5, 9));
    assert_eq!(list, vec![10, 21]);
}

#[test]
fn vec_storage_offers_clear() {
    let mut list: Vec<u32> = vec![1, 2, 3];
    <VecStorage as ClearableListStorage<u32>>::clear(&mut list);
    assert!(list.is_empty());
}

#[test]
fn vec_storage_offers_mut_ref() {
    let mut list: Vec<u32> = vec![1, 2, 3];
    *<VecStorage as MutRefListStorage<u32>>::item_mut(&mut list, 1) = 9;
    assert_eq!(list, vec![1, 9, 3]);
}

#[test]
fn vec_storage_offers_slices() {
    let mut list: Vec<u32> = vec![1, 2];
    assert_eq!(<VecStorage as AsSliceListStorage<u32>>::as_slice(&list), &[1, 2]);
    let slice = <VecStorage as AsSliceListStorage<u32>>::as_mut_slice(&mut list);
    slice[0] = 5;
    assert_eq!(list, vec![5, 2]);
}
