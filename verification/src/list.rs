//! The minimal ordered-sequence capability that every backing storage of the
//! arena must satisfy: a length, an append, and indexed read and write.
//!
//! Deletion and reuse semantics are deliberately absent at this layer; they
//! belong to the arena core, which threads its free list through the values
//! it stores here.

use vstd::prelude::*;

verus! {

/// An ordered sequence of items, abstracted by a mathematical sequence.
///
/// A sequence never shrinks through this interface: `push` appends and
/// `set_at` replaces in place, so the length is monotone.
pub trait List: Sized {
    /// The item type stored by the sequence.
    type Item;

    /// The mathematical contents of the sequence.
    spec fn contents(&self) -> Seq<Self::Item>;

    /// The implementation's internal invariant; every operation requires and
    /// preserves it.
    spec fn inv(&self) -> bool;

    /// A well-formed sequence always fits in a machine word, so `len` cannot
    /// be asked for a length it cannot return.
    proof fn lemma_len_bound(&self)
        requires
            self.inv(),
        ensures
            self.contents().len() <= usize::MAX,
    ;

    /// The number of items.
    fn len(&self) -> (n: usize)
        requires
            self.inv(),
        ensures
            n == self.contents().len(),
    ;

    /// Appends `item` at the end.
    fn push(&mut self, item: Self::Item)
        requires
            old(self).inv(),
            old(self).contents().len() < usize::MAX,
        ensures
            final(self).inv(),
            final(self).contents() == old(self).contents().push(item),
    ;

    /// Borrows the item at `key`, or nothing if `key` is out of bounds.
    fn get(&self, key: usize) -> (r: Option<&Self::Item>)
        requires
            self.inv(),
        ensures
            match r {
                Some(item) => key < self.contents().len() && *item == self.contents()[key as int],
                None => key >= self.contents().len(),
            },
    ;

    /// Overwrites the item at `key` in place; reports whether `key` was in
    /// bounds (when it is not, the sequence is unchanged and `item` is
    /// dropped).
    fn set_at(&mut self, key: usize, item: Self::Item) -> (r: bool)
        requires
            old(self).inv(),
        ensures
            final(self).inv(),
            r == (key < old(self).contents().len()),
            r ==> final(self).contents() == old(self).contents().update(key as int, item),
            !r ==> final(self).contents() == old(self).contents(),
    ;
}

/// A handle on one place of a sequence that currently holds a value and can
/// be overwritten. It decouples reading and writing a slot from how the slot
/// is physically stored; the sequence it was obtained from must be passed
/// back in, which also enforces the exclusion of concurrent writers.
pub trait ItemMut<L: List>: Sized {
    /// The position this handle addresses.
    spec fn pos(&self) -> int;

    /// Reads the value currently at the handle's position.
    fn get<'s>(&self, list: &'s L) -> (r: &'s L::Item)
        requires
            list.inv(),
            0 <= self.pos() < list.contents().len(),
        ensures
            *r == list.contents()[self.pos()],
    ;

    /// Overwrites the value at the handle's position; a second write through
    /// the same handle overwrites again rather than duplicating.
    fn set(&mut self, list: &mut L, item: L::Item)
        requires
            old(list).inv(),
            0 <= old(self).pos() < old(list).contents().len(),
        ensures
            final(list).inv(),
            final(list).contents() == old(list).contents().update(old(self).pos(), item),
            final(self).pos() == old(self).pos(),
    ;
}

impl<T> List for Vec<T> {
    type Item = T;

    open spec fn contents(&self) -> Seq<T> {
        self@
    }

    open spec fn inv(&self) -> bool {
        true
    }

    proof fn lemma_len_bound(&self) {
        vstd::std_specs::vec::axiom_spec_len(self);
    }

    fn len(&self) -> (n: usize) {
        Vec::len(self)
    }

    fn push(&mut self, item: T) {
        Vec::push(self, item);
    }

    fn get(&self, key: usize) -> (r: Option<&T>) {
        if key < Vec::len(self) {
            Some(&self[key])
        } else {
            None
        }
    }

    fn set_at(&mut self, key: usize, item: T) -> (r: bool) {
        if key < Vec::len(self) {
            self[key] = item;
            true
        } else {
            false
        }
    }
}

/// A backend capability provider: a type-level mapping from an item type to
/// the concrete sequence implementation that stores it.
pub trait ListStorage<T> {
    /// The sequence implementation this backend provides for items of type
    /// `T`.
    type List: List<Item = T>;

    /// A fresh, empty sequence of this backend.
    fn new_list() -> (r: Self::List)
        ensures
            r.inv(),
            r.contents().len() == 0,
    ;
}

/// An optional backend capability: discarding all items at once.
pub trait ClearableListStorage<T>: ListStorage<T> {
    /// Empties `list`.
    fn clear(list: &mut Self::List)
        requires
            old(list).inv(),
        ensures
            final(list).inv(),
            final(list).contents().len() == 0,
    ;
}

/// An optional backend capability: handing out a plain mutable reference to
/// one item. Only backends whose places are real memory locations can offer
/// it; an overlay, whose writes are staged entries, cannot.
pub trait MutRefListStorage<T>: ListStorage<T> {
    /// A mutable reference to the item at `key`.
    fn item_mut(list: &mut Self::List, key: usize) -> (r: &mut T)
        requires
            old(list).inv(),
            key < old(list).contents().len(),
        ensures
            *r == old(list).contents()[key as int],
            final(list).inv(),
            final(list).contents() == old(list).contents().update(key as int, *final(r)),
    ;
}

/// An optional backend capability: a contiguous slice view, valid only for
/// backends whose storage is physically contiguous.
pub trait AsSliceListStorage<T>: ListStorage<T> {
    /// The whole sequence as one read-only slice.
    fn as_slice(list: &Self::List) -> (r: &[T])
        requires
            list.inv(),
        ensures
            r@ == list.contents(),
    ;

    /// The whole sequence as one mutable slice.
    fn as_mut_slice(list: &mut Self::List) -> (r: &mut [T])
        requires
            old(list).inv(),
        ensures
            r@ == old(list).contents(),
            final(list).inv(),
            final(list).contents() == final(r)@,
    ;
}

/// The default backend: a growable array. It offers every optional
/// capability. The type is a pure marker and is never instantiated.
#[derive(Debug)]
pub struct VecStorage;

impl<T> ListStorage<T> for VecStorage {
    type List = Vec<T>;

    fn new_list() -> (r: Vec<T>) {
        Vec::new()
    }
}

impl<T> ClearableListStorage<T> for VecStorage {
    fn clear(list: &mut Vec<T>) {
        list.clear();
    }
}

impl<T> MutRefListStorage<T> for VecStorage {
    fn item_mut(list: &mut Vec<T>, key: usize) -> (r: &mut T) {
        &mut list[key]
    }
}

impl<T> AsSliceListStorage<T> for VecStorage {
    fn as_slice(list: &Vec<T>) -> (r: &[T]) {
        list.as_slice()
    }

    fn as_mut_slice(list: &mut Vec<T>) -> (r: &mut [T]) {
        list.as_mut_slice()
    }
}

} // verus!
