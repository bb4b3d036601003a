//! The arena core: a slab that hands out stable integer keys for inserted
//! values and reuses freed slots in O(1) time, over any storage backend.
//!
//! Each slot is either occupied or vacant; the vacant slots form a
//! singly-linked free list threaded through the slots themselves. `None` in
//! a vacant slot's link, and in the free-list head, is the end-of-list
//! marker.

use vstd::prelude::*;

use crate::error::Error;
use crate::list::{List, ListStorage, MutRefListStorage};

verus! {

/// One storage unit of the arena: either it holds a value, or it is vacant
/// and links to the next free slot (`None` meaning the end of the free
/// list).
#[derive(Debug)]
pub enum Slot<T> {
    /// The slot currently holds a value.
    Occupied(T),
    /// The slot is free; the payload links to the next free slot.
    Vacant(Option<usize>),
}

/// The value a slot holds, if it is occupied.
pub open spec fn slot_value<T>(slot: Slot<T>) -> Option<T> {
    match slot {
        Slot::Occupied(value) => Some(value),
        Slot::Vacant(_) => None,
    }
}

/// What it takes for slots, an occupied count, a free-list head, and a
/// free-list order to form a consistent arena: the free list stays in
/// range, links each vacant slot to the next and ends at the marker, never
/// repeats a slot, covers every vacant slot, and leaves the occupied count
/// as the rest.
pub open spec fn shape_wf<T, L: List<Item = Slot<T>>>(
    slots: &L,
    count: usize,
    free_head: Option<usize>,
    free: Seq<usize>,
) -> bool {
    let items = slots.contents();
    &&& slots.inv()
    &&& forall|k: int| 0 <= k < free.len() ==> (#[trigger] free[k]) < items.len()
    &&& forall|k: int| 0 <= k < free.len()
        ==> items[#[trigger] free[k] as int] == Slot::<T>::Vacant(
            if k + 1 < free.len() { Some(free[k + 1]) } else { None }
        )
    &&& free_head == (if free.len() > 0 { Some(free[0]) } else { None })
    &&& forall|k1: int, k2: int| 0 <= k1 < k2 < free.len()
        ==> (#[trigger] free[k1]) != (#[trigger] free[k2])
    &&& forall|i: int| (0 <= i < items.len() && ((#[trigger] items[i]) matches Slot::Vacant(_)))
        ==> free.contains(i as usize)
    &&& free.len() <= items.len()
    &&& count == items.len() - free.len()
}

/// The slot-based arena. Keys returned by `insert` stay valid, and resolve
/// to the inserted value, until they are removed; removed slots are reused
/// most-recently-freed first.
pub struct Slab<T, S: ListStorage<Slot<T>>> {
    slots: S::List,
    count: usize,
    free_head: Option<usize>,
    free_order: Ghost<Seq<usize>>,
}

impl<T, S: ListStorage<Slot<T>>> Slab<T, S> {
    /// The arena's slots as a mathematical sequence: `Some(value)` for an
    /// occupied slot, `None` for a vacant one.
    pub closed spec fn view(&self) -> Seq<Option<T>> {
        self.slots.contents().map_values(|slot: Slot<T>| slot_value(slot))
    }

    /// The indices of the vacant slots, in the order the free list visits
    /// them from its head.
    pub closed spec fn free_list(&self) -> Seq<usize> {
        self.free_order@
    }

    /// The number of occupied slots.
    pub open spec fn occupied_count(&self) -> int {
        self.view().len() - self.free_list().len()
    }

    /// Well-formedness: the free list visits every vacant slot exactly once,
    /// links each to the next, never touches an occupied slot, and
    /// terminates; the occupied count is the rest.
    pub closed spec fn wf(&self) -> bool {
        shape_wf(&self.slots, self.count, self.free_head, self.free_order@)
    }

    /// A fresh, empty arena over a fresh sequence of the backend `S`.
    pub fn new() -> (r: Self)
        ensures
            r.wf(),
            r.view().len() == 0,
            r.free_list().len() == 0,
            r.occupied_count() == 0,
    {
        let slots = S::new_list();
        Slab { slots, count: 0, free_head: None, free_order: Ghost(Seq::empty()) }
    }

    /// The number of values currently stored.
    pub fn len(&self) -> (n: usize)
        requires
            self.wf(),
        ensures
            n == self.occupied_count(),
    {
        self.count
    }

    /// The total number of slots, occupied and vacant.
    pub fn capacity(&self) -> (n: usize)
        requires
            self.wf(),
        ensures
            n == self.view().len(),
    {
        self.slots.len()
    }

    /// The key the next insert will hand out: the head of the free list if
    /// one is free, else the append position.
    pub open spec fn next_key(&self) -> usize {
        if self.free_list().len() > 0 {
            self.free_list()[0]
        } else {
            self.view().len() as usize
        }
    }

    /// Stores `value` and returns its key: the most recently freed slot if
    /// any is free, else a new slot appended at the end. O(1) amortized.
    pub fn insert(&mut self, value: T) -> (key: usize)
        requires
            old(self).wf(),
            old(self).view().len() < usize::MAX,
        ensures
            final(self).wf(),
            key == old(self).next_key(),
            key <= old(self).view().len(),
            final(self).occupied_count() == old(self).occupied_count() + 1,
            key < old(self).view().len() ==> old(self).view()[key as int] is None
                && final(self).view() == old(self).view().update(key as int, Some(value)),
            key == old(self).view().len() ==> final(self).view()
                == old(self).view().push(Some(value)),
            final(self).view() == insert_effect(old(self).view(), key, value),
            final(self).free_list() == (if old(self).free_list().len() > 0 {
                old(self).free_list().drop_first()
            } else {
                old(self).free_list()
            }),
    {
        proof {
            self.slots.lemma_len_bound();
        }
        match self.free_head {
            Some(head) => {
                let next: Option<usize> = match self.slots.get(head) {
                    Some(slot) => match slot {
                        Slot::Vacant(link) => *link,
                        Slot::Occupied(_) => vstd::pervasive::unreached(),
                    },
                    None => vstd::pervasive::unreached(),
                };
                let ok = self.slots.set_at(head, Slot::Occupied(value));
                assert(ok);
                self.free_head = next;
                self.count = self.count + 1;
                self.free_order = Ghost(old(self).free_order@.drop_first());
                proof {
                    let prior = old(self).free_order@;
                    let free = self.free_order@;
                    let slots = self.slots.contents();
                    assert(self.view() =~= old(self).view().update(head as int, Some(value)));
                    assert forall|i: int|
                        (0 <= i < slots.len() && ((#[trigger] slots[i]) matches Slot::Vacant(_)))
                            implies free.contains(i as usize) by {
                        assert(old(self).slots.contents()[i] == slots[i]);
                        assert(prior.contains(i as usize));
                        let k = choose|k: int|
                            0 <= k < prior.len() && prior[k] == i as usize;
                        assert(k != 0);
                        assert(free[k - 1] == i as usize);
                    }
                }
                head
            },
            None => {
                let key = self.slots.len();
                self.slots.push(Slot::Occupied(value));
                self.count = self.count + 1;
                proof {
                    let slots = self.slots.contents();
                    assert(self.view() =~= old(self).view().push(Some(value)));
                    assert forall|i: int|
                        (0 <= i < slots.len() && ((#[trigger] slots[i]) matches Slot::Vacant(_)))
                            implies self.free_order@.contains(i as usize) by {
                        assert(i < old(self).slots.contents().len());
                        assert(old(self).slots.contents()[i] == slots[i]);
                    }
                }
                key
            },
        }
    }

    /// Borrows the value stored under `key`: nothing if `key` is out of
    /// range or currently vacant.
    pub fn get(&self, key: usize) -> (r: Option<&T>)
        requires
            self.wf(),
        ensures
            match r {
                Some(value) => key < self.view().len()
                    && self.view()[key as int] == Some(*value),
                None => key >= self.view().len() || self.view()[key as int] is None,
            },
    {
        match self.slots.get(key) {
            Some(slot) => match slot {
                Slot::Occupied(value) => Some(value),
                Slot::Vacant(_) => None,
            },
            None => None,
        }
    }
}

/// The (key, value) pairs of the occupied places of an arena model, in
/// ascending key order; vacant places are skipped.
pub open spec fn pairs_spec<T>(s: Seq<Option<T>>) -> Seq<(usize, T)>
    decreases s.len(),
{
    if s.len() == 0 {
        Seq::empty()
    } else {
        match s.last() {
            Some(value) => pairs_spec(s.drop_last()).push(((s.len() - 1) as usize, value)),
            None => pairs_spec(s.drop_last()),
        }
    }
}

/// How many places of an arena model are occupied.
pub open spec fn occupied_total<T>(s: Seq<Option<T>>) -> int
    decreases s.len(),
{
    if s.len() == 0 {
        0
    } else {
        occupied_total(s.drop_last()) + (if s.last() is Some { 1int } else { 0 })
    }
}

/// The enumeration never outnumbers the places, stays in range, and lists
/// its keys in strictly ascending order.
pub proof fn lemma_pairs_spec_shape<T>(s: Seq<Option<T>>)
    requires
        s.len() <= usize::MAX,
    ensures
        pairs_spec(s).len() <= s.len(),
        forall|k: int| 0 <= k < pairs_spec(s).len() ==> (#[trigger] pairs_spec(s)[k]).0 < s.len(),
        forall|k1: int, k2: int| 0 <= k1 < k2 < pairs_spec(s).len()
            ==> (#[trigger] pairs_spec(s)[k1]).0 < (#[trigger] pairs_spec(s)[k2]).0,
    decreases s.len(),
{
    if s.len() > 0 {
        lemma_pairs_spec_shape(s.drop_last());
    }
}

/// Walking the enumeration one place further appends that place's pair if it
/// is occupied.
proof fn lemma_pairs_spec_take_step<T>(s: Seq<Option<T>>, i: int)
    requires
        0 <= i < s.len(),
    ensures
        pairs_spec(s.take(i + 1)) == (match s[i] {
            Some(value) => pairs_spec(s.take(i)).push((i as usize, value)),
            None => pairs_spec(s.take(i)),
        }),
{
    assert(s.take(i + 1).drop_last() =~= s.take(i));
    assert(s.take(i + 1).last() == s[i]);
}

impl<T, S: ListStorage<Slot<T>>> Slab<T, S> {
    /// Wraps already-threaded parts into an arena. The caller shows the
    /// parts consistent; the builder uses this after threading its free
    /// list.
    pub(crate) fn assemble(
        slots: S::List,
        count: usize,
        free_head: Option<usize>,
        Ghost(free): Ghost<Seq<usize>>,
    ) -> (r: Self)
        requires
            shape_wf(&slots, count, free_head, free),
        ensures
            r.wf(),
            r.view() == slots.contents().map_values(|slot: Slot<T>| slot_value(slot)),
            r.free_list() == free,
    {
        Slab { slots, count, free_head, free_order: Ghost(free) }
    }

    /// The keys of the occupied slots, in ascending order. Together with
    /// `get`, this enumerates the arena's (key, value) pairs.
    pub fn keys(&self) -> (r: Vec<usize>)
        requires
            self.wf(),
        ensures
            r@ == pairs_spec(self.view()).map_values(|p: (usize, T)| p.0),
    {
        let n = self.slots.len();
        let mut r: Vec<usize> = Vec::new();
        let mut i: usize = 0;
        while i < n
            invariant
                self.wf(),
                i <= n,
                n == self.view().len(),
                r@ == pairs_spec(self.view().take(i as int)).map_values(|p: (usize, T)| p.0),
            decreases n - i,
        {
            proof {
                lemma_pairs_spec_take_step(self.view(), i as int);
            }
            match self.slots.get(i) {
                Some(slot) => match slot {
                    Slot::Occupied(_) => {
                        r.push(i);
                        proof {
                            assert(r@ =~= pairs_spec(self.view().take(i + 1)).map_values(
                                |p: (usize, T)| p.0,
                            ));
                        }
                    },
                    Slot::Vacant(_) => {},
                },
                None => {
                    vstd::pervasive::unreached::<()>();
                },
            }
            i = i + 1;
        }
        proof {
            assert(self.view().take(n as int) =~= self.view());
        }
        r
    }
}

impl<T: Copy, S: ListStorage<Slot<T>>> Slab<T, S> {
    /// The (key, value) pairs of the occupied slots, in ascending key order.
    pub fn pairs(&self) -> (r: Vec<(usize, T)>)
        requires
            self.wf(),
        ensures
            r@ == pairs_spec(self.view()),
    {
        let n = self.slots.len();
        let mut r: Vec<(usize, T)> = Vec::new();
        let mut i: usize = 0;
        while i < n
            invariant
                self.wf(),
                i <= n,
                n == self.view().len(),
                r@ == pairs_spec(self.view().take(i as int)),
            decreases n - i,
        {
            proof {
                lemma_pairs_spec_take_step(self.view(), i as int);
            }
            match self.slots.get(i) {
                Some(slot) => match slot {
                    Slot::Occupied(value) => {
                        r.push((i, *value));
                    },
                    Slot::Vacant(_) => {},
                },
                None => {
                    vstd::pervasive::unreached::<()>();
                },
            }
            i = i + 1;
        }
        proof {
            assert(self.view().take(n as int) =~= self.view());
        }
        r
    }
}

/// What an insert at `key` does to an arena model: occupy the slot `key` if
/// it exists, else append it.
pub open spec fn insert_effect<T>(s: Seq<Option<T>>, key: usize, value: T) -> Seq<Option<T>> {
    if key < s.len() {
        s.update(key as int, Some(value))
    } else {
        s.push(Some(value))
    }
}

/// Key stability: writing one key — occupying it by an insert, or clearing
/// it by a removal — leaves every other key's value unchanged, whatever else
/// the arena holds.
pub proof fn lemma_key_stability<T>(s: Seq<Option<T>>, key: usize, value: T, other: int)
    requires
        0 <= other < s.len(),
        other != key,
    ensures
        insert_effect(s, key, value)[other] == s[other],
        key <= s.len() ==> insert_effect(s, key, value)[key as int] == Some(value),
        key < s.len() ==> s.update(key as int, None)[other] == s[other],
{
}

/// The set of vacant indices of an arena model.
spec fn vacant_set<T>(s: Seq<Option<T>>) -> Set<usize> {
    Set::new(|u: usize| (u as int) < s.len() && s[u as int] is None)
}

/// The vacant indices are finitely many: exactly the length minus the
/// occupied total.
proof fn lemma_vacant_card<T>(s: Seq<Option<T>>)
    requires
        s.len() <= usize::MAX,
    ensures
        vacant_set(s).finite(),
        vacant_set(s).len() == s.len() - occupied_total(s),
    decreases s.len(),
{
    broadcast use vstd::set::group_set_axioms;

    if s.len() == 0 {
        assert(vacant_set(s) =~= Set::<usize>::empty());
    } else {
        lemma_vacant_card(s.drop_last());
        let last_index = (s.len() - 1) as usize;
        if s.last() is None {
            assert(vacant_set(s) =~= vacant_set(s.drop_last()).insert(last_index));
            assert(!vacant_set(s.drop_last()).contains(last_index));
        } else {
            assert(vacant_set(s) =~= vacant_set(s.drop_last()));
        }
    }
}

impl<T, S: ListStorage<Slot<T>>> Slab<T, S> {
    /// Free-list soundness: the free list, walked from its head, visits
    /// exactly the set of vacant slots — each once, no occupied slot, no
    /// cycle — and what `len` reports is the number of occupied slots.
    pub proof fn lemma_free_list_sound(&self)
        requires
            self.wf(),
        ensures
            forall|k: int| 0 <= k < self.free_list().len()
                ==> (#[trigger] self.free_list()[k]) < self.view().len()
                    && self.view()[self.free_list()[k] as int] is None,
            forall|k1: int, k2: int| 0 <= k1 < k2 < self.free_list().len()
                ==> (#[trigger] self.free_list()[k1]) != (#[trigger] self.free_list()[k2]),
            forall|i: int| (0 <= i < self.view().len() && (#[trigger] self.view()[i]) is None)
                ==> self.free_list().contains(i as usize),
            self.occupied_count() == occupied_total(self.view()),
    {
        broadcast use vstd::set::group_set_axioms;

        let free = self.free_order@;
        let s = self.view();
        self.slots.lemma_len_bound();
        assert(forall|i: int| (0 <= i < s.len() && (#[trigger] s[i]) is None)
            ==> free.contains(i as usize)) by {
            assert(forall|i: int| 0 <= i < s.len()
                ==> s[i] == slot_value(#[trigger] self.slots.contents()[i]));
        }
        lemma_vacant_card(s);
        assert(free.no_duplicates()) by {
            assert forall|i: int, j: int|
                0 <= i < free.len() && 0 <= j < free.len() && i != j implies free[i]
                != free[j] by {
                if i < j {
                    assert(free[i] != free[j]);
                } else {
                    assert(free[j] != free[i]);
                }
            }
        }
        free.unique_seq_to_set();
        assert(free.to_set() =~= vacant_set(s)) by {
            assert forall|u: usize| free.to_set().contains(u) implies vacant_set(s).contains(
                u,
            ) by {
                let k = choose|k: int| 0 <= k < free.len() && free[k] == u;
                assert(s[u as int] == slot_value(self.slots.contents()[u as int]));
            }
            assert forall|u: usize| vacant_set(s).contains(u) implies free.to_set().contains(
                u,
            ) by {
                assert(free.contains(u));
            }
        }
    }
}

/// LIFO reuse, first half: right after key `key` is freed — the free list
/// then starts with `key` — the next insert hands `key` out again.
pub proof fn lemma_lifo_reuse<T, S: ListStorage<Slot<T>>>(
    pre: &Slab<T, S>,
    post: &Slab<T, S>,
    key: usize,
)
    requires
        post.free_list() == seq![key] + pre.free_list(),
    ensures
        post.next_key() == key,
{
    assert((seq![key] + pre.free_list())[0] == key);
}

/// LIFO reuse, second half: if another key was freed after `key`, the next
/// insert hands out that later key, not `key` — the most recently freed slot
/// always wins.
pub proof fn lemma_lifo_reuse_shadowed<T, S: ListStorage<Slot<T>>>(
    pre: &Slab<T, S>,
    mid: &Slab<T, S>,
    post: &Slab<T, S>,
    key: usize,
    later: usize,
)
    requires
        mid.free_list() == seq![key] + pre.free_list(),
        post.free_list() == seq![later] + mid.free_list(),
        later != key,
    ensures
        post.next_key() == later,
        post.next_key() != key,
{
    assert((seq![later] + mid.free_list())[0] == later);
}

/// Takes the value out of a slot while storing a replacement in its place.
///
/// Relies on `replace_with::replace_with_or_abort_and_return`: it hands the
/// current value of `dest` to the closure, stores the second component of
/// the closure's result at `dest`, and returns the first. The closure here
/// only moves the two values across, so its abort-on-unwind path cannot be
/// taken.
#[verifier::external_body]
fn take_slot<T>(dest: &mut Slot<T>, replacement: Slot<T>) -> (prev: Slot<T>)
    ensures
        prev == *old(dest),
        *final(dest) == replacement,
{
    replace_with::replace_with_or_abort_and_return(dest, |taken| (taken, replacement))
}

/// A run of distinct in-range indices that all avoid one in-range index
/// cannot fill the whole range.
proof fn lemma_distinct_avoiding(free: Seq<usize>, n: int, excl: usize)
    requires
        forall|k: int| 0 <= k < free.len() ==> (#[trigger] free[k]) < n,
        forall|k1: int, k2: int| 0 <= k1 < k2 < free.len()
            ==> (#[trigger] free[k1]) != (#[trigger] free[k2]),
        forall|k: int| 0 <= k < free.len() ==> (#[trigger] free[k]) != excl,
        0 <= excl < n,
    ensures
        free.len() < n,
{
    broadcast use vstd::set::group_set_axioms;

    let cast = |u: usize| u as int;
    let fi = free.map_values(cast);
    assert(fi.no_duplicates()) by {
        assert forall|i: int, j: int|
            0 <= i < fi.len() && 0 <= j < fi.len() && i != j implies fi[i] != fi[j] by {
            if i < j {
                assert(free[i] != free[j]);
            } else {
                assert(free[j] != free[i]);
            }
        }
    }
    fi.unique_seq_to_set();
    vstd::set_lib::lemma_int_range(0, n);
    let range = vstd::set_lib::set_int_range(0, n).remove(excl as int);
    assert(vstd::set_lib::set_int_range(0, n).contains(excl as int));
    assert(fi.to_set().subset_of(range)) by {
        assert forall|x: int| fi.to_set().contains(x) implies range.contains(x) by {
            let k = choose|k: int| 0 <= k < fi.len() && fi[k] == x;
            assert(free[k] < n && free[k] != excl);
        }
    }
    vstd::set_lib::lemma_len_subset(fi.to_set(), range);
}

impl<T, S: MutRefListStorage<Slot<T>>> Slab<T, S> {
    /// Frees the slot under `key` and returns the value it held, linking the
    /// slot in as the new head of the free list. Fails, changing nothing,
    /// when `key` is out of range or the slot is already vacant. O(1).
    pub fn remove(&mut self, key: usize) -> (r: Result<T, Error>)
        requires
            old(self).wf(),
        ensures
            final(self).wf(),
            match r {
                Ok(value) => {
                    &&& key < old(self).view().len()
                    &&& old(self).view()[key as int] == Some(value)
                    &&& final(self).view() == old(self).view().update(key as int, None)
                    &&& final(self).free_list() == seq![key] + old(self).free_list()
                    &&& final(self).occupied_count() == old(self).occupied_count() - 1
                },
                Err(e) => {
                    &&& *final(self) == *old(self)
                    &&& match e {
                        Error::OutOfBounds => key >= old(self).view().len(),
                        Error::AlreadyVacant => key < old(self).view().len()
                            && old(self).view()[key as int] is None,
                        _ => false,
                    }
                },
            },
    {
        let n = self.slots.len();
        if key >= n {
            return Err(Error::OutOfBounds);
        }
        let occupied = match self.slots.get(key) {
            Some(slot) => match slot {
                Slot::Occupied(_) => true,
                Slot::Vacant(_) => false,
            },
            None => vstd::pervasive::unreached(),
        };
        if !occupied {
            return Err(Error::AlreadyVacant);
        }
        proof {
            lemma_distinct_avoiding(
                self.free_order@,
                self.slots.contents().len() as int,
                key,
            );
        }
        let old_head = self.free_head;
        let slot_ref = S::item_mut(&mut self.slots, key);
        let prev = take_slot(slot_ref, Slot::Vacant(old_head));
        let value = match prev {
            Slot::Occupied(inner) => inner,
            Slot::Vacant(_) => vstd::pervasive::unreached(),
        };
        self.free_head = Some(key);
        self.count = self.count - 1;
        self.free_order = Ghost(seq![key] + old(self).free_order@);
        proof {
            let prior = old(self).free_order@;
            let free = self.free_order@;
            let slots = self.slots.contents();
            assert(self.view() =~= old(self).view().update(key as int, None));
            assert forall|i: int|
                (0 <= i < slots.len() && ((#[trigger] slots[i]) matches Slot::Vacant(_)))
                    implies free.contains(i as usize) by {
                if i == key as int {
                    assert(free[0] == key);
                } else {
                    assert(old(self).slots.contents()[i] == slots[i]);
                    assert(prior.contains(i as usize));
                    let k = choose|k: int| 0 <= k < prior.len() && prior[k] == i as usize;
                    assert(free[k + 1] == i as usize);
                }
            }
        }
        Ok(value)
    }

    /// A plain mutable reference to the value under `key`, for backends that
    /// can hand one out. The caller must name an occupied slot (`get` tells
    /// which are); whatever is written through the reference, the slot stays
    /// occupied and every other slot is untouched.
    pub fn get_mut(&mut self, key: usize) -> (r: &mut T)
        requires
            old(self).wf(),
            key < old(self).view().len(),
            old(self).view()[key as int] is Some,
        ensures
            old(self).view()[key as int] == Some(*r),
            final(self).wf(),
            final(self).view() == old(self).view().update(key as int, Some(*final(r))),
            final(self).free_list() == old(self).free_list(),
            final(self).occupied_count() == old(self).occupied_count(),
    {
        let slot_ref = S::item_mut(&mut self.slots, key);
        match slot_ref {
            Slot::Occupied(value) => value,
            Slot::Vacant(_) => vstd::pervasive::unreached(),
        }
    }
}

} // verus!
