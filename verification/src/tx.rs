//! The transactional overlay: a read-only base sequence plus a staged patch
//! of replacements and appends, presented as one merged sequence. The patch
//! can later be applied atomically onto a real mutable sequence.

use vstd::prelude::*;
use vstd::pervasive::cloned;

use crate::error::Error;
use crate::list::{ItemMut, List};

verus! {

/// The mapping that a run of staged replacement entries denotes: a later
/// entry for the same index wins.
pub open spec fn entries_map<T>(entries: Seq<(usize, T)>) -> Map<int, T>
    decreases entries.len(),
{
    if entries.len() == 0 {
        Map::empty()
    } else {
        entries_map(entries.drop_last()).insert(entries.last().0 as int, entries.last().1)
    }
}

/// No two staged replacement entries address the same base index.
pub open spec fn unique_keys<T>(entries: Seq<(usize, T)>) -> bool {
    forall|i: int, j: int|
        0 <= i < j < entries.len() ==> (#[trigger] entries[i]).0 != (#[trigger] entries[j]).0
}

/// `s` with every index in the domain of `m` overwritten by its image.
pub open spec fn overwrite<T>(s: Seq<T>, m: Map<int, T>) -> Seq<T> {
    Seq::new(s.len(), |i: int| if m.contains_key(i) { m[i] } else { s[i] })
}

/// An index is in the denoted mapping exactly when some entry carries it.
pub proof fn lemma_entries_map_domain<T>(entries: Seq<(usize, T)>, key: int)
    ensures
        entries_map(entries).contains_key(key) <==> exists|i: int|
            0 <= i < entries.len() && (#[trigger] entries[i]).0 == key,
    decreases entries.len(),
{
    if entries.len() > 0 {
        lemma_entries_map_domain(entries.drop_last(), key);
        if entries.last().0 == key {
            assert(entries[entries.len() - 1].0 == key);
        } else if entries_map(entries).contains_key(key) {
            let i = choose|i: int|
                0 <= i < entries.drop_last().len() && (#[trigger] entries.drop_last()[i]).0 == key;
            assert(entries[i].0 == key);
        } else {
            assert(forall|i: int| 0 <= i < entries.len() && (#[trigger] entries[i]).0 == key
                ==> 0 <= i < entries.drop_last().len() && entries.drop_last()[i].0 == key);
        }
    }
}

/// With unique keys, the denoted mapping sends an entry's index to that
/// entry's value.
pub proof fn lemma_entries_map_index<T>(entries: Seq<(usize, T)>, i: int)
    requires
        unique_keys(entries),
        0 <= i < entries.len(),
    ensures
        entries_map(entries).contains_key(entries[i].0 as int),
        entries_map(entries)[entries[i].0 as int] == entries[i].1,
    decreases entries.len(),
{
    if i == entries.len() - 1 {
    } else {
        assert(entries[i].0 != entries.last().0);
        assert(entries.drop_last()[i] == entries[i]);
        lemma_entries_map_index(entries.drop_last(), i);
    }
}

/// Appending an entry denotes inserting its pair into the mapping.
pub proof fn lemma_entries_map_push<T>(entries: Seq<(usize, T)>, key: usize, value: T)
    ensures
        entries_map(entries.push((key, value))) == entries_map(entries).insert(key as int, value),
{
    assert(entries.push((key, value)).drop_last() =~= entries);
}

/// Overwriting the value of the entry at position `i` in place denotes
/// inserting the new value at that entry's index.
pub proof fn lemma_entries_map_update<T>(entries: Seq<(usize, T)>, i: int, value: T)
    requires
        unique_keys(entries),
        0 <= i < entries.len(),
    ensures
        entries_map(entries.update(i, (entries[i].0, value)))
            == entries_map(entries).insert(entries[i].0 as int, value),
        unique_keys(entries.update(i, (entries[i].0, value))),
    decreases entries.len(),
{
    let key = entries[i].0;
    let updated = entries.update(i, (key, value));
    assert(unique_keys(updated)) by {
        assert(forall|p: int, q: int| 0 <= p < q < updated.len()
            ==> (#[trigger] updated[p]).0 != (#[trigger] updated[q]).0) by {
            assert(forall|p: int| 0 <= p < updated.len()
                ==> (#[trigger] updated[p]).0 == entries[p].0);
        }
    }
    if i == entries.len() - 1 {
        assert(updated.drop_last() =~= entries.drop_last());
        assert(entries_map(updated)
            == entries_map(entries.drop_last()).insert(key as int, value));
        assert(entries_map(entries).insert(key as int, value)
            =~= entries_map(entries.drop_last()).insert(key as int, value));
    } else {
        assert(updated.drop_last() =~= entries.drop_last().update(i, (key, value)));
        assert(entries.drop_last()[i] == entries[i]);
        lemma_entries_map_update(entries.drop_last(), i, value);
        let last = entries.last();
        assert(updated.last() == last);
        assert(last.0 != key);
        assert(entries_map(updated)
            == entries_map(entries.drop_last()).insert(key as int, value).insert(
            last.0 as int,
            last.1,
        ));
        assert(entries_map(entries.drop_last()).insert(key as int, value).insert(
            last.0 as int,
            last.1,
        ) =~= entries_map(entries).insert(key as int, value));
    }
}

/// The staged, not-yet-committed state of one overlay: a set of replacements
/// of base indices (keys unique) and an ordered run of appended items.
#[derive(Debug)]
pub struct TxListPatch<T> {
    replaced: Vec<(usize, T)>,
    pushed: Vec<T>,
}

impl<T> TxListPatch<T> {
    /// The staged replacement entries, in staging order.
    pub closed spec fn replaced_seq(&self) -> Seq<(usize, T)> {
        self.replaced@
    }

    /// The mapping from base index to staged replacement value.
    pub open spec fn replaced_map(&self) -> Map<int, T> {
        entries_map(self.replaced_seq())
    }

    /// The staged appended items, oldest first.
    pub closed spec fn pushed_seq(&self) -> Seq<T> {
        self.pushed@
    }

    /// Each base index is replaced at most once.
    pub open spec fn wf(&self) -> bool {
        unique_keys(self.replaced_seq())
    }

    /// The sequence that committing this patch turns `base` into:
    /// replacements overwrite their indices, then the appended items follow.
    pub open spec fn apply_spec(&self, base: Seq<T>) -> Seq<T> {
        overwrite(base, self.replaced_map()) + self.pushed_seq()
    }
}

impl<T> TxListPatch<T> {
    /// Commits the staged state onto `list`: every staged replacement
    /// overwrites its index, then the appended items are pushed in staging
    /// order. The patch is consumed; committing it is indistinguishable from
    /// having performed the same writes directly against `list`.
    ///
    /// Fails, leaving `list` untouched, exactly when some staged replacement
    /// names an index that `list` does not have.
    pub fn apply<L: List<Item = T>>(self, list: &mut L) -> (r: Result<(), Error>)
        requires
            old(list).inv(),
            old(list).contents().len() + self.pushed_seq().len() <= usize::MAX,
        ensures
            final(list).inv(),
            match r {
                Ok(()) => {
                    &&& forall|i: int| 0 <= i < self.replaced_seq().len()
                        ==> (#[trigger] self.replaced_seq()[i]).0 < old(list).contents().len()
                    &&& final(list).contents() == self.apply_spec(old(list).contents())
                },
                Err(e) => {
                    &&& e == Error::IndexOutOfRange
                    &&& exists|i: int| 0 <= i < self.replaced_seq().len()
                        && (#[trigger] self.replaced_seq()[i]).0 >= old(list).contents().len()
                    &&& final(list).contents() == old(list).contents()
                },
            },
    {
        let mut this = self;
        let target_len = list.len();
        let mut i: usize = 0;
        while i < this.replaced.len()
            invariant
                this == self,
                i <= this.replaced@.len(),
                list.inv(),
                *list == *old(list),
                target_len == list.contents().len(),
                forall|j: int| 0 <= j < i ==> (#[trigger] this.replaced@[j]).0 < target_len,
            decreases this.replaced@.len() - i,
        {
            if this.replaced[i].0 >= target_len {
                proof {
                    assert(self.replaced_seq()[i as int].0 >= old(list).contents().len());
                }
                return Err(Error::IndexOutOfRange);
            }
            i = i + 1;
        }
        let ghost base = list.contents();
        let ghost mut done: Seq<(usize, T)> = Seq::empty();
        while this.replaced.len() > 0
            invariant
                list.inv(),
                base == old(list).contents(),
                done + this.replaced@ == self.replaced_seq(),
                this.pushed@ == self.pushed_seq(),
                target_len == base.len(),
                forall|j: int| 0 <= j < self.replaced_seq().len()
                    ==> (#[trigger] self.replaced_seq()[j]).0 < target_len,
                list.contents() == overwrite(base, entries_map(done)),
            decreases this.replaced@.len(),
        {
            proof {
                assert(self.replaced_seq()[done.len() as int] == this.replaced@[0]);
            }
            let (key, value) = this.replaced.remove(0);
            proof {
                lemma_overwrite_insert(base, entries_map(done), key as int, value);
                lemma_entries_map_push(done, key, value);
            }
            let ok = list.set_at(key, value);
            assert(ok);
            proof {
                let prior = done;
                done = done.push((key, value));
                assert(done + this.replaced@ =~= prior + (seq![(key, value)] + this.replaced@));
                assert(prior + (seq![(key, value)] + this.replaced@) =~= self.replaced_seq());
            }
        }
        proof {
            assert(done =~= self.replaced_seq());
        }
        let ghost mid = list.contents();
        let ghost mut appended: Seq<T> = Seq::empty();
        while this.pushed.len() > 0
            invariant
                list.inv(),
                base == old(list).contents(),
                mid == overwrite(base, self.replaced_map()),
                mid.len() == base.len(),
                base.len() + self.pushed_seq().len() <= usize::MAX,
                appended + this.pushed@ == self.pushed_seq(),
                list.contents() == mid + appended,
            decreases this.pushed@.len(),
        {
            let value = this.pushed.remove(0);
            proof {
                list.lemma_len_bound();
                assert((mid + appended).len() < base.len() + self.pushed_seq().len());
            }
            list.push(value);
            proof {
                let prior = appended;
                appended = appended.push(value);
                assert(mid + appended =~= (mid + prior).push(value));
                assert(appended + this.pushed@ =~= prior + (seq![value] + this.pushed@));
                assert(prior + (seq![value] + this.pushed@) =~= self.pushed_seq());
            }
        }
        proof {
            assert(appended =~= self.pushed_seq());
            assert(list.contents() == self.apply_spec(old(list).contents()));
        }
        Ok(())
    }
}

impl<T> Default for TxListPatch<T> {
    /// An empty patch: nothing replaced, nothing appended.
    fn default() -> (r: Self)
        ensures
            r.replaced_seq() == Seq::<(usize, T)>::empty(),
            r.pushed_seq() == Seq::<T>::empty(),
            r.wf(),
    {
        TxListPatch { replaced: Vec::new(), pushed: Vec::new() }
    }
}

/// Inserting into the overwriting map changes exactly the overwritten index.
pub proof fn lemma_overwrite_insert<T>(s: Seq<T>, m: Map<int, T>, key: int, value: T)
    requires
        0 <= key < s.len(),
    ensures
        overwrite(s, m.insert(key, value)) == overwrite(s, m).update(key, value),
{
    assert(overwrite(s, m.insert(key, value)) =~= overwrite(s, m).update(key, value));
}

/// A transactional overlay: the same sequence capability as its base, but
/// every write is staged in a private patch while the base stays untouched.
///
/// The base is held by a shared read-only reference, so several independent
/// overlays can be built over one base and compared before any of them is
/// committed to real mutable storage.
pub struct TxList<'a, L: List> {
    base: &'a L,
    patch: TxListPatch<L::Item>,
}

impl<'a, L: List> TxList<'a, L> {
    /// The base sequence the overlay reads through to.
    pub closed spec fn spec_base(&self) -> L {
        *self.base
    }

    /// The staged patch.
    pub closed spec fn spec_patch(&self) -> TxListPatch<L::Item> {
        self.patch
    }

    /// A fresh overlay over `base`: its merged contents start out equal to
    /// the base and its patch is empty.
    pub fn new(base: &'a L) -> (r: Self)
        requires
            base.inv(),
        ensures
            r.inv(),
            r.spec_base() == *base,
            r.spec_patch().replaced_seq().len() == 0,
            r.spec_patch().pushed_seq().len() == 0,
            r.contents() == base.contents(),
    {
        let r = TxList { base, patch: TxListPatch::default() };
        proof {
            base.lemma_len_bound();
            assert(r.contents() =~= base.contents());
        }
        r
    }

    /// Gives the base reference back together with the staged patch, to be
    /// committed (or dropped) by the caller.
    pub fn into_inner(self) -> (r: (&'a L, TxListPatch<L::Item>))
        ensures
            *r.0 == self.spec_base(),
            r.1 == self.spec_patch(),
    {
        (self.base, self.patch)
    }

    /// A handle on the place at `key`, or nothing if `key` is out of bounds.
    /// Obtaining the handle stages nothing; only writing through it does.
    pub fn get_mut(&mut self, key: usize) -> (r: Option<TxItemMut>)
        requires
            old(self).inv(),
        ensures
            *final(self) == *old(self),
            match r {
                Some(handle) => key < old(self).contents().len() && handle.pos() == key as int,
                None => key >= old(self).contents().len(),
            },
    {
        let n = self.len();
        if key < n {
            Some(TxItemMut { key })
        } else {
            None
        }
    }
}

/// A mutable-item handle of the overlay. Writing through it stages a
/// replacement (for a base index) or overwrites an appended item in place;
/// the first write creates the patch entry and later writes reuse it.
pub struct TxItemMut {
    key: usize,
}

impl TxItemMut {
    /// The position this handle addresses.
    pub closed spec fn pos(&self) -> int {
        self.key as int
    }
}

impl<'a, L: List> ItemMut<TxList<'a, L>> for TxItemMut {
    open spec fn pos(&self) -> int {
        TxItemMut::pos(self)
    }

    fn get<'s>(&self, list: &'s TxList<'a, L>) -> (r: &'s L::Item) {
        match list.get(self.key) {
            Some(item) => item,
            None => vstd::pervasive::unreached(),
        }
    }

    fn set(&mut self, list: &mut TxList<'a, L>, item: L::Item) {
        let ok = list.set_at(self.key, item);
        assert(ok);
    }
}

impl<'a, L: List> List for TxList<'a, L> {
    type Item = L::Item;

    open spec fn contents(&self) -> Seq<L::Item> {
        self.spec_patch().apply_spec(self.spec_base().contents())
    }

    open spec fn inv(&self) -> bool {
        &&& self.spec_base().inv()
        &&& self.spec_patch().wf()
        &&& forall|i: int| 0 <= i < self.spec_patch().replaced_seq().len()
            ==> (#[trigger] self.spec_patch().replaced_seq()[i]).0
                < self.spec_base().contents().len()
        &&& self.spec_base().contents().len() + self.spec_patch().pushed_seq().len()
            <= usize::MAX
    }

    proof fn lemma_len_bound(&self) {
    }

    fn len(&self) -> (n: usize) {
        self.base.len() + self.patch.pushed.len()
    }

    fn push(&mut self, item: L::Item) {
        self.patch.pushed.push(item);
        proof {
            assert(final(self).contents() =~= old(self).contents().push(item));
        }
    }

    fn get(&self, key: usize) -> (r: Option<&L::Item>) {
        let base_len = self.base.len();
        if key >= base_len {
            let offset = key - base_len;
            if offset < self.patch.pushed.len() {
                Some(&self.patch.pushed[offset])
            } else {
                None
            }
        } else {
            match find_pos(&self.patch.replaced, key) {
                Some(i) => {
                    proof {
                        lemma_entries_map_index(self.patch.replaced@, i as int);
                    }
                    Some(&self.patch.replaced[i].1)
                },
                None => {
                    proof {
                        lemma_entries_map_domain(self.patch.replaced@, key as int);
                    }
                    self.base.get(key)
                },
            }
        }
    }

    fn set_at(&mut self, key: usize, item: L::Item) -> (r: bool) {
        let base_len = self.base.len();
        if key >= base_len {
            let offset = key - base_len;
            if offset < self.patch.pushed.len() {
                let pushed = &mut self.patch.pushed;
                pushed[offset] = item;
                proof {
                    assert(final(self).contents()
                        =~= old(self).contents().update(key as int, item));
                }
                true
            } else {
                false
            }
        } else {
            match find_pos(&self.patch.replaced, key) {
                Some(i) => {
                    proof {
                        lemma_entries_map_update(self.patch.replaced@, i as int, item);
                        lemma_overwrite_insert(
                            self.spec_base().contents(),
                            self.spec_patch().replaced_map(),
                            key as int,
                            item,
                        );
                    }
                    let replaced = &mut self.patch.replaced;
                    replaced[i] = (key, item);
                    proof {
                        assert(final(self).contents()
                            =~= old(self).contents().update(key as int, item));
                    }
                    true
                },
                None => {
                    proof {
                        lemma_entries_map_push(self.patch.replaced@, key, item);
                        lemma_overwrite_insert(
                            self.spec_base().contents(),
                            self.spec_patch().replaced_map(),
                            key as int,
                            item,
                        );
                    }
                    let replaced = &mut self.patch.replaced;
                    replaced.push((key, item));
                    proof {
                        assert(final(self).contents()
                            =~= old(self).contents().update(key as int, item));
                    }
                    true
                },
            }
        }
    }
}

impl<T: Clone> Clone for TxListPatch<T> {
    /// Clones the staged state: replacement indices are kept exactly, and
    /// staged values go through `T::clone`.
    fn clone(&self) -> (r: Self)
        ensures
            r.replaced_seq().len() == self.replaced_seq().len(),
            forall|i: int| #![all_triggers] 0 <= i < self.replaced_seq().len() ==> {
                &&& r.replaced_seq()[i].0 == self.replaced_seq()[i].0
                &&& cloned::<T>(self.replaced_seq()[i].1, r.replaced_seq()[i].1)
            },
            r.pushed_seq().len() == self.pushed_seq().len(),
            forall|i: int| #![all_triggers] 0 <= i < self.pushed_seq().len()
                ==> cloned::<T>(self.pushed_seq()[i], r.pushed_seq()[i]),
            self.wf() ==> r.wf(),
    {
        let mut replaced: Vec<(usize, T)> = Vec::new();
        let mut i: usize = 0;
        while i < self.replaced.len()
            invariant
                i <= self.replaced@.len(),
                replaced@.len() == i,
                forall|j: int| #![all_triggers] 0 <= j < i ==> replaced@[j].0
                    == self.replaced@[j].0 && cloned::<T>(self.replaced@[j].1, replaced@[j].1),
            decreases self.replaced@.len() - i,
        {
            let key = self.replaced[i].0;
            replaced.push((key, self.replaced[i].1.clone()));
            i = i + 1;
        }
        let mut pushed: Vec<T> = Vec::new();
        let mut k: usize = 0;
        while k < self.pushed.len()
            invariant
                k <= self.pushed@.len(),
                pushed@.len() == k,
                forall|j: int| #![all_triggers] 0 <= j < k
                    ==> cloned::<T>(self.pushed@[j], pushed@[j]),
            decreases self.pushed@.len() - k,
        {
            pushed.push(self.pushed[k].clone());
            k = k + 1;
        }
        TxListPatch { replaced, pushed }
    }
}

impl<'a, L: List> Clone for TxList<'a, L> where L::Item: Clone {
    /// Clones the overlay: the clone reads through to the same base and
    /// carries a clone of the staged patch; the source overlay is unaffected.
    fn clone(&self) -> (r: Self)
        ensures
            r.spec_base() == self.spec_base(),
            r.spec_patch().replaced_seq().len() == self.spec_patch().replaced_seq().len(),
            forall|i: int| #![all_triggers] 0 <= i < self.spec_patch().replaced_seq().len() ==> {
                &&& r.spec_patch().replaced_seq()[i].0 == self.spec_patch().replaced_seq()[i].0
                &&& cloned::<L::Item>(
                    self.spec_patch().replaced_seq()[i].1,
                    r.spec_patch().replaced_seq()[i].1,
                )
            },
            r.spec_patch().pushed_seq().len() == self.spec_patch().pushed_seq().len(),
            forall|i: int| #![all_triggers] 0 <= i < self.spec_patch().pushed_seq().len()
                ==> cloned::<L::Item>(
                self.spec_patch().pushed_seq()[i],
                r.spec_patch().pushed_seq()[i],
            ),
            self.inv() ==> r.inv(),
    {
        TxList { base: self.base, patch: self.patch.clone() }
    }
}

/// Read-only use of an overlay commits as a no-op: a patch with nothing
/// staged returns any target unchanged. (Reading an overlay can never stage
/// anything, since reads take the overlay by shared reference.)
pub proof fn lemma_empty_patch_apply_is_noop<T>(patch: TxListPatch<T>, target: Seq<T>)
    requires
        patch.replaced_seq().len() == 0,
        patch.pushed_seq().len() == 0,
    ensures
        patch.apply_spec(target) == target,
{
    assert(patch.apply_spec(target) =~= target);
}

/// Committing an overlay's patch onto a fresh copy of its base yields exactly
/// the overlay's own merged contents.
pub proof fn lemma_apply_matches_overlay<'a, L: List>(overlay: TxList<'a, L>, copy: Seq<L::Item>)
    requires
        copy == overlay.spec_base().contents(),
    ensures
        overlay.spec_patch().apply_spec(copy) == overlay.contents(),
{
}

/// The merged view, index by index: below the base length a staged
/// replacement wins over the base item; past the base length the appended
/// items follow in staging order.
pub proof fn lemma_merged_view<'a, L: List>(overlay: TxList<'a, L>, i: int)
    requires
        0 <= i < overlay.contents().len(),
    ensures
        overlay.contents().len() == overlay.spec_base().contents().len()
            + overlay.spec_patch().pushed_seq().len(),
        i < overlay.spec_base().contents().len() ==> overlay.contents()[i] == (
        if overlay.spec_patch().replaced_map().contains_key(i) {
            overlay.spec_patch().replaced_map()[i]
        } else {
            overlay.spec_base().contents()[i]
        }),
        i >= overlay.spec_base().contents().len() ==> overlay.contents()[i]
            == overlay.spec_patch().pushed_seq()[i - overlay.spec_base().contents().len()],
{
}

/// Position of the first entry that carries `key`, if any.
fn find_pos<T>(entries: &Vec<(usize, T)>, key: usize) -> (r: Option<usize>)
    ensures
        match r {
            Some(i) => i < entries@.len() && entries@[i as int].0 == key,
            None => forall|j: int| 0 <= j < entries@.len() ==> (#[trigger] entries@[j]).0 != key,
        },
{
    let mut i: usize = 0;
    while i < entries.len()
        invariant
            i <= entries@.len(),
            forall|j: int| 0 <= j < i ==> (#[trigger] entries@[j]).0 != key,
        decreases entries@.len() - i,
    {
        if entries[i].0 == key {
            return Some(i);
        }
        i = i + 1;
    }
    None
}

} // verus!
