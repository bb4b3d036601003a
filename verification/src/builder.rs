//! The builder: incrementally reconstructs an arena from an externally
//! supplied stream of (key, value) pairs, as the codec's decoder hands them
//! over. Keys may arrive in any order; indices below a key that do not exist
//! yet are materialized as vacant slots, and the finished arena's free list
//! threads exactly the slots never targeted by a pair.

use vstd::prelude::*;

use crate::list::{List, ListStorage};
use crate::slab::{occupied_total, pairs_spec, shape_wf, slot_value, Slab, Slot};

verus! {

/// What installing one (key, value) pair does to an arena model: occupy the
/// place `key`, materializing any missing places below it as vacant.
pub open spec fn put_pair<T>(s: Seq<Option<T>>, key: usize, value: T) -> Seq<Option<T>> {
    if key < s.len() {
        s.update(key as int, Some(value))
    } else {
        (s + Seq::new((key - s.len()) as nat, |_i: int| None)).push(Some(value))
    }
}

/// The arena model a run of (key, value) pairs builds up, first pair first.
pub open spec fn build_seq<T>(prs: Seq<(usize, T)>) -> Seq<Option<T>>
    decreases prs.len(),
{
    if prs.len() == 0 {
        Seq::empty()
    } else {
        put_pair(build_seq(prs.drop_last()), prs.last().0, prs.last().1)
    }
}

/// Materializing trailing vacant places leaves the enumeration unchanged.
proof fn lemma_pairs_spec_pad<T>(s: Seq<Option<T>>, pad: nat)
    ensures
        pairs_spec(s + Seq::new(pad, |_i: int| None::<T>)) == pairs_spec(s),
    decreases pad,
{
    if pad == 0 {
        assert(s + Seq::new(0, |_i: int| None::<T>) =~= s);
    } else {
        let padded = s + Seq::new(pad, |_i: int| None::<T>);
        let shorter = s + Seq::new((pad - 1) as nat, |_i: int| None::<T>);
        assert(padded.drop_last() =~= shorter);
        assert(padded.last() is None);
        lemma_pairs_spec_pad(s, (pad - 1) as nat);
    }
}

/// A strictly ascending run of pairs rebuilds into an arena model whose
/// enumeration is exactly that run; the model reaches up to the last key.
pub proof fn lemma_build_seq_pairs<T>(prs: Seq<(usize, T)>)
    requires
        forall|k1: int, k2: int| 0 <= k1 < k2 < prs.len()
            ==> (#[trigger] prs[k1]).0 < (#[trigger] prs[k2]).0,
    ensures
        pairs_spec(build_seq(prs)) == prs,
        build_seq(prs).len() == (if prs.len() == 0 {
            0int
        } else {
            prs.last().0 + 1
        }),
    decreases prs.len(),
{
    if prs.len() > 0 {
        let front = prs.drop_last();
        let pair = prs.last();
        let key = pair.0;
        let value = pair.1;
        assert(forall|k: int| 0 <= k < front.len() ==> (#[trigger] front[k]) == prs[k]);
        lemma_build_seq_pairs(front);
        let built = build_seq(front);
        if front.len() > 0 {
            assert(front.last() == prs[prs.len() - 2]);
            assert(prs[prs.len() - 2].0 < prs[prs.len() - 1].0);
        }
        assert(built.len() <= key);
        let padded = built + Seq::new((key - built.len()) as nat, |_i: int| None::<T>);
        lemma_pairs_spec_pad(built, (key - built.len()) as nat);
        assert(build_seq(prs) == padded.push(Some(value)));
        assert(padded.len() == key);
        assert(build_seq(prs).drop_last() =~= padded);
        assert(pairs_spec(build_seq(prs)) == pairs_spec(padded).push((key, value)));
        assert(front.push(pair) =~= prs);
    }
}

/// Reconstructs an arena from (key, value) pairs.
pub struct Builder<T> {
    items: Vec<Option<T>>,
}

impl<T> Builder<T> {
    /// The arena model described by the pairs installed so far.
    pub closed spec fn view(&self) -> Seq<Option<T>> {
        self.items@
    }

    /// An empty builder; `capacity` pre-sizes the internal sequence and has
    /// no other effect.
    pub fn with_capacity(capacity: usize) -> (r: Self)
        ensures
            r.view().len() == 0,
    {
        Builder { items: Vec::with_capacity(capacity) }
    }

    /// Installs `value` as occupied at `key`. Indices below `key` that do
    /// not exist yet come into being as vacant places. Installing the same
    /// key twice overwrites the place in place; `build` will not count it
    /// twice.
    pub fn pair(&mut self, key: usize, value: T)
        requires
            key < usize::MAX,
        ensures
            final(self).view() == put_pair(old(self).view(), key, value),
    {
        let n = self.items.len();
        if key < n {
            let items = &mut self.items;
            items[key] = Some(value);
        } else {
            let mut i: usize = n;
            while i < key
                invariant
                    n <= i <= key,
                    self.items@ == old(self).items@ + Seq::new((i - n) as nat, |_j: int| None::<T>),
                decreases key - i,
            {
                self.items.push(None);
                proof {
                    assert(self.items@ =~= old(self).items@ + Seq::new(
                        (i + 1 - n) as nat,
                        |_j: int| None::<T>,
                    ));
                }
                i = i + 1;
            }
            self.items.push(Some(value));
        }
    }

    /// Finalizes the arena: every place never targeted by a pair becomes a
    /// vacant slot threaded into the free list, and the occupied count is
    /// the number of distinct keys installed.
    pub fn build<S: ListStorage<Slot<T>>>(self) -> (r: Slab<T, S>)
        ensures
            r.wf(),
            r.view() == self.view(),
            r.occupied_count() == occupied_total(self.view()),
    {
        let Builder { items: mut items } = self;
        let ghost orig = items@;
        proof {
            items.lemma_len_bound();
        }
        let mut rev: Vec<Option<T>> = Vec::new();
        while items.len() > 0
            invariant
                rev@.len() + items@.len() == orig.len(),
                items@ == orig.take(items@.len() as int),
                forall|j: int| 0 <= j < rev@.len()
                    ==> (#[trigger] rev@[j]) == orig[orig.len() - 1 - j],
            decreases items@.len(),
        {
            let item = match items.pop() {
                Some(item) => item,
                None => vstd::pervasive::unreached(),
            };
            rev.push(item);
        }
        let mut slots: S::List = S::new_list();
        let mut free_head: Option<usize> = None;
        let mut count: usize = 0;
        let ghost mut free: Seq<usize> = Seq::empty();
        let mut i: usize = 0;
        while rev.len() > 0
            invariant
                i + rev@.len() == orig.len(),
                orig.len() <= usize::MAX,
                forall|j: int| 0 <= j < rev@.len()
                    ==> (#[trigger] rev@[j]) == orig[orig.len() - 1 - j],
                slots.contents().len() == i,
                slots.contents().map_values(|slot: Slot<T>| slot_value(slot))
                    == orig.take(i as int),
                shape_wf(&slots, count, free_head, free),
            decreases rev@.len(),
        {
            let item = match rev.pop() {
                Some(item) => item,
                None => vstd::pervasive::unreached(),
            };
            proof {
                assert(item == orig[i as int]);
            }
            match item {
                Some(value) => {
                    slots.push(Slot::Occupied(value));
                    count = count + 1;
                    proof {
                        assert(slots.contents().map_values(|slot: Slot<T>| slot_value(slot))
                            =~= orig.take(i + 1));
                        assert forall|n: int|
                            (0 <= n < slots.contents().len()
                                && ((#[trigger] slots.contents()[n]) matches Slot::Vacant(_)))
                                implies free.contains(n as usize) by {
                        }
                    }
                },
                None => {
                    slots.push(Slot::Vacant(free_head));
                    proof {
                        let prior = free;
                        free = seq![i] + free;
                        assert(free[0] == i);
                        assert(slots.contents().map_values(|slot: Slot<T>| slot_value(slot))
                            =~= orig.take(i + 1));
                        assert forall|n: int|
                            (0 <= n < slots.contents().len()
                                && ((#[trigger] slots.contents()[n]) matches Slot::Vacant(_)))
                                implies free.contains(n as usize) by {
                            if n == i as int {
                                assert(free[0] == n as usize);
                            } else {
                                assert(prior.contains(n as usize));
                                let k = choose|k: int|
                                    0 <= k < prior.len() && prior[k] == n as usize;
                                assert(free[k + 1] == n as usize);
                            }
                        }
                    }
                    free_head = Some(i);
                },
            }
            i = i + 1;
        }
        proof {
            assert(orig.take(i as int) =~= orig);
        }
        let r = Slab::<T, S>::assemble(slots, count, free_head, Ghost(free));
        proof {
            r.lemma_free_list_sound();
        }
        r
    }
}

} // verus!
