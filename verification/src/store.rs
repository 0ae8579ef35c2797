//! Component storage: one abstraction, two interchangeable backends.
//!
//! A store maps entity handles to component values. Its ghost view is a pair:
//! `contents()`, the handle-to-value map, and `order()`, the explicit,
//! deterministic enumeration of handles that every system pass snapshots.
//! The dense backend keeps a flat sequence (handle = index, append only);
//! the sparse backend keeps a key-to-value association whose keys are
//! monotonically allocated and never reused.

use crate::components::EntityId;
use vstd::prelude::*;
use vstd::assert_seqs_equal;
use vstd::pervasive::VecAdditionalExecFns;

verus! {

/// Storage abstraction shared by both backends. The systems are written once
/// against this trait; `contents()` and `order()` pin down the behaviour of
/// every operation, so backend choice never changes what a system computes.
pub trait ComponentStore<T: Copy>: Sized {
    /// The handle-to-value association held by the store.
    spec fn contents(&self) -> Map<int, T>;

    /// The deterministic enumeration order of the stored handles.
    spec fn order(&self) -> Seq<int>;

    /// Representation invariant of the backend.
    spec fn inv(&self) -> bool;

    /// Whether `handle` may be attached next (backends constrain attachment
    /// to freshly allocated handles).
    spec fn can_attach(&self, handle: int) -> bool;

    /// A well-formed store enumerates exactly its contents, without repeats.
    proof fn lemma_inv(&self)
        requires
            self.inv(),
        ensures
            self.order().no_duplicates(),
            forall|h: int|
                #![trigger self.contents().dom().contains(h)]
                #![trigger self.order().contains(h)]
                self.contents().dom().contains(h) <==> self.order().contains(h),
    ;

    /// An attachable handle is not yet enumerated.
    proof fn lemma_can_attach_fresh(&self, handle: int)
        requires
            self.inv(),
            self.can_attach(handle),
        ensures
            !self.order().contains(handle),
    ;

    /// A store with no entries, ready to attach handle 0.
    fn empty() -> (s: Self)
        ensures
            s.inv(),
            s.contents() == Map::<int, T>::empty(),
            s.order() == Seq::<int>::empty(),
            s.can_attach(0),
    ;

    /// Attach a component to a freshly allocated handle; appends the handle
    /// to the enumeration order and keeps the next counter value attachable.
    fn attach(&mut self, handle: EntityId, value: T)
        requires
            old(self).inv(),
            old(self).can_attach(handle as int),
        ensures
            final(self).inv(),
            final(self).contents() == old(self).contents().insert(handle as int, value),
            final(self).order() == old(self).order().push(handle as int),
            final(self).can_attach(handle as int + 1),
    ;

    /// Component lookup.
    fn get(&self, handle: EntityId) -> (r: Option<T>)
        requires
            self.inv(),
        ensures
            match r {
                Option::Some(v) => self.contents().dom().contains(handle as int)
                    && self.contents()[handle as int] == v,
                Option::None => !self.contents().dom().contains(handle as int),
            },
    ;

    /// Overwrite the component of an existing handle; enumeration order and
    /// attachability are untouched.
    fn put(&mut self, handle: EntityId, value: T)
        requires
            old(self).inv(),
            old(self).contents().dom().contains(handle as int),
        ensures
            final(self).inv(),
            final(self).contents() == old(self).contents().insert(handle as int, value),
            final(self).order() == old(self).order(),
            forall|h: int| final(self).can_attach(h) == old(self).can_attach(h),
    ;

    /// A snapshot of the stored handles, in enumeration order.
    fn handles(&self) -> (r: Vec<EntityId>)
        requires
            self.inv(),
        ensures
            r@.len() == self.order().len(),
            forall|k: int| 0 <= k < r@.len() ==> r@[k] as int == self.order()[k],
    ;
}

/// Dense backend: a flat sequence; the handle is the position in it.
/// Lookup is O(1), iteration is insertion order, removal is unsupported.
pub struct DenseStore<T> {
    pub items: Vec<T>,
}

impl<T: Copy> ComponentStore<T> for DenseStore<T> {
    open spec fn contents(&self) -> Map<int, T> {
        Map::new(|h: int| 0 <= h < self.items@.len(), |h: int| self.items@[h])
    }

    open spec fn order(&self) -> Seq<int> {
        Seq::new(self.items@.len(), |i: int| i)
    }

    open spec fn inv(&self) -> bool {
        true
    }

    open spec fn can_attach(&self, handle: int) -> bool {
        handle == self.items@.len()
    }

    proof fn lemma_inv(&self) {
        assert forall|h: int| self.contents().dom().contains(h) implies self.order().contains(
            h,
        ) by {
            assert(self.order()[h] == h);
        }
    }

    proof fn lemma_can_attach_fresh(&self, handle: int) {
        if self.order().contains(handle) {
            let i = choose|i: int| 0 <= i < self.order().len() && self.order()[i] == handle;
        }
    }

    fn empty() -> (s: Self) {
        let s = DenseStore { items: Vec::new() };
        proof {
            assert(s.contents() =~= Map::<int, T>::empty());
            assert(s.order() =~= Seq::<int>::empty());
        }
        s
    }

    fn attach(&mut self, handle: EntityId, value: T) {
        self.items.push(value);
        proof {
            assert(self.contents() =~= old(self).contents().insert(handle as int, value));
            assert(self.order() =~= old(self).order().push(handle as int));
        }
    }

    fn get(&self, handle: EntityId) -> (r: Option<T>) {
        if handle < self.items.len() {
            Some(self.items[handle])
        } else {
            None
        }
    }

    fn put(&mut self, handle: EntityId, value: T) {
        self.items.set(handle, value);
        proof {
            assert(self.contents() =~= old(self).contents().insert(handle as int, value));
            assert(self.order() =~= old(self).order());
        }
    }

    fn handles(&self) -> (r: Vec<EntityId>) {
        let mut r: Vec<EntityId> = Vec::new();
        let mut i: usize = 0;
        while i < self.items.len()
            invariant
                i <= self.items.len(),
                r@.len() == i,
                forall|k: int| 0 <= k < i ==> r@[k] as int == self.order()[k],
            decreases self.items.len() - i,
        {
            r.push(i);
            i = i + 1;
        }
        r
    }
}

/// The association a key/value sequence denotes: later entries would win,
/// though a sorted sequence never repeats a key.
pub open spec fn pairs_map<T>(s: Seq<(EntityId, T)>) -> Map<int, T>
    decreases s.len(),
{
    if s.len() == 0 {
        Map::empty()
    } else {
        pairs_map(s.drop_last()).insert(s.last().0 as int, s.last().1)
    }
}

/// The keys of a key/value sequence, in sequence order.
pub open spec fn keys_of<T>(s: Seq<(EntityId, T)>) -> Seq<int> {
    Seq::new(s.len(), |i: int| s[i].0 as int)
}

/// Keys strictly increase along the sequence (so insertion order is key
/// order, and no key repeats).
pub open spec fn keys_increasing<T>(s: Seq<(EntityId, T)>) -> bool {
    forall|i: int, j: int| 0 <= i < j < s.len() ==> s[i].0 < s[j].0
}

/// A key is in the denoted association exactly when it occurs in the sequence.
pub proof fn lemma_pairs_map_dom<T>(s: Seq<(EntityId, T)>)
    ensures
        forall|h: int|
            #![trigger pairs_map(s).dom().contains(h)]
            #![trigger keys_of(s).contains(h)]
            pairs_map(s).dom().contains(h) <==> keys_of(s).contains(h),
    decreases s.len(),
{
    if s.len() == 0 {
        assert forall|h: int| !keys_of(s).contains(h) by {
            if keys_of(s).contains(h) {
                let i = choose|i: int| 0 <= i < keys_of(s).len() && keys_of(s)[i] == h;
            }
        }
    } else {
        let dl = s.drop_last();
        lemma_pairs_map_dom(dl);
        assert forall|h: int| pairs_map(s).dom().contains(h) implies keys_of(s).contains(h) by {
            if h == s.last().0 as int {
                assert(keys_of(s)[s.len() - 1] == h);
            } else {
                assert(pairs_map(dl).dom().contains(h));
                assert(keys_of(dl).contains(h));
                let i = choose|i: int| 0 <= i < keys_of(dl).len() && keys_of(dl)[i] == h;
                assert(dl[i] == s[i]);
                assert(keys_of(s)[i] == h);
            }
        }
        assert forall|h: int| keys_of(s).contains(h) implies pairs_map(s).dom().contains(h) by {
            let i = choose|i: int| 0 <= i < keys_of(s).len() && keys_of(s)[i] == h;
            if i < s.len() - 1 {
                assert(keys_of(dl)[i] == h);
                assert(keys_of(dl).contains(h));
            }
        }
    }
}

/// Under increasing keys, the association returns the value stored with a key.
pub proof fn lemma_pairs_map_at<T>(s: Seq<(EntityId, T)>, k: int)
    requires
        keys_increasing(s),
        0 <= k < s.len(),
    ensures
        pairs_map(s).dom().contains(s[k].0 as int),
        pairs_map(s)[s[k].0 as int] == s[k].1,
    decreases s.len(),
{
    if k == s.len() - 1 {
    } else {
        let dl = s.drop_last();
        lemma_pairs_map_at(dl, k);
        assert(s[k].0 < s.last().0);
    }
}

/// Overwriting the value at position `k` denotes an insert at that key.
pub proof fn lemma_pairs_map_update<T>(s: Seq<(EntityId, T)>, k: int, v: T)
    requires
        keys_increasing(s),
        0 <= k < s.len(),
    ensures
        pairs_map(s.update(k, (s[k].0, v))) == pairs_map(s).insert(s[k].0 as int, v),
    decreases s.len(),
{
    let s2 = s.update(k, (s[k].0, v));
    if k == s.len() - 1 {
        assert_seqs_equal!(s2.drop_last() == s.drop_last());
        assert(pairs_map(s2) =~= pairs_map(s).insert(s[k].0 as int, v));
    } else {
        let dl = s.drop_last();
        lemma_pairs_map_update(dl, k, v);
        assert_seqs_equal!(s2.drop_last() == dl.update(k, (s[k].0, v)));
        assert(s2.last() == s.last());
        assert(s[k].0 < s.last().0);
        assert(pairs_map(s2) =~= pairs_map(s).insert(s[k].0 as int, v));
    }
}

/// Sparse backend: a key-to-value association whose keys are allocated
/// monotonically and never reused, held in key order.
pub struct SparseStore<T> {
    pub entries: Vec<(EntityId, T)>,
}

impl<T: Copy> SparseStore<T> {
    /// Index of the entry holding `handle`, if any, by binary search over
    /// the sorted keys.
    fn position_of(&self, handle: EntityId) -> (r: Option<usize>)
        requires
            keys_increasing(self.entries@),
        ensures
            match r {
                Option::Some(k) => k < self.entries@.len() && self.entries@[k as int].0 == handle,
                Option::None => forall|k: int|
                    0 <= k < self.entries@.len() ==> self.entries@[k].0 != handle,
            },
    {
        let mut lo: usize = 0;
        let mut hi: usize = self.entries.len();
        while lo < hi
            invariant
                lo <= hi <= self.entries@.len(),
                keys_increasing(self.entries@),
                forall|k: int| 0 <= k < lo ==> self.entries@[k].0 < handle,
                forall|k: int| hi <= k < self.entries@.len() ==> self.entries@[k].0 > handle,
            decreases hi - lo,
        {
            let mid = lo + (hi - lo) / 2;
            let pair = self.entries[mid];
            if pair.0 == handle {
                return Some(mid);
            } else if pair.0 < handle {
                proof {
                    assert forall|k: int| 0 <= k < mid + 1 implies self.entries@[k].0
                        < handle by {
                        if k < mid {
                            assert(self.entries@[k].0 < self.entries@[mid as int].0);
                        }
                    }
                }
                lo = mid + 1;
            } else {
                proof {
                    assert forall|k: int|
                        mid <= k < self.entries@.len() implies self.entries@[k].0 > handle by {
                        if k > mid {
                            assert(self.entries@[mid as int].0 < self.entries@[k].0);
                        }
                    }
                }
                hi = mid;
            }
        }
        None
    }
}

impl<T: Copy> ComponentStore<T> for SparseStore<T> {
    open spec fn contents(&self) -> Map<int, T> {
        pairs_map(self.entries@)
    }

    open spec fn order(&self) -> Seq<int> {
        keys_of(self.entries@)
    }

    open spec fn inv(&self) -> bool {
        keys_increasing(self.entries@)
    }

    open spec fn can_attach(&self, handle: int) -> bool {
        forall|k: int| 0 <= k < self.entries@.len() ==> (self.entries@[k].0 as int) < handle
    }

    proof fn lemma_inv(&self) {
        lemma_pairs_map_dom(self.entries@);
        assert forall|i: int, j: int|
            0 <= i < self.order().len() && 0 <= j < self.order().len() && i != j implies self.order()[i]
            != self.order()[j] by {
            if i < j {
                assert(self.entries@[i].0 < self.entries@[j].0);
            } else {
                assert(self.entries@[j].0 < self.entries@[i].0);
            }
        }
    }

    proof fn lemma_can_attach_fresh(&self, handle: int) {
        if self.order().contains(handle) {
            let i = choose|i: int| 0 <= i < self.order().len() && self.order()[i] == handle;
            assert((self.entries@[i].0 as int) < handle);
        }
    }

    fn empty() -> (s: Self) {
        let s = SparseStore { entries: Vec::new() };
        proof {
            assert(s.contents() =~= Map::<int, T>::empty());
            assert(s.order() =~= Seq::<int>::empty());
        }
        s
    }

    fn attach(&mut self, handle: EntityId, value: T) {
        self.entries.push((handle, value));
        proof {
            let s0 = old(self).entries@;
            let s1 = self.entries@;
            assert_seqs_equal!(s1.drop_last() == s0);
            assert(s1.last() == (handle, value));
            assert(self.contents() =~= old(self).contents().insert(handle as int, value));
            assert_seqs_equal!(self.order() == old(self).order().push(handle as int));
        }
    }

    fn get(&self, handle: EntityId) -> (r: Option<T>) {
        match self.position_of(handle) {
            Some(k) => {
                proof {
                    lemma_pairs_map_at(self.entries@, k as int);
                }
                let pair = self.entries[k];
                Some(pair.1)
            },
            None => {
                proof {
                    lemma_pairs_map_dom(self.entries@);
                    if self.contents().dom().contains(handle as int) {
                        let i = choose|i: int|
                            0 <= i < self.order().len() && self.order()[i] == handle as int;
                        assert(self.entries@[i].0 != handle);
                    }
                }
                None
            },
        }
    }

    fn put(&mut self, handle: EntityId, value: T) {
        match self.position_of(handle) {
            Some(k) => {
                proof {
                    lemma_pairs_map_update(self.entries@, k as int, value);
                }
                self.entries.set(k, (handle, value));
                proof {
                    assert_seqs_equal!(self.order() == old(self).order());
                    assert forall|h: int| self.can_attach(h) == old(self).can_attach(h) by {
                        assert forall|j: int|
                            0 <= j < self.entries@.len() implies self.entries@[j].0
                            == old(self).entries@[j].0 by {}
                    }
                }
            },
            None => {
                proof {
                    lemma_pairs_map_dom(self.entries@);
                    let i = choose|i: int|
                        0 <= i < self.order().len() && self.order()[i] == handle as int;
                    assert(self.entries@[i].0 != handle);
                    assert(false);
                }
            },
        }
    }

    fn handles(&self) -> (r: Vec<EntityId>) {
        let mut r: Vec<EntityId> = Vec::new();
        let mut i: usize = 0;
        while i < self.entries.len()
            invariant
                i <= self.entries.len(),
                r@.len() == i,
                forall|k: int| 0 <= k < i ==> r@[k] as int == self.order()[k],
            decreases self.entries.len() - i,
        {
            let pair = self.entries[i];
            r.push(pair.0);
            i = i + 1;
        }
        r
    }
}

} // verus!
