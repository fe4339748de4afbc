use vstd::prelude::*;

verus! {

/// Transparent type that represents an index into a [Slab].
///
/// Used to discourage accessing the [Slab] at arbitrary indexes.
#[derive(Debug, Copy, Clone, PartialEq, Eq, Structural, PartialOrd, Ord, Hash)]
pub struct SlabIndex(pub(crate) usize);

impl View for SlabIndex {
    type V = usize;

    closed spec fn view(&self) -> usize {
        self.0
    }
}

impl SlabIndex {
    /// Two indexes with the same `usize` are the same index, so converting an index to its
    /// `usize` and back gives it back.
    pub proof fn law_view_injective(a: SlabIndex, b: SlabIndex)
        requires
            a@ == b@,
        ensures
            a == b,
    {
    }

    /// Returns the inner `usize`.
    pub fn i_actually_really_know_what_i_am_doing_and_i_want_the_inner_usize(&self) -> (r: usize)
        ensures
            r == self@,
    {
        self.0
    }

    /// Returns a new [SlabIndex] created from the provided `usize`.
    pub fn i_actually_really_know_what_i_am_doing_and_i_want_to_construct_from_usize(
        i: usize,
    ) -> (r: Self)
        ensures
            r@ == i,
    {
        SlabIndex(i)
    }
}

/// Simple slab allocator. Stores items of the same type and can reuse removed indexes.
#[derive(Debug, Clone)]
pub struct Slab<T> {
    data: Vec<Option<T>>,
    removed_indexes: Vec<SlabIndex>,
}

impl<T> Slab<T> {
    /// The slots of the slab; a removed slot holds `None`.
    pub closed spec fn slots(&self) -> Seq<Option<T>> {
        self.data@
    }

    /// The removed indexes, in the order in which they were removed.
    pub closed spec fn free(&self) -> Seq<usize> {
        self.removed_indexes@.map_values(|i: SlabIndex| i.0)
    }

    /// The indexes that hold an item.
    pub open spec fn occupied(&self) -> Set<int> {
        Set::new(|i: int| 0 <= i < self.slots().len() && self.slots()[i] is Some)
    }

    /// True if `i` is an index that holds an item.
    pub open spec fn has(&self, i: int) -> bool {
        0 <= i < self.slots().len() && self.slots()[i] is Some
    }

    /// The item at `i`; meaningful when [Slab::has] holds.
    pub open spec fn item(&self, i: int) -> T {
        self.slots()[i].unwrap()
    }

    /// Every removed index points at an empty slot, appears once, and every empty slot
    /// has been recorded as removed.
    pub open spec fn wf(&self) -> bool {
        &&& self.free().no_duplicates()
        &&& forall|k: int|
            0 <= k < self.free().len() ==> #[trigger] self.free()[k] < self.slots().len()
                && self.slots()[self.free()[k] as int] is None
        &&& forall|i: int|
            0 <= i < self.slots().len() && #[trigger] self.slots()[i] is None ==> self.free().contains(
                i as usize,
            )
    }

    /// True if `self` is what inserting `item` into `old` gives, the item landing at `index`:
    /// the most recently removed index is reused, else a new slot is added at the end.
    pub open spec fn insert_result(&self, old: &Self, index: usize, item: T) -> bool {
        &&& old.free().len() > 0 ==> {
            &&& index == old.free().last()
            &&& self.slots() == old.slots().update(index as int, Some(item))
            &&& self.free() == old.free().drop_last()
        }
        &&& old.free().len() == 0 ==> {
            &&& index == old.slots().len()
            &&& self.slots() == old.slots().push(Some(item))
            &&& self.free() == old.free()
        }
    }

    /// True if `self` is what removing `index` from `old` gives, `r` being what the removal
    /// returns: the item and an emptied slot if there was one, else `None` and no change.
    pub open spec fn remove_result(&self, old: &Self, index: usize, r: Option<T>) -> bool {
        &&& r == (if old.has(index as int) { old.slots()[index as int] } else { None })
        &&& old.has(index as int) ==> self.slots() == old.slots().update(index as int, None)
            && self.free() == old.free().push(index)
        &&& !old.has(index as int) ==> self.slots() == old.slots() && self.free() == old.free()
    }

    /// Returns an empty [Slab].
    pub fn new() -> (s: Self)
        ensures
            s.wf(),
            s.slots() == Seq::<Option<T>>::empty(),
            s.free() == Seq::<usize>::empty(),
    {
        let s = Slab { data: Vec::new(), removed_indexes: Vec::new() };
        assert(s.free() =~= Seq::<usize>::empty());
        s
    }

    /// Inserts an item into the slab and returns its index.
    ///
    /// Reuses the most recently removed index if there is one.
    pub fn insert(&mut self, item: T) -> (index: SlabIndex)
        requires
            old(self).wf(),
        ensures
            final(self).wf(),
            final(self).insert_result(old(self), index@, item),
    {
        let ghost old_free = self.free();
        match self.removed_indexes.pop() {
            Some(index) => {
                proof {
                    assert(self.free() =~= old_free.drop_last());
                    assert(old_free[old_free.len() - 1] == index.0);
                    assert(!self.free().contains(index.0)) by {
                        if self.free().contains(index.0) {
                            let k = choose|k: int| 0 <= k < self.free().len() && self.free()[k] == index.0;
                            assert(old_free[k] == old_free[old_free.len() - 1]);
                        }
                    }
                }
                self.data.set(index.0, Some(item));
                proof {
                    assert forall|i: int|
                        0 <= i < self.slots().len() && #[trigger] self.slots()[i] is None implies self.free().contains(i as usize) by {
                        assert(old_free.contains(i as usize));
                        let k = choose|k: int| 0 <= k < old_free.len() && old_free[k] == i as usize;
                        assert(k != old_free.len() - 1);
                        assert(self.free()[k] == i as usize);
                    }
                }
                index
            },
            None => {
                proof {
                    assert(self.free() =~= old_free);
                }
                let index = SlabIndex(self.data.len());
                self.data.push(Some(item));
                proof {
                    assert(self.free() =~= old_free);
                }
                index
            },
        }
    }

    /// Returns a mutable reference to the item at `index`.
    ///
    /// Returns `None` if `index` has been removed or was never handed out.
    pub fn get_mut(&mut self, index: SlabIndex) -> (r: Option<&mut T>)
        requires
            old(self).wf(),
        ensures
            r.is_some() == old(self).has(index@ as int),
            r.is_some() ==> *r.unwrap() == old(self).item(index@ as int)
                && final(self).slots() == old(self).slots().update(index@ as int, Some(*final(r.unwrap())))
                && final(self).free() == old(self).free(),
            r.is_none() ==> final(self).slots() == old(self).slots() && final(self).free() == old(self).free(),
            final(self).wf(),
    {
        if index.0 < self.data.len() {
            self.data[index.0].as_mut()
        } else {
            None
        }
    }

    /// Returns the item at `index` without checking that there is one: the caller must
    /// know that `index` holds an item.
    pub fn get_very_unsafely(&self, index: SlabIndex) -> (r: &T)
        requires
            self.has(index@ as int),
        ensures
            *r == self.item(index@ as int),
    {
        self.data[index.0].as_ref().unwrap()
    }

    /// Returns a reference to the item at `index`.
    ///
    /// Returns `None` if `index` has been removed or was never handed out.
    pub fn get(&self, index: SlabIndex) -> (r: Option<&T>)
        ensures
            r.is_some() == self.has(index@ as int),
            r.is_some() ==> *r.unwrap() == self.item(index@ as int),
    {
        if index.0 < self.data.len() {
            self.data[index.0].as_ref()
        } else {
            None
        }
    }

    /// Removes an item from the slab and returns it.
    ///
    /// Returns `None` if `index` has been removed or was never handed out.
    /// `index` will be reused on the next call to [Slab::insert].
    pub fn remove(&mut self, index: SlabIndex) -> (r: Option<T>)
        requires
            old(self).wf(),
        ensures
            final(self).wf(),
            final(self).remove_result(old(self), index@, r),
    {
        if index.0 < self.data.len() {
            if self.data[index.0].is_none() {
                return None;
            }
            let ghost old_free = self.free();
            proof {
                assert(!old_free.contains(index.0)) by {
                    if old_free.contains(index.0) {
                        let k = choose|k: int| 0 <= k < old_free.len() && old_free[k] == index.0;
                        assert(self.slots()[old_free[k] as int] is None);
                    }
                }
            }
            self.removed_indexes.push(index);
            let r = self.data[index.0].take();
            proof {
                assert(self.free() =~= old_free.push(index.0));
                assert forall|k: int| 0 <= k < self.free().len() implies #[trigger] self.free()[k] < self.slots().len()
                    && self.slots()[self.free()[k] as int] is None by {
                    if k < old_free.len() {
                        assert(self.free()[k] == old_free[k]);
                    }
                }
                assert forall|i: int|
                    0 <= i < self.slots().len() && #[trigger] self.slots()[i] is None implies self.free().contains(i as usize) by {
                    if i != index.0 as int {
                        assert(old_free.contains(i as usize));
                        let k = choose|k: int| 0 <= k < old_free.len() && old_free[k] == i as usize;
                        assert(self.free()[k] == i as usize);
                    } else {
                        assert(self.free()[old_free.len() as int] == index.0);
                    }
                }
            }
            return r;
        }
        None
    }

    /// Proves that the number of items equals the number of slots minus the number of removed
    /// indexes.
    pub proof fn lemma_occupied_len(&self)
        requires
            self.wf(),
        ensures
            self.occupied().finite(),
            self.occupied().len() + self.free().len() == self.slots().len(),
    {
        let n = self.slots().len() as int;
        assert(self.data@.len() == self.data.len());
        let empty = Set::new(|i: int| 0 <= i < n && self.slots()[i] is None);
        let f = self.free().map_values(|x: usize| x as int);
        assert(f.no_duplicates()) by {
            assert forall|a: int, b: int| 0 <= a < f.len() && 0 <= b < f.len() && a != b implies f[a] != f[b] by {
                assert(self.free()[a] != self.free()[b]);
            }
        }
        assert(f.to_set() =~= empty) by {
            assert forall|i: int| empty.contains(i) implies f.to_set().contains(i) by {
                assert(self.free().contains(i as usize));
                let k = choose|k: int| 0 <= k < self.free().len() && self.free()[k] == i as usize;
                assert(f[k] == i);
            }
            assert forall|i: int| f.to_set().contains(i) implies empty.contains(i) by {
                let k = choose|k: int| 0 <= k < f.len() && f[k] == i;
                assert(self.free()[k] < self.slots().len());
            }
        }
        f.unique_seq_to_set();
        vstd::set_lib::lemma_int_range(0, n);
        assert(self.occupied() + empty =~= vstd::set_lib::set_int_range(0, n));
        vstd::set_lib::lemma_len_subset(self.occupied(), vstd::set_lib::set_int_range(0, n));
        vstd::set_lib::lemma_len_subset(empty, vstd::set_lib::set_int_range(0, n));
        assert(self.occupied().disjoint(empty));
        vstd::set_lib::lemma_set_disjoint_lens(self.occupied(), empty);
    }

    /// What is inserted can be read back at the returned index, and no other index changes.
    pub proof fn law_get_after_insert(s1: &Self, s2: &Self, index: usize, item: T)
        requires
            s1.wf(),
            s2.insert_result(s1, index, item),
        ensures
            s2.has(index as int),
            s2.item(index as int) == item,
            !s1.has(index as int),
            forall|j: int| j != index ==> (#[trigger] s2.has(j) == s1.has(j)) && (s1.has(j) ==> s2.item(j) == s1.item(j)),
            s2.occupied() == s1.occupied().insert(index as int),
    {
        if s1.free().len() > 0 {
            assert(s1.free()[s1.free().len() - 1] == index);
        }
        assert(s2.occupied() =~= s1.occupied().insert(index as int));
    }

    /// A removed index holds nothing any more, the removal returns what it held, and no other
    /// index changes.
    pub proof fn law_get_after_remove(s1: &Self, s2: &Self, index: usize, r: Option<T>)
        requires
            s1.wf(),
            s2.remove_result(s1, index, r),
        ensures
            !s2.has(index as int),
            r == (if s1.has(index as int) { Some(s1.item(index as int)) } else { None }),
            forall|j: int| j != index ==> (#[trigger] s2.has(j) == s1.has(j)) && (s1.has(j) ==> s2.item(j) == s1.item(j)),
            s2.occupied() == s1.occupied().remove(index as int),
    {
        assert(s2.occupied() =~= s1.occupied().remove(index as int));
    }

    /// The next insert after a removal reuses the removed index.
    pub proof fn law_insert_reuses_removed(s1: &Self, s2: &Self, removed: usize, r: Option<T>, s3: &Self, index: usize, item: T)
        requires
            s1.wf(),
            s1.has(removed as int),
            s2.remove_result(s1, removed, r),
            s3.insert_result(s2, index, item),
        ensures
            index == removed,
            s3.has(removed as int) && s3.item(removed as int) == item,
    {
    }

    /// Inserting adds one item and removing a held index takes one away.
    pub proof fn law_len(s1: &Self, s2: &Self, index: usize, item: T, s3: &Self, removed: usize, r: Option<T>)
        requires
            s1.wf(),
            s2.wf(),
            s3.wf(),
            s2.insert_result(s1, index, item),
            s3.remove_result(s2, removed, r),
            s2.has(removed as int),
        ensures
            s2.occupied().len() == s1.occupied().len() + 1,
            s3.occupied().len() + 1 == s2.occupied().len(),
    {
        s1.lemma_occupied_len();
        s2.lemma_occupied_len();
        s3.lemma_occupied_len();
        Self::law_get_after_insert(s1, s2, index, item);
        Self::law_get_after_remove(s2, s3, removed, r);
    }

    /// Returns the number of items in the slab.
    ///
    /// This is different from the number of allocated slots in the slab, see [Slab::total_len].
    pub fn len(&self) -> (r: usize)
        requires
            self.wf(),
        ensures
            r == self.occupied().len(),
    {
        proof {
            self.lemma_occupied_len();
        }
        self.data.len() - self.removed_indexes.len()
    }

    /// Returns true if the number of items in the slab is 0.
    pub fn is_empty(&self) -> (r: bool)
        requires
            self.wf(),
        ensures
            r == (self.occupied().len() == 0),
    {
        self.len() == 0
    }

    /// Returns the number of allocated slots in the slab, some of them could be empty.
    pub fn total_len(&self) -> (r: usize)
        ensures
            r == self.slots().len(),
    {
        self.data.len()
    }

    /// Returns the pairs `(index, &item)` of the slab, in increasing index order.
    pub fn items(&self) -> (r: Vec<(SlabIndex, &T)>)
        ensures
            forall|k: int| 0 <= k < r@.len() ==> self.has((#[trigger] r@[k]).0@ as int)
                && *r@[k].1 == self.item(r@[k].0@ as int),
            forall|k: int, l: int| 0 <= k < l < r@.len() ==> r@[k].0@ < r@[l].0@,
            forall|i: int| #[trigger] self.has(i) ==> exists|k: int| 0 <= k < r@.len() && r@[k].0@ == i,
    {
        let mut r: Vec<(SlabIndex, &T)> = Vec::new();
        let mut i: usize = 0;
        while i < self.data.len()
            invariant
                i <= self.slots().len(),
                forall|k: int| 0 <= k < r@.len() ==> self.has((#[trigger] r@[k]).0@ as int)
                    && *r@[k].1 == self.item(r@[k].0@ as int) && r@[k].0@ < i,
                forall|k: int, l: int| 0 <= k < l < r@.len() ==> r@[k].0@ < r@[l].0@,
                forall|j: int| 0 <= j < i && #[trigger] self.has(j) ==> exists|k: int| 0 <= k < r@.len() && r@[k].0@ == j,
            decreases self.slots().len() - i,
        {
            match self.data[i].as_ref() {
                Some(item) => {
                    let ghost old_r = r@;
                    r.push((SlabIndex(i), item));
                    proof {
                        assert forall|j: int| 0 <= j < i + 1 && #[trigger] self.has(j) implies exists|k: int| 0 <= k < r@.len() && r@[k].0@ == j by {
                            if j < i {
                                let k = choose|k: int| 0 <= k < old_r.len() && old_r[k].0@ == j;
                                assert(r@[k] == old_r[k]);
                            } else {
                                assert(r@[old_r.len() as int].0@ == j);
                            }
                        }
                    }
                },
                None => {},
            }
            i = i + 1;
        }
        r
    }
}

/// True if no slot of `slots` from `from` up to (not including) `to` holds an item.
pub open spec fn all_empty<T>(slots: Seq<Option<T>>, from: int, to: int) -> bool {
    forall|j: int| from <= j < to ==> #[trigger] slots[j] is None
}

/// Walks the items of a [Slab] by reference, in increasing index order.
pub struct Iter<'a, T> {
    slab: &'a Slab<T>,
    i: usize,
}

impl<'a, T> Iter<'a, T> {
    /// The slots of the slab being walked.
    pub closed spec fn slots(&self) -> Seq<Option<T>> {
        self.slab.slots()
    }

    /// The index of the next slot to look at.
    pub closed spec fn pos(&self) -> int {
        self.i as int
    }

    /// Returns the next `(index, &item)` pair, or `None` once every item has been returned.
    pub fn next(&mut self) -> (r: Option<(SlabIndex, &'a T)>)
        requires
            old(self).pos() <= old(self).slots().len(),
        ensures
            final(self).slots() == old(self).slots(),
            final(self).pos() <= final(self).slots().len(),
            match r {
                None => all_empty(old(self).slots(), old(self).pos(), old(self).slots().len() as int)
                    && final(self).pos() == old(self).slots().len(),
                Some((idx, item)) => {
                    &&& old(self).pos() <= idx@ < old(self).slots().len()
                    &&& old(self).slots()[idx@ as int] == Some(*item)
                    &&& all_empty(old(self).slots(), old(self).pos(), idx@ as int)
                    &&& final(self).pos() == idx@ + 1
                },
            },
    {
        while self.i < self.slab.data.len()
            invariant
                self.slab == old(self).slab,
                old(self).pos() <= self.pos() <= self.slots().len(),
                all_empty(self.slots(), old(self).pos(), self.pos()),
            decreases self.slots().len() - self.pos(),
        {
            let i = self.i;
            self.i = i + 1;
            match self.slab.data[i].as_ref() {
                Some(item) => {
                    return Some((SlabIndex(i), item));
                },
                None => {},
            }
        }
        None
    }
}

/// Walks the items of a [Slab] by value, in increasing index order.
pub struct IntoIter<T> {
    slab: Slab<T>,
    i: usize,
}

impl<T> IntoIter<T> {
    /// The slots that have not been walked yet, by index; the slots before [IntoIter::pos]
    /// have been emptied.
    pub closed spec fn slots(&self) -> Seq<Option<T>> {
        self.slab.slots()
    }

    /// The index of the next slot to look at.
    pub closed spec fn pos(&self) -> int {
        self.i as int
    }

    /// Returns the next `(index, item)` pair, or `None` once every item has been returned.
    pub fn next(&mut self) -> (r: Option<(SlabIndex, T)>)
        requires
            old(self).pos() <= old(self).slots().len(),
        ensures
            final(self).slots().len() == old(self).slots().len(),
            final(self).pos() <= final(self).slots().len(),
            forall|j: int| final(self).pos() <= j < final(self).slots().len() ==> #[trigger] final(self).slots()[j] == old(self).slots()[j],
            match r {
                None => all_empty(old(self).slots(), old(self).pos(), old(self).slots().len() as int)
                    && final(self).pos() == old(self).slots().len(),
                Some((idx, item)) => {
                    &&& old(self).pos() <= idx@ < old(self).slots().len()
                    &&& old(self).slots()[idx@ as int] == Some(item)
                    &&& all_empty(old(self).slots(), old(self).pos(), idx@ as int)
                    &&& final(self).pos() == idx@ + 1
                },
            },
    {
        let ghost start = self.slab.slots();
        while self.i < self.slab.data.len()
            invariant
                self.slots().len() == start.len(),
                start == old(self).slots(),
                old(self).pos() <= self.pos() <= self.slots().len(),
                forall|j: int| self.pos() <= j < self.slots().len() ==> #[trigger] self.slots()[j] == start[j],
                all_empty(start, old(self).pos(), self.pos()),
            decreases self.slots().len() - self.pos(),
        {
            let i = self.i;
            let item = self.slab.data[i].take();
            self.i = i + 1;
            match item {
                Some(item) => {
                    return Some((SlabIndex(i), item));
                },
                None => {},
            }
        }
        None
    }
}

impl<T> Slab<T> {
    /// Returns an [Iter] over the items of the slab, starting at index 0.
    pub fn iter(&self) -> (r: Iter<'_, T>)
        ensures
            r.slots() == self.slots(),
            r.pos() == 0,
    {
        Iter { slab: self, i: 0 }
    }

    /// Consumes the slab and returns an [IntoIter] over its items, starting at index 0.
    pub fn into_iter(self) -> (r: IntoIter<T>)
        ensures
            r.slots() == self.slots(),
            r.pos() == 0,
    {
        IntoIter { slab: self, i: 0 }
    }
}

impl<T> Default for Slab<T> {
    fn default() -> (s: Self)
        ensures
            s.wf(),
            s.slots() == Seq::<Option<T>>::empty(),
            s.free() == Seq::<usize>::empty(),
    {
        Self::new()
    }
}

} // verus!
