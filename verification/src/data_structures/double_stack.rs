use vstd::prelude::*;

verus! {

/// A write stack and a read stack: writes go to the write stack, reads come from the read stack
/// and [DoubleStack::swap] exchanges them.
#[derive(Debug, Clone)]
pub struct DoubleStack<T> {
    read_stack: Vec<T>,
    write_stack: Vec<T>,
}

impl<T> DoubleStack<T> {
    /// The read stack, bottom first.
    pub closed spec fn read(&self) -> Seq<T> {
        self.read_stack@
    }

    /// The write stack, bottom first.
    pub closed spec fn write(&self) -> Seq<T> {
        self.write_stack@
    }

    /// The number of items in both stacks.
    pub open spec fn size(&self) -> nat {
        self.read().len() + self.write().len()
    }

    /// Over any run of calls that starts from an empty stack, the number of items held is the
    /// number added by pushes and extends minus the number of pops that returned an item:
    /// `trace[i + 1]` is the stack after call `i`, which added `added[i]` items and, where
    /// `popped[i]`, returned one.
    pub proof fn law_size_counts_additions_and_pops(
        trace: Seq<Self>,
        added: Seq<nat>,
        popped: Seq<bool>,
    )
        requires
            trace.len() == added.len() + 1,
            popped.len() == added.len(),
            trace[0].size() == 0,
            forall|i: int|
                0 <= i < added.len() ==> #[trigger] trace[i + 1].size() + (if popped[i] {
                    1int
                } else {
                    0int
                }) == trace[i].size() + added[i],
        ensures
            trace.last().size() + pops_returning(popped) == total_added(added),
        decreases added.len(),
    {
        if added.len() > 0 {
            let n = added.len() - 1;
            let t = trace.drop_last();
            assert forall|i: int| 0 <= i < added.drop_last().len() implies #[trigger] t[i + 1].size()
                + (if popped.drop_last()[i] {
                1int
            } else {
                0int
            }) == t[i].size() + added.drop_last()[i] by {
                assert(trace[i + 1].size() + (if popped[i] {
                    1int
                } else {
                    0int
                }) == trace[i].size() + added[i]);
            }
            Self::law_size_counts_additions_and_pops(t, added.drop_last(), popped.drop_last());
            assert(trace[n + 1].size() + (if popped[n] {
                1int
            } else {
                0int
            }) == trace[n].size() + added[n]);
        }
    }

    /// Once the stacks are swapped, what was pushed last is popped first.
    pub proof fn law_pop_after_push_and_swap(s1: &Self, v: T, s2: &Self, s3: &Self)
        requires
            s1.read().len() == 0,
            s2.read() == s1.read(),
            s2.write() == s1.write().push(v),
            s3.read() == s2.write(),
            s3.write() == s2.read(),
        ensures
            s3.read().len() > 0,
            s3.read().last() == v,
            s3.read().drop_last() == s1.write(),
            s3.write().len() == 0,
    {
    }

    /// Returns an empty [DoubleStack].
    pub fn new() -> (s: Self)
        ensures
            s.read() == Seq::<T>::empty(),
            s.write() == Seq::<T>::empty(),
            s.size() == 0,
    {
        DoubleStack { read_stack: Vec::new(), write_stack: Vec::new() }
    }

    /// Returns a [DoubleStack] whose write stack holds `items` and whose read stack is empty.
    pub fn from_vec(items: Vec<T>) -> (s: Self)
        ensures
            s.read() == Seq::<T>::empty(),
            s.write() == items@,
            s.size() == items@.len(),
    {
        DoubleStack { read_stack: Vec::new(), write_stack: items }
    }

    /// Pops an item from the end of the read stack and returns it.
    /// If the read stack is empty, returns `None`.
    pub fn pop(&mut self) -> (r: Option<T>)
        ensures
            old(self).read().len() > 0 ==> r == Some(old(self).read().last())
                && final(self).read() == old(self).read().drop_last(),
            old(self).read().len() == 0 ==> r is None && final(self).read() == old(self).read(),
            final(self).write() == old(self).write(),
            r is Some ==> final(self).size() + 1 == old(self).size(),
            r is None ==> final(self).size() == old(self).size(),
    {
        self.read_stack.pop()
    }

    /// Pushes an item to the end of the write stack.
    pub fn push(&mut self, v: T)
        ensures
            final(self).read() == old(self).read(),
            final(self).write() == old(self).write().push(v),
            final(self).size() == old(self).size() + 1,
    {
        self.write_stack.push(v);
    }

    /// Pushes all of `items`, in order, to the end of the write stack.
    pub fn extend(&mut self, items: Vec<T>)
        ensures
            final(self).read() == old(self).read(),
            final(self).write() == old(self).write() + items@,
            final(self).size() == old(self).size() + items@.len(),
    {
        let mut items = items;
        self.write_stack.append(&mut items);
    }

    /// Swaps the write and read stacks, after calling this method you can [pop](DoubleStack::pop)
    /// items that you had previously [pushed](DoubleStack::push).
    ///
    /// The read stack must be empty.
    pub fn swap(&mut self)
        requires
            old(self).read().len() == 0,
        ensures
            final(self).read() == old(self).write(),
            final(self).write() == old(self).read(),
            final(self).size() == old(self).size(),
    {
        std::mem::swap(&mut self.read_stack, &mut self.write_stack);
    }

    /// Returns the number of items in both stacks.
    pub fn len(&self) -> (r: usize)
        requires
            self.size() <= usize::MAX,
        ensures
            r == self.size(),
    {
        self.read_stack.len() + self.write_stack.len()
    }

    /// Returns true if both the read and write stacks are empty.
    pub fn is_empty(&self) -> (r: bool)
        ensures
            r == (self.read().len() == 0 && self.write().len() == 0),
            r == (self.size() == 0),
    {
        self.read_stack.len() == 0 && self.write_stack.len() == 0
    }
}

impl<T: Copy> DoubleStack<T> {
    /// Copies all items of `v`, in order, to the end of the write stack.
    pub fn extend_from_slice(&mut self, v: &[T])
        ensures
            final(self).read() == old(self).read(),
            final(self).write() == old(self).write() + v@,
            final(self).size() == old(self).size() + v@.len(),
    {
        let mut i: usize = 0;
        while i < v.len()
            invariant
                i <= v@.len(),
                self.read() == old(self).read(),
                self.write() == old(self).write() + v@.subrange(0, i as int),
            decreases v@.len() - i,
        {
            self.write_stack.push(v[i]);
            i = i + 1;
            proof {
                assert(v@.subrange(0, i as int) =~= v@.subrange(0, i - 1).push(v@[i - 1]));
            }
        }
        proof {
            assert(v@.subrange(0, v@.len() as int) =~= v@);
        }
    }
}

/// How many of the calls returned an item.
pub open spec fn pops_returning(popped: Seq<bool>) -> nat
    decreases popped.len(),
{
    if popped.len() == 0 {
        0
    } else {
        pops_returning(popped.drop_last()) + if popped.last() {
            1nat
        } else {
            0nat
        }
    }
}

/// How many items the calls added in all.
pub open spec fn total_added(added: Seq<nat>) -> nat
    decreases added.len(),
{
    if added.len() == 0 {
        0
    } else {
        total_added(added.drop_last()) + added.last()
    }
}

impl<T> Default for DoubleStack<T> {
    fn default() -> (s: Self)
        ensures
            s.read() == Seq::<T>::empty(),
            s.write() == Seq::<T>::empty(),
    {
        Self::new()
    }
}

} // verus!
