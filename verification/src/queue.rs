//! A fixed-capacity circular queue, used as the client's outbound retry
//! buffer.
//!
//! The queue holds at most `capacity` elements. Once full, a push
//! overwrites the oldest element. A pop removes the newest; on a
//! saturated queue a reverse cursor counts the pops, so at most
//! `capacity` pops succeed before the queue refuses. The view (`self@`)
//! lists the stored elements newest first.

use vstd::prelude::*;

verus! {

/// Fixed-capacity ring: pushes overwrite the oldest element once full,
/// pops return the newest first.
#[derive(Clone, Debug)]
pub struct CircularQueue<T> {
    data: Vec<T>,
    capacity: usize,
    insertion_index: usize,
    reverse_idx: usize,
}

impl<T> View for CircularQueue<T> {
    type V = Seq<T>;

    /// The stored elements, newest first.
    closed spec fn view(&self) -> Seq<T> {
        self.data@.subrange(0, self.insertion_index as int).reverse() + self.data@.subrange(
            self.insertion_index as int,
            self.data@.len() as int,
        ).reverse()
    }
}

impl<T> CircularQueue<T> {
    /// The queue's internal shape: the store never exceeds the
    /// capacity, and the write cursor points at the append position
    /// while the store is below capacity.
    pub closed spec fn wf(self) -> bool {
        &&& self.capacity > 0
        &&& self.data@.len() <= self.capacity
        &&& self.insertion_index < self.capacity
        &&& (self.data@.len() < self.capacity ==> self.insertion_index == self.data@.len())
        &&& self.reverse_idx <= self.capacity
    }

    /// How many pops a saturated queue has already served; `capacity`
    /// of them exhaust it.
    pub closed spec fn spec_popped(&self) -> nat {
        self.reverse_idx as nat
    }

    /// The fixed capacity.
    pub closed spec fn spec_capacity(&self) -> nat {
        self.capacity as nat
    }

    /// Creates an empty queue. The capacity must be positive.
    pub fn with_capacity(capacity: usize) -> (r: Self)
        requires
            capacity > 0,
        ensures
            r.wf(),
            r@ == Seq::<T>::empty(),
            r.spec_capacity() == capacity,
            r.spec_popped() == 0,
    {
        let r = CircularQueue { data: Vec::new(), capacity, insertion_index: 0, reverse_idx: 0 };
        assert(r@ =~= Seq::<T>::empty());
        r
    }

    /// How many elements are stored.
    pub fn len(&self) -> (r: usize)
        requires
            self.wf(),
        ensures
            r == self@.len(),
            r <= self.spec_capacity(),
    {
        self.data.len()
    }

    /// Whether the queue stores nothing.
    pub fn is_empty(&self) -> (r: bool)
        requires
            self.wf(),
        ensures
            r == (self@.len() == 0),
    {
        self.data.len() == 0
    }

    /// What well-formedness gives a caller holding an arbitrary queue:
    /// a positive capacity and a store within it.
    pub proof fn lemma_wf_bounds(&self)
        requires
            self.wf(),
        ensures
            self@.len() <= self.spec_capacity(),
            self.spec_capacity() > 0,
    {
    }

    /// The fixed capacity.
    pub fn capacity(&self) -> (r: usize)
        ensures
            r == self.spec_capacity(),
    {
        self.capacity
    }

    /// Drops every element and rewinds both cursors.
    pub fn clear(&mut self)
        requires
            old(self).wf(),
        ensures
            final(self).wf(),
            final(self)@ == Seq::<T>::empty(),
            final(self).spec_capacity() == old(self).spec_capacity(),
            final(self).spec_popped() == 0,
    {
        self.data.clear();
        self.insertion_index = 0;
        self.reverse_idx = 0;
        assert(self@ =~= Seq::<T>::empty());
    }

    /// Adds an element as the newest. Below capacity it is appended;
    /// at capacity it overwrites the oldest. A push also wins back one
    /// pop on a queue that pops had exhausted.
    pub fn push(&mut self, x: T)
        requires
            old(self).wf(),
        ensures
            final(self).wf(),
            final(self).spec_capacity() == old(self).spec_capacity(),
            old(self)@.len() < old(self).spec_capacity() ==> final(self)@ == seq![x] + old(self)@,
            old(self)@.len() == old(self).spec_capacity() ==> final(self)@ == seq![x] + old(
                self,
            )@.drop_last(),
            final(self).spec_popped() == (if old(self).spec_popped() > 0 {
                (old(self).spec_popped() - 1) as nat
            } else {
                0nat
            }),
    {
        let ghost oldq = *self;
        if self.data.len() < self.capacity {
            self.data.push(x);
        } else {
            self.data.set(self.insertion_index, x);
        }
        if self.reverse_idx > 0 {
            self.reverse_idx = self.reverse_idx - 1;
        }
        self.insertion_index = if self.insertion_index + 1 == self.capacity {
            0
        } else {
            self.insertion_index + 1
        };
        proof {
            let idx = oldq.insertion_index as int;
            let n = oldq.data@.len() as int;
            if n < oldq.capacity {
                assert(idx == n);
                if n + 1 < oldq.capacity {
                    assert(self.insertion_index == n + 1);
                } else {
                    assert(self.insertion_index == 0);
                }
                assert(self@ =~= seq![x] + oldq@);
            } else {
                assert(self.data@ == oldq.data@.update(idx, x));
                assert(oldq@.len() == n);
                assert(oldq@[n - 1] == (if idx == 0 {
                    oldq.data@[idx]
                } else {
                    oldq.data@[idx]
                }));
                if idx + 1 < oldq.capacity {
                    assert(self.insertion_index == idx + 1);
                } else {
                    assert(self.insertion_index == 0);
                }
                assert(self@ =~= seq![x] + oldq@.drop_last());
            }
        }
    }

    /// Removes and returns the newest element. An empty queue yields
    /// `None`; so does a saturated queue whose elements have all been
    /// popped already. A pop from a saturated queue rotates the popped
    /// element to the oldest position rather than shrinking the store.
    pub fn pop(&mut self) -> (r: Option<T>)
        where T: Copy
        requires
            old(self).wf(),
        ensures
            final(self).wf(),
            final(self).spec_capacity() == old(self).spec_capacity(),
            old(self)@.len() == 0 ==> r is None && final(self)@ == old(self)@
                && final(self).spec_popped() == old(self).spec_popped(),
            (0 < old(self)@.len() < old(self).spec_capacity()) ==> r == Some(old(self)@[0])
                && final(self)@ == old(self)@.drop_first() && final(self).spec_popped() == old(
                self,
            ).spec_popped(),
            (old(self)@.len() == old(self).spec_capacity() && old(self).spec_popped() == old(
                self,
            ).spec_capacity()) ==> r is None && final(self)@ == old(self)@
                && final(self).spec_popped() == old(self).spec_popped(),
            (old(self)@.len() == old(self).spec_capacity() && old(self).spec_popped() < old(
                self,
            ).spec_capacity()) ==> r == Some(old(self)@[0]) && final(self)@ == old(
                self,
            )@.drop_first().push(old(self)@[0]) && final(self).spec_popped() == old(
                self,
            ).spec_popped() + 1,
    {
        let ghost oldq = *self;
        if self.data.len() == 0 {
            assert(self@ =~= oldq@);
            return None;
        }
        if self.data.len() < self.capacity {
            let r = self.data.pop();
            self.insertion_index = self.data.len();
            proof {
                assert(oldq@[0] == oldq.data@[oldq.data@.len() - 1]);
                assert(self@ =~= oldq@.drop_first());
            }
            return r;
        }
        if self.reverse_idx == self.capacity {
            assert(self@ =~= oldq@);
            return None;
        }
        self.reverse_idx = self.reverse_idx + 1;
        if self.insertion_index == 0 {
            self.insertion_index = self.capacity - 1;
        } else {
            self.insertion_index = self.insertion_index - 1;
        }
        let r = self.data[self.insertion_index];
        proof {
            let idx = oldq.insertion_index as int;
            let n = oldq.data@.len() as int;
            if idx == 0 {
                assert(oldq@[0] == oldq.data@[n - 1]);
                assert(r == oldq@[0]);
                assert(self@ =~= oldq@.drop_first().push(oldq@[0]));
            } else {
                assert(oldq@[0] == oldq.data@[idx - 1]);
                assert(r == oldq@[0]);
                assert(self@ =~= oldq@.drop_first().push(oldq@[0]));
            }
        }
        Some(r)
    }

    /// The stored elements, newest first.
    pub fn iter(&self) -> (r: Vec<T>)
        where T: Copy
        requires
            self.wf(),
        ensures
            r@ == self@,
    {
        let mut r: Vec<T> = Vec::new();
        let n = self.data.len();
        let idx = self.insertion_index;
        let mut k: usize = 0;
        while k < n
            invariant
                k <= n,
                n == self.data@.len(),
                idx == self.insertion_index,
                self.wf(),
                r@ == self@.subrange(0, k as int),
            decreases n - k,
        {
            let v = if k < idx {
                self.data[idx - 1 - k]
            } else {
                self.data[n - 1 - k + idx]
            };
            proof {
                if k < idx {
                    assert(self@[k as int] == self.data@.subrange(
                        0,
                        idx as int,
                    ).reverse()[k as int]);
                    assert(self@[k as int] == self.data@[idx - 1 - k]);
                } else {
                    assert(self@[k as int] == self.data@.subrange(
                        idx as int,
                        n as int,
                    ).reverse()[k - idx]);
                    assert(self@[k as int] == self.data@[n - 1 - k + idx]);
                }
            }
            r.push(v);
            assert(r@ =~= self@.subrange(0, k + 1));
            k = k + 1;
        }
        assert(r@ =~= self@);
        r
    }

    /// Rewrites every stored element in place with `f`, visiting them
    /// newest first.
    pub fn iter_mut<F: Fn(&T) -> T>(&mut self, f: &F)
        where T: Copy
        requires
            old(self).wf(),
            forall|x: T| #[trigger] f.requires((&x,)),
        ensures
            final(self).wf(),
            final(self)@.len() == old(self)@.len(),
            final(self).spec_capacity() == old(self).spec_capacity(),
            final(self).spec_popped() == old(self).spec_popped(),
            forall|i: int|
                0 <= i < old(self)@.len() ==> f.ensures(
                    (&old(self)@[i],),
                    #[trigger] final(self)@[i],
                ),
    {
        let n = self.len();
        let mut i: usize = 0;
        while i < n
            invariant
                i <= n,
                n == old(self)@.len(),
                self.wf(),
                self@.len() == n,
                self.spec_capacity() == old(self).spec_capacity(),
                self.spec_popped() == old(self).spec_popped(),
                forall|x: T| #[trigger] f.requires((&x,)),
                forall|k: int| i <= k < n ==> self@[k] == old(self)@[k],
                forall|k: int| 0 <= k < i ==> f.ensures((&old(self)@[k],), #[trigger] self@[k]),
            decreases n - i,
        {
            let v = self.get(i);
            let w = f(&v);
            self.set(i, w);
            i = i + 1;
        }
    }

    /// The `i`-th newest element.
    pub fn get(&self, i: usize) -> (r: T)
        where T: Copy
        requires
            self.wf(),
            i < self@.len(),
        ensures
            r == self@[i as int],
    {
        let n = self.data.len();
        let idx = self.insertion_index;
        if i < idx {
            let v = self.data[idx - 1 - i];
            proof {
                assert(self@[i as int] == self.data@.subrange(0, idx as int).reverse()[i as int]);
            }
            v
        } else {
            let v = self.data[n - 1 - i + idx];
            proof {
                assert(self@[i as int] == self.data@.subrange(idx as int, n as int).reverse()[i
                    - idx]);
            }
            v
        }
    }

    /// Replaces the `i`-th newest element.
    pub fn set(&mut self, i: usize, x: T)
        requires
            old(self).wf(),
            i < old(self)@.len(),
        ensures
            final(self).wf(),
            final(self)@ == old(self)@.update(i as int, x),
            final(self).spec_capacity() == old(self).spec_capacity(),
            final(self).spec_popped() == old(self).spec_popped(),
    {
        let ghost oldq = *self;
        let n = self.data.len();
        let idx = self.insertion_index;
        if i < idx {
            self.data.set(idx - 1 - i, x);
            proof {
                assert(oldq@[i as int] == oldq.data@.subrange(0, idx as int).reverse()[i as int]);
                assert(self@ =~= oldq@.update(i as int, x));
            }
        } else {
            self.data.set(n - 1 - i + idx, x);
            proof {
                assert(oldq@[i as int] == oldq.data@.subrange(idx as int, n as int).reverse()[i
                    - idx]);
                assert(self@ =~= oldq@.update(i as int, x));
            }
        }
    }
}

} // verus!
