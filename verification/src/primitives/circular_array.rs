use vstd::prelude::*;

verus! {

/// A growable ring buffer: `len` items stored from physical slot `head`
/// onward, wrapping around the end of `array`.
pub struct CircularArray<T> {
    pub array: Vec<T>,
    pub head: usize,
    pub len: usize,
}

/// Physical slot of logical position `i` in a ring of capacity `cap` starting at `head`.
pub open spec fn ring_slot(head: int, cap: int, i: int) -> int {
    if head + i < cap {
        head + i
    } else {
        head + i - cap
    }
}

/// Distinct logical positions occupy distinct physical slots.
proof fn lemma_ring_slot(head: int, cap: int, i: int, j: int)
    requires
        0 <= head < cap,
        0 <= i < cap,
        0 <= j < cap,
    ensures
        0 <= ring_slot(head, cap, i) < cap,
        i != j ==> ring_slot(head, cap, i) != ring_slot(head, cap, j),
{
}

/// Head moved back by `amount` slots, wrapping around.
pub open spec fn head_back(head: int, cap: int, amount: int) -> int {
    if head >= amount {
        head - amount
    } else {
        head + cap - amount
    }
}

/// Head moved forward by `amount` slots, wrapping around.
pub open spec fn head_forward(head: int, cap: int, amount: int) -> int {
    if amount < cap - head {
        head + amount
    } else {
        amount - (cap - head)
    }
}

/// Moving the head back by `amount` shifts every logical position forward by `amount`.
proof fn lemma_ring_shift(head: int, cap: int, amount: int, j: int)
    requires
        0 <= head < cap,
        0 <= amount <= j < cap,
    ensures
        ring_slot(head_back(head, cap, amount), cap, j) == ring_slot(head, cap, j - amount),
{
}

/// Moving the head forward by `amount` shifts every logical position back by `amount`.
proof fn lemma_ring_advance(head: int, cap: int, amount: int, j: int)
    requires
        0 <= head < cap,
        0 <= amount,
        0 <= j,
        j + amount < cap,
    ensures
        ring_slot(head_forward(head, cap, amount), cap, j) == ring_slot(head, cap, j + amount),
{
}

impl<T: Clone + Default> CircularArray<T> {
    /// The head lies inside the storage and the items fit in it.
    pub open spec fn wf(&self) -> bool {
        &&& self.len <= self.array@.len()
        &&& (self.array@.len() > 0 ==> self.head < self.array@.len())
        &&& (self.array@.len() == 0 ==> self.head == 0)
    }

    /// Number of slots.
    pub open spec fn cap(&self) -> int {
        self.array@.len() as int
    }

    /// Content of logical position `i` (any position below the capacity).
    pub open spec fn slot(&self, i: int) -> T {
        self.array@[ring_slot(self.head as int, self.cap(), i)]
    }

    /// The stored items, in order.
    pub open spec fn items(&self) -> Seq<T> {
        Seq::new(self.len as nat, |i: int| self.slot(i))
    }

    /// Empty ring with `capacity` default-valued slots.
    pub fn new(capacity: usize) -> (r: CircularArray<T>)
        ensures
            r.wf(),
            r.cap() == capacity,
            r.head == 0,
            r.len == 0,
    {
        let mut array: Vec<T> = Vec::new();
        let mut i: usize = 0;
        while i < capacity
            invariant
                0 <= i <= capacity,
                array@.len() == i,
            decreases capacity - i,
        {
            array.push(T::default());
            i = i + 1;
        }
        CircularArray { array, head: 0, len: 0 }
    }

    pub fn size(&self) -> (r: usize)
        ensures
            r == self.len,
    {
        self.len
    }

    pub fn is_empty(&self) -> (r: bool)
        ensures
            r == (self.len == 0),
    {
        self.len == 0
    }

    pub fn is_full(&self) -> (r: bool)
        ensures
            r == (self.len == self.cap()),
    {
        self.len == self.array.len()
    }

    fn location(&self, index: usize) -> (r: usize)
        requires
            self.wf(),
            index < self.cap(),
        ensures
            r == ring_slot(self.head as int, self.cap(), index as int),
            r < self.cap(),
    {
        if index < self.array.len() - self.head {
            self.head + index
        } else {
            index - (self.array.len() - self.head)
        }
    }

    /// Moves `length` items from logical positions starting at `from` to
    /// positions starting at `to`, in the direction that never overwrites an
    /// item before it has been moved.
    fn move_items(&mut self, from: usize, to: usize, length: usize)
        requires
            old(self).wf(),
            from + length <= old(self).cap(),
            to + length <= old(self).cap(),
        ensures
            final(self).wf(),
            final(self).head == old(self).head,
            final(self).len == old(self).len,
            final(self).cap() == old(self).cap(),
            forall|j: int| to <= j < to + length ==> #[trigger] final(self).slot(j) == old(self).slot(j - to + from),
            forall|j: int| 0 <= j < final(self).cap() && !(to <= j < to + length) && !(from <= j < from + length) ==> #[trigger] final(self).slot(j) == old(self).slot(j),
    {
        let ghost s0 = *self;
        let _n = self.array.len();
        assert(s0.cap() <= usize::MAX);
        if to < from {
            let mut i: usize = 0;
            while i < length
                invariant
                    self.wf(),
                    self.head == s0.head,
                    self.len == s0.len,
                    self.cap() == s0.cap(),
                    s0.wf(),
                    s0.cap() <= usize::MAX,
                    to < from,
                    from + length <= s0.cap(),
                    to + length <= s0.cap(),
                    0 <= i <= length,
                    forall|j: int| to <= j < to + i ==> #[trigger] self.slot(j) == s0.slot(j - to + from),
                    forall|j: int| 0 <= j < self.cap() && !(to <= j < to + i) && !(from <= j < from + i) ==> #[trigger] self.slot(j) == s0.slot(j),
                decreases length - i,
            {
                let v = self.take(from + i);
                self.put(to + i, v);
                i = i + 1;
            }
        } else if to > from {
            let mut i: usize = length;
            while i > 0
                invariant
                    self.wf(),
                    self.head == s0.head,
                    self.len == s0.len,
                    self.cap() == s0.cap(),
                    s0.wf(),
                    s0.cap() <= usize::MAX,
                    to > from,
                    from + length <= s0.cap(),
                    to + length <= s0.cap(),
                    0 <= i <= length,
                    forall|j: int| to + i <= j < to + length ==> #[trigger] self.slot(j) == s0.slot(j - to + from),
                    forall|j: int| 0 <= j < self.cap() && !(to + i <= j < to + length) && !(from + i <= j < from + length) ==> #[trigger] self.slot(j) == s0.slot(j),
                decreases i,
            {
                i = i - 1;
                let v = self.take(from + i);
                self.put(to + i, v);
            }
        }
    }

    /// Doubles the storage, moving the items to the start of the new storage.
    fn enlarge(&mut self)
        requires
            old(self).wf(),
            old(self).cap() * 2 <= usize::MAX,
        ensures
            final(self).wf(),
            final(self).cap() == 2 * old(self).cap(),
            final(self).head == 0,
            final(self).len == old(self).len,
            final(self).items() == old(self).items(),
    {
        let ghost s0 = *self;
        let n = 2 * self.array.len();
        let mut enlarged: Vec<T> = Vec::new();
        let mut k: usize = 0;
        while k < n
            invariant
                0 <= k <= n,
                enlarged@.len() == k,
            decreases n - k,
        {
            enlarged.push(T::default());
            k = k + 1;
        }
        let mut i: usize = 0;
        while i < self.len
            invariant
                self.wf(),
                s0.wf(),
                self.head == s0.head,
                self.len == s0.len,
                self.cap() == s0.cap(),
                n == 2 * s0.cap(),
                enlarged@.len() == n,
                0 <= i <= self.len,
                forall|j: int| 0 <= j < i ==> #[trigger] enlarged@[j] == s0.slot(j),
                forall|j: int| i <= j < self.cap() ==> #[trigger] self.slot(j) == s0.slot(j),
            decreases self.len - i,
        {
            let v = self.take(i);
            enlarged.set(i, v);
            i = i + 1;
        }
        self.array = enlarged;
        self.head = 0;
        proof {
            assert(self.items() =~= s0.items());
        }
    }

    /// Opens `amount` default-valued positions at `index` (each holds what
    /// `T::default()` returned), shifting the following items back and
    /// growing the storage when needed.
    pub fn insert(&mut self, index: usize, amount: usize)
        requires
            old(self).wf(),
            old(self).cap() > 0,
            index <= old(self).len,
            amount > 0,
            old(self).len + amount <= usize::MAX / 2,
        ensures
            final(self).wf(),
            final(self).len == old(self).len + amount,
            final(self).cap() >= old(self).cap(),
            final(self).items().subrange(0, index as int) == old(self).items().subrange(0, index as int),
            final(self).items().subrange(index + amount, final(self).len as int) == old(self).items().subrange(index as int, old(self).len as int),
            forall|j: int| index <= j < index + amount ==> call_ensures(T::default, (), #[trigger] final(self).items()[j]),
    {
        let ghost s0 = *self;
        while self.len + amount > self.array.len()
            invariant
                self.wf(),
                self.cap() > 0,
                self.len == s0.len,
                self.cap() >= s0.cap(),
                self.items() == s0.items(),
                self.len + amount <= usize::MAX / 2,
            decreases usize::MAX - self.cap(),
        {
            self.enlarge();
        }
        let ghost s1 = *self;
        let cap = self.array.len();
        if index >= self.len - index {
            self.len = self.len + amount;
            let count = self.len - index - amount;
            let ghost mid = *self;
            self.move_items(index, index + amount, count);
            proof {
                assert forall|j: int| 0 <= j < index implies #[trigger] self.slot(j) == s1.slot(j) by {
                    assert(mid.slot(j) == s1.slot(j));
                }
                assert forall|j: int| index + amount <= j < self.len implies #[trigger] self.slot(j) == s1.slot(j - amount) by {
                    assert(mid.slot(j - amount) == s1.slot(j - amount));
                }
            }
        } else {
            if self.head >= amount {
                self.head = self.head - amount;
            } else {
                self.head = self.head + (cap - amount);
            }
            self.len = self.len + amount;
            let ghost mid = *self;
            proof {
                assert forall|j: int| amount <= j < mid.cap() implies #[trigger] mid.slot(j) == s1.slot(j - amount) by {
                    lemma_ring_shift(s1.head as int, s1.cap(), amount as int, j);
                }
            }
            self.move_items(amount, 0, index);
            proof {
                assert forall|j: int| 0 <= j < index implies #[trigger] self.slot(j) == s1.slot(j) by {
                    assert(self.slot(j) == mid.slot(j + amount));
                }
                assert forall|j: int| index + amount <= j < self.len implies #[trigger] self.slot(j) == s1.slot(j - amount) by {
                    assert(self.slot(j) == mid.slot(j));
                }
            }
        }
        let ghost s2 = *self;
        let mut i: usize = 0;
        while i < amount
            invariant
                self.wf(),
                self.len == s2.len,
                self.cap() == s2.cap(),
                s2.len == s0.len + amount,
                s2.len <= s2.cap(),
                0 <= i <= amount,
                index + amount <= s2.len,
                forall|j: int| 0 <= j < s2.cap() && !(index <= j < index + i) ==> #[trigger] self.slot(j) == s2.slot(j),
                forall|j: int| index <= j < index + i ==> call_ensures(T::default, (), #[trigger] self.slot(j)),
            decreases amount - i,
        {
            let d = T::default();
            proof {
                assert(call_ensures(T::default, (), d));
            }
            self.put(index + i, d);
            i = i + 1;
        }
        proof {
            assert forall|j: int| 0 <= j < index implies #[trigger] self.slot(j) == s0.slot(j) by {
                assert(self.slot(j) == s2.slot(j));
                assert(s2.slot(j) == s1.slot(j));
                assert(s1.items()[j] == s0.items()[j]);
            }
            assert forall|j: int| index + amount <= j < self.len implies #[trigger] self.slot(j) == s0.slot(j - amount) by {
                assert(self.slot(j) == s2.slot(j));
                assert(s2.slot(j) == s1.slot(j - amount));
                assert(s1.items()[j - amount] == s0.items()[j - amount]);
            }
            assert forall|j: int| index <= j < index + amount implies call_ensures(T::default, (), #[trigger] self.items()[j]) by {
                assert(self.items()[j] == self.slot(j));
            }
            assert(self.items().subrange(0, index as int) =~= s0.items().subrange(0, index as int));
            assert(self.items().subrange(index + amount, self.len as int) =~= s0.items().subrange(index as int, s0.len as int));
        }
    }

    /// Removes `amount` items starting at `index`, closing the gap.
    pub fn remove(&mut self, index: usize, amount: usize)
        requires
            old(self).wf(),
            amount > 0,
            index + amount <= old(self).len,
        ensures
            final(self).wf(),
            final(self).len == old(self).len - amount,
            final(self).cap() == old(self).cap(),
            final(self).items() == old(self).items().subrange(0, index as int) + old(self).items().subrange(index + amount, old(self).len as int),
    {
        let ghost s0 = *self;
        if index >= self.len - amount - index {
            let count = self.len - amount - index;
            self.move_items(index + amount, index, count);
            let ghost s1 = *self;
            self.len = self.len - amount;
            proof {
                assert forall|j: int| 0 <= j < index implies #[trigger] self.slot(j) == s0.slot(j) by {
                    assert(self.slot(j) == s1.slot(j));
                }
                assert forall|j: int| index <= j < self.len implies #[trigger] self.slot(j) == s0.slot(j + amount) by {
                    assert(self.slot(j) == s1.slot(j));
                }
            }
        } else {
            self.move_items(0, amount, index);
            let ghost s1 = *self;
            let cap = self.array.len();
            if amount < cap - self.head {
                self.head = self.head + amount;
            } else {
                self.head = amount - (cap - self.head);
            }
            self.len = self.len - amount;
            proof {
                assert forall|j: int| 0 <= j && j + amount < self.cap() implies #[trigger] self.slot(j) == s1.slot(j + amount) by {
                    lemma_ring_advance(s1.head as int, s1.cap(), amount as int, j);
                }
                assert forall|j: int| 0 <= j < index implies #[trigger] self.slot(j) == s0.slot(j) by {
                    assert(self.slot(j) == s1.slot(j + amount));
                }
                assert forall|j: int| index <= j < self.len implies #[trigger] self.slot(j) == s0.slot(j + amount) by {
                    assert(self.slot(j) == s1.slot(j + amount));
                }
            }
        }
        proof {
            assert(self.items() =~= s0.items().subrange(0, index as int) + s0.items().subrange(index + amount, s0.len as int));
        }
    }

    /// The value at logical position `index` (any position below the capacity).
    pub fn get(&self, index: usize) -> (r: &T)
        requires
            self.wf(),
            index < self.cap(),
        ensures
            *r == self.slot(index as int),
    {
        let loc = self.location(index);
        &self.array[loc]
    }

    /// Stores `value` at logical position `index` (any position below the capacity).
    pub fn set(&mut self, index: usize, value: T)
        requires
            old(self).wf(),
            index < old(self).cap(),
        ensures
            final(self).wf(),
            final(self).head == old(self).head,
            final(self).len == old(self).len,
            final(self).cap() == old(self).cap(),
            final(self).slot(index as int) == value,
            forall|j: int| 0 <= j < final(self).cap() && j != index ==> #[trigger] final(self).slot(j) == old(self).slot(j),
    {
        self.put(index, value);
    }

    /// Takes the value out of logical position `i`, leaving a default value behind.
    pub(crate) fn take(&mut self, i: usize) -> (r: T)
        requires
            old(self).wf(),
            i < old(self).cap(),
        ensures
            final(self).wf(),
            final(self).head == old(self).head,
            final(self).len == old(self).len,
            final(self).cap() == old(self).cap(),
            r == old(self).slot(i as int),
            forall|j: int| 0 <= j < final(self).cap() && j != i ==> #[trigger] final(self).slot(j) == old(self).slot(j),
    {
        let loc = self.location(i);
        let mut tmp = T::default();
        std::mem::swap(&mut self.array[loc], &mut tmp);
        proof {
            assert forall|j: int| 0 <= j < self.cap() && j != i implies #[trigger] self.slot(j) == old(self).slot(j) by {
                lemma_ring_slot(self.head as int, self.cap(), i as int, j);
            }
        }
        tmp
    }

    /// Stores `value` at logical position `i`.
    fn put(&mut self, i: usize, value: T)
        requires
            old(self).wf(),
            i < old(self).cap(),
        ensures
            final(self).wf(),
            final(self).head == old(self).head,
            final(self).len == old(self).len,
            final(self).cap() == old(self).cap(),
            final(self).slot(i as int) == value,
            forall|j: int| 0 <= j < final(self).cap() && j != i ==> #[trigger] final(self).slot(j) == old(self).slot(j),
    {
        let loc = self.location(i);
        self.array.set(loc, value);
        proof {
            assert forall|j: int| 0 <= j < self.cap() && j != i implies #[trigger] self.slot(j) == old(self).slot(j) by {
                lemma_ring_slot(self.head as int, self.cap(), i as int, j);
            }
        }
    }
}

} // verus!
