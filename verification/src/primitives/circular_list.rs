use vstd::prelude::*;
use vstd::std_specs::cmp::PartialEqSpec;
use crate::primitives::circular_array::CircularArray;

verus! {

/// Position of the first element of `s` equal to `item`, if any.
pub open spec fn first_index_of<T: PartialEq>(s: Seq<T>, item: T) -> Option<int> {
    if exists|i: int| 0 <= i < s.len() && s[i].eq_spec(&item) {
        let i = choose|i: int| 0 <= i < s.len() && s[i].eq_spec(&item) && forall|k: int| 0 <= k < i ==> !s[k].eq_spec(&item);
        Some(i)
    } else {
        None
    }
}

/// A list stored in a ring buffer, with cheap insertion and removal at both ends.
pub struct CircularList<T: Clone + PartialEq + Default> {
    inner: CircularArray<T>,
}

impl<T: Clone + PartialEq + Default> View for CircularList<T> {
    type V = Seq<T>;

    closed spec fn view(&self) -> Seq<T> {
        self.inner.items()
    }
}

/// The first position of an equal element is the least one.
pub proof fn lemma_first_index<T: PartialEq>(s: Seq<T>, item: T, n: int)
    requires
        0 <= n <= s.len(),
        forall|k: int| 0 <= k < n ==> !#[trigger] s[k].eq_spec(&item),
        n < s.len() ==> s[n].eq_spec(&item),
    ensures
        n < s.len() ==> first_index_of(s, item) == Some(n),
        n == s.len() ==> first_index_of(s, item) is None,
{
    if n < s.len() {
        assert(exists|i: int| 0 <= i < s.len() && s[i].eq_spec(&item));
        let i = choose|i: int| 0 <= i < s.len() && s[i].eq_spec(&item) && forall|k: int| 0 <= k < i ==> !s[k].eq_spec(&item);
        assert(0 <= n < s.len() && s[n].eq_spec(&item) && forall|k: int| 0 <= k < n ==> !s[k].eq_spec(&item));
        if i < n {
            assert(!s[i].eq_spec(&item));
        }
        if i > n {
            assert(!s[n].eq_spec(&item));
        }
    }
}

impl<T: Clone + PartialEq + Default> CircularList<T> {
    /// The ring is well formed and has room to grow.
    pub closed spec fn wf(&self) -> bool {
        &&& self.inner.wf()
        &&& self.inner.cap() > 0
    }

    /// An empty list.
    pub fn new() -> (r: CircularList<T>)
        ensures
            r.wf(),
            r@ == Seq::<T>::empty(),
    {
        let r = CircularList { inner: CircularArray::new(16) };
        assert(r@ =~= Seq::<T>::empty());
        r
    }

    pub fn len(&self) -> (r: usize)
        ensures
            r == self@.len(),
    {
        self.inner.len
    }

    pub fn is_empty(&self) -> (r: bool)
        ensures
            r == (self@.len() == 0),
    {
        self.inner.len == 0
    }

    /// The element at `index`.
    pub fn get(&self, index: usize) -> (r: &T)
        requires
            self.wf(),
            index < self@.len(),
        ensures
            *r == self@[index as int],
    {
        self.inner.get(index)
    }

    /// Replaces the element at `index`.
    pub fn set(&mut self, index: usize, value: T)
        requires
            old(self).wf(),
            index < old(self)@.len(),
        ensures
            final(self).wf(),
            final(self)@ == old(self)@.update(index as int, value),
    {
        self.inner.set(index, value);
        assert(self@ =~= old(self)@.update(index as int, value));
    }

    /// Position of the first element equal to `item`.
    pub fn index_of(&self, item: &T) -> (r: Option<usize>)
        requires
            self.wf(),
        ensures
            T::obeys_eq_spec() ==> match r {
                Some(i) => first_index_of(self@, *item) == Some(i as int),
                None => first_index_of(self@, *item) is None,
            },
            r matches Some(i) ==> i < self@.len(),
            T::obeys_eq_spec() ==> (r matches Some(i) ==> self@[i as int].eq_spec(item)
                && forall|k: int| 0 <= k < i ==> !#[trigger] self@[k].eq_spec(item)),
            T::obeys_eq_spec() ==> (r is None ==> forall|k: int| 0 <= k < self@.len() ==> !#[trigger] self@[k].eq_spec(item)),
    {
        let n = self.inner.len;
        let mut i: usize = 0;
        while i < n
            invariant
                self.wf(),
                n == self@.len(),
                0 <= i <= n,
                T::obeys_eq_spec() ==> forall|k: int| 0 <= k < i ==> !#[trigger] self@[k].eq_spec(item),
            decreases n - i,
        {
            if *self.inner.get(i) == *item {
                proof {
                    if T::obeys_eq_spec() {
                        lemma_first_index(self@, *item, i as int);
                    }
                }
                return Some(i);
            }
            i = i + 1;
        }
        proof {
            if T::obeys_eq_spec() {
                lemma_first_index(self@, *item, n as int);
            }
        }
        None
    }

    /// Inserts `item` at `index`, shifting the following elements back.
    pub fn insert(&mut self, index: usize, item: T)
        requires
            old(self).wf(),
            index <= old(self)@.len(),
            old(self)@.len() < usize::MAX / 2,
        ensures
            final(self).wf(),
            final(self)@ == old(self)@.insert(index as int, item),
    {
        let ghost s0 = self@;
        self.inner.insert(index, 1);
        let ghost s1 = self@;
        self.inner.set(index, item);
        proof {
            assert(s1.subrange(0, index as int) == s0.subrange(0, index as int));
            assert(s1.subrange(index + 1, s1.len() as int) == s0.subrange(index as int, s0.len() as int));
            assert forall|k: int| 0 <= k < self@.len() implies #[trigger] self@[k] == s0.insert(index as int, item)[k] by {
                if k < index {
                    assert(s1.subrange(0, index as int)[k] == s0.subrange(0, index as int)[k]);
                } else if k > index {
                    assert(s1.subrange(index + 1, s1.len() as int)[k - index - 1] == s0.subrange(index as int, s0.len() as int)[k - index - 1]);
                }
            }
            assert(self@ =~= s0.insert(index as int, item));
        }
    }

    /// Removes the element at `index`.
    pub fn remove_at(&mut self, index: usize)
        requires
            old(self).wf(),
            index < old(self)@.len(),
        ensures
            final(self).wf(),
            final(self)@ == old(self)@.remove(index as int),
    {
        let ghost s0 = self@;
        self.inner.remove(index, 1);
        assert(self@ =~= s0.remove(index as int));
    }

    /// Appends `item` at the end.
    pub fn add(&mut self, item: T)
        requires
            old(self).wf(),
            old(self)@.len() < usize::MAX / 2,
        ensures
            final(self).wf(),
            final(self)@ == old(self)@.push(item),
    {
        let n = self.inner.len;
        self.insert(n, item);
        assert(old(self)@.insert(n as int, item) =~= old(self)@.push(item));
    }

    /// Removes every element.
    pub fn clear(&mut self)
        requires
            old(self).wf(),
        ensures
            final(self).wf(),
            final(self)@ == Seq::<T>::empty(),
    {
        let n = self.inner.len;
        if n > 0 {
            self.inner.remove(0, n);
        }
        assert(self@ =~= Seq::<T>::empty());
    }

    /// Whether some element equals `item`.
    pub fn contains(&self, item: &T) -> (r: bool)
        requires
            self.wf(),
        ensures
            T::obeys_eq_spec() ==> r == (first_index_of(self@, *item) is Some),
    {
        self.index_of(item).is_some()
    }

    /// Removes the first element equal to `item`; tells whether one was found.
    pub fn remove(&mut self, item: &T) -> (r: bool)
        requires
            old(self).wf(),
        ensures
            final(self).wf(),
            T::obeys_eq_spec() ==> match first_index_of(old(self)@, *item) {
                Some(i) => r && final(self)@ == old(self)@.remove(i),
                None => !r && final(self)@ == old(self)@,
            },
    {
        match self.index_of(item) {
            Some(index) => {
                self.remove_at(index);
                true
            },
            None => false,
        }
    }

    /// Appends `item` at the end.
    pub fn push_back(&mut self, item: T)
        requires
            old(self).wf(),
            old(self)@.len() < usize::MAX / 2,
        ensures
            final(self).wf(),
            final(self)@ == old(self)@.push(item),
    {
        self.add(item);
    }

    /// Inserts `item` at the front.
    pub fn push_front(&mut self, item: T)
        requires
            old(self).wf(),
            old(self)@.len() < usize::MAX / 2,
        ensures
            final(self).wf(),
            final(self)@ == old(self)@.insert(0, item),
    {
        self.insert(0, item);
    }

    /// Removes and returns the first element.
    pub fn pop_front(&mut self) -> (r: Option<T>)
        requires
            old(self).wf(),
        ensures
            final(self).wf(),
            old(self)@.len() == 0 ==> r is None && final(self)@ == old(self)@,
            old(self)@.len() > 0 ==> r == Some(old(self)@[0]) && final(self)@ == old(self)@.drop_first(),
    {
        if self.inner.len == 0 {
            return None;
        }
        let ghost s0 = self@;
        let value = self.inner.take(0);
        self.inner.remove(0, 1);
        assert(self@ =~= s0.drop_first());
        Some(value)
    }

    /// Removes and returns the last element.
    pub fn pop_back(&mut self) -> (r: Option<T>)
        requires
            old(self).wf(),
        ensures
            final(self).wf(),
            old(self)@.len() == 0 ==> r is None && final(self)@ == old(self)@,
            old(self)@.len() > 0 ==> r == Some(old(self)@.last()) && final(self)@ == old(self)@.drop_last(),
    {
        if self.inner.len == 0 {
            return None;
        }
        let ghost s0 = self@;
        let index = self.inner.len - 1;
        let value = self.inner.take(index);
        self.inner.remove(index, 1);
        assert(self@ =~= s0.drop_last());
        Some(value)
    }
}

impl<T: Clone + PartialEq + Default> Default for CircularList<T> {
    fn default() -> (r: CircularList<T>)
        ensures
            r.wf(),
            r@ == Seq::<T>::empty(),
    {
        CircularList::new()
    }
}


/// Inserting an item at a position puts it there, and removing the item at
/// that position afterwards gives back the list.
pub proof fn law_insert_then_remove_at<T>(list: Seq<T>, index: int, item: T)
    requires
        0 <= index <= list.len(),
    ensures
        list.insert(index, item)[index] == item,
        list.insert(index, item).remove(index) == list,
{
    assert(list.insert(index, item).remove(index) =~= list);
}

/// Popping from the front right after pushing to the front gives back the
/// item and the list.
pub proof fn law_push_front_then_pop_front<T>(list: Seq<T>, item: T)
    ensures
        list.insert(0, item).len() > 0,
        list.insert(0, item)[0] == item,
        list.insert(0, item).drop_first() == list,
{
    assert(list.insert(0, item).drop_first() =~= list);
}

/// Popping from the back right after pushing to the back gives back the
/// item and the list.
pub proof fn law_push_back_then_pop_back<T>(list: Seq<T>, item: T)
    ensures
        list.push(item).len() > 0,
        list.push(item).last() == item,
        list.push(item).drop_last() == list,
{
    assert(list.push(item).drop_last() =~= list);
}

} // verus!
