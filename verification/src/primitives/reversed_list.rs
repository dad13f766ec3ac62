use vstd::prelude::*;
use vstd::std_specs::cmp::PartialEqSpec;
use crate::primitives::circular_list::{CircularList, first_index_of};

verus! {

/// A list kept in reverse order inside a circular list: position `n` of this
/// list is position `len - n - 1` of the inner one, and adding an element
/// puts it at the front of the inner list.
pub struct ReversedList<T: Clone + PartialEq + Default> {
    inner: CircularList<T>,
}

impl<T: Clone + PartialEq + Default> View for ReversedList<T> {
    type V = Seq<T>;

    closed spec fn view(&self) -> Seq<T> {
        self.inner@.reverse()
    }
}

impl<T: Clone + PartialEq + Default> ReversedList<T> {
    /// The inner list is well formed.
    pub closed spec fn wf(&self) -> bool {
        self.inner.wf()
    }

    /// An empty list.
    pub fn new() -> (r: ReversedList<T>)
        ensures
            r.wf(),
            r@ == Seq::<T>::empty(),
    {
        let r = ReversedList { inner: CircularList::new() };
        assert(r@ =~= Seq::<T>::empty());
        r
    }

    pub fn len(&self) -> (r: usize)
        ensures
            r == self@.len(),
    {
        self.inner.len()
    }

    pub fn is_empty(&self) -> (r: bool)
        ensures
            r == (self@.len() == 0),
    {
        self.inner.is_empty()
    }

    /// The element at `index`.
    pub fn get(&self, index: usize) -> (r: &T)
        requires
            self.wf(),
            index < self@.len(),
        ensures
            *r == self@[index as int],
    {
        let n = self.inner.len();
        self.inner.get(n - 1 - index)
    }

    /// Replaces the element at `index`.
    pub fn set(&mut self, index: usize, value: T)
        requires
            old(self).wf(),
            index < old(self)@.len(),
        ensures
            final(self).wf(),
            final(self)@ == old(self)@.update(index as int, value),
    {
        let n = self.inner.len();
        self.inner.set(n - 1 - index, value);
        assert(self@ =~= old(self)@.update(index as int, value));
    }

    /// Position of the first element equal to `item`.
    pub fn index_of(&self, item: &T) -> (r: Option<usize>)
        requires
            self.wf(),
        ensures
            T::obeys_eq_spec() ==> match r {
                Some(i) => first_index_of(self@, *item) == Some(i as int),
                None => first_index_of(self@, *item) is None,
            },
            r matches Some(i) ==> i < self@.len(),
            T::obeys_eq_spec() ==> (r matches Some(i) ==> self@[i as int].eq_spec(item)
                && forall|k: int| 0 <= k < i ==> !#[trigger] self@[k].eq_spec(item)),
            T::obeys_eq_spec() ==> (r is None ==> forall|k: int| 0 <= k < self@.len() ==> !#[trigger] self@[k].eq_spec(item)),
    {
        let n = self.inner.len();
        let mut i: usize = 0;
        while i < n
            invariant
                self.wf(),
                n == self@.len(),
                0 <= i <= n,
                T::obeys_eq_spec() ==> forall|k: int| 0 <= k < i ==> !#[trigger] self@[k].eq_spec(item),
            decreases n - i,
        {
            if *self.inner.get(n - 1 - i) == *item {
                proof {
                    if T::obeys_eq_spec() {
                        crate::primitives::circular_list::lemma_first_index(self@, *item, i as int);
                    }
                }
                return Some(i);
            }
            i = i + 1;
        }
        proof {
            if T::obeys_eq_spec() {
                crate::primitives::circular_list::lemma_first_index(self@, *item, n as int);
            }
        }
        None
    }

    /// Inserts `item` at `index`.
    pub fn insert(&mut self, index: usize, item: T)
        requires
            old(self).wf(),
            index <= old(self)@.len(),
            old(self)@.len() < usize::MAX / 2,
        ensures
            final(self).wf(),
            final(self)@ == old(self)@.insert(index as int, item),
    {
        let n = self.inner.len();
        self.inner.insert(n - index, item);
        assert(self@ =~= old(self)@.insert(index as int, item));
    }

    /// Removes the element at `index`.
    pub fn remove_at(&mut self, index: usize)
        requires
            old(self).wf(),
            index < old(self)@.len(),
        ensures
            final(self).wf(),
            final(self)@ == old(self)@.remove(index as int),
    {
        let n = self.inner.len();
        self.inner.remove_at(n - 1 - index);
        assert(self@ =~= old(self)@.remove(index as int));
    }

    /// Appends `item` at the end (the front of the inner list).
    pub fn add(&mut self, item: T)
        requires
            old(self).wf(),
            old(self)@.len() < usize::MAX / 2,
        ensures
            final(self).wf(),
            final(self)@ == old(self)@.push(item),
    {
        self.inner.insert(0, item);
        assert(self@ =~= old(self)@.push(item));
    }

    /// Removes every element.
    pub fn clear(&mut self)
        requires
            old(self).wf(),
        ensures
            final(self).wf(),
            final(self)@ == Seq::<T>::empty(),
    {
        self.inner.clear();
        assert(self@ =~= Seq::<T>::empty());
    }

    /// Whether some element equals `item`.
    pub fn contains(&self, item: &T) -> (r: bool)
        requires
            self.wf(),
        ensures
            T::obeys_eq_spec() ==> r == (first_index_of(self@, *item) is Some),
    {
        self.index_of(item).is_some()
    }

    /// Removes the first element equal to `item`; tells whether one was found.
    pub fn remove(&mut self, item: &T) -> (r: bool)
        requires
            old(self).wf(),
        ensures
            final(self).wf(),
            T::obeys_eq_spec() ==> match first_index_of(old(self)@, *item) {
                Some(i) => r && final(self)@ == old(self)@.remove(i),
                None => !r && final(self)@ == old(self)@,
            },
    {
        match self.index_of(item) {
            Some(index) => {
                self.remove_at(index);
                true
            },
            None => false,
        }
    }
}

impl<T: Clone + PartialEq + Default> Default for ReversedList<T> {
    fn default() -> (r: ReversedList<T>)
        ensures
            r.wf(),
            r@ == Seq::<T>::empty(),
    {
        ReversedList::new()
    }
}


/// The reversed view turns prepending to the inner list into appending:
/// the reverse of `inner` with `item` inserted in front is the reverse of
/// `inner` with `item` pushed at the end.
pub proof fn law_prepend_is_append_in_view<T>(inner: Seq<T>, item: T)
    ensures
        inner.insert(0, item).reverse() == inner.reverse().push(item),
{
    assert(inner.insert(0, item).reverse() =~= inner.reverse().push(item));
}

/// Inserting at reversed position `index` is inserting at `len - index` in
/// the inner list.
pub proof fn law_reversed_insert<T>(inner: Seq<T>, index: int, item: T)
    requires
        0 <= index <= inner.len(),
    ensures
        inner.insert(inner.len() - index, item).reverse() == inner.reverse().insert(index, item),
{
    assert(inner.insert(inner.len() - index, item).reverse() =~= inner.reverse().insert(index, item));
}

} // verus!
