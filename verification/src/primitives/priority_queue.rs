use vstd::prelude::*;
use vstd::multiset::Multiset;

verus! {

broadcast use {
    vstd::seq_lib::group_to_multiset_ensures,
    vstd::multiset::group_multiset_axioms,
    vstd::multiset::group_multiset_properties,
};

/// Values that a priority queue can order: `precedes` is "strictly before" by rank.
pub trait HeapOrder: Sized {
    /// The rank by which values are ordered.
    spec fn rank(&self) -> int;

    /// Whether `self` strictly precedes `other`.
    fn precedes(&self, other: &Self) -> (r: bool)
        ensures
            r == (self.rank() < other.rank()),
    ;
}

impl HeapOrder for i32 {
    open spec fn rank(&self) -> int {
        *self as int
    }

    fn precedes(&self, other: &Self) -> (r: bool) {
        *self < *other
    }
}

impl HeapOrder for i64 {
    open spec fn rank(&self) -> int {
        *self as int
    }

    fn precedes(&self, other: &Self) -> (r: bool) {
        *self < *other
    }
}

impl HeapOrder for u32 {
    open spec fn rank(&self) -> int {
        *self as int
    }

    fn precedes(&self, other: &Self) -> (r: bool) {
        *self < *other
    }
}

impl HeapOrder for usize {
    open spec fn rank(&self) -> int {
        *self as int
    }

    fn precedes(&self, other: &Self) -> (r: bool) {
        *self < *other
    }
}

/// Index of the parent of heap position `i > 0`.
pub open spec fn heap_parent(i: int) -> int {
    (i - 1) / 2
}

/// Every element ranks no lower than its parent.
pub open spec fn heap_ordered<T: HeapOrder>(s: Seq<T>) -> bool {
    forall|i: int| 0 < i < s.len() ==> (#[trigger] s[heap_parent(i)]).rank() <= s[i].rank()
}

/// Heap order everywhere except between `k` and its parent; the parent of `k`
/// still ranks no higher than the children of `k`.
pub open spec fn heap_ordered_except_up<T: HeapOrder>(s: Seq<T>, k: int) -> bool {
    &&& forall|i: int| 0 < i < s.len() && i != k ==> (#[trigger] s[heap_parent(i)]).rank() <= s[i].rank()
    &&& k > 0 ==> forall|c: int| 0 < c < s.len() && heap_parent(c) == k ==> s[heap_parent(k)].rank() <= (#[trigger] s[c]).rank()
}

/// Heap order everywhere except between `k` and its children; the parent of
/// `k` still ranks no higher than the children of `k`.
pub open spec fn heap_ordered_except_down<T: HeapOrder>(s: Seq<T>, k: int) -> bool {
    &&& forall|i: int| 0 < i < s.len() && heap_parent(i) != k ==> (#[trigger] s[heap_parent(i)]).rank() <= s[i].rank()
    &&& k > 0 ==> forall|c: int| 0 < c < s.len() && heap_parent(c) == k ==> s[heap_parent(k)].rank() <= (#[trigger] s[c]).rank()
}

/// The root of a heap ranks no higher than any element.
proof fn lemma_root_min<T: HeapOrder>(s: Seq<T>, i: int)
    requires
        heap_ordered(s),
        0 <= i < s.len(),
    ensures
        s[0].rank() <= s[i].rank(),
    decreases i,
{
    if i > 0 {
        assert(s[heap_parent(i)].rank() <= s[i].rank());
        lemma_root_min(s, heap_parent(i));
    }
}

/// Swapping two positions keeps the same elements.
proof fn lemma_swap_multiset<T>(s: Seq<T>, i: int, j: int)
    requires
        0 <= i < s.len(),
        0 <= j < s.len(),
    ensures
        s.update(i, s[j]).update(j, s[i]).to_multiset() == s.to_multiset(),
{
    let s1 = s.update(i, s[j]);
    assert(s1.to_multiset() == s.to_multiset().insert(s[j]).remove(s[i]));
    assert(s1.update(j, s[i]).to_multiset() == s1.to_multiset().insert(s[i]).remove(s1[j]));
    if i == j {
        assert(s1.update(j, s[i]) =~= s);
    } else {
        assert(s1[j] == s[j]);
        assert(s.to_multiset().insert(s[j]).remove(s[i]).insert(s[i]).remove(s[j]) =~= s.to_multiset());
    }
}

/// A binary min-heap: `pop` returns an element of least rank.
pub struct PriorityQueue<T: Default + HeapOrder> {
    heap: Vec<T>,
    size: usize,
}

impl<T: Default + HeapOrder> PriorityQueue<T> {
    /// The size field matches the storage and the storage is heap ordered.
    pub closed spec fn wf(&self) -> bool {
        &&& self.size == self.heap@.len()
        &&& self.size <= usize::MAX / 2
        &&& heap_ordered(self.heap@)
    }

    /// The queued elements.
    pub closed spec fn contents(&self) -> Multiset<T> {
        self.heap@.to_multiset()
    }

    /// An empty queue.
    pub fn new() -> (r: PriorityQueue<T>)
        ensures
            r.wf(),
            r.contents() == Multiset::<T>::empty(),
    {
        let r = PriorityQueue { heap: Vec::new(), size: 0 };
        assert(r.heap@ =~= Seq::<T>::empty());
        r
    }

    pub fn len(&self) -> (r: usize)
        requires
            self.wf(),
        ensures
            r == self.contents().len(),
    {
        self.size
    }

    pub fn is_empty(&self) -> (r: bool)
        requires
            self.wf(),
        ensures
            r == (self.contents().len() == 0),
    {
        self.size == 0
    }

    /// Removes every element.
    pub fn clear(&mut self)
        requires
            old(self).wf(),
        ensures
            final(self).wf(),
            final(self).contents() == Multiset::<T>::empty(),
    {
        self.heap.truncate(0);
        self.size = 0;
        assert(self.heap@ =~= Seq::<T>::empty());
    }

    /// Exchanges the elements at heap positions `i` and `j`.
    fn swap(&mut self, i: usize, j: usize)
        requires
            i < old(self).heap@.len(),
            j < old(self).heap@.len(),
            i != j,
        ensures
            final(self).size == old(self).size,
            final(self).heap@ == old(self).heap@.update(i as int, old(self).heap@[j as int]).update(j as int, old(self).heap@[i as int]),
    {
        let mut tmp = T::default();
        std::mem::swap(&mut self.heap[i], &mut tmp);
        std::mem::swap(&mut self.heap[j], &mut tmp);
        std::mem::swap(&mut self.heap[i], &mut tmp);
        assert(self.heap@ =~= old(self).heap@.update(i as int, old(self).heap@[j as int]).update(j as int, old(self).heap@[i as int]));
    }

    /// Adds `item`.
    pub fn add(&mut self, item: T)
        requires
            old(self).wf(),
            old(self).contents().len() < usize::MAX / 2,
        ensures
            final(self).wf(),
            final(self).contents() == old(self).contents().insert(item),
    {
        self.heap.push(item);
        self.size = self.size + 1;
        proof {
            assert(heap_ordered_except_up(self.heap@, self.size - 1));
        }
        self.bubble_up(self.size - 1);
    }

    /// Same as `add`.
    pub fn push(&mut self, item: T)
        requires
            old(self).wf(),
            old(self).contents().len() < usize::MAX / 2,
        ensures
            final(self).wf(),
            final(self).contents() == old(self).contents().insert(item),
    {
        self.add(item);
    }

    /// An element of least rank.
    pub fn peek(&self) -> (r: &T)
        requires
            self.wf(),
            self.contents().len() > 0,
        ensures
            self.contents().contains(*r),
            forall|x: T| self.contents().contains(x) ==> r.rank() <= x.rank(),
    {
        proof {
            assert forall|x: T| self.contents().contains(x) implies self.heap@[0].rank() <= x.rank() by {
                let i = choose|i: int| 0 <= i < self.heap@.len() && self.heap@[i] == x;
                lemma_root_min(self.heap@, i);
            }
            assert(self.heap@.contains(self.heap@[0]));
        }
        &self.heap[0]
    }

    /// Removes and returns an element of least rank.
    pub fn pop(&mut self) -> (r: T)
        requires
            old(self).wf(),
            old(self).contents().len() > 0,
        ensures
            final(self).wf(),
            old(self).contents().contains(r),
            forall|x: T| old(self).contents().contains(x) ==> r.rank() <= x.rank(),
            final(self).contents() == old(self).contents().remove(r),
    {
        let ghost s0 = self.heap@;
        proof {
            assert forall|x: T| old(self).contents().contains(x) implies s0[0].rank() <= x.rank() by {
                let i = choose|i: int| 0 <= i < s0.len() && s0[i] == x;
                lemma_root_min(s0, i);
            }
            assert(s0.contains(s0[0]));
        }
        let mut result = T::default();
        std::mem::swap(&mut self.heap[0], &mut result);
        self.size = self.size - 1;
        if self.size > 0 {
            let last = self.size;
            let mut moved = T::default();
            std::mem::swap(&mut self.heap[last], &mut moved);
            self.heap.set(0, moved);
            self.heap.truncate(last);
            proof {
                let s3 = self.heap@;
                assert(s3 =~= s0.update(0, s0[last as int]).drop_last());
                let s1 = s0.update(0, s0[last as int]);
                assert(s1.drop_last() =~= s1.remove(last as int));
                assert(s3.to_multiset() =~= s0.to_multiset().remove(s0[0]));
                assert(heap_ordered_except_down(s3, 0));
            }
            self.bubble_down();
        } else {
            self.heap.truncate(0);
            proof {
                assert(self.heap@ =~= Seq::<T>::empty());
                assert(s0 =~= seq![s0[0]]);
                assert(s0.to_multiset() =~= Multiset::<T>::empty().insert(s0[0]));
            }
        }
        result
    }

    /// Same as `pop`.
    pub fn remove(&mut self) -> (r: T)
        requires
            old(self).wf(),
            old(self).contents().len() > 0,
        ensures
            final(self).wf(),
            old(self).contents().contains(r),
            forall|x: T| old(self).contents().contains(x) ==> r.rank() <= x.rank(),
            final(self).contents() == old(self).contents().remove(r),
    {
        self.pop()
    }

    fn bubble_up(&mut self, bottom: usize)
        requires
            old(self).size == old(self).heap@.len(),
            old(self).size <= usize::MAX / 2,
            bottom < old(self).heap@.len(),
            heap_ordered_except_up(old(self).heap@, bottom as int),
        ensures
            final(self).wf(),
            final(self).contents() == old(self).contents(),
    {
        let mut bottom = bottom;
        while bottom > 0
            invariant
                self.size == self.heap@.len(),
                self.size <= usize::MAX / 2,
                bottom < self.heap@.len(),
                heap_ordered_except_up(self.heap@, bottom as int),
                self.heap@.to_multiset() == old(self).heap@.to_multiset(),
            ensures
                self.size == self.heap@.len(),
                self.size <= usize::MAX / 2,
                heap_ordered(self.heap@),
                self.heap@.to_multiset() == old(self).heap@.to_multiset(),
            decreases bottom,
        {
            let parent = (bottom - 1) / 2;
            if self.heap[parent].precedes(&self.heap[bottom]) {
                proof {
                    let s = self.heap@;
                    assert forall|i: int| 0 < i < s.len() implies (#[trigger] s[heap_parent(i)]).rank() <= s[i].rank() by {
                        if i == bottom {
                            assert(heap_parent(i) == parent);
                        }
                    }
                }
                break;
            }
            let ghost s = self.heap@;
            self.swap(parent, bottom);
            proof {
                lemma_swap_multiset(s, parent as int, bottom as int);
                let s2 = self.heap@;
                assert forall|i: int| 0 < i < s2.len() && i != parent implies (#[trigger] s2[heap_parent(i)]).rank() <= s2[i].rank() by {
                    if heap_parent(i) == parent && i != bottom {
                        assert(s[heap_parent(i)].rank() <= s[i].rank());
                    }
                    if heap_parent(i) == bottom {
                        assert(s[heap_parent(bottom as int)].rank() <= s[i].rank());
                    }
                }
                if parent > 0 {
                    assert forall|c: int| 0 < c < s2.len() && heap_parent(c) == parent implies s2[heap_parent(parent as int)].rank() <= (#[trigger] s2[c]).rank() by {
                        assert(s[heap_parent(parent as int)].rank() <= s[parent as int].rank());
                        if c != bottom {
                            assert(s[heap_parent(c)].rank() <= s[c].rank());
                        }
                    }
                }
            }
            bottom = parent;
        }
        proof {
            let s = self.heap@;
            assert forall|i: int| 0 < i < s.len() implies (#[trigger] s[heap_parent(i)]).rank() <= s[i].rank() by {
                if bottom != 0 {
                    assert(heap_ordered(s));
                }
            }
        }
    }

    fn bubble_down(&mut self)
        requires
            old(self).size == old(self).heap@.len(),
            0 < old(self).size <= usize::MAX / 2,
            heap_ordered_except_down(old(self).heap@, 0),
        ensures
            final(self).wf(),
            final(self).contents() == old(self).contents(),
    {
        let mut parent: usize = 0;
        loop
            invariant
                self.size == self.heap@.len(),
                self.size <= usize::MAX / 2,
                parent < self.size,
                heap_ordered_except_down(self.heap@, parent as int),
                self.heap@.to_multiset() == old(self).heap@.to_multiset(),
            ensures
                self.size == self.heap@.len(),
                self.size <= usize::MAX / 2,
                heap_ordered(self.heap@),
                self.heap@.to_multiset() == old(self).heap@.to_multiset(),
            decreases self.size - parent,
        {
            let left = 2 * parent + 1;
            let right = 2 * parent + 2;
            if left >= self.size {
                proof {
                    assert forall|i: int| 0 < i < self.heap@.len() implies (#[trigger] self.heap@[heap_parent(i)]).rank() <= self.heap@[i].rank() by {
                        if heap_parent(i) == parent {
                            assert(i >= 2 * parent + 1);
                        }
                    }
                }
                break;
            }
            let mut child = left;
            if right < self.size && self.heap[right].precedes(&self.heap[left]) {
                child = right;
            }
            if self.heap[parent].precedes(&self.heap[child]) {
                proof {
                    let s = self.heap@;
                    assert forall|i: int| 0 < i < s.len() implies (#[trigger] s[heap_parent(i)]).rank() <= s[i].rank() by {
                        if heap_parent(i) == parent {
                            assert(i == left || i == right);
                        }
                    }
                }
                break;
            }
            let ghost s = self.heap@;
            self.swap(parent, child);
            proof {
                lemma_swap_multiset(s, parent as int, child as int);
                let s2 = self.heap@;
                assert forall|i: int| 0 < i < s2.len() && heap_parent(i) != child implies (#[trigger] s2[heap_parent(i)]).rank() <= s2[i].rank() by {
                    if heap_parent(i) == parent {
                        assert(i == left || i == right);
                    }
                    if i == parent {
                        assert(s[heap_parent(parent as int)].rank() <= s[child as int].rank());
                    }
                }
                assert forall|c: int| 0 < c < s2.len() && heap_parent(c) == child implies s2[heap_parent(child as int)].rank() <= (#[trigger] s2[c]).rank() by {
                    assert(s[heap_parent(c)].rank() <= s[c].rank());
                }
            }
            parent = child;
        }
    }
}

impl<T: Default + HeapOrder> Default for PriorityQueue<T> {
    fn default() -> (r: PriorityQueue<T>)
        ensures
            r.wf(),
            r.contents() == Multiset::<T>::empty(),
    {
        PriorityQueue::new()
    }
}


/// Two successive pops come out in order: the first popped element ranks no
/// higher than the second, whatever the queue held.
pub proof fn law_pops_in_order<T: HeapOrder>(contents: Multiset<T>, first: T, second: T)
    requires
        contents.contains(first),
        forall|x: T| contents.contains(x) ==> first.rank() <= x.rank(),
        contents.remove(first).contains(second),
    ensures
        first.rank() <= second.rank(),
{
    assert(contents.contains(second));
}

/// `order` is what popping `contents` one element at a time can give: each
/// element is a lowest-ranked one of what is left, which loses one copy of it.
pub open spec fn pop_sequence<T: HeapOrder>(contents: Multiset<T>, order: Seq<T>) -> bool
    decreases order.len(),
{
    if order.len() == 0 {
        true
    } else {
        &&& contents.contains(order[0])
        &&& forall|x: T| contents.contains(x) ==> order[0].rank() <= x.rank()
        &&& pop_sequence(contents.remove(order[0]), order.drop_first())
    }
}

/// Popping a queue until it is empty yields exactly its contents, lowest rank
/// first: the pops hold each element as often as the queue did, in an order
/// of nondecreasing rank.
pub proof fn law_pops_until_empty<T: HeapOrder>(contents: Multiset<T>, order: Seq<T>)
    requires
        pop_sequence(contents, order),
        order.len() == contents.len(),
    ensures
        order.to_multiset() == contents,
        forall|i: int, j: int| 0 <= i < j < order.len() ==> (#[trigger] order[i]).rank() <= (#[trigger] order[j]).rank(),
    decreases order.len(),
{
    broadcast use vstd::seq_lib::group_to_multiset_ensures;
    broadcast use vstd::multiset::group_multiset_axioms;
    if order.len() == 0 {
        assert(contents =~= Multiset::<T>::empty());
        assert(order.to_multiset() =~= Multiset::<T>::empty());
    } else {
        let first = order[0];
        let rest = order.drop_first();
        let left = contents.remove(first);
        assert(left.len() == contents.len() - 1);
        law_pops_until_empty(left, rest);
        assert(order.remove(0) =~= rest);
        assert(order.to_multiset().remove(first) == rest.to_multiset());
        assert(order.to_multiset() =~= contents) by {
            assert forall|x: T| #[trigger] order.to_multiset().count(x) == contents.count(x) by {
                assert(order.to_multiset().remove(first).count(x) == contents.remove(first).count(x));
                if x == first {
                    assert(order[0] == first);
                    assert(order.contains(first));
                    assert(order.to_multiset().count(first) > 0);
                }
            }
        }
        assert forall|i: int, j: int| 0 <= i < j < order.len() implies (#[trigger] order[i]).rank() <= (#[trigger] order[j]).rank() by {
            if i == 0 {
                assert(order[j] == rest[j - 1]);
                assert(rest.contains(order[j]));
                assert(rest.to_multiset().count(order[j]) > 0);
                assert(contents.contains(order[j]));
            } else {
                assert(order[i] == rest[i - 1]);
                assert(order[j] == rest[j - 1]);
            }
        }
    }
}

} // verus!
