//! Slot storage that owns the nodes of a list. Links between nodes are slot
//! indices; a removed node's slot goes on a free list and is handed out again.
use vstd::prelude::*;

verus! {

/// Owns values in numbered slots. An empty slot holds `None`.
#[derive(Clone)]
pub struct Arena<T> {
    slots: Vec<Option<T>>,
    free: Vec<usize>,
}

impl<T> View for Arena<T> {
    type V = Seq<Option<T>>;

    closed spec fn view(&self) -> Seq<Option<T>> {
        self.slots@
    }
}

impl<T> Arena<T> {
    /// Number of slots that are not waiting on the free list.
    pub closed spec fn in_use(&self) -> int {
        self.slots@.len() - self.free@.len()
    }

    /// Every slot on the free list exists, is empty and is listed once.
    pub closed spec fn wf(&self) -> bool {
        &&& forall|j: int|
            0 <= j < self.free@.len() ==> {
                &&& #[trigger] self.free@[j] < self.slots@.len()
                &&& self.slots@[self.free@[j] as int] is None
            }
        &&& forall|i: int, j: int|
            0 <= i < j < self.free@.len() ==> self.free@[i] != self.free@[j]
    }

    pub fn new() -> (a: Self)
        ensures
            a.wf(),
            a@ == Seq::<Option<T>>::empty(),
            a.in_use() == 0,
    {
        Arena { slots: Vec::new(), free: Vec::new() }
    }

    /// Stores `value` in an empty slot, reusing a freed one when there is
    /// one, and returns the slot's index.
    pub fn insert(&mut self, value: T) -> (k: usize)
        requires
            old(self).wf(),
        ensures
            final(self).wf(),
            k <= old(self)@.len(),
            k < old(self)@.len() ==> old(self)@[k as int] is None,
            k == old(self)@.len() ==> final(self)@.len() == old(self)@.len() + 1,
            k < old(self)@.len() ==> final(self)@.len() == old(self)@.len(),
            final(self)@.len() <= usize::MAX,
            final(self)@[k as int] == Some(value),
            forall|i: int|
                0 <= i < old(self)@.len() && i != k ==> final(self)@[i] == old(self)@[i],
            final(self).in_use() == old(self).in_use() + 1,
            final(self).in_use() <= final(self)@.len(),
    {
        match self.free.pop() {
            Some(k) => {
                proof {
                    assert(old(self).free@[old(self).free@.len() - 1] == k);
                }
                self.slots.set(k, Some(value));
                proof {
                    assert forall|j: int| 0 <= j < self.free@.len() implies {
                        &&& #[trigger] self.free@[j] < self.slots@.len()
                        &&& self.slots@[self.free@[j] as int] is None
                    } by {
                        assert(old(self).free@[j] == self.free@[j]);
                    }
                }
                // reading the length shows that it fits in a usize
                let _n = self.slots.len();
                k
            },
            None => {
                let k = self.slots.len();
                self.slots.push(Some(value));
                let _n = self.slots.len();
                k
            },
        }
    }

    /// Takes the value out of slot `k` and puts the slot on the free list.
    pub fn remove(&mut self, k: usize) -> (value: T)
        requires
            old(self).wf(),
            k < old(self)@.len(),
            old(self)@[k as int] is Some,
        ensures
            final(self).wf(),
            value == old(self)@[k as int].unwrap(),
            final(self)@ == old(self)@.update(k as int, None),
            final(self).in_use() == old(self).in_use() - 1,
    {
        let mut taken: Option<T> = None;
        self.slots.set_and_swap(k, &mut taken);
        self.free.push(k);
        taken.unwrap()
    }

    /// The value held in slot `k`.
    pub fn get(&self, k: usize) -> (value: &T)
        requires
            k < self@.len(),
            self@[k as int] is Some,
        ensures
            *value == self@[k as int].unwrap(),
    {
        self.slots[k].as_ref().unwrap()
    }

    /// Mutable access to the value held in slot `k`; the slot stays filled.
    pub fn get_mut(&mut self, k: usize) -> (value: &mut T)
        requires
            k < old(self)@.len(),
            old(self)@[k as int] is Some,
        ensures
            *value == old(self)@[k as int].unwrap(),
            final(self)@ == old(self)@.update(k as int, Some(*final(value))),
            final(self).in_use() == old(self).in_use(),
            old(self).wf() ==> final(self).wf(),
    {
        self.slots[k].as_mut().unwrap()
    }
}

} // verus!
