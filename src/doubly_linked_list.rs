//! A doubly-linked log: append at the tail, pop at the head, and cursors that
//! walk forward along `next` links or backward along `prev` links.
use vstd::prelude::*;
use crate::arena::Arena;
use crate::log_model::{after_pop, popped};

verus! {

/// One entry with the slots of its neighbours. `prev` is only a way back;
/// the arena owns every node.
#[derive(Clone)]
struct Node {
    value: String,
    next: Option<usize>,
    prev: Option<usize>,
}

impl Node {
    fn new(value: String) -> (node: Node)
        ensures
            node.value == value,
            node.next is None,
            node.prev is None,
    {
        Node { value: value, next: None, prev: None }
    }
}

/// Entries visited from slot `cur` along `next` links, at most `fuel` of them.
spec fn walk_next(nodes: Seq<Option<Node>>, cur: Option<usize>, fuel: nat) -> Seq<String>
    decreases fuel,
{
    match cur {
        Some(k) => if fuel > 0 && k < nodes.len() && nodes[k as int] is Some {
            seq![nodes[k as int].unwrap().value] + walk_next(
                nodes,
                nodes[k as int].unwrap().next,
                (fuel - 1) as nat,
            )
        } else {
            Seq::empty()
        },
        None => Seq::empty(),
    }
}

/// Entries visited from slot `cur` along `prev` links, at most `fuel` of them.
spec fn walk_prev(nodes: Seq<Option<Node>>, cur: Option<usize>, fuel: nat) -> Seq<String>
    decreases fuel,
{
    match cur {
        Some(k) => if fuel > 0 && k < nodes.len() && nodes[k as int] is Some {
            seq![nodes[k as int].unwrap().value] + walk_prev(
                nodes,
                nodes[k as int].unwrap().prev,
                (fuel - 1) as nat,
            )
        } else {
            Seq::empty()
        },
        None => Seq::empty(),
    }
}

/// A cursor over a log's entries: `next` reads the entry under it and moves
/// towards the tail, `next_back` reads it and moves towards the head. Once it
/// has left either end it stays there.
pub struct ListIterator<'a> {
    log: &'a BetterTransactionLog,
    current: Option<usize>,
    /// The index, from the head, of the entry under the cursor.
    position: Ghost<int>,
}

impl<'a> ListIterator<'a> {
    /// The entries of the log being walked, from head to tail.
    pub closed spec fn entries(&self) -> Seq<String> {
        self.log@
    }

    /// The index of the entry under the cursor, or `None` once it has left
    /// the list.
    pub closed spec fn cursor(&self) -> Option<int> {
        if self.current is Some {
            Some(self.position@)
        } else {
            None
        }
    }

    /// The cursor is on an entry of a well-formed log, or off the list.
    pub closed spec fn wf(&self) -> bool {
        &&& self.log.wf()
        &&& self.current is Some ==> {
            &&& 0 <= self.position@ < self.log.order@.len()
            &&& self.current == Some(self.log.order@[self.position@])
        }
    }

    fn new(log: &'a BetterTransactionLog, start_at: Option<usize>, position: Ghost<int>) -> (it:
        ListIterator<'a>)
        requires
            log.wf(),
            start_at is Some ==> {
                &&& 0 <= position@ < log.order@.len()
                &&& start_at == Some(log.order@[position@])
            },
        ensures
            it.wf(),
            it.entries() == log@,
            it.cursor() == if start_at is Some {
                Some(position@)
            } else {
                None::<int>
            },
    {
        ListIterator { log: log, current: start_at, position: position }
    }

    /// Returns the entry under the cursor and moves the cursor one entry
    /// towards the tail.
    pub fn next(&mut self) -> (r: Option<String>)
        requires
            old(self).wf(),
        ensures
            final(self).wf(),
            final(self).entries() == old(self).entries(),
            match old(self).cursor() {
                None => r is None && final(self).cursor() is None,
                Some(i) => {
                    &&& r == Some(old(self).entries()[i])
                    &&& final(self).cursor() == if i + 1 < old(self).entries().len() {
                        Some(i + 1)
                    } else {
                        None::<int>
                    }
                },
            },
    {
        match self.current {
            Some(k) => {
                assert(self.log.linked_at(self.position@));
                let node = self.log.nodes.get(k);
                self.current = node.next;
                self.position = Ghost(self.position@ + 1);
                Some(node.value.clone())
            },
            None => None,
        }
    }

    /// Returns the entry under the cursor and moves the cursor one entry
    /// towards the head.
    pub fn next_back(&mut self) -> (r: Option<String>)
        requires
            old(self).wf(),
        ensures
            final(self).wf(),
            final(self).entries() == old(self).entries(),
            match old(self).cursor() {
                None => r is None && final(self).cursor() is None,
                Some(i) => {
                    &&& r == Some(old(self).entries()[i])
                    &&& final(self).cursor() == if i > 0 {
                        Some(i - 1)
                    } else {
                        None::<int>
                    }
                },
            },
    {
        match self.current {
            Some(k) => {
                assert(self.log.linked_at(self.position@));
                let node = self.log.nodes.get(k);
                self.current = node.prev;
                self.position = Ghost(self.position@ - 1);
                Some(node.value.clone())
            },
            None => None,
        }
    }
}

#[derive(Clone)]
pub struct BetterTransactionLog {
    nodes: Arena<Node>,
    head: Option<usize>,
    tail: Option<usize>,
    pub length: usize,
    /// The slots of the entries, from head to tail.
    order: Ghost<Seq<usize>>,
}

impl View for BetterTransactionLog {
    type V = Seq<String>;

    /// The entries from head to tail.
    closed spec fn view(&self) -> Seq<String> {
        Seq::new(self.order@.len(), |i: int| self.node(i).value)
    }
}

impl BetterTransactionLog {
    /// The node of the `i`-th entry from the head.
    spec fn node(&self, i: int) -> Node {
        self.nodes@[self.order@[i] as int].unwrap()
    }

    /// The slot of the entry after the `i`-th, if there is one.
    spec fn slot_after(&self, i: int) -> Option<usize> {
        if i + 1 < self.order@.len() {
            Some(self.order@[i + 1])
        } else {
            None
        }
    }

    /// The slot of the entry before the `i`-th, if there is one.
    spec fn slot_before(&self, i: int) -> Option<usize> {
        if i > 0 {
            Some(self.order@[i - 1])
        } else {
            None
        }
    }

    /// The slot of the `i`-th entry is filled, and its links point at the
    /// slots of its neighbours.
    spec fn linked_at(&self, i: int) -> bool {
        &&& self.order@[i] < self.nodes@.len()
        &&& self.nodes@[self.order@[i] as int] is Some
        &&& self.node(i).next == self.slot_after(i)
        &&& self.node(i).prev == self.slot_before(i)
    }

    /// The chain from `head` along `next` and from `tail` along `prev` runs
    /// through distinct filled slots, one per entry.
    pub closed spec fn well_linked(&self) -> bool {
        let n = self.order@.len();
        &&& self.nodes.wf()
        &&& self.nodes.in_use() == n
        &&& forall|i: int| 0 <= i < n ==> #[trigger] self.linked_at(i)
        &&& forall|i: int, j: int| 0 <= i < j < n ==> self.order@[i] != self.order@[j]
        &&& self.head == if n > 0 { Some(self.order@[0]) } else { None::<usize> }
        &&& self.tail == if n > 0 { Some(self.order@[n - 1]) } else { None::<usize> }
    }

    /// The links are consistent and `length` counts the entries.
    pub closed spec fn wf(&self) -> bool {
        &&& self.length == self@.len()
        &&& self.well_linked()
    }

    /// The entries met walking `next` links from the head.
    pub closed spec fn forward_walk(&self) -> Seq<String> {
        walk_next(self.nodes@, self.head, self.length as nat)
    }

    /// The entries met walking `prev` links from the tail.
    pub closed spec fn backward_walk(&self) -> Seq<String> {
        walk_prev(self.nodes@, self.tail, self.length as nat)
    }

    /// The number of entries; the same as the `length` field.
    pub fn len(&self) -> (n: usize)
        requires
            self.wf(),
        ensures
            n == self@.len(),
    {
        self.length
    }

    pub fn new() -> (log: BetterTransactionLog)
        ensures
            log.wf(),
            log@ == Seq::<String>::empty(),
    {
        let log = BetterTransactionLog {
            nodes: Arena::new(),
            head: None,
            tail: None,
            length: 0,
            order: Ghost(Seq::empty()),
        };
        assert(log@ =~= Seq::<String>::empty());
        log
    }

    pub fn append(&mut self, value: String)
        requires
            old(self).wf(),
        ensures
            final(self).wf(),
            final(self)@ == old(self)@.push(value),
    {
        let ghost old_log = *self;
        let mut new = Node::new(value);
        new.prev = self.tail;
        let k = self.nodes.insert(new);
        proof {
            assert forall|i: int| 0 <= i < old_log.order@.len() implies old_log.order@[i] != k by {
                assert(old_log.linked_at(i));
            }
        }
        match self.tail {
            Some(last) => {
                assert(old_log.linked_at(old_log.order@.len() - 1));
                self.nodes.get_mut(last).next = Some(k);
            },
            None => {
                self.head = Some(k);
            },
        }
        self.length = self.length + 1;
        self.tail = Some(k);
        self.order = Ghost(old_log.order@.push(k));
        proof {
            let n = old_log.order@.len();
            assert forall|i: int| 0 <= i < n + 1 implies #[trigger] self.linked_at(i) by {
                if i < n {
                    assert(old_log.linked_at(i));
                }
            }
            assert forall|i: int| 0 <= i < n implies self.node(i).value == old_log.node(
                i,
            ).value by {
                assert(old_log.linked_at(i));
            }
            assert(self@ =~= old_log@.push(value));
        }
    }

    /// A cursor on the tail, for walking towards the head.
    pub fn back_iter(&self) -> (it: ListIterator)
        requires
            self.wf(),
        ensures
            it.wf(),
            it.entries() == self@,
            it.cursor() == if self@.len() > 0 {
                Some(self@.len() - 1)
            } else {
                None::<int>
            },
    {
        proof {
            if self.order@.len() > 0 {
                assert(self.linked_at(self.order@.len() - 1));
            }
        }
        ListIterator::new(self, self.tail, Ghost(self.order@.len() - 1))
    }

    /// A cursor on the head, for walking towards the tail.
    pub fn iter(&self) -> (it: ListIterator)
        requires
            self.wf(),
        ensures
            it.wf(),
            it.entries() == self@,
            it.cursor() == if self@.len() > 0 {
                Some(0int)
            } else {
                None::<int>
            },
    {
        ListIterator::new(self, self.head, Ghost(0))
    }

    /// Walking `next` links from the entry at index `i` meets the entries
    /// from `i` to the tail.
    proof fn lemma_walk_next(&self, i: int)
        requires
            self.wf(),
            0 <= i <= self.order@.len(),
        ensures
            walk_next(
                self.nodes@,
                if i < self.order@.len() {
                    Some(self.order@[i])
                } else {
                    None::<usize>
                },
                (self.order@.len() - i) as nat,
            ) == self@.subrange(i, self.order@.len() as int),
        decreases self.order@.len() - i,
    {
        let n = self.order@.len() as int;
        if i < n {
            assert(self.linked_at(i));
            self.lemma_walk_next(i + 1);
            assert(self@.subrange(i, n) =~= seq![self@[i]] + self@.subrange(i + 1, n));
        } else {
            assert(self@.subrange(i, n) =~= Seq::<String>::empty());
        }
    }

    /// Walking `prev` links from the entry at index `i` meets the entries
    /// from `i` back to the head.
    proof fn lemma_walk_prev(&self, i: int)
        requires
            self.wf(),
            0 <= i < self.order@.len(),
        ensures
            walk_prev(self.nodes@, Some(self.order@[i]), (i + 1) as nat) == self@.subrange(
                0,
                i + 1,
            ).reverse(),
        decreases i,
    {
        assert(self.linked_at(i));
        if i > 0 {
            self.lemma_walk_prev(i - 1);
        } else {
            assert(self@.subrange(0, 0).reverse() =~= Seq::<String>::empty());
        }
        assert(walk_prev(self.nodes@, Some(self.order@[i]), (i + 1) as nat) == seq![self@[i]]
            + walk_prev(self.nodes@, self.slot_before(i), i as nat));
        assert(self@.subrange(0, i + 1).reverse() =~= seq![self@[i]] + self@.subrange(
            0,
            i,
        ).reverse());
    }

    /// Walking the `next` links from the head meets the entries in order, and
    /// walking the `prev` links from the tail meets exactly the same entries
    /// in reverse.
    pub proof fn law_backward_reverses_forward(&self)
        requires
            self.wf(),
        ensures
            self.forward_walk() == self@,
            self.backward_walk() == self@.reverse(),
    {
        let n = self.order@.len() as int;
        self.lemma_walk_next(0);
        assert(self@.subrange(0, n) =~= self@);
        if n > 0 {
            self.lemma_walk_prev(n - 1);
        } else {
            assert(self@.reverse() =~= Seq::<String>::empty());
        }
    }

    pub fn pop(&mut self) -> (r: Option<String>)
        requires
            old(self).wf(),
        ensures
            final(self).wf(),
            r == popped(old(self)@),
            final(self)@ == after_pop(old(self)@),
    {
        let ghost old_log = *self;
        match self.head {
            None => None,
            Some(first) => {
                assert(old_log.linked_at(0));
                let node = self.nodes.remove(first);
                match node.next {
                    Some(second) => {
                        assert(old_log.linked_at(1));
                        self.nodes.get_mut(second).prev = None;
                        self.head = Some(second);
                    },
                    None => {
                        self.head = None;
                        self.tail = None;
                    },
                }
                self.length = self.length - 1;
                self.order = Ghost(old_log.order@.drop_first());
                proof {
                    let n = self.order@.len();
                    assert forall|i: int| 0 <= i < n implies #[trigger] self.linked_at(i) by {
                        assert(old_log.linked_at(i + 1));
                    }
                    assert forall|i: int| 0 <= i < n implies self.node(i).value == old_log.node(
                        i + 1,
                    ).value by {
                        assert(old_log.linked_at(i + 1));
                    }
                    assert(self@ =~= old_log@.drop_first());
                }
                Some(node.value)
            },
        }
    }
    /// The entry at the head, if there is one.
    pub fn head(&self) -> (r: Option<&String>)
        requires
            self.wf(),
        ensures
            match r {
                None => self@.len() == 0,
                Some(v) => self@.len() > 0 && *v == self@[0],
            },
    {
        match self.head {
            Some(k) => {
                assert(self.linked_at(0));
                Some(&self.nodes.get(k).value)
            },
            None => None,
        }
    }

    /// The entry at the tail, if there is one.
    pub fn tail(&self) -> (r: Option<&String>)
        requires
            self.wf(),
        ensures
            match r {
                None => self@.len() == 0,
                Some(v) => self@.len() > 0 && *v == self@[self@.len() - 1],
            },
    {
        match self.tail {
            Some(k) => {
                assert(self.linked_at(self.order@.len() - 1));
                Some(&self.nodes.get(k).value)
            },
            None => None,
        }
    }
}

} // verus!
