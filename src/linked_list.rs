//! A singly-linked log: append at the tail, pop at the head.
use vstd::prelude::*;
use crate::arena::Arena;
use crate::log_model::{after_pop, popped};

verus! {

/// One entry with the slot of the entry after it.
struct Node {
    value: String,
    next: Option<usize>,
}

impl Node {
    fn new(value: String) -> (node: Node)
        ensures
            node.value == value,
            node.next is None,
    {
        Node { value, next: None }
    }
}

pub struct TransactionLog {
    nodes: Arena<Node>,
    head: Option<usize>,
    tail: Option<usize>,
    pub length: usize,
    /// The slots of the entries, from head to tail.
    order: Ghost<Seq<usize>>,
}

impl View for TransactionLog {
    type V = Seq<String>;

    /// The entries from head to tail.
    closed spec fn view(&self) -> Seq<String> {
        Seq::new(self.order@.len(), |i: int| self.node(i).value)
    }
}

impl TransactionLog {
    /// The node of the `i`-th entry from the head.
    spec fn node(&self, i: int) -> Node {
        self.nodes@[self.order@[i] as int].unwrap()
    }

    /// The slot of the `i`-th entry is filled, and its `next` link points at
    /// the slot of the entry after it.
    spec fn linked_at(&self, i: int) -> bool {
        &&& self.order@[i] < self.nodes@.len()
        &&& self.nodes@[self.order@[i] as int] is Some
        &&& self.node(i).next == if i + 1 < self.order@.len() {
            Some(self.order@[i + 1])
        } else {
            None::<usize>
        }
    }

    /// The chain from `head` along `next` ends at `tail` and runs through
    /// distinct filled slots, one per entry; `length` counts them.
    pub closed spec fn wf(&self) -> bool {
        let n = self.order@.len();
        &&& self.length == n
        &&& self.nodes.wf()
        &&& self.nodes.in_use() == n
        &&& forall|i: int| 0 <= i < n ==> #[trigger] self.linked_at(i)
        &&& forall|i: int, j: int| 0 <= i < j < n ==> self.order@[i] != self.order@[j]
        &&& self.head == if n > 0 { Some(self.order@[0]) } else { None::<usize> }
        &&& self.tail == if n > 0 { Some(self.order@[n - 1]) } else { None::<usize> }
    }

    /// The number of entries; the same as the `length` field.
    pub fn len(&self) -> (n: usize)
        requires
            self.wf(),
        ensures
            n == self@.len(),
    {
        self.length
    }

    pub fn new_empty() -> (log: TransactionLog)
        ensures
            log.wf(),
            log@ == Seq::<String>::empty(),
    {
        let log = TransactionLog {
            nodes: Arena::new(),
            head: None,
            tail: None,
            length: 0,
            order: Ghost(Seq::empty()),
        };
        assert(log@ =~= Seq::<String>::empty());
        log
    }

    pub fn append(&mut self, value: String)
        requires
            old(self).wf(),
        ensures
            final(self).wf(),
            final(self)@ == old(self)@.push(value),
    {
        let ghost old_log = *self;
        let k = self.nodes.insert(Node::new(value));
        proof {
            assert forall|i: int| 0 <= i < old_log.order@.len() implies old_log.order@[i] != k by {
                assert(old_log.linked_at(i));
            }
        }
        match self.tail {
            Some(last) => {
                assert(old_log.linked_at(old_log.order@.len() - 1));
                self.nodes.get_mut(last).next = Some(k);
            },
            None => {
                self.head = Some(k);
            },
        }
        self.length = self.length + 1;
        self.tail = Some(k);
        self.order = Ghost(old_log.order@.push(k));
        proof {
            let n = old_log.order@.len();
            assert forall|i: int| 0 <= i < n + 1 implies #[trigger] self.linked_at(i) by {
                if i < n {
                    assert(old_log.linked_at(i));
                }
            }
            assert forall|i: int| 0 <= i < n implies self.node(i).value == old_log.node(
                i,
            ).value by {
                assert(old_log.linked_at(i));
            }
            assert(self@ =~= old_log@.push(value));
        }
    }

    pub fn pop(&mut self) -> (r: Option<String>)
        requires
            old(self).wf(),
        ensures
            final(self).wf(),
            r == popped(old(self)@),
            final(self)@ == after_pop(old(self)@),
    {
        let ghost old_log = *self;
        match self.head {
            None => None,
            Some(first) => {
                assert(old_log.linked_at(0));
                let node = self.nodes.remove(first);
                match node.next {
                    Some(second) => {
                        self.head = Some(second);
                    },
                    None => {
                        self.head = None;
                        self.tail = None;
                    },
                }
                self.length = self.length - 1;
                self.order = Ghost(old_log.order@.drop_first());
                proof {
                    let n = self.order@.len();
                    assert forall|i: int| 0 <= i < n implies #[trigger] self.linked_at(i) by {
                        assert(old_log.linked_at(i + 1));
                    }
                    assert forall|i: int| 0 <= i < n implies self.node(i).value == old_log.node(
                        i + 1,
                    ).value by {
                        assert(old_log.linked_at(i + 1));
                    }
                    assert(self@ =~= old_log@.drop_first());
                }
                Some(node.value)
            },
        }
    }

    /// The entry at the head, if there is one.
    pub fn head(&self) -> (r: Option<&String>)
        requires
            self.wf(),
        ensures
            match r {
                None => self@.len() == 0,
                Some(v) => self@.len() > 0 && *v == self@[0],
            },
    {
        match self.head {
            Some(k) => {
                assert(self.linked_at(0));
                Some(&self.nodes.get(k).value)
            },
            None => None,
        }
    }

    /// The entry at the tail, if there is one.
    pub fn tail(&self) -> (r: Option<&String>)
        requires
            self.wf(),
        ensures
            match r {
                None => self@.len() == 0,
                Some(v) => self@.len() > 0 && *v == self@[self@.len() - 1],
            },
    {
        match self.tail {
            Some(k) => {
                assert(self.linked_at(self.order@.len() - 1));
                Some(&self.nodes.get(k).value)
            },
            None => None,
        }
    }
}

} // verus!
