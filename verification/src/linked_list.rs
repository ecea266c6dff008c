//! A doubly-ended list with stable node handles, the building block for a
//! recency list in a page-cache implementation. Nodes are addressed by the
//! handle issued when they were pushed, so one can be unlinked from the
//! middle without walking the list.
use vstd::prelude::*;

verus! {

/// One list node: the handle it answers to, and its payload.
pub struct LinkListNode<T> {
    pub key: u64,
    pub data: T,
}

impl<T> LinkListNode<T> {
    /// A detached node; the list assigns the handle on push.
    pub fn new(data: T) -> (r: LinkListNode<T>)
        ensures
            r.data == data,
    {
        LinkListNode { key: 0, data }
    }
}

/// The list: nodes front to back, and the next handle to hand out.
pub struct LinkedList<T> {
    pub nodes: Vec<LinkListNode<T>>,
    pub next_key: u64,
}

/// Consumes a list from the front.
pub struct IntoIter<T> {
    pub list: LinkedList<T>,
}

/// Walks a snapshot of a list's payloads from the front.
pub struct Iter<T> {
    pub items: Vec<T>,
    pub pos: usize,
}

impl<T> View for LinkedList<T> {
    type V = Seq<T>;

    open spec fn view(&self) -> Seq<T> {
        self.nodes@.map_values(|n: LinkListNode<T>| n.data)
    }
}

impl<T> LinkedList<T> {
    /// Handles in use are unique and below the next to be issued.
    pub open spec fn wf(&self) -> bool {
        &&& forall|i: int, j: int|
            0 <= i < j < self.nodes@.len() ==> (#[trigger] self.nodes@[i]).key != (
            #[trigger] self.nodes@[j]).key
        &&& forall|i: int|
            0 <= i < self.nodes@.len() ==> (#[trigger] self.nodes@[i]).key < self.next_key
    }

    /// Whether a handle addresses a live node.
    pub open spec fn has_handle(&self, h: u64) -> bool {
        exists|i: int| 0 <= i < self.nodes@.len() && (#[trigger] self.nodes@[i]).key == h
    }

    /// The position of a live handle.
    pub open spec fn handle_index(&self, h: u64) -> int {
        choose|i: int| 0 <= i < self.nodes@.len() && (#[trigger] self.nodes@[i]).key == h
    }

    /// An empty list.
    pub fn new() -> (r: LinkedList<T>)
        ensures
            r.wf(),
            r@ == Seq::<T>::empty(),
    {
        let r = LinkedList { nodes: Vec::new(), next_key: 0 };
        proof {
            assert(r@ =~= Seq::<T>::empty());
        }
        r
    }

    /// Link a detached node at the front under a fresh handle.
    pub fn push_node_front(&mut self, node: LinkListNode<T>)
        requires
            old(self).wf(),
            old(self).next_key < u64::MAX,
        ensures
            final(self).wf(),
            final(self)@ == seq![node.data] + old(self)@,
            final(self).next_key == old(self).next_key + 1,
            final(self).has_handle(old(self).next_key),
    {
        let fresh = LinkListNode { key: self.next_key, data: node.data };
        self.nodes.insert(0, fresh);
        self.next_key = self.next_key + 1;
        proof {
            assert(self@ =~= seq![node.data] + old(self)@);
            assert(self.nodes@[0].key == old(self).next_key);
        }
    }

    /// Push a payload at the front; the returned handle addresses it.
    pub fn push_front(&mut self, data: T) -> (h: u64)
        requires
            old(self).wf(),
            old(self).next_key < u64::MAX,
        ensures
            final(self).wf(),
            final(self)@ == seq![data] + old(self)@,
            final(self).has_handle(h),
            h == old(self).next_key,
    {
        let h = self.next_key;
        self.push_node_front(LinkListNode::new(data));
        h
    }

    /// Unlink and return the node a live handle addresses.
    pub fn pop(&mut self, h: u64) -> (r: LinkListNode<T>)
        requires
            old(self).wf(),
            old(self).has_handle(h),
        ensures
            final(self).wf(),
            r.key == h,
            r.data == old(self)@[old(self).handle_index(h)],
            final(self)@ == old(self)@.remove(old(self).handle_index(h)),
            final(self).next_key == old(self).next_key,
    {
        let ghost target = old(self).handle_index(h);
        let n = self.nodes.len();
        let mut i: usize = 0;
        while i < n
            invariant
                self == old(self),
                old(self).wf(),
                old(self).has_handle(h),
                target == old(self).handle_index(h),
                n == self.nodes@.len(),
                i <= n,
                forall|j: int| 0 <= j < i ==> (#[trigger] self.nodes@[j]).key != h,
            decreases n - i,
        {
            if self.nodes[i].key == h {
                proof {
                    assert(self.nodes@[target].key == h);
                    assert(i as int == target);
                }
                let r = self.nodes.remove(i);
                proof {
                    assert(self@ =~= old(self)@.remove(target));
                }
                return r;
            }
            i += 1;
        }
        proof {
            let ghost w = choose|j: int|
                0 <= j < old(self).nodes@.len() && (#[trigger] old(self).nodes@[j]).key == h;
            assert(self.nodes@[w].key != h);
            assert(false);
        }
        self.nodes.remove(0)
    }

    /// Unlink and return the back node.
    pub fn pop_back(&mut self) -> (r: LinkListNode<T>)
        requires
            old(self).wf(),
            old(self)@.len() >= 1,
        ensures
            final(self).wf(),
            r.data == old(self)@.last(),
            final(self)@ == old(self)@.drop_last(),
            final(self).next_key == old(self).next_key,
    {
        let r = match self.nodes.pop() {
            Some(node) => node,
            None => {
                proof {
                    assert(false);
                }
                LinkListNode { key: 0, data: self.nodes.remove(0).data }
            },
        };
        proof {
            assert(self@ =~= old(self)@.drop_last());
        }
        r
    }

    /// Unlink the front payload, if any.
    pub fn pop_front(&mut self) -> (r: Option<T>)
        requires
            old(self).wf(),
        ensures
            final(self).wf(),
            old(self)@.len() == 0 ==> r is None && final(self)@ == old(self)@,
            old(self)@.len() > 0 ==> r == Some(old(self)@[0]) && final(self)@ == old(
                self,
            )@.drop_first(),
    {
        match self.pop_front_node() {
            Some(node) => Some(node.data),
            None => None,
        }
    }

    /// Unlink the front node, if any.
    pub fn pop_front_node(&mut self) -> (r: Option<LinkListNode<T>>)
        requires
            old(self).wf(),
        ensures
            final(self).wf(),
            old(self)@.len() == 0 ==> r is None && final(self)@ == old(self)@,
            old(self)@.len() > 0 ==> (match r {
                Some(node) => node.data == old(self)@[0],
                None => false,
            }) && final(self)@ == old(self)@.drop_first(),
            final(self).next_key == old(self).next_key,
    {
        if self.nodes.len() == 0 {
            return None;
        }
        let node = self.nodes.remove(0);
        proof {
            assert(self@ =~= old(self)@.drop_first());
        }
        Some(node)
    }

    /// Move the node a live handle addresses to the front, under a fresh
    /// handle.
    pub fn pop_and_push_front(&mut self, h: u64) -> (h2: u64)
        requires
            old(self).wf(),
            old(self).has_handle(h),
            old(self).next_key < u64::MAX,
        ensures
            final(self).wf(),
            final(self)@ == seq![old(self)@[old(self).handle_index(h)]] + old(self)@.remove(
                old(self).handle_index(h),
            ),
            final(self).has_handle(h2),
    {
        let node = self.pop(h);
        let h2 = self.next_key;
        self.push_node_front(node);
        h2
    }

    /// How many nodes the list holds.
    pub fn len(&self) -> (r: usize)
        ensures
            r == self@.len(),
    {
        self.nodes.len()
    }

    /// Whether the list is empty.
    pub fn is_empty(&self) -> (r: bool)
        ensures
            r == (self@.len() == 0),
    {
        self.nodes.len() == 0
    }

    /// Consume the list, yielding payloads front to back.
    pub fn into_iter(self) -> (r: IntoIter<T>)
        requires
            self.wf(),
        ensures
            r.list == self,
    {
        IntoIter { list: self }
    }
}

impl<T: Copy> LinkedList<T> {
    /// A walk over a snapshot of the payloads, front to back.
    pub fn iter(&self) -> (r: Iter<T>)
        ensures
            r.items@ == self@,
            r.pos == 0,
    {
        let mut items: Vec<T> = Vec::new();
        let n = self.nodes.len();
        let mut i: usize = 0;
        while i < n
            invariant
                n == self.nodes@.len(),
                i <= n,
                items@.len() == i,
                forall|j: int| 0 <= j < i ==> items@[j] == self@[j],
            decreases n - i,
        {
            items.push(self.nodes[i].data);
            i += 1;
        }
        proof {
            assert(items@ =~= self@);
        }
        Iter { items, pos: 0 }
    }

    /// The payloads front to back, as one vector.
    pub fn to_vec(&self) -> (r: Vec<T>)
        ensures
            r@ == self@,
    {
        let it = self.iter();
        it.items
    }
}

impl<T> IntoIter<T> {
    /// The next payload from the front, if any.
    pub fn next(&mut self) -> (r: Option<T>)
        requires
            old(self).list.wf(),
        ensures
            final(self).list.wf(),
            old(self).list@.len() == 0 ==> r is None && final(self).list@ == old(self).list@,
            old(self).list@.len() > 0 ==> r == Some(old(self).list@[0]) && final(self).list@
                == old(self).list@.drop_first(),
    {
        self.list.pop_front()
    }
}

impl<T: Copy> Iter<T> {
    /// The next payload in the walk, if any.
    pub fn next(&mut self) -> (r: Option<T>)
        ensures
            final(self).items == old(self).items,
            old(self).pos >= old(self).items@.len() ==> r is None && final(self).pos == old(
                self,
            ).pos,
            old(self).pos < old(self).items@.len() ==> r == Some(
                old(self).items@[old(self).pos as int],
            ) && final(self).pos == old(self).pos + 1,
    {
        if self.pos < self.items.len() {
            let r = self.items[self.pos];
            self.pos = self.pos + 1;
            Some(r)
        } else {
            None
        }
    }
}

} // verus!
