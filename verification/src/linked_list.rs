use std::marker::PhantomData;
use vstd::prelude::*;

verus! {

/// Where a node sits in the arena (the vector of nodes) that lists link.
pub type NodePtr = usize;

/// A node that a [`List`] can link: the links to its neighbours, and the
/// data it carries. Nodes live in an arena shared by any number of lists; a
/// node is in at most one list at a time.
pub struct Node<T> {
    next: Option<NodePtr>,
    prev: Option<NodePtr>,
    data: T,
}

impl<T> Node<T> {
    pub closed spec fn next_of(self) -> Option<NodePtr> {
        self.next
    }

    pub closed spec fn prev_of(self) -> Option<NodePtr> {
        self.prev
    }

    pub closed spec fn data_of(self) -> T {
        self.data
    }

    /// The node links to nothing.
    pub open spec fn is_detached(self) -> bool {
        self.next_of().is_none() && self.prev_of().is_none()
    }

    /// A node that links to nothing.
    pub fn new(data: T) -> (n: Node<T>)
        ensures
            n.is_detached(),
            n.data_of() == data,
    {
        Node { next: None, prev: None, data }
    }
}

/// `nodes` differs from `before` at most in the links of the nodes listed in
/// `ids`; no data changes.
pub open spec fn only_links_of<T>(before: Seq<Node<T>>, nodes: Seq<Node<T>>, ids: Seq<NodePtr>) -> bool {
    &&& nodes.len() == before.len()
    &&& forall|j: int|
        0 <= j < nodes.len() ==> (#[trigger] nodes[j]).data_of() == before[j].data_of()
    &&& forall|j: int|
        0 <= j < nodes.len() && !ids.contains(j as NodePtr) ==> #[trigger] nodes[j]
            == before[j]
}

/// A doubly linked list of nodes of an arena: it knows its first and last
/// node, and the nodes know their neighbours.
pub struct List<T> {
    head: Option<NodePtr>,
    tail: Option<NodePtr>,
    ids: Ghost<Seq<NodePtr>>,
    marker: PhantomData<T>,
}

impl<T> View for List<T> {
    type V = Seq<NodePtr>;

    /// The nodes of the list, from first to last.
    closed spec fn view(&self) -> Seq<NodePtr> {
        self.ids@
    }
}

impl<T> List<T> {
    /// The ends of the list are its first and last node.
    #[verifier::type_invariant]
    closed spec fn ends_match(self) -> bool {
        &&& self.ids@.len() == 0 ==> self.head.is_none() && self.tail.is_none()
        &&& self.ids@.len() > 0 ==> self.head == Some(self.ids@[0]) && self.tail == Some(
            self.ids@.last(),
        )
    }

    /// The list is linked through `nodes`: every node of it lies in the
    /// arena, none occurs twice, and each links to its neighbours in the list.
    pub closed spec fn wf(&self, nodes: Seq<Node<T>>) -> bool {
        let s = self.ids@;
        &&& s.no_duplicates()
        &&& forall|i: int| 0 <= i < s.len() ==> #[trigger] s[i] < nodes.len()
        &&& forall|i: int|
            0 <= i < s.len() ==> (#[trigger] nodes[s[i] as int]).prev_of() == (if i == 0 {
                None
            } else {
                Some(s[i - 1])
            })
        &&& forall|i: int|
            0 <= i < s.len() ==> (#[trigger] nodes[s[i] as int]).next_of() == (if i + 1
                == s.len() {
                None
            } else {
                Some(s[i + 1])
            })
    }
}

impl<T> Default for List<T> {
    fn default() -> (l: List<T>)
        ensures
            l@.len() == 0,
            forall|nodes: Seq<Node<T>>| l.wf(nodes),
    {
        List { head: None, tail: None, ids: Ghost(Seq::empty()), marker: PhantomData }
    }
}

impl<T> List<T> {
    pub fn is_empty(&self) -> (b: bool)
        ensures
            b == (self@.len() == 0),
    {
        proof {
            use_type_invariant(self);
        }
        self.head.is_none()
    }
}


impl<T> List<T> {
    /// Links the detached node `node` in as the new first node.
    pub fn push_front(&mut self, nodes: &mut Vec<Node<T>>, node: NodePtr)
        requires
            old(self).wf(old(nodes)@),
            node < old(nodes)@.len(),
            !old(self)@.contains(node),
            old(nodes)@[node as int].is_detached(),
        ensures
            final(self)@ == seq![node] + old(self)@,
            final(self).wf(final(nodes)@),
            only_links_of(old(nodes)@, final(nodes)@, old(self)@.push(node)),
    {
        proof {
            use_type_invariant(&*self);
        }
        let ghost s = self@;
        let ghost n0 = nodes@;
        let new_ids: Ghost<Seq<NodePtr>> = Ghost(seq![node] + s);
        match self.head {
            None => {
                *self = List { head: Some(node), tail: Some(node), ids: new_ids, marker: PhantomData };
            },
            Some(h) => {
                nodes[node].next = Some(h);
                nodes[h].prev = Some(node);
                let t = self.tail;
                *self = List { head: Some(node), tail: t, ids: new_ids, marker: PhantomData };
                proof {
                    assert(s[0] == h);
                    assert(s.len() > 0);
                }
            },
        }
        proof {
            let t = self@;
            let nn = nodes@;
            assert(t.len() == s.len() + 1);
            assert forall|i: int| 0 <= i < t.len() implies #[trigger] t[i] < nn.len() by {
                if i > 0 {
                    assert(t[i] == s[i - 1]);
                }
            }
            assert forall|i: int, j: int| 0 <= i < t.len() && 0 <= j < t.len() && i != j implies t[i]
                != t[j] by {
                if i > 0 && j > 0 {
                    assert(t[i] == s[i - 1] && t[j] == s[j - 1]);
                } else if i == 0 {
                    assert(t[j] == s[j - 1]);
                } else {
                    assert(t[i] == s[i - 1]);
                }
            }
            assert forall|i: int| 0 <= i < t.len() implies (#[trigger] nn[t[i] as int]).prev_of()
                == (if i == 0 {
                None
            } else {
                Some(t[i - 1])
            }) && nn[t[i] as int].next_of() == (if i + 1 == t.len() {
                None
            } else {
                Some(t[i + 1])
            }) by {
                if i > 0 {
                    assert(t[i] == s[i - 1]);
                    assert(n0[s[i - 1] as int].prev_of() == (if i - 1 == 0 {
                        None
                    } else {
                        Some(s[i - 2])
                    }));
                    assert(n0[s[i - 1] as int].next_of() == (if i == s.len() {
                        None
                    } else {
                        Some(s[i])
                    }));
                }
            }
            assert forall|j: int|
                0 <= j < nn.len() && !s.push(node).contains(j as NodePtr) implies #[trigger] nn[j]
                == n0[j] by {
                assert(s.push(node)[s.len() as int] == node);
                if s.len() > 0 {
                    assert(s.push(node)[0] == s[0]);
                }
            }
        }
    }

    /// Links the detached node `node` in as the new last node.
    pub fn push_back(&mut self, nodes: &mut Vec<Node<T>>, node: NodePtr)
        requires
            old(self).wf(old(nodes)@),
            node < old(nodes)@.len(),
            !old(self)@.contains(node),
            old(nodes)@[node as int].is_detached(),
        ensures
            final(self)@ == old(self)@.push(node),
            final(self).wf(final(nodes)@),
            only_links_of(old(nodes)@, final(nodes)@, old(self)@.push(node)),
    {
        proof {
            use_type_invariant(&*self);
        }
        let ghost s = self@;
        let ghost n0 = nodes@;
        let new_ids: Ghost<Seq<NodePtr>> = Ghost(s.push(node));
        match self.tail {
            None => {
                *self = List { head: Some(node), tail: Some(node), ids: new_ids, marker: PhantomData };
            },
            Some(tl) => {
                nodes[node].prev = Some(tl);
                nodes[tl].next = Some(node);
                let h = self.head;
                *self = List { head: h, tail: Some(node), ids: new_ids, marker: PhantomData };
                proof {
                    assert(s.last() == tl);
                }
            },
        }
        proof {
            let t = self@;
            let nn = nodes@;
            assert forall|i: int| 0 <= i < t.len() implies #[trigger] t[i] < nn.len() by {
                if i < s.len() {
                    assert(t[i] == s[i]);
                }
            }
            assert forall|i: int, j: int| 0 <= i < t.len() && 0 <= j < t.len() && i != j implies t[i]
                != t[j] by {
                if i < s.len() && j < s.len() {
                    assert(t[i] == s[i] && t[j] == s[j]);
                } else if i < s.len() {
                    assert(t[i] == s[i]);
                } else {
                    assert(t[j] == s[j]);
                }
            }
            assert forall|i: int| 0 <= i < t.len() implies (#[trigger] nn[t[i] as int]).prev_of()
                == (if i == 0 {
                None
            } else {
                Some(t[i - 1])
            }) && nn[t[i] as int].next_of() == (if i + 1 == t.len() {
                None
            } else {
                Some(t[i + 1])
            }) by {
                if i < s.len() {
                    assert(t[i] == s[i]);
                    assert(n0[s[i] as int].prev_of() == (if i == 0 {
                        None
                    } else {
                        Some(s[i - 1])
                    }));
                    assert(n0[s[i] as int].next_of() == (if i + 1 == s.len() {
                        None
                    } else {
                        Some(s[i + 1])
                    }));
                }
            }
            assert forall|j: int|
                0 <= j < nn.len() && !s.push(node).contains(j as NodePtr) implies #[trigger] nn[j]
                == n0[j] by {
                assert(s.push(node)[s.len() as int] == node);
                if s.len() > 0 {
                    assert(s.push(node)[s.len() - 1] == s[s.len() - 1]);
                }
            }
        }
    }
}


impl<T> Node<T> {
    fn set_next_null(&mut self)
        ensures
            final(self).next_of().is_none(),
            final(self).prev_of() == old(self).prev_of(),
            final(self).data_of() == old(self).data_of(),
    {
        self.next = None;
    }

    fn set_prev_null(&mut self)
        ensures
            final(self).prev_of().is_none(),
            final(self).next_of() == old(self).next_of(),
            final(self).data_of() == old(self).data_of(),
    {
        self.prev = None;
    }
}

impl<T> List<T> {
    /// Unlinks the first node and returns it, detached; `None` when the list
    /// is empty.
    pub fn pop_front(&mut self, nodes: &mut Vec<Node<T>>) -> (r: Option<NodePtr>)
        requires
            old(self).wf(old(nodes)@),
        ensures
            final(self).wf(final(nodes)@),
            only_links_of(old(nodes)@, final(nodes)@, old(self)@),
            old(self)@.len() == 0 ==> r.is_none() && final(self)@ == old(self)@ && final(nodes)@
                == old(nodes)@,
            old(self)@.len() > 0 ==> r == Some(old(self)@[0]) && final(self)@ == old(self)@.drop_first()
                && final(nodes)@[old(self)@[0] as int].is_detached(),
    {
        proof {
            use_type_invariant(&*self);
        }
        let ghost s = self@;
        let ghost n0 = nodes@;
        match self.head {
            None => None,
            Some(h) => {
                proof {
                    assert(s[0] == h);
                    assert(s.contains(h));
                }
                let next = nodes[h].next;
                match next {
                    Some(n) => {
                        proof {
                            assert(s.len() > 1);
                            assert(n == s[1]);
                        }
                        nodes[h].set_next_null();
                        nodes[n].set_prev_null();
                        let t = self.tail;
                        *self = List {
                            head: Some(n),
                            tail: t,
                            ids: Ghost(s.drop_first()),
                            marker: PhantomData,
                        };
                    },
                    None => {
                        proof {
                            assert(s.len() == 1);
                        }
                        *self = List {
                            head: None,
                            tail: None,
                            ids: Ghost(s.drop_first()),
                            marker: PhantomData,
                        };
                    },
                }
                proof {
                    let t = self@;
                    let nn = nodes@;
                    assert forall|i: int| 0 <= i < t.len() implies (#[trigger] nn[t[i] as int]).prev_of()
                        == (if i == 0 {
                        None
                    } else {
                        Some(t[i - 1])
                    }) && nn[t[i] as int].next_of() == (if i + 1 == t.len() {
                        None
                    } else {
                        Some(t[i + 1])
                    }) by {
                        assert(t[i] == s[i + 1]);
                        assert(s[i + 1] != s[0]);
                        assert(n0[s[i + 1] as int].prev_of() == Some(s[i]));
                        assert(n0[s[i + 1] as int].next_of() == (if i + 2 == s.len() {
                            None
                        } else {
                            Some(s[i + 2])
                        }));
                    }
                    assert forall|i: int| 0 <= i < t.len() implies #[trigger] t[i] < nn.len() by {
                        assert(t[i] == s[i + 1]);
                    }
                    assert forall|j: int|
                        0 <= j < nn.len() && !s.contains(j as NodePtr) implies #[trigger] nn[j]
                        == n0[j] by {
                        if s.len() > 1 {
                            assert(s.contains(s[1]));
                        }
                    }
                }
                Some(h)
            },
        }
    }

    /// Unlinks `node`, a node of the list, and leaves it detached.
    pub fn remove(&mut self, nodes: &mut Vec<Node<T>>, node: NodePtr)
        requires
            old(self).wf(old(nodes)@),
            old(self)@.contains(node),
        ensures
            final(self)@ == old(self)@.remove(old(self)@.index_of(node)),
            final(self).wf(final(nodes)@),
            only_links_of(old(nodes)@, final(nodes)@, old(self)@),
            final(nodes)@[node as int].is_detached(),
    {
        proof {
            use_type_invariant(&*self);
        }
        let ghost s = self@;
        let ghost n0 = nodes@;
        let ghost k = s.index_of(node);
        proof {
            assert(0 <= k < s.len() && s[k] == node);
        }
        let next = nodes[node].next;
        let prev = nodes[node].prev;
        let new_ids: Ghost<Seq<NodePtr>> = Ghost(s.remove(k));
        let mut head = self.head;
        let mut tail = self.tail;
        match prev {
            None => {
                head = next;
            },
            Some(p) => {
                nodes[node].set_prev_null();
                nodes[p].next = next;
            },
        }
        match next {
            None => {
                tail = prev;
            },
            Some(n) => {
                nodes[node].set_next_null();
                nodes[n].prev = prev;
            },
        }
        proof {
            let t = s.remove(k);
            let nn = nodes@;
            assert(k == 0 ==> prev.is_none());
            assert(k > 0 ==> prev == Some(s[k - 1]));
            assert(k + 1 == s.len() ==> next.is_none());
            assert(k + 1 < s.len() ==> next == Some(s[k + 1]));
            assert forall|i: int| 0 <= i < t.len() implies #[trigger] t[i] < nn.len() && t[i]
                != node by {
                if i < k {
                    assert(t[i] == s[i]);
                } else {
                    assert(t[i] == s[i + 1]);
                }
            }
            assert forall|i: int| 0 <= i < t.len() implies (#[trigger] nn[t[i] as int]).prev_of()
                == (if i == 0 {
                None
            } else {
                Some(t[i - 1])
            }) && nn[t[i] as int].next_of() == (if i + 1 == t.len() {
                None
            } else {
                Some(t[i + 1])
            }) by {
                if i < k {
                    assert(t[i] == s[i]);
                    assert(n0[s[i] as int].prev_of() == (if i == 0 {
                        None
                    } else {
                        Some(s[i - 1])
                    }));
                    assert(n0[s[i] as int].next_of() == Some(s[i + 1]));
                    if i > 0 {
                        assert(s[i - 1] != s[k]);
                    }
                    assert(s[i] != s[k]);
                } else {
                    assert(t[i] == s[i + 1]);
                    assert(s[i + 1] != s[k]);
                    assert(n0[s[i + 1] as int].prev_of() == Some(s[i]));
                    assert(n0[s[i + 1] as int].next_of() == (if i + 2 == s.len() {
                        None
                    } else {
                        Some(s[i + 2])
                    }));
                }
            }
            assert forall|j: int|
                0 <= j < nn.len() && !s.contains(j as NodePtr) implies #[trigger] nn[j]
                == n0[j] by {
                if k > 0 {
                    assert(s.contains(s[k - 1]));
                }
                if k + 1 < s.len() {
                    assert(s.contains(s[k + 1]));
                }
            }
            assert(t.len() > 0 ==> head == Some(t[0]));
            assert(t.len() > 0 ==> tail == Some(t.last()));
        }
        *self = List { head, tail, ids: new_ids, marker: PhantomData };
    }

    /// Empties the list and returns its nodes from first to last. The nodes
    /// themselves are left as they are, links included.
    pub fn clear(&mut self, nodes: &Vec<Node<T>>) -> (removed: Vec<NodePtr>)
        requires
            old(self).wf(nodes@),
        ensures
            removed@ == old(self)@,
            final(self)@.len() == 0,
            forall|ns: Seq<Node<T>>| final(self).wf(ns),
    {
        proof {
            use_type_invariant(&*self);
        }
        let ghost s = self@;
        let mut node = self.head;
        *self = List { head: None, tail: None, ids: Ghost(Seq::empty()), marker: PhantomData };
        let mut removed: Vec<NodePtr> = Vec::new();
        while node.is_some()
            invariant
                removed@.len() <= s.len(),
                removed@ == s.take(removed@.len() as int),
                node == (if removed@.len() < s.len() {
                    Some(s[removed@.len() as int])
                } else {
                    None::<NodePtr>
                }),
                s.no_duplicates(),
                forall|i: int| 0 <= i < s.len() ==> #[trigger] s[i] < nodes@.len(),
                forall|i: int|
                    0 <= i < s.len() ==> (#[trigger] nodes@[s[i] as int]).next_of() == (if i + 1
                        == s.len() {
                        None
                    } else {
                        Some(s[i + 1])
                    }),
            decreases s.len() - removed@.len(),
        {
            let n = node.unwrap();
            let ghost i = removed@.len() as int;
            removed.push(n);
            node = nodes[n].next;
            proof {
                assert(nodes@[s[i] as int].next_of() == (if i + 1 == s.len() {
                    None
                } else {
                    Some(s[i + 1])
                }));
                assert(removed@ =~= s.take(i + 1));
            }
        }
        proof {
            assert(removed@ =~= s);
        }
        removed
    }
}


impl<T> std::ops::Deref for Node<T> {
    type Target = T;

    /// The data the node carries.
    fn deref(&self) -> (r: &T)
        ensures
            *r == self.data_of(),
    {
        &self.data
    }
}

impl<T> AsRef<T> for Node<T> {
    /// The data the node carries.
    fn as_ref(&self) -> (r: &T)
        ensures
            *r == self.data_of(),
    {
        &self.data
    }
}

impl<T> AsMut<T> for Node<T> {
    /// The data the node carries, to change in place; the links stay.
    fn as_mut(&mut self) -> (r: &mut T)
        ensures
            *r == old(self).data_of(),
            final(self).data_of() == *final(r),
            final(self).next_of() == old(self).next_of(),
            final(self).prev_of() == old(self).prev_of(),
    {
        &mut self.data
    }
}

/// A list stays linked through an arena in which the links of its own nodes
/// did not change.
pub proof fn lemma_wf_frame<T>(l: &List<T>, before: Seq<Node<T>>, after: Seq<Node<T>>)
    requires
        l.wf(before),
        after.len() >= before.len(),
        forall|j: int|
            0 <= j < before.len() && l@.contains(j as NodePtr) ==> (#[trigger] after[j]).next_of()
                == before[j].next_of() && after[j].prev_of() == before[j].prev_of(),
    ensures
        l.wf(after),
{
    let s = l@;
    assert forall|i: int| 0 <= i < s.len() implies (#[trigger] after[s[i] as int]).prev_of()
        == before[s[i] as int].prev_of() && after[s[i] as int].next_of() == before[s[i] as int].next_of() by {
        assert(s.contains(s[i]));
    }
}


/// The nodes of a linked list lie in the arena, and none occurs twice.
pub proof fn lemma_wf_facts<T>(l: &List<T>, nodes: Seq<Node<T>>)
    requires
        l.wf(nodes),
    ensures
        l@.no_duplicates(),
        forall|i: int| 0 <= i < l@.len() ==> #[trigger] l@[i] < nodes.len(),
        forall|j: NodePtr| #[trigger] l@.contains(j) ==> j < nodes.len(),
{
}


/// Linking a node in first and then unlinking the first node gives that
/// node back and leaves the list as it was.
pub proof fn lemma_push_front_pop_front(s: Seq<NodePtr>, n: NodePtr)
    ensures
        (seq![n] + s)[0] == n,
        (seq![n] + s).drop_first() == s,
{
    assert((seq![n] + s).drop_first() =~= s);
}

/// A list is first in, first out: linking a node in last does not change
/// which node is first, nor what is left behind it once the first is gone.
pub proof fn lemma_push_back_pop_front(s: Seq<NodePtr>, n: NodePtr)
    requires
        s.len() > 0,
    ensures
        s.push(n)[0] == s[0],
        s.push(n).drop_first() == s.drop_first().push(n),
{
    assert(s.push(n).drop_first() =~= s.drop_first().push(n));
}

/// Unlinking a node just linked in last leaves the list as it was.
pub proof fn lemma_push_back_remove(s: Seq<NodePtr>, n: NodePtr)
    requires
        !s.contains(n),
    ensures
        s.push(n).remove(s.push(n).index_of(n)) == s,
{
    let t = s.push(n);
    assert(t[s.len() as int] == n);
    assert(t.contains(n));
    let k = t.index_of(n);
    if k < s.len() {
        assert(s[k] == n);
    }
    assert(k == s.len());
    assert(t.remove(k) =~= s);
}

} // verus!
