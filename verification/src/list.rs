//! The intrusive list engine: ownership-transfer contracts, the list
//! container, and its cursor.
//!
//! Elements live in an arena of stable slots owned by the list; the `head`
//! and `tail` links and the nodes' own links name those slots. Pushing
//! transfers ownership of an element into the pointer graph; popping moves it
//! back out and reconstructs an owning handle for the caller.

use crate::link::Link;
use core::marker::PhantomData;
use vstd::prelude::*;

verus! {

/// The contract a stored element type satisfies: it exposes, and allows
/// rewriting of, its own previous and next links. The element itself is the
/// list node, so no separate wrapper node is allocated.
pub trait Node: Sized {
    /// The part of the node that the list never touches.
    type Payload;

    /// The node's previous link, as the contracts see it.
    spec fn prev_link(&self) -> Link;

    /// The node's next link, as the contracts see it.
    spec fn next_link(&self) -> Link;

    /// The stored payload, as the contracts see it.
    spec fn payload(&self) -> Self::Payload;

    /// The node's previous link.
    fn prev(&self) -> (l: Link)
        ensures
            l == self.prev_link(),
    ;

    /// The node's next link.
    fn next(&self) -> (l: Link)
        ensures
            l == self.next_link(),
    ;

    /// Rewrite the node's previous link, leaving everything else unchanged.
    fn set_prev(&mut self, l: Link)
        ensures
            final(self).prev_link() == l,
            final(self).next_link() == old(self).next_link(),
            final(self).payload() == old(self).payload(),
    ;

    /// Rewrite the node's next link, leaving everything else unchanged.
    fn set_next(&mut self, l: Link)
        ensures
            final(self).next_link() == l,
            final(self).prev_link() == old(self).prev_link(),
            final(self).payload() == old(self).payload(),
    ;
}

/// The contract an owning handle satisfies to be stored in the list:
/// reconstruct ownership of a node the list releases, release a node into
/// the list's care, and borrow the node it owns.
pub trait OwnedRef<N: Node>: Sized {
    /// The node this handle owns, as the contracts see it.
    spec fn node_of(&self) -> N;

    /// Reconstruct an owning handle for a node the list has released.
    fn from_raw(node: N) -> (r: Self)
        ensures
            r.node_of() == node,
    ;

    /// Release the owned node: from here until a future `from_raw`, the
    /// list is responsible for it.
    fn take(self) -> (node: N)
        ensures
            node == self.node_of(),
    ;

    /// Borrow the owned node.
    fn get(&self) -> (r: &N)
        ensures
            *r == self.node_of(),
    ;
}

/// Free-slot bookkeeping: `free` lists exactly the empty slots, each once.
pub(crate) open spec fn arena_inv<N>(slots: Seq<Option<N>>, free: Seq<usize>) -> bool {
    &&& slots.len() <= usize::MAX
    &&& free.no_duplicates()
    &&& forall|j: int|
        0 <= j < free.len() ==> (#[trigger] free[j] as int) < slots.len() && slots[free[j] as int] is None
    &&& forall|i: int| 0 <= i < slots.len() && #[trigger] slots[i] is None ==> free.contains(i as usize)
}

proof fn lemma_remove_insert<A>(s: Seq<A>, i: int, x: A)
    requires
        0 <= i < s.len(),
    ensures
        s.remove(i).insert(i, x) =~= s.update(i, x),
{
}

/// Move a fresh node into an empty slot (or a new one) and return its slot.
fn arena_alloc<N: Node>(slots: &mut Vec<Option<N>>, free: &mut Vec<usize>, node: N) -> (i: usize)
    requires
        arena_inv(old(slots)@, old(free)@),
    ensures
        arena_inv(final(slots)@, final(free)@),
        i < final(slots)@.len(),
        final(slots)@[i as int] == Some(node),
        forall|j: int| 0 <= j < old(slots)@.len() && j != i ==> final(slots)@[j] == old(slots)@[j],
        final(slots)@.len() == old(slots)@.len() || (final(slots)@.len() == old(slots)@.len() + 1
            && i == old(slots)@.len()),
        i < old(slots)@.len() ==> old(slots)@[i as int] is None,
{
    match free.pop() {
        Some(i) => {
            let _ = slots.remove(i);
            slots.insert(i, Some(node));
            proof {
                lemma_remove_insert(old(slots)@, i as int, Some(node));
                assert forall|k: int|
                    0 <= k < slots@.len() && #[trigger] slots@[k] is None implies free@.contains(
                    k as usize,
                ) by {
                    assert(old(free)@.contains(k as usize));
                    let w = choose|w: int| 0 <= w < old(free)@.len() && old(free)@[w] == k as usize;
                    assert(w < old(free)@.len() - 1);
                    assert(free@[w] == k as usize);
                }
            }
            i
        },
        None => {
            slots.push(Some(node));
            proof {
                vstd::std_specs::vec::axiom_spec_len(&*slots);
                assert forall|k: int|
                    0 <= k < slots@.len() && #[trigger] slots@[k] is None implies free@.contains(
                    k as usize,
                ) by {
                    assert(k < old(slots)@.len());
                }
            }
            slots.len() - 1
        },
    }
}

/// Move the node in slot `i` out of the arena, leaving the slot empty.
fn arena_take<N: Node>(slots: &mut Vec<Option<N>>, free: &mut Vec<usize>, i: usize) -> (node: N)
    requires
        arena_inv(old(slots)@, old(free)@),
        i < old(slots)@.len(),
        old(slots)@[i as int] is Some,
    ensures
        arena_inv(final(slots)@, final(free)@),
        final(slots)@.len() == old(slots)@.len(),
        final(slots)@[i as int] is None,
        forall|j: int| 0 <= j < final(slots)@.len() && j != i ==> final(slots)@[j] == old(slots)@[j],
        node == old(slots)@[i as int].unwrap(),
{
    let node = slots.remove(i).unwrap();
    slots.insert(i, None);
    free.push(i);
    proof {
        lemma_remove_insert(old(slots)@, i as int, None);
        assert forall|k: int|
            0 <= k < slots@.len() && #[trigger] slots@[k] is None implies free@.contains(k as usize) by {
            if k == i {
                assert(free@[free@.len() - 1] == i);
            } else {
                assert(old(free)@.contains(k as usize));
                let w = choose|w: int| 0 <= w < old(free)@.len() && old(free)@[w] == k as usize;
                assert(free@[w] == k as usize);
            }
        }
    }
    node
}

/// Borrow the node in slot `i`.
fn arena_get<N: Node>(slots: &Vec<Option<N>>, i: usize) -> (r: &N)
    requires
        i < slots@.len(),
        slots@[i as int] is Some,
    ensures
        *r == slots@[i as int].unwrap(),
{
    slots[i].as_ref().unwrap()
}

/// Rewrite the previous link of the node in slot `i`.
fn arena_set_prev<N: Node>(slots: &mut Vec<Option<N>>, i: usize, l: Link)
    requires
        i < old(slots)@.len(),
        old(slots)@[i as int] is Some,
    ensures
        final(slots)@.len() == old(slots)@.len(),
        forall|j: int| 0 <= j < final(slots)@.len() && j != i ==> final(slots)@[j] == old(slots)@[j],
        final(slots)@[i as int] is Some,
        final(slots)@[i as int].unwrap().prev_link() == l,
        final(slots)@[i as int].unwrap().next_link() == old(slots)@[i as int].unwrap().next_link(),
        final(slots)@[i as int].unwrap().payload() == old(slots)@[i as int].unwrap().payload(),
{
    let mut node = slots.remove(i).unwrap();
    node.set_prev(l);
    slots.insert(i, Some(node));
    proof {
        lemma_remove_insert(old(slots)@, i as int, Some(node));
    }
}

/// Rewrite the next link of the node in slot `i`.
fn arena_set_next<N: Node>(slots: &mut Vec<Option<N>>, i: usize, l: Link)
    requires
        i < old(slots)@.len(),
        old(slots)@[i as int] is Some,
    ensures
        final(slots)@.len() == old(slots)@.len(),
        forall|j: int| 0 <= j < final(slots)@.len() && j != i ==> final(slots)@[j] == old(slots)@[j],
        final(slots)@[i as int] is Some,
        final(slots)@[i as int].unwrap().next_link() == l,
        final(slots)@[i as int].unwrap().prev_link() == old(slots)@[i as int].unwrap().prev_link(),
        final(slots)@[i as int].unwrap().payload() == old(slots)@[i as int].unwrap().payload(),
{
    let mut node = slots.remove(i).unwrap();
    node.set_next(l);
    slots.insert(i, Some(node));
    proof {
        lemma_remove_insert(old(slots)@, i as int, Some(node));
    }
}

/// An intrusive doubly-linked list.
///
/// The list owns every node currently linked into it: no caller-held owning
/// handle to a resident node exists at the same time. That exclusive
/// ownership is the soundness property the whole design protects, and here
/// it is enforced by construction: nodes resident in the list are stored in
/// the list's own arena and reachable only through links.
pub struct List<T, N> where T: OwnedRef<N>, N: Node {
    slots: Vec<Option<N>>,
    free: Vec<usize>,
    head: Link,
    tail: Link,
    length: usize,
    order: Ghost<Seq<usize>>,
    _handle: PhantomData<T>,
}

impl<T, N> View for List<T, N> where T: OwnedRef<N>, N: Node {
    type V = Seq<N::Payload>;

    /// The list abstracts to the sequence of stored payloads, head first.
    closed spec fn view(&self) -> Seq<N::Payload> {
        Seq::new(self.order@.len(), |k: int| self.node_at(k).payload())
    }
}

impl<T, N> List<T, N> where T: OwnedRef<N>, N: Node {
    /// The slots of the resident nodes, in list order, head first.
    pub closed spec fn slot_order(&self) -> Seq<usize> {
        self.order@
    }

    closed spec fn node_at(&self, k: int) -> N {
        self.slots@[self.order@[k] as int].unwrap()
    }

    /// The node at position `k` is stored and linked to its neighbours.
    closed spec fn linked_at(&self, k: int) -> bool {
        let ord = self.order@;
        &&& (ord[k] as int) < self.slots@.len()
        &&& self.slots@[ord[k] as int] is Some
        &&& self.node_at(k).prev_link().target() == (if k == 0 {
            None::<usize>
        } else {
            Some(ord[k - 1])
        })
        &&& self.node_at(k).next_link().target() == (if k == ord.len() - 1 {
            None::<usize>
        } else {
            Some(ord[k + 1])
        })
    }

    /// The doubly-linked invariant: the count equals the number of resident
    /// nodes, the chain from head to tail is acyclic and mutually linked,
    /// head and tail are absent exactly when the list is empty, and the
    /// free-slot bookkeeping matches the arena.
    pub closed spec fn wf(&self) -> bool {
        let ord = self.order@;
        &&& self.length == ord.len()
        &&& ord.no_duplicates()
        &&& forall|k: int| 0 <= k < ord.len() ==> #[trigger] self.linked_at(k)
        &&& self.head.target() == (if ord.len() == 0 {
            None::<usize>
        } else {
            Some(ord[0])
        })
        &&& self.tail.target() == (if ord.len() == 0 {
            None::<usize>
        } else {
            Some(ord[ord.len() - 1])
        })
        &&& forall|i: int|
            0 <= i < self.slots@.len() ==> ((#[trigger] self.slots@[i] is Some) <==> self.order@.contains(
                i as usize,
            ))
        &&& arena_inv(self.slots@, self.free@)
    }

    /// Construct a new list with zero elements.
    pub fn new() -> (l: Self)
        ensures
            l.wf(),
            l@ == Seq::<N::Payload>::empty(),
    {
        let l = List {
            slots: Vec::new(),
            free: Vec::new(),
            head: Link::absent(),
            tail: Link::absent(),
            length: 0,
            order: Ghost(Seq::empty()),
            _handle: PhantomData,
        };
        proof {
            assert(l@ =~= Seq::<N::Payload>::empty());
        }
        l
    }

    /// Returns the length of the list.
    pub fn len(&self) -> (n: usize)
        requires
            self.wf(),
        ensures
            n == self@.len(),
    {
        self.length
    }

    /// Returns true if the list is empty.
    pub fn is_empty(&self) -> (r: bool)
        requires
            self.wf(),
        ensures
            r <==> self@.len() == 0,
    {
        self.head.is_none()
    }

    /// Borrows the first element of the list, or `None` if it is empty.
    pub fn front(&self) -> (r: Option<&N>)
        requires
            self.wf(),
        ensures
            self@.len() == 0 ==> r is None,
            self@.len() > 0 ==> (r matches Some(n) && n.payload() == self@[0]),
    {
        match self.head.resolve() {
            None => None,
            Some(i) => {
                proof {
                    assert(self.linked_at(0));
                }
                Some(arena_get(&self.slots, i))
            },
        }
    }

    /// Borrows the last element of the list, or `None` if it is empty.
    pub fn back(&self) -> (r: Option<&N>)
        requires
            self.wf(),
        ensures
            self@.len() == 0 ==> r is None,
            self@.len() > 0 ==> (r matches Some(n) && n.payload() == self@[self@.len() - 1]),
    {
        match self.tail.resolve() {
            None => None,
            Some(i) => {
                proof {
                    assert(self.linked_at(self.order@.len() - 1));
                }
                Some(arena_get(&self.slots, i))
            },
        }
    }

    /// Borrows the element at the front of the list, or `None` if it is
    /// empty. `front`-named accessors address the head end.
    pub fn peek_front(&self) -> (r: Option<&N>)
        requires
            self.wf(),
        ensures
            self@.len() == 0 ==> r is None,
            self@.len() > 0 ==> (r matches Some(n) && n.payload() == self@[0]),
    {
        self.front()
    }

    /// Push an element to the front of the list. Ownership of the element
    /// moves into the list; its links are fully wired before it is released.
    pub fn push_front(&mut self, item: T)
        requires
            old(self).wf(),
            old(self)@.len() < usize::MAX,
        ensures
            final(self).wf(),
            final(self)@ == seq![item.node_of().payload()] + old(self)@,
    {
        let mut node = item.take();
        node.set_prev(Link::absent());
        match self.head.resolve() {
            None => {
                node.set_next(Link::absent());
                let i = arena_alloc(&mut self.slots, &mut self.free, node);
                self.head = Link::present(i);
                self.tail = Link::present(i);
                self.length = self.length + 1;
                proof {
                    self.order@ = seq![i];
                    assert(self.linked_at(0));
                    assert(self.wf());
                    assert(self@ =~= seq![item.node_of().payload()] + old(self)@);
                }
            },
            Some(h) => {
                proof {
                    assert(old(self).linked_at(0));
                }
                node.set_next(Link::present(h));
                let i = arena_alloc(&mut self.slots, &mut self.free, node);
                proof {
                    assert(!old(self).order@.contains(i)) by {
                        if old(self).order@.contains(i) {
                            let w = choose|w: int|
                                0 <= w < old(self).order@.len() && old(self).order@[w] == i;
                            assert(old(self).linked_at(w));
                        }
                    }
                }
                arena_set_prev(&mut self.slots, h, Link::present(i));
                self.head = Link::present(i);
                self.length = self.length + 1;
                proof {
                    let ord0 = old(self).order@;
                    self.order@ = seq![i] + ord0;
                    assert forall|k: int| 0 <= k < self.order@.len() implies #[trigger] self.linked_at(
                        k,
                    ) by {
                        if k == 0 {
                        } else {
                            assert(old(self).linked_at(k - 1));
                            assert(ord0[k - 1] != i);
                            if k >= 2 {
                                assert(ord0[k - 2] != i);
                            }
                            if ord0[k - 1] == h {
                                assert(k - 1 == 0) by {
                                    if k - 1 != 0 {
                                        assert(old(self).linked_at(k - 1));
                                        assert(old(self).linked_at(0));
                                    }
                                }
                            }
                        }
                    }
                    assert forall|j: int|
                        0 <= j < self.slots@.len() implies ((#[trigger] self.slots@[j] is Some)
                        <==> self.order@.contains(j as usize)) by {
                        if j == i {
                            assert(self.order@[0] == i);
                        } else if self.order@.contains(j as usize) {
                            let w = choose|w: int|
                                0 <= w < self.order@.len() && self.order@[w] == j as usize;
                            assert(self.order@[w] == ord0[w - 1]);
                        } else {
                            if j < old(self).slots@.len() {
                                if old(self).slots@[j] is Some {
                                    let w = choose|w: int| 0 <= w < ord0.len() && ord0[w] == j as usize;
                                    assert(self.order@[w + 1] == j as usize);
                                }
                            }
                        }
                    }
                    assert(self.wf());
                    assert forall|k: int|
                        0 <= k < self.order@.len() implies self.node_at(k).payload() == (seq![
                        item.node_of().payload(),
                    ] + old(self)@)[k] by {
                        if k == 0 {
                            assert(ord0[0] == h);
                            if h == i {
                                assert(ord0.contains(i));
                            }
                            assert(self.slots@[i as int].unwrap().payload() == item.node_of().payload());
                        } else {
                            assert(old(self).linked_at(k - 1));
                            assert(ord0[k - 1] != i);
                            assert(old(self)@[k - 1] == old(self).node_at(k - 1).payload());
                        }
                    }
                    assert(self@ =~= seq![item.node_of().payload()] + old(self)@);
                }
            },
        }
    }

    /// Push an element to the back of the list. Ownership of the element
    /// moves into the list; its links are fully wired before it is released.
    pub fn push_back(&mut self, item: T)
        requires
            old(self).wf(),
            old(self)@.len() < usize::MAX,
        ensures
            final(self).wf(),
            final(self)@ == old(self)@.push(item.node_of().payload()),
    {
        let mut node = item.take();
        node.set_next(Link::absent());
        match self.tail.resolve() {
            None => {
                node.set_prev(Link::absent());
                let i = arena_alloc(&mut self.slots, &mut self.free, node);
                self.head = Link::present(i);
                self.tail = Link::present(i);
                self.length = self.length + 1;
                proof {
                    self.order@ = seq![i];
                    assert(self.linked_at(0));
                    assert(self.wf());
                    assert(self@ =~= old(self)@.push(item.node_of().payload()));
                }
            },
            Some(t) => {
                proof {
                    assert(old(self).linked_at(old(self).order@.len() - 1));
                }
                node.set_prev(Link::present(t));
                let i = arena_alloc(&mut self.slots, &mut self.free, node);
                proof {
                    assert(!old(self).order@.contains(i)) by {
                        if old(self).order@.contains(i) {
                            let w = choose|w: int|
                                0 <= w < old(self).order@.len() && old(self).order@[w] == i;
                            assert(old(self).linked_at(w));
                        }
                    }
                }
                arena_set_next(&mut self.slots, t, Link::present(i));
                self.tail = Link::present(i);
                self.length = self.length + 1;
                proof {
                    let ord0 = old(self).order@;
                    let m = ord0.len() as int;
                    self.order@ = ord0.push(i);
                    assert forall|k: int| 0 <= k < self.order@.len() implies #[trigger] self.linked_at(
                        k,
                    ) by {
                        if k == m {
                            assert(self.order@[m] == i);
                        } else {
                            assert(old(self).linked_at(k));
                            assert(ord0[k] != i);
                            if k > 0 {
                                assert(ord0[k - 1] != i);
                            }
                            if ord0[k] == t {
                                assert(k == m - 1) by {
                                    if k != m - 1 {
                                        assert(old(self).linked_at(k));
                                        assert(old(self).linked_at(m - 1));
                                    }
                                }
                            }
                        }
                    }
                    assert forall|j: int|
                        0 <= j < self.slots@.len() implies ((#[trigger] self.slots@[j] is Some)
                        <==> self.order@.contains(j as usize)) by {
                        if j == i {
                            assert(self.order@[m] == i);
                        } else if self.order@.contains(j as usize) {
                            let w = choose|w: int|
                                0 <= w < self.order@.len() && self.order@[w] == j as usize;
                            assert(w < m);
                            assert(ord0[w] == j as usize);
                        } else {
                            if j < old(self).slots@.len() {
                                if old(self).slots@[j] is Some {
                                    let w = choose|w: int| 0 <= w < ord0.len() && ord0[w] == j as usize;
                                    assert(self.order@[w] == j as usize);
                                }
                            }
                        }
                    }
                    assert(self.wf());
                    assert forall|k: int|
                        0 <= k < self.order@.len() implies self.node_at(k).payload() == old(
                        self,
                    )@.push(item.node_of().payload())[k] by {
                        if k == m {
                            assert(ord0[m - 1] == t);
                            if t == i {
                                assert(ord0.contains(i));
                            }
                            assert(self.slots@[i as int].unwrap().payload() == item.node_of().payload());
                        } else {
                            assert(old(self).linked_at(k));
                            assert(ord0[k] != i);
                            assert(old(self)@[k] == old(self).node_at(k).payload());
                        }
                    }
                    assert(self@ =~= old(self)@.push(item.node_of().payload()));
                }
            },
        }
    }

    /// Removes and returns the element at the front of the list, or `None`
    /// if the list is empty. The returned handle owns the node again; the
    /// node's links are left absent.
    pub fn pop_front(&mut self) -> (r: Option<T>)
        requires
            old(self).wf(),
        ensures
            final(self).wf(),
            old(self)@.len() == 0 ==> r is None && final(self)@ == old(self)@,
            old(self)@.len() > 0 ==> (r matches Some(t) && t.node_of().payload() == old(self)@[0]
                && t.node_of().prev_link().target() is None
                && t.node_of().next_link().target() is None && final(self)@ == old(self)@.drop_first()),
    {
        let h = self.head.take();
        match h.resolve() {
            None => {
                proof {
                    assert(self@ =~= old(self)@);
                }
                None
            },
            Some(i) => {
                proof {
                    assert(old(self).linked_at(0));
                }
                let mut node = arena_take(&mut self.slots, &mut self.free, i);
                let nxt = node.next();
                node.set_next(Link::absent());
                node.set_prev(Link::absent());
                match nxt.resolve() {
                    None => {
                        self.tail = Link::absent();
                    },
                    Some(j) => {
                        proof {
                            assert(old(self).linked_at(1));
                            assert(old(self).order@[1] != i);
                        }
                        arena_set_prev(&mut self.slots, j, Link::absent());
                        self.head = Link::present(j);
                    },
                }
                self.length = self.length - 1;
                proof {
                    let ord0 = old(self).order@;
                    self.order@ = ord0.drop_first();
                    assert forall|k: int| 0 <= k < self.order@.len() implies #[trigger] self.linked_at(
                        k,
                    ) by {
                        assert(old(self).linked_at(k + 1));
                        assert(ord0[k + 1] != i);
                        if k > 0 {
                            assert(old(self).linked_at(k));
                            assert(ord0[k] != i);
                        }
                    }
                    assert forall|j: int|
                        0 <= j < self.slots@.len() implies ((#[trigger] self.slots@[j] is Some)
                        <==> self.order@.contains(j as usize)) by {
                        if j == i {
                            if self.order@.contains(j as usize) {
                                let w = choose|w: int|
                                    0 <= w < self.order@.len() && self.order@[w] == j as usize;
                                assert(ord0[w + 1] == i);
                                assert(ord0[0] == i);
                            }
                        } else if self.order@.contains(j as usize) {
                            let w = choose|w: int|
                                0 <= w < self.order@.len() && self.order@[w] == j as usize;
                            assert(ord0[w + 1] == j as usize);
                        } else {
                            if old(self).slots@[j] is Some {
                                let w = choose|w: int| 0 <= w < ord0.len() && ord0[w] == j as usize;
                                assert(w != 0);
                                assert(self.order@[w - 1] == j as usize);
                            }
                        }
                    }
                    assert(self.wf());
                    assert forall|k: int|
                        0 <= k < self.order@.len() implies self.node_at(k).payload() == old(
                        self,
                    )@[k + 1] by {
                        assert(old(self).linked_at(k + 1));
                        assert(ord0[k + 1] != i);
                        assert(old(self)@[k + 1] == old(self).node_at(k + 1).payload());
                    }
                    assert(self@ =~= old(self)@.drop_first());
                }
                Some(T::from_raw(node))
            },
        }
    }

    /// Removes and returns the element at the end of the list, or `None`
    /// if the list is empty. The returned handle owns the node again; the
    /// node's links are left absent.
    pub fn pop_back(&mut self) -> (r: Option<T>)
        requires
            old(self).wf(),
        ensures
            final(self).wf(),
            old(self)@.len() == 0 ==> r is None && final(self)@ == old(self)@,
            old(self)@.len() > 0 ==> (r matches Some(t) && t.node_of().payload() == old(self)@[old(
                self,
            )@.len() - 1] && t.node_of().prev_link().target() is None
                && t.node_of().next_link().target() is None && final(self)@ == old(self)@.drop_last()),
    {
        let tl = self.tail.take();
        match tl.resolve() {
            None => {
                proof {
                    assert(self@ =~= old(self)@);
                }
                None
            },
            Some(i) => {
                proof {
                    assert(old(self).linked_at(old(self).order@.len() - 1));
                }
                let mut node = arena_take(&mut self.slots, &mut self.free, i);
                let prv = node.prev();
                node.set_next(Link::absent());
                node.set_prev(Link::absent());
                match prv.resolve() {
                    None => {
                        self.head = Link::absent();
                    },
                    Some(j) => {
                        proof {
                            assert(old(self).linked_at(old(self).order@.len() - 2));
                            assert(old(self).order@[old(self).order@.len() - 2] != i);
                        }
                        arena_set_next(&mut self.slots, j, Link::absent());
                        self.tail = Link::present(j);
                    },
                }
                self.length = self.length - 1;
                proof {
                    let ord0 = old(self).order@;
                    let m = ord0.len() - 1;
                    self.order@ = ord0.drop_last();
                    assert forall|k: int| 0 <= k < self.order@.len() implies #[trigger] self.linked_at(
                        k,
                    ) by {
                        assert(old(self).linked_at(k));
                        assert(ord0[k] != i);
                        if k > 0 {
                            assert(ord0[k - 1] != i);
                        }
                        if k < m - 1 {
                            assert(old(self).linked_at(k + 1));
                            assert(ord0[k + 1] != i);
                        }
                    }
                    assert forall|j: int|
                        0 <= j < self.slots@.len() implies ((#[trigger] self.slots@[j] is Some)
                        <==> self.order@.contains(j as usize)) by {
                        if j == i {
                            if self.order@.contains(j as usize) {
                                let w = choose|w: int|
                                    0 <= w < self.order@.len() && self.order@[w] == j as usize;
                                assert(ord0[w] == i);
                                assert(ord0[m] == i);
                            }
                        } else if self.order@.contains(j as usize) {
                            let w = choose|w: int|
                                0 <= w < self.order@.len() && self.order@[w] == j as usize;
                            assert(ord0[w] == j as usize);
                        } else {
                            if old(self).slots@[j] is Some {
                                let w = choose|w: int| 0 <= w < ord0.len() && ord0[w] == j as usize;
                                assert(w != m);
                                assert(self.order@[w] == j as usize);
                            }
                        }
                    }
                    assert(self.wf());
                    assert forall|k: int|
                        0 <= k < self.order@.len() implies self.node_at(k).payload() == old(
                        self,
                    )@[k] by {
                        assert(old(self).linked_at(k));
                        assert(ord0[k] != i);
                        assert(old(self)@[k] == old(self).node_at(k).payload());
                    }
                    assert(self@ =~= old(self)@.drop_last());
                }
                Some(T::from_raw(node))
            },
        }
    }
}

impl<T, N> List<T, N> where T: OwnedRef<N>, N: Node {
    /// Returns a cursor for iterating over or modifying the list, positioned
    /// before the first element. The cursor takes the list over for as long
    /// as it lives — the exclusive access the pointer surgery demands — and
    /// `into_list` gives it back.
    pub fn cursor(self) -> (c: ListCursor<T, N>)
        requires
            self.wf(),
        ensures
            c.wf(),
            c.list_view() == self@,
            c.pos() == 0,
    {
        ListCursor { list: self, current: Link::absent(), passed: Ghost(0) }
    }
}

/// Some node carrying this payload is one the predicate may accept. The
/// predicate is an arbitrary executable closure, so the contracts speak of
/// its possible answers, never of "the" answer.
pub open spec fn may_accept<N: Node, P: Fn(&N) -> bool>(pred: P, payload: N::Payload) -> bool {
    exists|n: N| n.payload() == payload && pred.ensures((&n,), true)
}

/// Some node carrying this payload is one the predicate may reject.
pub open spec fn may_reject<N: Node, P: Fn(&N) -> bool>(pred: P, payload: N::Payload) -> bool {
    exists|n: N| n.payload() == payload && pred.ensures((&n,), false)
}

/// A predicate that answers by payload alone and accepts exactly the
/// payload at one position removes exactly that element: when
/// `find_and_remove` succeeds under such a predicate, the position it
/// removed is the matching one. The hypotheses are the facts
/// `find_and_remove` ensures of a successful call, plus what "matching
/// exactly one resident node" means; the conclusion pins the removal down.
pub proof fn lemma_unique_match_removes_it<N: Node, P: Fn(&N) -> bool>(
    pred: P,
    view: Seq<N::Payload>,
    pos0: int,
    i: int,
    k: int,
)
    requires
        pos0 <= i < view.len(),
        may_accept(pred, view[i]),
        forall|n: N, b: bool| #[trigger] pred.ensures((&n,), b) ==> (b <==> n.payload() == view[k]),
        pos0 <= k < view.len(),
        forall|j: int| pos0 <= j < view.len() && view[j] == view[k] ==> j == k,
    ensures
        i == k,
        view[i] == view[k],
{
    let n = choose|n: N| n.payload() == view[i] && pred.ensures((&n,), true);
    assert(n.payload() == view[k]);
}

/// A movable traversal handle bound to one list, supporting forward
/// stepping, look-ahead without moving, in-place removal of the node just
/// ahead, and removal-by-predicate.
pub struct ListCursor<T, N> where T: OwnedRef<N>, N: Node {
    list: List<T, N>,
    current: Link,
    passed: Ghost<int>,
}

impl<T, N> ListCursor<T, N> where T: OwnedRef<N>, N: Node {
    /// The payloads of the underlying list, head first.
    pub closed spec fn list_view(&self) -> Seq<N::Payload> {
        self.list@
    }

    /// How many nodes the cursor has stepped past: 0 means "before the
    /// first element", and the node just ahead sits at this index.
    pub closed spec fn pos(&self) -> int {
        self.passed@
    }

    /// The cursor is bound to a well-formed list and stands on it.
    pub closed spec fn wf(&self) -> bool {
        &&& self.list.wf()
        &&& 0 <= self.passed@ <= self.list@.len()
        &&& self.current.target() == (if self.passed@ == 0 {
            None::<usize>
        } else {
            Some(self.list.slot_order()[self.passed@ - 1])
        })
    }

    /// Give the underlying list back.
    pub fn into_list(self) -> (l: List<T, N>)
        requires
            self.wf(),
        ensures
            l.wf(),
            l@ == self.list_view(),
    {
        self.list
    }

    /// Advance the cursor by one position and borrow the node it moved
    /// onto, if any. Stepping past the tail returns the cursor to the
    /// position before the first element.
    pub fn next(&mut self) -> (r: Option<&N>)
        requires
            old(self).wf(),
        ensures
            final(self).wf(),
            final(self).list_view() == old(self).list_view(),
            old(self).pos() < old(self).list_view().len() ==> (r matches Some(n) && n.payload()
                == old(self).list_view()[old(self).pos()] && final(self).pos() == old(self).pos()
                + 1),
            old(self).pos() == old(self).list_view().len() ==> r is None && final(self).pos() == 0,
    {
        let cur = self.current.take();
        match cur.resolve() {
            None => {
                match self.list.head.resolve() {
                    None => None,
                    Some(h) => {
                        self.current = Link::present(h);
                        proof {
                            self.passed@ = 1;
                            assert(self.list.linked_at(0));
                        }
                        Some(arena_get(&self.list.slots, h))
                    },
                }
            },
            Some(c) => {
                proof {
                    assert(self.list.linked_at(self.passed@ - 1));
                }
                let n = arena_get(&self.list.slots, c).next();
                match n.resolve() {
                    None => {
                        proof {
                            self.passed@ = 0;
                        }
                        None
                    },
                    Some(j) => {
                        self.current = Link::present(j);
                        proof {
                            self.passed@ = self.passed@ + 1;
                            assert(self.list.linked_at(self.passed@ - 1));
                        }
                        Some(arena_get(&self.list.slots, j))
                    },
                }
            },
        }
    }

    /// Report the node `next` would move to, without moving: the list's
    /// front when the cursor is before the first element, otherwise the
    /// current node's next neighbour.
    pub fn peek_next(&self) -> (r: Option<&N>)
        requires
            self.wf(),
        ensures
            self.pos() < self.list_view().len() ==> (r matches Some(n) && n.payload()
                == self.list_view()[self.pos()]),
            self.pos() == self.list_view().len() ==> r is None,
    {
        match self.current.resolve() {
            None => self.list.front(),
            Some(c) => {
                proof {
                    assert(self.list.linked_at(self.passed@ - 1));
                }
                match arena_get(&self.list.slots, c).next().resolve() {
                    None => None,
                    Some(j) => {
                        proof {
                            assert(self.list.linked_at(self.passed@));
                        }
                        Some(arena_get(&self.list.slots, j))
                    },
                }
            },
        }
    }

    /// Remove and return the node immediately following the cursor's
    /// position — the node `peek_next` reports — or `None` if there is
    /// none. The cursor itself does not move. The returned handle owns the
    /// node again; the node's links are left absent.
    #[verifier::rlimit(100)]
    #[verifier::spinoff_prover]
    pub fn remove(&mut self) -> (r: Option<T>)
        requires
            old(self).wf(),
        ensures
            final(self).wf(),
            final(self).pos() == old(self).pos(),
            old(self).pos() < old(self).list_view().len() ==> (r matches Some(t)
                && t.node_of().payload() == old(self).list_view()[old(self).pos()]
                && t.node_of().prev_link().target() is None
                && t.node_of().next_link().target() is None
                && final(self).list_view() == old(self).list_view().remove(old(self).pos())),
            old(self).pos() == old(self).list_view().len() ==> r is None
                && final(self).list_view() == old(self).list_view(),
    {
        match self.current.resolve() {
            None => {
                let r = self.list.pop_front();
                proof {
                    if old(self).list_view().len() > 0 {
                        assert(old(self).list_view().remove(0) =~= old(
                            self,
                        ).list_view().drop_first());
                    }
                }
                r
            },
            Some(c) => {
                proof {
                    assert(self.list.linked_at(self.passed@ - 1));
                }
                let vlink = arena_get(&self.list.slots, c).next();
                match vlink.resolve() {
                    None => None,
                    Some(v) => {
                        proof {
                            assert(self.list.linked_at(self.passed@));
                            assert(self.list.order@[self.passed@] == v);
                            assert(c != v);
                        }
                        let mut victim = arena_take(
                            &mut self.list.slots,
                            &mut self.list.free,
                            v,
                        );
                        let after = victim.next();
                        victim.set_next(Link::absent());
                        victim.set_prev(Link::absent());
                        match after.resolve() {
                            None => {
                                arena_set_next(&mut self.list.slots, c, Link::absent());
                                self.list.tail = Link::present(c);
                            },
                            Some(n2) => {
                                proof {
                                    assert(old(self).list.linked_at(self.passed@ + 1));
                                    assert(n2 != v && n2 != c);
                                }
                                arena_set_prev(&mut self.list.slots, n2, Link::present(c));
                                arena_set_next(&mut self.list.slots, c, Link::present(n2));
                            },
                        }
                        self.list.length = self.list.length - 1;
                        proof {
                            let p = self.passed@;
                            let ord0 = old(self).list.order@;
                            self.list.order@ = ord0.remove(p);
                            let ord = self.list.order@;
                            assert forall|k: int|
                                0 <= k < ord.len() implies #[trigger] self.list.linked_at(k) by {
                                assert(old(self).list.linked_at(k));
                                assert(old(self).list.linked_at(if k < p {
                                    k
                                } else {
                                    k + 1
                                }));
                                if k + 1 < ord.len() {
                                    assert(old(self).list.linked_at(if k + 1 < p {
                                        k + 1
                                    } else {
                                        k + 2
                                    }));
                                }
                                if k > 0 {
                                    assert(old(self).list.linked_at(if k - 1 < p {
                                        k - 1
                                    } else {
                                        k
                                    }));
                                }
                            }
                            assert forall|j: int|
                                0 <= j < self.list.slots@.len() implies ((
                                #[trigger] self.list.slots@[j] is Some) <==> ord.contains(
                                    j as usize,
                                )) by {
                                if j == v {
                                    if ord.contains(j as usize) {
                                        let w = choose|w: int|
                                            0 <= w < ord.len() && ord[w] == j as usize;
                                        assert(ord0[if w < p {
                                            w
                                        } else {
                                            w + 1
                                        }] == v);
                                        assert(ord0[p] == v);
                                    }
                                } else if ord.contains(j as usize) {
                                    let w = choose|w: int|
                                        0 <= w < ord.len() && ord[w] == j as usize;
                                    assert(ord0[if w < p {
                                        w
                                    } else {
                                        w + 1
                                    }] == j as usize);
                                } else {
                                    if old(self).list.slots@[j] is Some {
                                        let w = choose|w: int|
                                            0 <= w < ord0.len() && ord0[w] == j as usize;
                                        assert(w != p);
                                        assert(ord[if w < p {
                                            w
                                        } else {
                                            w - 1
                                        }] == j as usize);
                                    }
                                }
                            }
                            assert(self.list.wf());
                            assert forall|k: int|
                                0 <= k < ord.len() implies self.list.node_at(k).payload() == old(
                                self,
                            ).list_view().remove(p)[k] by {
                                let k0: int = if k < p {
                                    k
                                } else {
                                    k + 1
                                };
                                assert(old(self).list.linked_at(k0));
                                assert(ord0[k0] != v);
                                assert(old(self).list_view()[k0] == old(self).list.node_at(
                                    k0,
                                ).payload());
                            }
                            assert(self.list@ =~= old(self).list_view().remove(p));
                        }
                        Some(T::from_raw(victim))
                    },
                }
            },
        }
    }

    /// Scan forward from the cursor's position: report each node ahead to
    /// the predicate, remove and return the first node it accepts, and
    /// advance past the nodes it rejects. Returns `None`, with the whole
    /// list intact and the cursor at the tail, when no node ahead matches.
    pub fn find_and_remove<P: Fn(&N) -> bool>(&mut self, predicate: P) -> (r: Option<T>)
        requires
            old(self).wf(),
            forall|n: N| #[trigger] predicate.requires((&n,)),
        ensures
            final(self).wf(),
            r matches Some(t) ==> exists|i: int|
                old(self).pos() <= i < old(self).list_view().len()
                    && t.node_of().payload() == old(self).list_view()[i]
                    && #[trigger] final(self).list_view() =~= old(self).list_view().remove(i)
                    && final(self).pos() == i
                    && may_accept(predicate, old(self).list_view()[i])
                    && (forall|j: int|
                        old(self).pos() <= j < i ==> #[trigger] may_reject(
                            predicate,
                            old(self).list_view()[j],
                        )),
            r is None ==> final(self).list_view() == old(self).list_view() && final(self).pos()
                == old(self).list_view().len() && (forall|j: int|
                old(self).pos() <= j < old(self).list_view().len() ==> #[trigger] may_reject(
                    predicate,
                    old(self).list_view()[j],
                )),
    {
        loop
            invariant
                self.wf(),
                self.list_view() == old(self).list_view(),
                old(self).pos() <= self.pos() <= self.list_view().len(),
                forall|n: N| #[trigger] predicate.requires((&n,)),
                forall|j: int|
                    old(self).pos() <= j < self.pos() ==> #[trigger] may_reject(
                        predicate,
                        old(self).list_view()[j],
                    ),
            decreases self.list_view().len() - self.pos(),
        {
            let found = match self.peek_next() {
                None => {
                    return None;
                },
                Some(node) => {
                    let ghost witness = *node;
                    let f = predicate(node);
                    proof {
                        assert(witness.payload() == self.list_view()[self.pos()]);
                        assert(predicate.ensures((&witness,), f));
                        if f {
                            assert(may_accept(predicate, self.list_view()[self.pos()]));
                        } else {
                            assert(may_reject(predicate, self.list_view()[self.pos()]));
                        }
                    }
                    f
                },
            };
            if found {
                return self.remove();
            } else {
                self.next();
            }
        }
    }
}

impl<T, N> List<T, N> where T: OwnedRef<N>, N: Node {
    /// The slots visited by following next-links from `l`, taking at most
    /// `fuel` steps.
    pub closed spec fn chain_forward_from(&self, l: Link, fuel: nat) -> Seq<usize>
        decreases fuel,
    {
        if fuel == 0 {
            Seq::empty()
        } else {
            match l.target() {
                None => Seq::empty(),
                Some(i) => seq![i] + self.chain_forward_from(
                    self.slots@[i as int].unwrap().next_link(),
                    (fuel - 1) as nat,
                ),
            }
        }
    }

    /// The slots visited by following prev-links from `l`, taking at most
    /// `fuel` steps.
    pub closed spec fn chain_backward_from(&self, l: Link, fuel: nat) -> Seq<usize>
        decreases fuel,
    {
        if fuel == 0 {
            Seq::empty()
        } else {
            match l.target() {
                None => Seq::empty(),
                Some(i) => seq![i] + self.chain_backward_from(
                    self.slots@[i as int].unwrap().prev_link(),
                    (fuel - 1) as nat,
                ),
            }
        }
    }

    /// The traversal from the head, following next-links to the tail.
    pub open spec fn chain_forward(&self) -> Seq<usize> {
        self.chain_forward_from(self.head_link(), self.slot_order().len())
    }

    /// The traversal from the tail, following prev-links to the head.
    pub open spec fn chain_backward(&self) -> Seq<usize> {
        self.chain_backward_from(self.tail_link(), self.slot_order().len())
    }

    /// The node stored in slot `i`, for speaking about traversals.
    pub closed spec fn node_in_slot(&self, i: usize) -> N {
        self.slots@[i as int].unwrap()
    }

    /// The list's head link.
    pub closed spec fn head_link(&self) -> Link {
        self.head
    }

    /// The list's tail link.
    pub closed spec fn tail_link(&self) -> Link {
        self.tail
    }

    proof fn lemma_chain_forward(&self, l: Link, k: int)
        requires
            self.wf(),
            0 <= k <= self.slot_order().len(),
            l.target() == (if k == self.slot_order().len() {
                None::<usize>
            } else {
                Some(self.slot_order()[k])
            }),
        ensures
            self.chain_forward_from(l, (self.slot_order().len() - k) as nat) =~= self.slot_order().skip(
                k,
            ),
        decreases self.slot_order().len() - k,
    {
        let ord = self.slot_order();
        if k < ord.len() {
            assert(self.linked_at(k));
            self.lemma_chain_forward(self.slots@[ord[k] as int].unwrap().next_link(), k + 1);
        }
    }

    proof fn lemma_chain_backward(&self, l: Link, m: int)
        requires
            self.wf(),
            0 <= m <= self.slot_order().len(),
            l.target() == (if m == 0 {
                None::<usize>
            } else {
                Some(self.slot_order()[m - 1])
            }),
        ensures
            self.chain_backward_from(l, m as nat) =~= self.slot_order().take(m).reverse(),
        decreases m,
    {
        let ord = self.slot_order();
        if m > 0 {
            assert(self.linked_at(m - 1));
            self.lemma_chain_backward(self.slots@[ord[m - 1] as int].unwrap().prev_link(), m - 1);
            assert(ord.take(m).reverse() =~= seq![ord[m - 1]] + ord.take(m - 1).reverse());
        }
    }

    /// Doubly-linked consistency: after any sequence of operations that left
    /// the list well-formed, traversing from the head via next-links and
    /// from the tail via prev-links visit exactly the resident nodes, in
    /// mutually reverse order, and the traversal carries the payloads the
    /// list abstracts to.
    pub proof fn lemma_doubly_linked(&self)
        requires
            self.wf(),
        ensures
            self.chain_forward() == self.slot_order(),
            self.chain_backward() == self.slot_order().reverse(),
            self.chain_forward().len() == self@.len(),
            forall|k: int|
                0 <= k < self@.len() ==> #[trigger] self.node_in_slot(
                    self.chain_forward()[k],
                ).payload() == self@[k],
    {
        let ord = self.slot_order();
        self.lemma_chain_forward(self.head_link(), 0);
        assert(ord.skip(0) =~= ord);
        self.lemma_chain_backward(self.tail_link(), ord.len() as int);
        assert(ord.take(ord.len() as int) =~= ord);
        assert forall|k: int|
            0 <= k < self@.len() implies #[trigger] self.node_in_slot(
            self.chain_forward()[k],
        ).payload() == self@[k] by {
            assert(self.linked_at(k));
        }
    }
}

/// An always-valid owning handle that carries its node by value: the
/// kernel-hosted owner, usable without a heap.
pub struct Unique<N: Node> {
    node: N,
}

impl<N: Node> OwnedRef<N> for Unique<N> {
    closed spec fn node_of(&self) -> N {
        self.node
    }

    fn from_raw(node: N) -> Self {
        Unique { node }
    }

    fn take(self) -> N {
        self.node
    }

    fn get(&self) -> &N {
        &self.node
    }
}

/// The conventional heap-owning handle, for hosted use.
impl<N: Node> OwnedRef<N> for Box<N> {
    closed spec fn node_of(&self) -> N {
        **self
    }

    fn from_raw(node: N) -> Self {
        Box::new(node)
    }

    fn take(self) -> N {
        *self
    }

    fn get(&self) -> &N {
        &**self
    }
}

} // verus!
