//! A doubly linked list whose nodes live in an arena and link to each other by
//! index. Popped nodes are handed out as detached copies, and their arena
//! slots are kept on a free list for the next push to reuse.
use crate::nodes::DoublyNode;
use vstd::prelude::*;

verus! {

pub struct DoublyLinkedList<T> {
    nodes: Vec<DoublyNode<T>>,
    head: Option<usize>,
    tail: Option<usize>,
    size: usize,
    /// Arena slots that hold no node of the list.
    free: Vec<usize>,
    /// The arena indices of the list's nodes, from head to tail.
    chain: Ghost<Seq<usize>>,
}

impl<T: Copy> View for DoublyLinkedList<T> {
    type V = Seq<T>;

    closed spec fn view(&self) -> Seq<T> {
        self.chain@.map_values(|i: usize| self.nodes@[i as int].value)
    }
}

impl<T: Copy> DoublyLinkedList<T> {
    /// The list's invariant: the chain runs from `head` to `tail` through
    /// distinct nodes of the arena, each linked both ways to its neighbours.
    pub closed spec fn wf(&self) -> bool {
        let c = self.chain@;
        let len = c.len();
        &&& self.size == len
        &&& self.free_ok()
        &&& forall|p: int| 0 <= p < len ==> #[trigger] c[p] < self.nodes@.len()
        &&& forall|p: int, q: int| 0 <= p < q < len ==> #[trigger] c[p] != #[trigger] c[q]
        &&& self.head == (if len == 0 {
            None
        } else {
            Some(c[0])
        })
        &&& self.tail == (if len == 0 {
            None
        } else {
            Some(c[len - 1])
        })
        &&& forall|p: int|
            0 <= p < len ==> #[trigger] self.nodes@[c[p] as int].prev == (if p == 0 {
                None
            } else {
                Some(c[p - 1])
            })
        &&& forall|p: int|
            0 <= p < len ==> #[trigger] self.nodes@[c[p] as int].next == (if p == len - 1 {
                None
            } else {
                Some(c[p + 1])
            })
    }

    /// The free list holds distinct arena slots, none of them on the chain,
    /// and together with the chain it accounts for every slot.
    closed spec fn free_ok(&self) -> bool {
        let f = self.free@;
        &&& self.size + f.len() == self.nodes@.len()
        &&& forall|a: int| 0 <= a < f.len() ==> #[trigger] f[a] < self.nodes@.len()
        &&& forall|a: int, b: int| 0 <= a < b < f.len() ==> #[trigger] f[a] != #[trigger] f[b]
        &&& forall|a: int, p: int|
            0 <= a < f.len() && 0 <= p < self.chain@.len() ==> #[trigger] f[a]
                != #[trigger] self.chain@[p]
    }

    /// Puts `node` in an arena slot off the chain, reusing a free one if there
    /// is one, and returns the slot.
    fn take_slot(&mut self, node: DoublyNode<T>) -> (i: usize)
        requires
            old(self).wf(),
        ensures
            i < final(self).nodes@.len(),
            final(self).nodes@[i as int] == node,
            final(self).nodes@.len() >= old(self).nodes@.len(),
            forall|p: int| 0 <= p < old(self).chain@.len() ==> old(self).chain@[p] != i,
            forall|j: int|
                0 <= j < old(self).nodes@.len() && j != i ==> #[trigger] final(self).nodes@[j]
                    == old(self).nodes@[j],
            final(self).chain@ == old(self).chain@,
            final(self).head == old(self).head,
            final(self).tail == old(self).tail,
            final(self).size == old(self).size,
            final(self).size + final(self).free@.len() + 1 == final(self).nodes@.len(),
            forall|a: int|
                0 <= a < final(self).free@.len() ==> #[trigger] final(self).free@[a]
                    < final(self).nodes@.len() && final(self).free@[a] != i,
            forall|a: int, b: int|
                0 <= a < b < final(self).free@.len() ==> #[trigger] final(self).free@[a]
                    != #[trigger] final(self).free@[b],
            forall|a: int, p: int|
                0 <= a < final(self).free@.len() && 0 <= p < final(self).chain@.len()
                    ==> #[trigger] final(self).free@[a] != #[trigger] final(self).chain@[p],
    {
        let ghost pre = *self;
        match self.free.pop() {
            Some(i) => {
                proof {
                    let f = pre.free@;
                    assert(i == f[f.len() - 1]);
                    assert forall|a: int| 0 <= a < self.free@.len() implies #[trigger] self.free@[a] != i by {
                        assert(self.free@[a] == f[a]);
                    }
                    assert forall|p: int| 0 <= p < pre.chain@.len() implies pre.chain@[p] != i by {
                        assert(f[f.len() - 1] != pre.chain@[p]);
                    }
                }
                self.nodes.set(i, node);
                i
            },
            None => {
                let i = self.nodes.len();
                self.nodes.push(node);
                i
            },
        }
    }

    pub fn new() -> (r: Self)
        ensures
            r.wf(),
            r@ == Seq::<T>::empty(),
    {
        let r = DoublyLinkedList {
            nodes: Vec::new(),
            head: None,
            tail: None,
            size: 0,
            free: Vec::new(),
            chain: Ghost(Seq::empty()),
        };
        assert(r@ =~= Seq::<T>::empty());
        r
    }

    /// The number of values in the list.
    pub fn len(&self) -> (r: usize)
        requires
            self.wf(),
        ensures
            r == self@.len(),
    {
        self.size
    }

    /// Adds `value` before the first value.
    pub fn push_front(&mut self, value: T)
        requires
            old(self).wf(),
        ensures
            final(self).wf(),
            final(self)@ == seq![value] + old(self)@,
    {
        let ghost pre = *self;
        let mut node = DoublyNode::new(value);
        node.set_next(self.head);
        let n = self.take_slot(node);
        // The arena's length fits in `usize`, and the list has fewer nodes.
        let arena_len = self.nodes.len();
        assert(self.size < arena_len);
        match self.head {
            None => {
                self.tail = Some(n);
            },
            Some(h) => {
                let mut first = self.nodes[h];
                first.set_prev(Some(n));
                self.nodes.set(h, first);
            },
        }
        self.head = Some(n);
        self.size = self.size + 1;
        self.chain = Ghost(seq![n] + pre.chain@);
        proof {
            let c = self.chain@;
            assert forall|p: int| 0 <= p < c.len() implies #[trigger] c[p] < self.nodes@.len() by {
                if p > 0 {
                    assert(c[p] == pre.chain@[p - 1]);
                }
            }
            assert forall|p: int, q: int| 0 <= p < q < c.len() implies #[trigger] c[p] != #[trigger] c[q] by {
                if p > 0 {
                    assert(c[p] == pre.chain@[p - 1]);
                }
                assert(c[q] == pre.chain@[q - 1]);
            }
            assert forall|p: int| 0 <= p < c.len() implies #[trigger] self.nodes@[c[p] as int].prev == (if p == 0 {
                None
            } else {
                Some(c[p - 1])
            }) by {
                if p > 0 {
                    assert(c[p] == pre.chain@[p - 1]);
                    if p > 1 {
                        assert(pre.chain@[p - 1] != pre.chain@[0]);
                    }
                }
            }
            assert forall|p: int| 0 <= p < c.len() implies #[trigger] self.nodes@[c[p] as int].next == (if p == c.len() - 1 {
                None
            } else {
                Some(c[p + 1])
            }) by {
                if p > 0 {
                    assert(c[p] == pre.chain@[p - 1]);
                    if p > 1 {
                        assert(pre.chain@[p - 1] != pre.chain@[0]);
                    }
                }
            }
            assert(self@ =~= seq![value] + pre@);
        }
    }

    /// Adds `value` after the last value.
    pub fn push_back(&mut self, value: T)
        requires
            old(self).wf(),
        ensures
            final(self).wf(),
            final(self)@ == old(self)@.push(value),
    {
        let ghost pre = *self;
        let mut node = DoublyNode::new(value);
        node.set_prev(self.tail);
        let n = self.take_slot(node);
        // The arena's length fits in `usize`, and the list has fewer nodes.
        let arena_len = self.nodes.len();
        assert(self.size < arena_len);
        match self.tail {
            None => {
                self.head = Some(n);
            },
            Some(t) => {
                let mut last = self.nodes[t];
                last.set_next(Some(n));
                self.nodes.set(t, last);
            },
        }
        self.tail = Some(n);
        self.size = self.size + 1;
        self.chain = Ghost(pre.chain@.push(n));
        proof {
            let c = self.chain@;
            let len = pre.chain@.len();
            assert forall|p: int| 0 <= p < c.len() implies #[trigger] c[p] < self.nodes@.len() by {
                if p < len {
                    assert(c[p] == pre.chain@[p]);
                }
            }
            assert forall|p: int, q: int| 0 <= p < q < c.len() implies #[trigger] c[p] != #[trigger] c[q] by {
                assert(c[p] == pre.chain@[p]);
                if q < len {
                    assert(c[q] == pre.chain@[q]);
                }
            }
            assert forall|p: int| 0 <= p < c.len() implies #[trigger] self.nodes@[c[p] as int].prev == (if p == 0 {
                None
            } else {
                Some(c[p - 1])
            }) by {
                if p < len {
                    assert(c[p] == pre.chain@[p]);
                    if p < len - 1 {
                        assert(pre.chain@[p] != pre.chain@[len - 1]);
                    }
                }
            }
            assert forall|p: int| 0 <= p < c.len() implies #[trigger] self.nodes@[c[p] as int].next == (if p == c.len() - 1 {
                None
            } else {
                Some(c[p + 1])
            }) by {
                if p < len {
                    assert(c[p] == pre.chain@[p]);
                    if p < len - 1 {
                        assert(pre.chain@[p] != pre.chain@[len - 1]);
                    }
                }
            }
            assert(self@ =~= pre@.push(value));
        }
    }

    /// Takes the first value off the list and returns its node, detached.
    pub fn pop_front(&mut self) -> (r: Option<DoublyNode<T>>)
        requires
            old(self).wf(),
        ensures
            final(self).wf(),
            r is None <==> old(self)@.len() == 0,
            r is None ==> final(self)@ == old(self)@,
            r matches Some(d) ==> d.value == old(self)@[0] && d.prev is None && d.next is None
                && final(self)@ == old(self)@.drop_first(),
    {
        let ghost pre = *self;
        match self.head {
            None => None,
            Some(h) => {
                let first = self.nodes[h];
                proof {
                    let c = pre.chain@;
                    assert(self.nodes@[c[0] as int].prev is None);
                    if c.len() > 1 {
                        assert(self.nodes@[c[0] as int].next == Some(c[1]));
                    }
                }
                let popped = DoublyNode::swap(&mut self.nodes, h, None);
                self.head = first.next;
                if first.next.is_none() {
                    self.tail = None;
                }
                self.size = self.size - 1;
                self.chain = Ghost(pre.chain@.drop_first());
                self.free.push(h);
                proof {
                    let c = self.chain@;
                    let pc = pre.chain@;
                    let f = self.free@;
                    let pf = pre.free@;
                    assert forall|a: int| 0 <= a < f.len() implies #[trigger] f[a] < self.nodes@.len() by {
                        if a < pf.len() {
                            assert(f[a] == pf[a]);
                        }
                    }
                    assert forall|a: int, b: int| 0 <= a < b < f.len() implies #[trigger] f[a] != #[trigger] f[b] by {
                        assert(f[a] == pf[a]);
                        if b < pf.len() {
                            assert(f[b] == pf[b]);
                        } else {
                            assert(f[b] == pc[0]);
                            assert(pf[a] != pc[0]);
                        }
                    }
                    assert forall|a: int, q: int| 0 <= a < f.len() && 0 <= q < c.len() implies #[trigger] f[a] != #[trigger] c[q] by {
                        assert(c[q] == pc[q + 1]);
                        if a < pf.len() {
                            assert(f[a] == pf[a]);
                        } else {
                            assert(f[a] == pc[0]);
                        }
                    }
                    assert forall|p: int| 0 <= p < c.len() implies #[trigger] c[p] < self.nodes@.len() by {
                        assert(c[p] == pc[p + 1]);
                    }
                    assert forall|p: int, q: int| 0 <= p < q < c.len() implies #[trigger] c[p] != #[trigger] c[q] by {
                        assert(c[p] == pc[p + 1]);
                        assert(c[q] == pc[q + 1]);
                    }
                    assert forall|p: int| 0 <= p < c.len() implies #[trigger] self.nodes@[c[p] as int].prev == (if p == 0 {
                        None
                    } else {
                        Some(c[p - 1])
                    }) by {
                        assert(c[p] == pc[p + 1]);
                        assert(pre.nodes@[pc[p + 1] as int].prev == Some(pc[p]));
                    }
                    assert forall|p: int| 0 <= p < c.len() implies #[trigger] self.nodes@[c[p] as int].next == (if p == c.len() - 1 {
                        None
                    } else {
                        Some(c[p + 1])
                    }) by {
                        assert(c[p] == pc[p + 1]);
                        assert(pre.nodes@[pc[p + 1] as int].next == (if p + 1 == pc.len() - 1 {
                            None
                        } else {
                            Some(pc[p + 2])
                        }));
                    }
                    assert(self@ =~= pre@.drop_first());
                }
                popped
            },
        }
    }

    /// Takes the last value off the list and returns its node, detached.
    pub fn pop_back(&mut self) -> (r: Option<DoublyNode<T>>)
        requires
            old(self).wf(),
        ensures
            final(self).wf(),
            r is None <==> old(self)@.len() == 0,
            r is None ==> final(self)@ == old(self)@,
            r matches Some(d) ==> d.value == old(self)@.last() && d.prev is None && d.next is None
                && final(self)@ == old(self)@.drop_last(),
    {
        let ghost pre = *self;
        match self.tail {
            None => None,
            Some(t) => {
                let last = self.nodes[t];
                proof {
                    let c = pre.chain@;
                    let len = c.len();
                    assert(self.nodes@[c[len - 1] as int].next is None);
                    if len > 1 {
                        assert(self.nodes@[c[len - 1] as int].prev == Some(c[len - 2]));
                    }
                }
                let popped = DoublyNode::swap(&mut self.nodes, t, None);
                self.tail = last.prev;
                if last.prev.is_none() {
                    self.head = None;
                }
                self.size = self.size - 1;
                self.chain = Ghost(pre.chain@.drop_last());
                self.free.push(t);
                proof {
                    let c = self.chain@;
                    let pc = pre.chain@;
                    let f = self.free@;
                    let pf = pre.free@;
                    assert forall|a: int| 0 <= a < f.len() implies #[trigger] f[a] < self.nodes@.len() by {
                        if a < pf.len() {
                            assert(f[a] == pf[a]);
                        }
                    }
                    assert forall|a: int, b: int| 0 <= a < b < f.len() implies #[trigger] f[a] != #[trigger] f[b] by {
                        assert(f[a] == pf[a]);
                        if b < pf.len() {
                            assert(f[b] == pf[b]);
                        } else {
                            assert(f[b] == pc[pc.len() - 1]);
                            assert(pf[a] != pc[pc.len() - 1]);
                        }
                    }
                    assert forall|a: int, q: int| 0 <= a < f.len() && 0 <= q < c.len() implies #[trigger] f[a] != #[trigger] c[q] by {
                        assert(c[q] == pc[q]);
                        if a < pf.len() {
                            assert(f[a] == pf[a]);
                        } else {
                            assert(f[a] == pc[pc.len() - 1]);
                        }
                    }
                    assert forall|p: int| 0 <= p < c.len() implies #[trigger] c[p] < self.nodes@.len() by {
                        assert(c[p] == pc[p]);
                    }
                    assert forall|p: int, q: int| 0 <= p < q < c.len() implies #[trigger] c[p] != #[trigger] c[q] by {
                        assert(c[p] == pc[p]);
                        assert(c[q] == pc[q]);
                    }
                    assert forall|p: int| 0 <= p < c.len() implies #[trigger] self.nodes@[c[p] as int].prev == (if p == 0 {
                        None
                    } else {
                        Some(c[p - 1])
                    }) by {
                        assert(c[p] == pc[p]);
                        assert(pre.nodes@[pc[p] as int].prev == (if p == 0 {
                            None
                        } else {
                            Some(pc[p - 1])
                        }));
                    }
                    assert forall|p: int| 0 <= p < c.len() implies #[trigger] self.nodes@[c[p] as int].next == (if p == c.len() - 1 {
                        None
                    } else {
                        Some(c[p + 1])
                    }) by {
                        assert(c[p] == pc[p]);
                        assert(pre.nodes@[pc[p] as int].next == Some(pc[p + 1]));
                    }
                    assert(self@ =~= pre@.drop_last());
                }
                popped
            },
        }
    }
}

/// Values pushed at the back of an empty list one after another, then popped
/// from the front as many times, come out in the order they went in.
/// `pushed[j + 1]` is `pushed[j]` after `push_back(values[j])`; `popped[j + 1]`
/// is `popped[j]` after a `pop_front` that returned a node with `out[j]`.
pub proof fn law_push_back_pop_front<T: Copy>(
    pushed: Seq<DoublyLinkedList<T>>,
    popped: Seq<DoublyLinkedList<T>>,
    values: Seq<T>,
    out: Seq<T>,
)
    requires
        pushed.len() == values.len() + 1,
        pushed[0]@ == Seq::<T>::empty(),
        forall|j: int| 0 <= j < values.len() ==> #[trigger] pushed[j + 1]@ == pushed[j]@.push(values[j]),
        popped.len() == values.len() + 1,
        popped[0]@ == pushed.last()@,
        out.len() == values.len(),
        forall|j: int| 0 <= j < values.len() ==> (#[trigger] popped[j]@).len() > 0,
        forall|j: int| 0 <= j < values.len() ==> #[trigger] out[j] == popped[j]@[0],
        forall|j: int| 0 <= j < values.len() ==> #[trigger] popped[j + 1]@ == popped[j]@.drop_first(),
    ensures
        out == values,
        popped.last()@.len() == 0,
{
    let n = values.len() as int;
    assert forall|j: int| 0 <= j <= n implies #[trigger] pushed[j]@ == values.take(j) by {
        lemma_pushed_back(pushed, values, j);
    }
    assert(pushed[n]@ == values.take(n));
    assert(values.take(n) =~= values);
    assert forall|j: int| 0 <= j <= n implies #[trigger] popped[j]@ == values.skip(j) by {
        lemma_popped_front(popped, values, out, j);
    }
    assert forall|j: int| 0 <= j < n implies out[j] == values[j] by {
        assert(popped[j]@ == values.skip(j));
    }
    assert(out =~= values);
}

proof fn lemma_pushed_back<T: Copy>(pushed: Seq<DoublyLinkedList<T>>, values: Seq<T>, j: int)
    requires
        pushed.len() == values.len() + 1,
        pushed[0]@ == Seq::<T>::empty(),
        forall|i: int| 0 <= i < values.len() ==> #[trigger] pushed[i + 1]@ == pushed[i]@.push(values[i]),
        0 <= j <= values.len(),
    ensures
        pushed[j]@ == values.take(j),
    decreases j,
{
    if j == 0 {
        assert(values.take(0) =~= Seq::<T>::empty());
    } else {
        let i = j - 1;
        lemma_pushed_back(pushed, values, i);
        assert(pushed[i + 1]@ == pushed[i]@.push(values[i]));
        assert(values.take(j) =~= values.take(i).push(values[i]));
    }
}

proof fn lemma_popped_front<T: Copy>(
    popped: Seq<DoublyLinkedList<T>>,
    values: Seq<T>,
    out: Seq<T>,
    j: int,
)
    requires
        popped.len() == values.len() + 1,
        popped[0]@ == values,
        out.len() == values.len(),
        forall|i: int| 0 <= i < values.len() ==> (#[trigger] popped[i]@).len() > 0,
        forall|i: int| 0 <= i < values.len() ==> #[trigger] out[i] == popped[i]@[0],
        forall|i: int| 0 <= i < values.len() ==> #[trigger] popped[i + 1]@ == popped[i]@.drop_first(),
        0 <= j <= values.len(),
    ensures
        popped[j]@ == values.skip(j),
    decreases j,
{
    if j == 0 {
        assert(values.skip(0) =~= values);
    } else {
        let i = j - 1;
        lemma_popped_front(popped, values, out, i);
        assert(popped[i + 1]@ == popped[i]@.drop_first());
        assert(values.skip(j) =~= values.skip(i).drop_first());
    }
}

/// Values pushed at the front of an empty list one after another, then popped
/// from the front as many times, come out in the reverse of the order they
/// went in. `pushed[j + 1]` is `pushed[j]` after `push_front(values[j])`;
/// `popped[j + 1]` is `popped[j]` after a `pop_front` that returned a node
/// with `out[j]`.
pub proof fn law_push_front_pop_front<T: Copy>(
    pushed: Seq<DoublyLinkedList<T>>,
    popped: Seq<DoublyLinkedList<T>>,
    values: Seq<T>,
    out: Seq<T>,
)
    requires
        pushed.len() == values.len() + 1,
        pushed[0]@ == Seq::<T>::empty(),
        forall|j: int| 0 <= j < values.len() ==> #[trigger] pushed[j + 1]@ == seq![values[j]] + pushed[j]@,
        popped.len() == values.len() + 1,
        popped[0]@ == pushed.last()@,
        out.len() == values.len(),
        forall|j: int| 0 <= j < values.len() ==> (#[trigger] popped[j]@).len() > 0,
        forall|j: int| 0 <= j < values.len() ==> #[trigger] out[j] == popped[j]@[0],
        forall|j: int| 0 <= j < values.len() ==> #[trigger] popped[j + 1]@ == popped[j]@.drop_first(),
    ensures
        forall|j: int| 0 <= j < values.len() ==> #[trigger] out[j] == values[values.len() - 1 - j],
        popped.last()@.len() == 0,
{
    let n = values.len() as int;
    let rev = Seq::new(values.len(), |i: int| values[n - 1 - i]);
    assert forall|j: int| 0 <= j <= n implies #[trigger] pushed[j]@ == rev.skip(n - j) by {
        lemma_pushed_front(pushed, values, j);
    }
    assert(pushed[n - 0]@ == rev.skip(n - n));
    assert(rev.skip(0) =~= rev);
    assert(rev.len() == values.len());
    assert forall|j: int| 0 <= j <= n implies #[trigger] popped[j]@ == rev.skip(j) by {
        lemma_popped_front(popped, rev, out, j);
    }
    assert forall|j: int| 0 <= j < n implies #[trigger] out[j] == values[n - 1 - j] by {
        assert(popped[j]@ == rev.skip(j));
    }
}

proof fn lemma_pushed_front<T: Copy>(pushed: Seq<DoublyLinkedList<T>>, values: Seq<T>, j: int)
    requires
        pushed.len() == values.len() + 1,
        pushed[0]@ == Seq::<T>::empty(),
        forall|i: int| 0 <= i < values.len() ==> #[trigger] pushed[i + 1]@ == seq![values[i]] + pushed[i]@,
        0 <= j <= values.len(),
    ensures
        pushed[j]@ == Seq::new(values.len(), |i: int| values[values.len() - 1 - i]).skip(
            values.len() - j,
        ),
    decreases j,
{
    let n = values.len() as int;
    let rev = Seq::new(values.len(), |i: int| values[n - 1 - i]);
    if j == 0 {
        assert(rev.skip(n) =~= Seq::<T>::empty());
    } else {
        let i = j - 1;
        lemma_pushed_front(pushed, values, i);
        assert(pushed[i + 1]@ == seq![values[i]] + pushed[i]@);
        assert(rev.skip(n - j) =~= seq![values[i]] + rev.skip(n - i));
    }
}

} // verus!
