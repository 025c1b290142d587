//! Nodes of a doubly linked list that live in an arena (a `Vec` of nodes) and
//! name their neighbours by index.
use vstd::prelude::*;

verus! {

/// A node: a value and the arena indices of its neighbours.
#[derive(Debug, Clone, Copy)]
pub struct DoublyNode<T> {
    pub value: T,
    pub prev: Option<usize>,
    pub next: Option<usize>,
}

/// `n` with its forward link set to `next`.
pub open spec fn with_next<T>(n: DoublyNode<T>, next: Option<usize>) -> DoublyNode<T> {
    DoublyNode { value: n.value, prev: n.prev, next }
}

/// `n` with its backward link set to `prev`.
pub open spec fn with_prev<T>(n: DoublyNode<T>, prev: Option<usize>) -> DoublyNode<T> {
    DoublyNode { value: n.value, prev, next: n.next }
}

/// Whether `link` names no node or a node of an arena of `len` nodes.
pub open spec fn link_in(link: Option<usize>, len: nat) -> bool {
    link matches Some(i) ==> i < len
}

/// The arena after node `this` is taken out of its chain: its neighbours are
/// linked to each other (or lose the link to it where it has one neighbour).
pub open spec fn unlinked<T>(s: Seq<DoublyNode<T>>, this: int) -> Seq<DoublyNode<T>> {
    let me = s[this];
    match me.next {
        None => match me.prev {
            None => s,
            Some(p) => s.update(p as int, with_next(s[p as int], None)),
        },
        Some(n) => match me.prev {
            None => s.update(n as int, with_prev(s[n as int], None)),
            Some(p) => {
                let s1 = s.update(n as int, with_prev(s[n as int], Some(p)));
                s1.update(p as int, with_next(s1[p as int], Some(n)))
            },
        },
    }
}

/// The arena after node `x` is put in the place of node `this`: the
/// neighbours of `this` are linked to `x`, and `x` to them.
pub open spec fn replaced<T>(s: Seq<DoublyNode<T>>, this: int, x: usize) -> Seq<DoublyNode<T>> {
    let me = s[this];
    let s1 = match me.next {
        None => s,
        Some(n) => {
            let a = s.update(n as int, with_prev(s[n as int], Some(x)));
            a.update(x as int, with_next(a[x as int], Some(n)))
        },
    };
    match me.prev {
        None => s1,
        Some(p) => {
            let b = s1.update(p as int, with_next(s1[p as int], Some(x)));
            b.update(x as int, with_prev(b[x as int], Some(p)))
        },
    }
}

/// Sets the forward link of the node at index `i`.
fn set_next_at<T: Copy>(nodes: &mut Vec<DoublyNode<T>>, i: usize, next: Option<usize>)
    requires
        i < old(nodes)@.len(),
    ensures
        final(nodes)@ == old(nodes)@.update(i as int, with_next(old(nodes)@[i as int], next)),
{
    let mut n = nodes[i];
    n.set_next(next);
    nodes.set(i, n);
}

/// Sets the backward link of the node at index `i`.
fn set_prev_at<T: Copy>(nodes: &mut Vec<DoublyNode<T>>, i: usize, prev: Option<usize>)
    requires
        i < old(nodes)@.len(),
    ensures
        final(nodes)@ == old(nodes)@.update(i as int, with_prev(old(nodes)@[i as int], prev)),
{
    let mut n = nodes[i];
    n.set_prev(prev);
    nodes.set(i, n);
}

impl<T: Copy> DoublyNode<T> {
    /// A node with no neighbours.
    pub fn new(val: T) -> (r: Self)
        ensures
            r.value == val,
            r.prev is None,
            r.next is None,
    {
        DoublyNode { value: val, prev: None, next: None }
    }

    pub fn set_next(&mut self, node: Option<usize>)
        ensures
            *final(self) == with_next(*old(self), node),
    {
        self.next = node;
    }

    pub fn set_prev(&mut self, node: Option<usize>)
        ensures
            *final(self) == with_prev(*old(self), node),
    {
        self.prev = node;
    }

    /// Puts node `node` in the chain in the place of node `this`, or, with
    /// `None`, takes `this` out of its chain. The links of `this` itself are
    /// left as they are. Returns a detached copy of `this`.
    pub fn swap(nodes: &mut Vec<DoublyNode<T>>, this: usize, node: Option<usize>) -> (r: Option<
        DoublyNode<T>,
    >)
        requires
            this < old(nodes)@.len(),
            link_in(old(nodes)@[this as int].prev, old(nodes)@.len()),
            link_in(old(nodes)@[this as int].next, old(nodes)@.len()),
            link_in(node, old(nodes)@.len()),
        ensures
            final(nodes)@ == (match node {
                None => unlinked(old(nodes)@, this as int),
                Some(x) => replaced(old(nodes)@, this as int, x),
            }),
            r matches Some(d) && d.value == old(nodes)@[this as int].value && d.prev is None
                && d.next is None,
    {
        let me = nodes[this];
        match node {
            None => {
                match me.next {
                    None => {
                        match me.prev {
                            None => {},
                            Some(p) => set_next_at(nodes, p, None),
                        }
                    },
                    Some(n) => {
                        match me.prev {
                            None => set_prev_at(nodes, n, None),
                            Some(p) => {
                                set_prev_at(nodes, n, Some(p));
                                set_next_at(nodes, p, Some(n));
                            },
                        }
                    },
                }
            },
            Some(x) => {
                match me.next {
                    None => {},
                    Some(n) => {
                        set_prev_at(nodes, n, Some(x));
                        set_next_at(nodes, x, Some(n));
                    },
                }
                match me.prev {
                    None => {},
                    Some(p) => {
                        set_next_at(nodes, p, Some(x));
                        set_prev_at(nodes, x, Some(p));
                    },
                }
            },
        }
        Some(DoublyNode::new(me.value))
    }
}

} // verus!
