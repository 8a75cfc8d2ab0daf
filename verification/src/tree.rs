//! The sequence facade: a thin wrapper over the node engine that exposes the
//! public operations and keeps the root black.

use crate::node::{elems, inv, is_black, Node};
use std::rc::Rc;
use vstd::prelude::*;

verus! {

/// A persistent, rank-balanced, indexable sequence. Every operation is pure:
/// it returns a new version and leaves the receiver untouched, so any number
/// of versions coexist and share their unmodified subtrees. Cloning a handle
/// copies one shared reference to the root, not the tree.
#[derive(Clone, Debug)]
pub struct PersistentLazyRBTree<T> {
    root: Option<Rc<Node<T>>>,
}

impl<T> View for PersistentLazyRBTree<T> {
    type V = Seq<T>;

    /// The mathematical value of the sequence: its elements in order.
    closed spec fn view(&self) -> Seq<T> {
        match self.root {
            Option::None => Seq::empty(),
            Option::Some(r) => elems(*r),
        }
    }
}

impl<T> PersistentLazyRBTree<T> {
    /// Well-formedness: an empty sequence has no root; a non-empty one has a
    /// black root under which every red node has black children, both
    /// children of every node carry the same number of blacks on their paths
    /// down to the leaves, and every cached rank and length agrees with
    /// recursive recomputation.
    pub closed spec fn wf(&self) -> bool {
        match self.root {
            Option::None => true,
            Option::Some(r) => inv(*r) && is_black(*r),
        }
    }

    /// A second handle on the same sequence, sharing the whole tree.
    fn duplicate(&self) -> (r: Self)
        ensures
            r == *self,
    {
        match &self.root {
            Option::None => PersistentLazyRBTree { root: Option::None },
            Option::Some(rc) => PersistentLazyRBTree { root: Option::Some(Rc::clone(rc)) },
        }
    }

    /// The empty sequence.
    pub fn new() -> (s: Self)
        ensures
            s.wf(),
            s@ == Seq::<T>::empty(),
    {
        PersistentLazyRBTree { root: Option::None }
    }

    /// The number of elements.
    pub fn len(&self) -> (n: usize)
        requires
            self.wf(),
        ensures
            n == self@.len(),
    {
        match &self.root {
            Option::None => 0,
            Option::Some(r) => r.len(),
        }
    }

    /// Concatenation: all elements of `left` followed by all elements of
    /// `right`. The length of the result is the sum of the input lengths.
    pub fn merge(left: &Self, right: &Self) -> (r: Self)
        requires
            left.wf(),
            right.wf(),
            left@.len() + right@.len() <= usize::MAX,
        ensures
            r.wf(),
            r@ == left@ + right@,
            r@.len() == left@.len() + right@.len(),
    {
        let r = match (&left.root, &right.root) {
            (Option::None, _) => right.duplicate(),
            (_, Option::None) => left.duplicate(),
            (Option::Some(l), Option::Some(rr)) => PersistentLazyRBTree {
                root: Option::Some(Node::to_black(&Node::merge(l, rr))),
            },
        };
        proof {
            assert(r@ =~= left@ + right@);
        }
        r
    }

    /// The first `i` elements, and the rest, as two sequences; their
    /// concatenation in order is the original sequence.
    pub fn split(&self, i: usize) -> (r: (Self, Self))
        requires
            self.wf(),
            i <= self@.len(),
        ensures
            r.0.wf(),
            r.1.wf(),
            r.0@ == self@.subrange(0, i as int),
            r.1@ == self@.subrange(i as int, self@.len() as int),
            r.0@.len() == i,
    {
        let n = self.len();
        let r = if i == 0 {
            (Self::new(), self.duplicate())
        } else if i == n {
            (self.duplicate(), Self::new())
        } else {
            match &self.root {
                Option::None => vstd::pervasive::unreached(),
                Option::Some(rc) => {
                    let (a, b) = Node::split(rc, i);
                    (
                        PersistentLazyRBTree { root: Option::Some(a) },
                        PersistentLazyRBTree { root: Option::Some(b) },
                    )
                },
            }
        };
        proof {
            assert(r.0@ =~= self@.subrange(0, i as int));
            assert(r.1@ =~= self@.subrange(i as int, self@.len() as int));
        }
        r
    }

    /// A new version with `val` inserted at position `i`; the receiver is
    /// unchanged, as every version is.
    pub fn insert(&self, i: usize, val: T) -> (r: Self)
        requires
            self.wf(),
            i <= self@.len(),
            self@.len() < usize::MAX,
        ensures
            r.wf(),
            r@ == self@.insert(i as int, val),
            r@.len() == self@.len() + 1,
    {
        let (left, right) = self.split(i);
        let single = PersistentLazyRBTree { root: Option::Some(Rc::new(Node::Leaf { val })) };
        let r = Self::merge(&Self::merge(&left, &single), &right);
        proof {
            assert(r@ =~= self@.insert(i as int, val));
        }
        r
    }

    /// A new version with the element at position `i` removed.
    pub fn erase(&self, i: usize) -> (r: Self)
        requires
            self.wf(),
            i < self@.len(),
        ensures
            r.wf(),
            r@ == self@.remove(i as int),
            r@.len() == self@.len() - 1,
    {
        let (left, rest) = self.split(i);
        let (_, right) = rest.split(1);
        let r = Self::merge(&left, &right);
        proof {
            assert(r@ =~= self@.remove(i as int));
        }
        r
    }

    /// The element at position `i`.
    pub fn index(&self, i: usize) -> (r: &T)
        requires
            self.wf(),
            i < self@.len(),
        ensures
            *r == self@[i as int],
    {
        match &self.root {
            Option::None => vstd::pervasive::unreached(),
            Option::Some(rc) => rc.index(i),
        }
    }

    /// A cursor over the sequence, at its start and end.
    pub fn iter(&self) -> (it: Iter<'_, T>)
        requires
            self.wf(),
        ensures
            it.wf(),
            it.elements() == self@,
            it.fwd() == 0,
            it.back() == self@.len(),
    {
        Iter { begin: 0, end: self.len(), tree: self }
    }
}

/// The concatenation of the views of a stack of sequences, in order.
spec fn cat_of<T>(ts: Seq<PersistentLazyRBTree<T>>) -> Seq<T>
    decreases ts.len(),
{
    if ts.len() == 0 {
        Seq::empty()
    } else {
        cat_of(ts.drop_last()) + ts.last()@
    }
}

impl<T> PersistentLazyRBTree<T> {
    /// Builds the sequence holding `values` in order. The result is the same
    /// as inserting each value at the end, one after the other, starting from
    /// the empty sequence, but the work is linear: singletons are collected
    /// on a stack whose entries are merged whenever two carry equally many
    /// elements, like a binary counter, and the stack is folded up at the
    /// end.
    pub fn from_vec(values: Vec<T>) -> (s: Self)
        ensures
            s.wf(),
            s@ == values@,
    {
        let ghost all = values@;
        let total = values.len();
        let mut vals = values;
        let mut rev: Vec<T> = Vec::new();
        proof {
            assert(all.subrange(0, all.len() as int) =~= all);
        }
        while vals.len() > 0
            invariant
                total == all.len(),
                vals@ == all.subrange(0, vals@.len() as int),
                vals@.len() + rev@.len() == all.len(),
                forall|j: int| 0 <= j < rev@.len() ==> rev@[j] == all[all.len() - 1 - j],
            decreases vals@.len(),
        {
            let v = vals.pop().unwrap();
            rev.push(v);
            proof {
                assert(vals@ =~= all.subrange(0, vals@.len() as int));
            }
        }
        let mut stack: Vec<Self> = Vec::new();
        while rev.len() > 0
            invariant
                total == all.len(),
                rev@.len() <= all.len(),
                forall|j: int| 0 <= j < rev@.len() ==> rev@[j] == all[all.len() - 1 - j],
                cat_of(stack@) == all.subrange(0, all.len() - rev@.len()),
                forall|j: int| 0 <= j < stack@.len() ==> stack@[j].wf(),
            decreases rev@.len(),
        {
            let v = rev.pop().unwrap();
            let mut cur = PersistentLazyRBTree { root: Option::Some(Rc::new(Node::Leaf { val: v })) };
            proof {
                assert(cat_of(stack@) + cur@ =~= all.subrange(0, all.len() - rev@.len()));
            }
            while stack.len() > 0 && stack[stack.len() - 1].len() == cur.len()
                invariant
                    total == all.len(),
                    rev@.len() < all.len(),
                    cur.wf(),
                    cat_of(stack@) + cur@ == all.subrange(0, all.len() - rev@.len()),
                    forall|j: int| 0 <= j < stack@.len() ==> stack@[j].wf(),
                decreases stack@.len(),
            {
                let ghost old_stack = stack@;
                let top = stack.pop().unwrap();
                proof {
                    assert(stack@ == old_stack.drop_last() && top == old_stack.last());
                    assert(cat_of(old_stack) == cat_of(stack@) + top@);
                    vstd::seq_lib::lemma_concat_associative(cat_of(stack@), top@, cur@);
                }
                cur = Self::merge(&top, &cur);
            }
            let ghost before_push = stack@;
            stack.push(cur);
            proof {
                assert(stack@.drop_last() =~= before_push);
                assert(cat_of(stack@) == all.subrange(0, all.len() - rev@.len()));
            }
        }
        match stack.pop() {
            Option::None => {
                proof {
                    assert(all.subrange(0, 0) =~= Seq::<T>::empty());
                    assert(all =~= Seq::<T>::empty());
                }
                Self::new()
            },
            Option::Some(first) => {
                let mut acc = first;
                proof {
                    assert(all.subrange(0, all.len() as int) =~= all);
                }
                while stack.len() > 0
                    invariant
                        total == all.len(),
                        acc.wf(),
                        cat_of(stack@) + acc@ == all,
                        forall|j: int| 0 <= j < stack@.len() ==> stack@[j].wf(),
                    decreases stack@.len(),
                {
                    let ghost old_stack = stack@;
                    let l = stack.pop().unwrap();
                    proof {
                        assert(cat_of(old_stack) == cat_of(stack@) + l@);
                        vstd::seq_lib::lemma_concat_associative(cat_of(stack@), l@, acc@);
                    }
                    acc = Self::merge(&l, &acc);
                }
                proof {
                    assert(acc@ =~= all);
                }
                acc
            },
        }
    }
}

/// A cursor holding forward and backward positions over one shared sequence.
/// Each step is an indexed lookup on the shared tree, so several cursors can
/// walk the same sequence independently.
pub struct Iter<'a, T> {
    begin: usize,
    end: usize,
    tree: &'a PersistentLazyRBTree<T>,
}

impl<'a, T> Iter<'a, T> {
    /// The elements the cursor walks over.
    pub closed spec fn elements(&self) -> Seq<T> {
        self.tree@
    }

    /// The forward position: the index the next forward step yields.
    pub closed spec fn fwd(&self) -> int {
        self.begin as int
    }

    /// The backward position: one past the index the next backward step
    /// yields.
    pub closed spec fn back(&self) -> int {
        self.end as int
    }

    /// The cursor's validity: the underlying sequence is well formed and the
    /// positions bound the range `[begin, end)` within it.
    pub closed spec fn wf(&self) -> bool {
        self.tree.wf() && self.begin <= self.end && self.end <= self.tree@.len()
    }

    /// One step forward: yields the element at the forward position and
    /// advances it, or nothing once the forward position has met the
    /// backward one. Successive steps from a fresh cursor yield the
    /// elements in order.
    pub fn next(&mut self) -> (r: Option<&'a T>)
        requires
            old(self).wf(),
        ensures
            final(self).wf(),
            final(self).elements() == old(self).elements(),
            final(self).back() == old(self).back(),
            old(self).fwd() < old(self).back() ==> {
                &&& final(self).fwd() == old(self).fwd() + 1
                &&& r matches Option::Some(v) && *v == old(self).elements()[old(self).fwd()]
            },
            old(self).fwd() >= old(self).back() ==> r is None && final(self).fwd() == old(
                self,
            ).fwd(),
    {
        if self.begin < self.end {
            let ret = Some(self.tree.index(self.begin));
            self.begin = self.begin + 1;
            ret
        } else {
            None
        }
    }

    /// One step backward: yields the element just before the backward
    /// position and retreats it, or nothing once the backward position has
    /// met the forward one. Successive steps from a fresh cursor yield the
    /// elements in reverse order.
    pub fn next_back(&mut self) -> (r: Option<&'a T>)
        requires
            old(self).wf(),
        ensures
            final(self).wf(),
            final(self).elements() == old(self).elements(),
            final(self).fwd() == old(self).fwd(),
            old(self).back() > old(self).fwd() ==> {
                &&& final(self).back() == old(self).back() - 1
                &&& r matches Option::Some(v) && *v == old(self).elements()[old(self).back() - 1]
            },
            old(self).back() <= old(self).fwd() ==> r is None && final(self).back() == old(
                self,
            ).back(),
    {
        if self.end > self.begin {
            self.end = self.end - 1;
            Some(self.tree.index(self.end))
        } else {
            None
        }
    }
}

} // verus!
