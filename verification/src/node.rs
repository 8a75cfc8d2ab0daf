//! The node engine: the recursive tree representation and the algorithms
//! (`merge`, `split`, `index`) that operate on shared, immutable nodes.

use std::rc::Rc;
use vstd::prelude::*;

verus! {

/// The color of a node. Leaves count as black.
#[derive(Clone, Copy, Debug)]
pub(crate) enum Color {
    Red,
    Black,
}

/// A tree node. A leaf holds exactly one element; an internal node caches its
/// color, its rank (black height) and the number of leaves below it, and owns
/// its two children through shared, immutable, reference-counted handles.
#[derive(Debug)]
pub(crate) enum Node<T> {
    Leaf { val: T },
    Tree { color: Color, rank: usize, len: usize, left: Rc<Node<T>>, right: Rc<Node<T>> },
}

/// The elements stored at the leaves, in left-to-right order.
pub(crate) open spec fn elems<T>(n: Node<T>) -> Seq<T>
    decreases n,
{
    match n {
        Node::Leaf { val } => seq![val],
        Node::Tree { left, right, .. } => elems(*left) + elems(*right),
    }
}

/// Whether the node counts as black (leaves do).
pub(crate) open spec fn is_black<T>(n: Node<T>) -> bool {
    match n {
        Node::Leaf { .. } => true,
        Node::Tree { color, .. } => color is Black,
    }
}

/// The rank, or black height: the number of black nodes on the path from
/// just below this node down its left spine to a leaf, the leaf included.
pub(crate) open spec fn bh<T>(n: Node<T>) -> nat
    decreases n,
{
    match n {
        Node::Leaf { .. } => 0,
        Node::Tree { left, .. } => bh(*left) + if is_black(*left) {
            1nat
        } else {
            0nat
        },
    }
}

/// The black height counting the node itself when it is black: the number of
/// black nodes met on any path from this node down to a leaf. The balance
/// rule says that both children of a node agree on this measure.
pub(crate) open spec fn ebh<T>(n: Node<T>) -> nat {
    bh(n) + if is_black(n) {
        1nat
    } else {
        0nat
    }
}

/// The left child of an internal node (a leaf is returned unchanged).
pub(crate) open spec fn node_left<T>(n: Node<T>) -> Node<T> {
    match n {
        Node::Leaf { .. } => n,
        Node::Tree { left, .. } => *left,
    }
}

/// The right child of an internal node (a leaf is returned unchanged).
pub(crate) open spec fn node_right<T>(n: Node<T>) -> Node<T> {
    match n {
        Node::Leaf { .. } => n,
        Node::Tree { right, .. } => *right,
    }
}

/// Full internal validity, with the root's own color unconstrained: every red
/// node below the root has black children, the root's children are black if
/// the root is red, both children of every node carry the same number of
/// blacks on their paths to the leaves, and every cached rank and length
/// agrees with recomputation.
pub(crate) open spec fn inv<T>(n: Node<T>) -> bool
    decreases n,
{
    match n {
        Node::Leaf { .. } => true,
        Node::Tree { color, rank, len, left, right } => {
            &&& inv(*left)
            &&& inv(*right)
            &&& (color is Red ==> is_black(*left) && is_black(*right))
            &&& ebh(*left) == ebh(*right)
            &&& rank == bh(n)
            &&& len == elems(n).len()
        },
    }
}

/// Validity of an internal node whose root may be red with red children:
/// both children are fully valid, the node is balanced and its caches are
/// right, but the red rule is not required at the root itself. This is the
/// shape `merge` hands back before the caller repairs or normalizes it.
pub(crate) open spec fn almost_inv<T>(n: Node<T>) -> bool {
    match n {
        Node::Leaf { .. } => false,
        Node::Tree { rank, len, left, right, .. } => {
            &&& inv(*left)
            &&& inv(*right)
            &&& ebh(*left) == ebh(*right)
            &&& rank == bh(n)
            &&& len == elems(n).len()
        },
    }
}

/// Every subtree holds at least one element.
pub(crate) proof fn lemma_elems_len_pos<T>(n: &Node<T>)
    ensures
        elems(*n).len() >= 1,
    decreases *n,
{
    match n {
        Node::Leaf { .. } => {},
        Node::Tree { left, right, .. } => {
            lemma_elems_len_pos(left);
            lemma_elems_len_pos(right);
        },
    }
}

/// The rank of a subtree is strictly below the number of elements in it.
pub(crate) proof fn lemma_bh_lt_len<T>(n: &Node<T>)
    ensures
        bh(*n) < elems(*n).len(),
    decreases *n,
{
    match n {
        Node::Leaf { .. } => {},
        Node::Tree { left, right, .. } => {
            lemma_bh_lt_len(left);
            lemma_elems_len_pos(right);
        },
    }
}

/// Each child of an internal node holds fewer elements than the node, and
/// at least one.
pub(crate) proof fn lemma_child_elems<T>(n: &Node<T>)
    requires
        *n is Tree,
    ensures
        elems(node_left(*n)).len() < elems(*n).len(),
        elems(node_right(*n)).len() < elems(*n).len(),
        elems(node_left(*n)).len() >= 1,
        elems(node_right(*n)).len() >= 1,
        elems(*n) == elems(node_left(*n)) + elems(node_right(*n)),
        bh(*n) == ebh(node_left(*n)),
{
    match n {
        Node::Leaf { .. } => {},
        Node::Tree { left, right, .. } => {
            lemma_elems_len_pos(left);
            lemma_elems_len_pos(right);
        },
    }
}

/// Concatenation of the element sequences of three subtrees is associative.
pub(crate) proof fn lemma_cat3<T>(a: &Node<T>, b: &Node<T>, c: &Node<T>)
    ensures
        (elems(*a) + elems(*b)) + elems(*c) == elems(*a) + (elems(*b) + elems(*c)),
{
    vstd::seq_lib::lemma_concat_associative(elems(*a), elems(*b), elems(*c));
}

impl<T> Node<T> {
    /// Builds an internal node over two balanced subtrees, computing the
    /// cached rank and length from the children.
    pub(crate) fn new(color: Color, left: Rc<Node<T>>, right: Rc<Node<T>>) -> (n: Node<T>)
        requires
            inv(*left),
            inv(*right),
            ebh(*left) == ebh(*right),
            elems(*left).len() + elems(*right).len() <= usize::MAX,
        ensures
            n is Tree,
            node_left(n) == *left,
            node_right(n) == *right,
            is_black(n) <==> color is Black,
            elems(n) == elems(*left) + elems(*right),
            bh(n) == ebh(*left),
            almost_inv(n),
            color is Black || (is_black(*left) && is_black(*right)) ==> inv(n),
    {
        proof {
            lemma_bh_lt_len(&*left);
            lemma_elems_len_pos(&*right);
        }
        let rank = left.rank() + (match left.color() {
            Color::Black => 1,
            Color::Red => 0,
        });
        let len = left.len() + right.len();
        Node::Tree { color, rank, len, left, right }
    }

    /// The node's color; leaves report black.
    pub(crate) fn color(&self) -> (c: Color)
        ensures
            (c is Black) == is_black(*self),
    {
        match self {
            Node::Leaf { .. } => Color::Black,
            Node::Tree { color, .. } => *color,
        }
    }

    /// The cached rank.
    pub(crate) fn rank(&self) -> (r: usize)
        requires
            inv(*self) || almost_inv(*self),
        ensures
            r == bh(*self),
    {
        match self {
            Node::Leaf { .. } => 0,
            Node::Tree { rank, .. } => *rank,
        }
    }

    /// The cached number of elements below the node.
    pub(crate) fn len(&self) -> (r: usize)
        requires
            inv(*self) || almost_inv(*self),
        ensures
            r == elems(*self).len(),
    {
        match self {
            Node::Leaf { .. } => 1,
            Node::Tree { len, .. } => *len,
        }
    }

    /// The left child of an internal node.
    pub(crate) fn left(&self) -> (r: &Rc<Node<T>>)
        requires
            self is Tree,
        ensures
            **r == node_left(*self),
    {
        match self {
            Node::Leaf { .. } => vstd::pervasive::unreached(),
            Node::Tree { left, .. } => left,
        }
    }

    /// The right child of an internal node.
    pub(crate) fn right(&self) -> (r: &Rc<Node<T>>)
        requires
            self is Tree,
        ensures
            **r == node_right(*self),
    {
        match self {
            Node::Leaf { .. } => vstd::pervasive::unreached(),
            Node::Tree { right, .. } => right,
        }
    }

    /// The element at position `i`, counting leaves from the left.
    pub(crate) fn index(&self, i: usize) -> (r: &T)
        requires
            inv(*self),
            i < elems(*self).len(),
        ensures
            *r == elems(*self)[i as int],
        decreases elems(*self).len(),
    {
        match self {
            Node::Leaf { val } => val,
            Node::Tree { left, right, .. } => {
                proof {
                    lemma_elems_len_pos(&**left);
                    lemma_elems_len_pos(&**right);
                }
                let ll = left.len();
                if i < ll {
                    left.index(i)
                } else {
                    right.index(i - ll)
                }
            },
        }
    }

    /// Concatenates two trees. The result holds the elements of `left`
    /// followed by the elements of `right` and satisfies every invariant
    /// except possibly the red rule at its root: when the result is red, at
    /// most one of its children is red, on the side of the lighter input,
    /// and only when that input's heavier neighbour brought a red node in.
    /// Runs in time proportional to the rank difference of the inputs.
    pub(crate) fn merge(left: &Rc<Node<T>>, right: &Rc<Node<T>>) -> (m: Rc<Node<T>>)
        requires
            inv(**left),
            inv(**right),
            elems(**left).len() + elems(**right).len() <= usize::MAX,
            bh(**left) <= bh(**right) ==> is_black(**left),
            bh(**right) <= bh(**left) ==> is_black(**right),
        ensures
            almost_inv(*m),
            elems(*m) == elems(**left) + elems(**right),
            ebh(*m) == if ebh(**left) >= ebh(**right) {
                ebh(**left)
            } else {
                ebh(**right)
            },
            !is_black(*m) && bh(**left) <= bh(**right) ==> is_black(node_right(*m)),
            !is_black(*m) && bh(**right) <= bh(**left) ==> is_black(node_left(*m)),
            !is_black(*m) && !(is_black(node_left(*m)) && is_black(node_right(*m))) ==> !is_black(
                **left,
            ) || !is_black(**right),
        decreases elems(**left).len() + elems(**right).len(),
    {
        let rl = left.rank();
        let rr = right.rank();
        if rl < rr {
            proof {
                lemma_child_elems(&**right);
            }
            let c = Node::merge(left, right.left());
            proof {
                lemma_child_elems(&*c);
                assert(bh(node_left(**right)) + if is_black(node_left(**right)) {
                    1nat
                } else {
                    0nat
                } == bh(**right));
                assert(ebh(**left) <= ebh(node_left(**right)));
            }
            let m = match (c.color(), c.left().color(), right.color()) {
                (Color::Red, Color::Red, Color::Black) => {
                    match right.right().color() {
                        Color::Black => {
                            proof {
                                assert(!is_black(node_left(**right)));
                                assert(ebh(node_left(*c)) == ebh(node_right(*c)));
                            }
                            Node::new(
                                Color::Black,
                                Rc::clone(c.left()),
                                Rc::new(
                                    Node::new(Color::Red, Rc::clone(c.right()), Rc::clone(right.right())),
                                ),
                            )
                        },
                        Color::Red => {
                            let heavy = right.right();
                            proof {
                                assert(!is_black(node_left(**right)));
                                assert(ebh(node_left(*c)) == ebh(node_right(*c)));
                                assert(inv(**heavy));
                                lemma_child_elems(&**heavy);
                                assert(inv(node_left(**heavy)));
                                assert(inv(node_right(**heavy)));
                            }
                            Node::new(
                                Color::Red,
                                Rc::new(Node::new(Color::Black, Rc::clone(c.left()), Rc::clone(c.right()))),
                                Rc::new(
                                    Node::new(
                                        Color::Black,
                                        Rc::clone(right.right().left()),
                                        Rc::clone(right.right().right()),
                                    ),
                                ),
                            )
                        },
                    }
                },
                _ => Node::new(right.color(), Rc::clone(&c), Rc::clone(right.right())),
            };
            let a1 = right.left();
            let a2 = right.right();
            let b1 = c.left();
            let b2 = c.right();
            proof {
                lemma_cat3(&**left, &**a1, &**a2);
                lemma_cat3(&**b1, &**b2, &**a2);
                assert(elems(m) == elems(**left) + elems(**right));
            }
            Rc::new(m)
        } else if rl > rr {
            proof {
                lemma_child_elems(&**left);
                assert(bh(**left) == ebh(node_left(**left)));
            }
            let c = Node::merge(left.right(), right);
            proof {
                lemma_child_elems(&*c);
                assert(ebh(**right) <= ebh(node_right(**left)));
            }
            let m = match (left.color(), c.right().color(), c.color()) {
                (Color::Black, Color::Red, Color::Red) => {
                    match left.left().color() {
                        Color::Black => {
                            proof {
                                assert(!is_black(node_right(**left)));
                                assert(ebh(node_left(*c)) == ebh(node_right(*c)));
                            }
                            Node::new(
                                Color::Black,
                                Rc::new(Node::new(Color::Red, Rc::clone(left.left()), Rc::clone(c.left()))),
                                Rc::clone(c.right()),
                            )
                        },
                        Color::Red => {
                            let heavy = left.left();
                            proof {
                                assert(!is_black(node_right(**left)));
                                assert(ebh(node_left(*c)) == ebh(node_right(*c)));
                                assert(inv(**heavy));
                                lemma_child_elems(&**heavy);
                                assert(inv(node_left(**heavy)));
                                assert(inv(node_right(**heavy)));
                            }
                            Node::new(
                                Color::Red,
                                Rc::new(
                                    Node::new(
                                        Color::Black,
                                        Rc::clone(left.left().left()),
                                        Rc::clone(left.left().right()),
                                    ),
                                ),
                                Rc::new(Node::new(Color::Black, Rc::clone(c.left()), Rc::clone(c.right()))),
                            )
                        },
                    }
                },
                _ => Node::new(left.color(), Rc::clone(left.left()), Rc::clone(&c)),
            };
            let a1 = left.left();
            let a2 = left.right();
            let b1 = c.left();
            let b2 = c.right();
            proof {
                lemma_cat3(&**a1, &**a2, &**right);
                lemma_cat3(&**a1, &**b1, &**b2);
                assert(elems(m) == elems(**left) + elems(**right));
            }
            Rc::new(m)
        } else {
            Rc::new(Node::new(Color::Red, Rc::clone(left), Rc::clone(right)))
        }
    }

    /// Cuts a tree into the part holding its first `i` elements and the part
    /// holding the rest, both normalized to a black root. Children handed to
    /// the internal re-merges are normalized black first, so that every merge
    /// starts from black roots and the red rule survives the split.
    pub(crate) fn split(tree: &Rc<Node<T>>, i: usize) -> (r: (Rc<Node<T>>, Rc<Node<T>>))
        requires
            inv(**tree),
            1 <= i < elems(**tree).len(),
        ensures
            inv(*r.0),
            inv(*r.1),
            is_black(*r.0),
            is_black(*r.1),
            elems(*r.0) == elems(**tree).subrange(0, i as int),
            elems(*r.1) == elems(**tree).subrange(i as int, elems(**tree).len() as int),
        decreases elems(**tree).len(),
    {
        proof {
            lemma_elems_len_pos(&**tree);
        }
        match &**tree {
            Node::Leaf { .. } => vstd::pervasive::unreached(),
            Node::Tree { left, right, .. } => {
                proof {
                    lemma_child_elems(&**tree);
                }
                let ll = left.len();
                if i < ll {
                    let (a, b) = Node::split(left, i);
                    let rb = Node::to_black(right);
                    let m = Node::merge(&b, &rb);
                    proof {
                        assert(elems(*b) + elems(**right) =~= elems(**tree).subrange(
                            i as int,
                            elems(**tree).len() as int,
                        ));
                    }
                    (a, Node::to_black(&m))
                } else if i > ll {
                    let (a, b) = Node::split(right, i - ll);
                    let lb = Node::to_black(left);
                    let m = Node::merge(&lb, &a);
                    proof {
                        assert(elems(**left) + elems(*a) =~= elems(**tree).subrange(0, i as int));
                        assert(elems(*b) =~= elems(**tree).subrange(
                            i as int,
                            elems(**tree).len() as int,
                        ));
                    }
                    (Node::to_black(&m), b)
                } else {
                    proof {
                        assert(elems(**left) =~= elems(**tree).subrange(0, i as int));
                        assert(elems(**right) =~= elems(**tree).subrange(
                            i as int,
                            elems(**tree).len() as int,
                        ));
                    }
                    (Node::to_black(left), Node::to_black(right))
                }
            },
        }
    }

    /// Rewraps a possibly red root as an equivalent black-rooted tree,
    /// restoring the red rule at the root.
    pub(crate) fn to_black(src: &Rc<Node<T>>) -> (r: Rc<Node<T>>)
        requires
            inv(**src) || almost_inv(**src),
        ensures
            inv(*r),
            is_black(*r),
            elems(*r) == elems(**src),
            bh(*r) == bh(**src),
    {
        match src.color() {
            Color::Red => Rc::new(
                Node::new(Color::Black, Rc::clone(src.left()), Rc::clone(src.right())),
            ),
            Color::Black => Rc::clone(src),
        }
    }
}

} // verus!
