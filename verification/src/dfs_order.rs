//! Complete binary tree stored in one flat buffer in depth-first order.
//!
//! Every subtree occupies one contiguous run of the buffer, so splitting a
//! visitor is ordinary slice splitting, and the two children provably hand
//! out disjoint parts of the buffer. Where the root of a span sits is decided
//! by an order policy: [`InOrder`], [`PreOrder`] or [`PostOrder`].

use vstd::prelude::*;

verus! {

use core::marker::PhantomData;
use crate::Visitor;
use crate::FixedDepthVisitor;
use crate::bfs_order::NotCompleteTreeSizeErr;
use crate::nodes_of_height;
use crate::is_complete_len;
use crate::complete_height;
use crate::lemma_complete_height;
use crate::lemma_nodes_of_height_odd;
use crate::lemma_nodes_of_height_increases;
use crate::valid_node_num;
use crate::compute_height;

/// Specifies which type of dfs order is wanted: in order, pre order or post
/// order. A policy decides, for a span holding a complete subtree, where the
/// root sits and where the two child spans begin.
pub trait DfsOrder: Sized {
    /// The position of the root within a span of length `len`.
    spec fn root_pos(len: int) -> int;

    /// Where the left child's span begins within a span of length `len`.
    spec fn left_lo(len: int) -> int;

    /// Where the right child's span begins within a span of length `len`.
    spec fn right_lo(len: int) -> int;

    /// How a policy carves a span of odd length `len` into the root
    /// position and two child ranges of `(len - 1) / 2` positions each:
    /// the three parts lie inside the span, do not overlap, and together
    /// cover it completely.
    proof fn lemma_positions(len: int)
        requires
            len >= 1,
            len % 2 == 1,
        ensures
            0 <= Self::root_pos(len) < len,
            len == 1 ==> Self::root_pos(len) == 0,
            len >= 3 ==> {
                let half = (len - 1) / 2;
                ||| (Self::left_lo(len) == 0 && Self::root_pos(len) == half && Self::right_lo(
                    len,
                ) == half + 1)
                ||| (Self::root_pos(len) == 0 && Self::left_lo(len) == 1 && Self::right_lo(len)
                    == half + 1)
                ||| (Self::left_lo(len) == 0 && Self::right_lo(len) == half && Self::root_pos(
                    len,
                ) == len - 1)
            },
    ;

    /// Split a span into its root element and the two child spans.
    fn split<T>(nodes: &[T]) -> (r: (&T, &[T], &[T]))
        requires
            nodes@.len() >= 3,
            nodes@.len() % 2 == 1,
        ensures
            *r.0 == nodes@[Self::root_pos(nodes@.len() as int)],
            r.1@ == nodes@.subrange(
                Self::left_lo(nodes@.len() as int),
                Self::left_lo(nodes@.len() as int) + (nodes@.len() as int - 1) / 2,
            ),
            r.2@ == nodes@.subrange(
                Self::right_lo(nodes@.len() as int),
                Self::right_lo(nodes@.len() as int) + (nodes@.len() as int - 1) / 2,
            ),
    ;

    /// Split a span into its root element and the two child spans, all three
    /// mutable and provably disjoint: however the three parts are changed,
    /// the whole span ends up as exactly their reassembly.
    fn split_mut<T>(nodes: &mut [T]) -> (r: (&mut T, &mut [T], &mut [T]))
        requires
            old(nodes)@.len() >= 3,
            old(nodes)@.len() % 2 == 1,
        ensures
            *r.0 == old(nodes)@[Self::root_pos(old(nodes)@.len() as int)],
            r.1@ == old(nodes)@.subrange(
                Self::left_lo(old(nodes)@.len() as int),
                Self::left_lo(old(nodes)@.len() as int) + (old(nodes)@.len() as int - 1) / 2,
            ),
            r.2@ == old(nodes)@.subrange(
                Self::right_lo(old(nodes)@.len() as int),
                Self::right_lo(old(nodes)@.len() as int) + (old(nodes)@.len() as int - 1) / 2,
            ),
            final(nodes)@ == if Self::root_pos(old(nodes)@.len() as int) == 0 {
                seq![*final(r.0)] + final(r.1)@ + final(r.2)@
            } else if Self::root_pos(old(nodes)@.len() as int) == old(nodes)@.len() - 1 {
                final(r.1)@ + final(r.2)@ + seq![*final(r.0)]
            } else {
                final(r.1)@ + seq![*final(r.0)] + final(r.2)@
            },
    ;
}

/// Pass this to the tree for in order layout: within a span, the left
/// subtree comes first, then the root, then the right subtree.
#[derive(Copy, Clone, Debug)]
pub struct InOrder;

impl DfsOrder for InOrder {
    open spec fn root_pos(len: int) -> int {
        (len - 1) / 2
    }

    open spec fn left_lo(len: int) -> int {
        0
    }

    open spec fn right_lo(len: int) -> int {
        (len - 1) / 2 + 1
    }

    proof fn lemma_positions(len: int) {
    }

    fn split<T>(nodes: &[T]) -> (r: (&T, &[T], &[T])) {
        let mid = nodes.len() / 2;
        let (left, rest) = nodes.split_at(mid);
        let (cur_s, right) = rest.split_at(1);
        let middle = vstd::slice::slice_index_get(cur_s, 0);
        proof {
            assert(left@ =~= nodes@.subrange(0, (nodes@.len() as int - 1) / 2));
            assert(right@ =~= nodes@.subrange(
                (nodes@.len() as int - 1) / 2 + 1,
                nodes@.len() as int,
            ));
        }
        (middle, left, right)
    }

    fn split_mut<T>(nodes: &mut [T]) -> (r: (&mut T, &mut [T], &mut [T])) {
        let mid = nodes.len() / 2;
        let (left, rest) = nodes.split_at_mut(mid);
        let (cur_s, right) = rest.split_at_mut(1);
        let middle = cur_s.first_mut().unwrap();
        proof {
            assert(left@ =~= old(nodes)@.subrange(0, (old(nodes)@.len() as int - 1) / 2));
            assert(right@ =~= old(nodes)@.subrange(
                (old(nodes)@.len() as int - 1) / 2 + 1,
                old(nodes)@.len() as int,
            ));
            assert(*middle == old(nodes)@[(old(nodes)@.len() as int - 1) / 2]);
        }
        (middle, left, right)
    }
}

/// Pass this to the tree for pre order layout: within a span, the root comes
/// first, then the left subtree, then the right subtree.
#[derive(Copy, Clone, Debug)]
pub struct PreOrder;

impl DfsOrder for PreOrder {
    open spec fn root_pos(len: int) -> int {
        0
    }

    open spec fn left_lo(len: int) -> int {
        1
    }

    open spec fn right_lo(len: int) -> int {
        (len - 1) / 2 + 1
    }

    proof fn lemma_positions(len: int) {
    }

    fn split<T>(nodes: &[T]) -> (r: (&T, &[T], &[T])) {
        let (cur_s, rest) = nodes.split_at(1);
        let mm = rest.len() / 2;
        let (left, right) = rest.split_at(mm);
        let middle = vstd::slice::slice_index_get(cur_s, 0);
        proof {
            assert(left@ =~= nodes@.subrange(1, 1 + (nodes@.len() as int - 1) / 2));
            assert(right@ =~= nodes@.subrange(
                (nodes@.len() as int - 1) / 2 + 1,
                nodes@.len() as int,
            ));
        }
        (middle, left, right)
    }

    fn split_mut<T>(nodes: &mut [T]) -> (r: (&mut T, &mut [T], &mut [T])) {
        let (cur_s, rest) = nodes.split_at_mut(1);
        let mm = rest.len() / 2;
        let (left, right) = rest.split_at_mut(mm);
        let middle = cur_s.first_mut().unwrap();
        proof {
            assert(left@ =~= old(nodes)@.subrange(1, 1 + (old(nodes)@.len() as int - 1) / 2));
            assert(right@ =~= old(nodes)@.subrange(
                (old(nodes)@.len() as int - 1) / 2 + 1,
                old(nodes)@.len() as int,
            ));
            assert(*middle == old(nodes)@[0]);
        }
        (middle, left, right)
    }
}

/// Pass this to the tree for post order layout: within a span, the left
/// subtree comes first, then the right subtree, then the root.
#[derive(Copy, Clone, Debug)]
pub struct PostOrder;

impl DfsOrder for PostOrder {
    open spec fn root_pos(len: int) -> int {
        len - 1
    }

    open spec fn left_lo(len: int) -> int {
        0
    }

    open spec fn right_lo(len: int) -> int {
        (len - 1) / 2
    }

    proof fn lemma_positions(len: int) {
    }

    fn split<T>(nodes: &[T]) -> (r: (&T, &[T], &[T])) {
        let (rest, cur_s) = nodes.split_at(nodes.len() - 1);
        let mm = rest.len() / 2;
        let (left, right) = rest.split_at(mm);
        let middle = vstd::slice::slice_index_get(cur_s, 0);
        proof {
            assert(left@ =~= nodes@.subrange(0, (nodes@.len() as int - 1) / 2));
            assert(right@ =~= nodes@.subrange(
                (nodes@.len() as int - 1) / 2,
                nodes@.len() as int - 1,
            ));
        }
        (middle, left, right)
    }

    fn split_mut<T>(nodes: &mut [T]) -> (r: (&mut T, &mut [T], &mut [T])) {
        let last = nodes.len() - 1;
        let (rest, cur_s) = nodes.split_at_mut(last);
        let mm = rest.len() / 2;
        let (left, right) = rest.split_at_mut(mm);
        let middle = cur_s.first_mut().unwrap();
        proof {
            assert(left@ =~= old(nodes)@.subrange(0, (old(nodes)@.len() as int - 1) / 2));
            assert(right@ =~= old(nodes)@.subrange(
                (old(nodes)@.len() as int - 1) / 2,
                old(nodes)@.len() as int - 1,
            ));
            assert(*middle == old(nodes)@[old(nodes)@.len() - 1]);
        }
        (middle, left, right)
    }
}

/// Container for a dfs order tree. Internally uses a Vec.
pub struct CompleteTreeContainer<T, D> {
    _p: PhantomData<D>,
    nodes: Vec<T>,
}

impl<T, D> View for CompleteTreeContainer<T, D> {
    type V = Seq<T>;

    closed spec fn view(&self) -> Seq<T> {
        self.nodes@
    }
}

impl<T> CompleteTreeContainer<T, PreOrder> {
    /// Wrap a buffer whose elements are laid out in dfs pre order.
    /// Succeeds exactly when the buffer holds `2^h - 1` elements for some
    /// height `h >= 1`.
    pub fn from_preorder(vec: Vec<T>) -> (r: Result<
        CompleteTreeContainer<T, PreOrder>,
        NotCompleteTreeSizeErr,
    >)
        ensures
            match r {
                Ok(c) => c@ == vec@ && is_complete_len(vec@.len() as int),
                Err(_) => !is_complete_len(vec@.len() as int),
            },
    {
        CompleteTreeContainer::from_vec_inner(vec)
    }
}

impl<T> CompleteTreeContainer<T, InOrder> {
    /// Wrap a buffer whose elements are laid out in dfs in order.
    /// Succeeds exactly when the buffer holds `2^h - 1` elements for some
    /// height `h >= 1`.
    pub fn from_inorder(vec: Vec<T>) -> (r: Result<
        CompleteTreeContainer<T, InOrder>,
        NotCompleteTreeSizeErr,
    >)
        ensures
            match r {
                Ok(c) => c@ == vec@ && is_complete_len(vec@.len() as int),
                Err(_) => !is_complete_len(vec@.len() as int),
            },
    {
        CompleteTreeContainer::from_vec_inner(vec)
    }
}

impl<T> CompleteTreeContainer<T, PostOrder> {
    /// Wrap a buffer whose elements are laid out in dfs post order.
    /// Succeeds exactly when the buffer holds `2^h - 1` elements for some
    /// height `h >= 1`.
    pub fn from_postorder(vec: Vec<T>) -> (r: Result<
        CompleteTreeContainer<T, PostOrder>,
        NotCompleteTreeSizeErr,
    >)
        ensures
            match r {
                Ok(c) => c@ == vec@ && is_complete_len(vec@.len() as int),
                Err(_) => !is_complete_len(vec@.len() as int),
            },
    {
        CompleteTreeContainer::from_vec_inner(vec)
    }
}

impl<T, D> CompleteTreeContainer<T, D> {
    fn from_vec_inner(vec: Vec<T>) -> (r: Result<
        CompleteTreeContainer<T, D>,
        NotCompleteTreeSizeErr,
    >)
        ensures
            match r {
                Ok(c) => c@ == vec@ && is_complete_len(vec@.len() as int),
                Err(_) => !is_complete_len(vec@.len() as int),
            },
    {
        if valid_node_num(vec.len()) {
            Ok(CompleteTreeContainer { _p: PhantomData, nodes: vec })
        } else {
            Err(NotCompleteTreeSizeErr)
        }
    }

    /// Build a tree of the given height by invoking `func` once per node,
    /// in this layout's storage order, handing it each node's position.
    pub fn from_generator<F: Fn(usize) -> T>(height: usize, func: F) -> (r: CompleteTreeContainer<
        T,
        D,
    >)
        requires
            1 <= height,
            nodes_of_height(height as nat) <= usize::MAX,
            forall|i: usize| call_requires(func, (i,)),
        ensures
            r@.len() == nodes_of_height(height as nat),
            is_complete_len(r@.len() as int),
            forall|i: int| 0 <= i < r@.len() ==> call_ensures(func, (i as usize,), #[trigger] r@[i]),
    {
        let n = crate::compute_num_nodes(height);
        let mut nodes: Vec<T> = Vec::new();
        let mut i: usize = 0;
        while i < n
            invariant
                i <= n,
                nodes@.len() == i,
                forall|j: int|
                    0 <= j < i ==> call_ensures(func, (j as usize,), #[trigger] nodes@[j]),
                forall|k: usize| call_requires(func, (k,)),
            decreases n - i,
        {
            nodes.push(func(i));
            i = i + 1;
        }
        CompleteTreeContainer { _p: PhantomData, nodes }
    }

    /// Return the underlying buffer in storage order.
    pub fn into_nodes(self) -> (r: Vec<T>)
        ensures
            r@ == self@,
    {
        self.nodes
    }

    /// Borrow the container as a tree.
    pub fn as_tree(&self) -> (r: CompleteTree<T, D>)
        ensures
            r.nodes@ == self@,
    {
        CompleteTree { _p: PhantomData, nodes: self.nodes.as_slice() }
    }

    /// Borrow the container as a mutable tree.
    pub fn as_tree_mut(&mut self) -> (r: CompleteTreeMut<T, D>)
        ensures
            r.nodes@ == old(self)@,
            final(self)@ == final(r.nodes)@,
    {
        CompleteTreeMut { _p: PhantomData, nodes: self.nodes.as_mut_slice() }
    }
}

/// A complete binary tree laid out in dfs order, borrowed from its backing
/// buffer. Wrapping checks once that the buffer length is `2^h - 1`; the
/// methods state that check as their precondition.
pub struct CompleteTree<'a, T, D> {
    /// Marker selecting the order policy.
    pub _p: PhantomData<D>,
    /// The backing buffer in storage order.
    pub nodes: &'a [T],
}

/// A complete binary tree laid out in dfs order, mutably borrowed from its
/// backing buffer.
pub struct CompleteTreeMut<'a, T, D> {
    /// Marker selecting the order policy.
    pub _p: PhantomData<D>,
    /// The backing buffer in storage order.
    pub nodes: &'a mut [T],
}

impl<'a, T> CompleteTree<'a, T, PreOrder> {
    /// Borrow a slice whose elements are laid out in dfs pre order.
    pub fn from_preorder(arr: &'a [T]) -> (r: Result<
        CompleteTree<'a, T, PreOrder>,
        NotCompleteTreeSizeErr,
    >)
        ensures
            match r {
                Ok(c) => c.nodes@ == arr@ && is_complete_len(arr@.len() as int),
                Err(_) => !is_complete_len(arr@.len() as int),
            },
    {
        CompleteTree::from_slice_inner(arr)
    }
}

impl<'a, T> CompleteTree<'a, T, InOrder> {
    /// Borrow a slice whose elements are laid out in dfs in order.
    pub fn from_inorder(arr: &'a [T]) -> (r: Result<
        CompleteTree<'a, T, InOrder>,
        NotCompleteTreeSizeErr,
    >)
        ensures
            match r {
                Ok(c) => c.nodes@ == arr@ && is_complete_len(arr@.len() as int),
                Err(_) => !is_complete_len(arr@.len() as int),
            },
    {
        CompleteTree::from_slice_inner(arr)
    }

    /// Mutably borrow a slice whose elements are laid out in dfs in order.
    pub fn from_inorder_mut(arr: &'a mut [T]) -> (r: Result<
        CompleteTreeMut<'a, T, InOrder>,
        NotCompleteTreeSizeErr,
    >)
        ensures
            match r {
                Ok(c) => c.nodes@ == old(arr)@ && is_complete_len(old(arr)@.len() as int)
                    && final(arr)@ == final(c.nodes)@,
                Err(_) => !is_complete_len(old(arr)@.len() as int) && final(arr)@ == old(arr)@,
            },
    {
        CompleteTreeMut::from_slice_inner_mut(arr)
    }
}

impl<'a, T> CompleteTree<'a, T, PostOrder> {
    /// Borrow a slice whose elements are laid out in dfs post order.
    pub fn from_postorder(arr: &'a [T]) -> (r: Result<
        CompleteTree<'a, T, PostOrder>,
        NotCompleteTreeSizeErr,
    >)
        ensures
            match r {
                Ok(c) => c.nodes@ == arr@ && is_complete_len(arr@.len() as int),
                Err(_) => !is_complete_len(arr@.len() as int),
            },
    {
        CompleteTree::from_slice_inner(arr)
    }
}

impl<'a, T> CompleteTreeMut<'a, T, PreOrder> {
    /// Mutably borrow a slice whose elements are laid out in dfs pre order.
    pub fn from_preorder_mut(arr: &'a mut [T]) -> (r: Result<
        CompleteTreeMut<'a, T, PreOrder>,
        NotCompleteTreeSizeErr,
    >)
        ensures
            match r {
                Ok(c) => c.nodes@ == old(arr)@ && is_complete_len(old(arr)@.len() as int)
                    && final(arr)@ == final(c.nodes)@,
                Err(_) => !is_complete_len(old(arr)@.len() as int) && final(arr)@ == old(arr)@,
            },
    {
        CompleteTreeMut::from_slice_inner_mut(arr)
    }
}

impl<'a, T> CompleteTreeMut<'a, T, PostOrder> {
    /// Mutably borrow a slice whose elements are laid out in dfs post order.
    pub fn from_post_mut(arr: &'a mut [T]) -> (r: Result<
        CompleteTreeMut<'a, T, PostOrder>,
        NotCompleteTreeSizeErr,
    >)
        ensures
            match r {
                Ok(c) => c.nodes@ == old(arr)@ && is_complete_len(old(arr)@.len() as int)
                    && final(arr)@ == final(c.nodes)@,
                Err(_) => !is_complete_len(old(arr)@.len() as int) && final(arr)@ == old(arr)@,
            },
    {
        CompleteTreeMut::from_slice_inner_mut(arr)
    }
}

impl<'a, T, D> CompleteTreeMut<'a, T, D> {
    fn from_slice_inner_mut(arr: &'a mut [T]) -> (r: Result<
        CompleteTreeMut<'a, T, D>,
        NotCompleteTreeSizeErr,
    >)
        ensures
            match r {
                Ok(c) => c.nodes@ == old(arr)@ && is_complete_len(old(arr)@.len() as int)
                    && final(arr)@ == final(c.nodes)@,
                Err(_) => !is_complete_len(old(arr)@.len() as int) && final(arr)@ == old(arr)@,
            },
    {
        if valid_node_num(arr.len()) {
            Ok(CompleteTreeMut { _p: PhantomData, nodes: arr })
        } else {
            Err(NotCompleteTreeSizeErr)
        }
    }

    /// Borrow this tree mutably for a shorter lifetime. The reborrowed
    /// tree writes into this tree's own buffer; the borrow rules keep the
    /// two from being used at once.
    pub fn borrow_mut(&mut self) -> (r: CompleteTreeMut<T, D>)
        ensures
            r.nodes@ == old(self.nodes)@,
    {
        CompleteTreeMut { _p: PhantomData, nodes: self.nodes }
    }

    /// Borrow this tree immutably.
    pub fn as_tree(&self) -> (r: CompleteTree<T, D>)
        ensures
            r.nodes@ == old(self.nodes)@,
    {
        CompleteTree { _p: PhantomData, nodes: self.nodes }
    }

    /// Return the underlying buffer in storage order.
    pub fn get_nodes_mut(self) -> (r: &'a mut [T])
        ensures
            r@ == old(self.nodes)@,
            final(self.nodes)@ == final(r)@,
    {
        self.nodes
    }

    /// Create a mutable visitor for the root of this tree.
    pub fn vistr_mut(self) -> (r: VistrMut<'a, T, D>)
        ensures
            r.remaining@ == old(self.nodes)@,
            final(self.nodes)@ == final(r.remaining)@,
    {
        VistrMut { _p: PhantomData, remaining: self.nodes }
    }
}

impl<'a, T, D> CompleteTree<'a, T, D> {
    fn from_slice_inner(arr: &'a [T]) -> (r: Result<
        CompleteTree<'a, T, D>,
        NotCompleteTreeSizeErr,
    >)
        ensures
            match r {
                Ok(c) => c.nodes@ == arr@ && is_complete_len(arr@.len() as int),
                Err(_) => !is_complete_len(arr@.len() as int),
            },
    {
        if valid_node_num(arr.len()) {
            Ok(CompleteTree { _p: PhantomData, nodes: arr })
        } else {
            Err(NotCompleteTreeSizeErr)
        }
    }

    /// Borrow this tree for a shorter lifetime.
    pub fn borrow(&self) -> (r: CompleteTree<T, D>)
        ensures
            r.nodes@ == self.nodes@,
    {
        CompleteTree { _p: PhantomData, nodes: self.nodes }
    }

    /// The height of the tree: the number of levels.
    pub fn get_height(self) -> (h: usize)
        requires
            is_complete_len(self.nodes@.len() as int),
        ensures
            h == complete_height(self.nodes@.len() as int),
            1 <= h,
            self.nodes@.len() == nodes_of_height(h as nat),
    {
        compute_height(self.nodes.len())
    }

    /// Return the underlying buffer in storage order.
    pub fn get_nodes(self) -> (r: &'a [T])
        ensures
            r@ == self.nodes@,
    {
        self.nodes
    }

    /// Create a visitor for the root of this tree.
    pub fn vistr(self) -> (r: Vistr<'a, T, D>)
        ensures
            r.remaining@ == self.nodes@,
    {
        Vistr { _p: PhantomData, remaining: self.nodes }
    }
}

/// Tree visitor that hands out a shared reference to each element.
pub struct Vistr<'a, T, D> {
    /// Marker selecting the order policy.
    pub _p: PhantomData<D>,
    /// The contiguous span holding every node this visitor still owns.
    pub remaining: &'a [T],
}

impl<'a, T, D> Vistr<'a, T, D> {
    /// Borrow this visitor for a shorter lifetime.
    pub fn borrow(&self) -> (r: Vistr<T, D>)
        ensures
            r.remaining@ == self.remaining@,
    {
        Vistr { _p: PhantomData, remaining: self.remaining }
    }

    /// Return the rest of the nodes underneath this visitor, in storage
    /// order.
    pub fn into_slice(self) -> (r: &'a [T])
        ensures
            r@ == self.remaining@,
    {
        self.remaining
    }
}

/// Tree visitor that hands out a mutable reference to each element.
pub struct VistrMut<'a, T, D> {
    /// Marker selecting the order policy.
    pub _p: PhantomData<D>,
    /// The contiguous span holding every node this visitor still owns.
    pub remaining: &'a mut [T],
}

impl<'a, T, D> VistrMut<'a, T, D> {
    /// Borrow this visitor immutably.
    pub fn borrow(&self) -> (r: Vistr<T, D>)
        ensures
            r.remaining@ == old(self.remaining)@,
    {
        Vistr { _p: PhantomData, remaining: self.remaining }
    }

    /// Borrow this visitor mutably for a shorter lifetime. The reborrowed
    /// visitor writes into this visitor's own span; the borrow rules keep
    /// the two from being used at once.
    pub fn borrow_mut(&mut self) -> (r: VistrMut<T, D>)
        ensures
            r.remaining@ == old(self.remaining)@,
    {
        VistrMut { _p: PhantomData, remaining: self.remaining }
    }

    /// Return the rest of the nodes underneath this visitor, in storage
    /// order.
    pub fn into_slice(self) -> (r: &'a mut [T])
        ensures
            r@ == old(self.remaining)@,
            final(self.remaining)@ == final(r)@,
    {
        self.remaining
    }
}

impl<'a, T, D: DfsOrder> Visitor for Vistr<'a, T, D> {
    type Item = &'a T;

    open spec fn wf(&self) -> bool {
        is_complete_len(self.remaining@.len() as int)
    }

    open spec fn levels(&self) -> nat {
        complete_height(self.remaining@.len() as int)
    }

    /// The item refers to the element at the policy's root position, and
    /// the two children receive exactly the policy's left and right
    /// sub-spans, produced exactly when the span is longer than one.
    open spec fn next_spec(&self, r: (&'a T, Option<(Self, Self)>)) -> bool {
        &&& *r.0 == self.remaining@[D::root_pos(self.remaining@.len() as int)]
        &&& match r.1 {
            Some(c) => {
                &&& self.remaining@.len() > 1
                &&& c.0.remaining@ == self.remaining@.subrange(
                    D::left_lo(self.remaining@.len() as int),
                    D::left_lo(self.remaining@.len() as int) + (self.remaining@.len() as int - 1)
                        / 2,
                )
                &&& c.1.remaining@ == self.remaining@.subrange(
                    D::right_lo(self.remaining@.len() as int),
                    D::right_lo(self.remaining@.len() as int) + (self.remaining@.len() as int - 1)
                        / 2,
                )
            },
            None => self.remaining@.len() == 1,
        }
    }

    /// The exact level count, as both bounds.
    open spec fn hint_spec(&self) -> (usize, Option<usize>) {
        (self.levels() as usize, Some(self.levels() as usize))
    }

    /// The item is the element at the policy's root position, and the two
    /// children receive exactly the policy's left and right sub-spans, all
    /// per `next_spec`.
    fn next(self) -> (r: (&'a T, Option<(Self, Self)>)) {
        proof {
            let len = self.remaining@.len() as int;
            lemma_complete_height(len);
            let ch = complete_height(len);
            lemma_nodes_of_height_odd(ch);
            D::lemma_positions(len);
            assert(nodes_of_height(0) == 0);
            assert(nodes_of_height(1) == 1);
            if len != 1 {
                assert(ch >= 2);
                assert(nodes_of_height(2) == 3);
                if ch > 2 {
                    lemma_nodes_of_height_increases(2, ch);
                }
                assert(nodes_of_height(ch) == 2 * nodes_of_height((ch - 1) as nat) + 1);
                assert(is_complete_len((len - 1) / 2)) by {
                    assert(nodes_of_height((ch - 1) as nat) == (len - 1) / 2);
                }
                lemma_complete_height((len - 1) / 2);
            }
        }
        if self.remaining.len() == 1 {
            let cur = vstd::slice::slice_index_get(self.remaining, 0);
            (cur, None)
        } else {
            let (middle, left, right) = D::split(self.remaining);
            (
                middle,
                Some(
                    (
                        Vistr { _p: PhantomData, remaining: left },
                        Vistr { _p: PhantomData, remaining: right },
                    ),
                ),
            )
        }
    }

    /// The exact number of levels below this visitor, as both bounds.
    fn level_remaining_hint(&self) -> (r: (usize, Option<usize>))
        ensures
            r.0 == self.levels(),
            r.1 == Some(r.0),
    {
        let h = compute_height(self.remaining.len());
        (h, Some(h))
    }
}

impl<'a, T, D: DfsOrder> FixedDepthVisitor for Vistr<'a, T, D> {

}

impl<'a, T, D: DfsOrder> Visitor for VistrMut<'a, T, D> {
    type Item = &'a mut T;

    open spec fn wf(&self) -> bool {
        is_complete_len(self.remaining@.len() as int)
    }

    open spec fn levels(&self) -> nat {
        complete_height(self.remaining@.len() as int)
    }

    /// The two children receive exactly the policy's left and right
    /// sub-spans, produced exactly when the span is longer than one. What
    /// the mutable item refers to, and how writes through the three parts
    /// reassemble, is stated on [`VistrMut::next`] itself, where the values
    /// before and after the call can be told apart.
    open spec fn next_spec(&self, r: (&'a mut T, Option<(Self, Self)>)) -> bool {
        match r.1 {
            Some(c) => {
                &&& self.remaining@.len() > 1
                &&& c.0.remaining@ == self.remaining@.subrange(
                    D::left_lo(self.remaining@.len() as int),
                    D::left_lo(self.remaining@.len() as int) + (self.remaining@.len() as int - 1)
                        / 2,
                )
                &&& c.1.remaining@ == self.remaining@.subrange(
                    D::right_lo(self.remaining@.len() as int),
                    D::right_lo(self.remaining@.len() as int) + (self.remaining@.len() as int - 1)
                        / 2,
                )
            },
            None => self.remaining@.len() == 1,
        }
    }

    /// The exact level count, as both bounds.
    open spec fn hint_spec(&self) -> (usize, Option<usize>) {
        (self.levels() as usize, Some(self.levels() as usize))
    }

    /// The item is a mutable reference to the element at the policy's root
    /// position, and the two children receive exactly the policy's left and
    /// right sub-spans, per `next_spec`. However the item and the children
    /// are written to, the visitor's whole span ends up as the reassembly
    /// of the three parts: the three references are aliasing-free.
    fn next(self) -> (r: (&'a mut T, Option<(Self, Self)>))
        ensures
            *r.0 == old(self.remaining)@[D::root_pos(old(self.remaining)@.len() as int)],
            match r.1 {
                Some(c) => final(self.remaining)@ == if D::root_pos(
                    old(self.remaining)@.len() as int,
                ) == 0 {
                    seq![*final(r.0)] + final(c.0.remaining)@ + final(c.1.remaining)@
                } else if D::root_pos(old(self.remaining)@.len() as int) == old(
                    self.remaining,
                )@.len() - 1 {
                    final(c.0.remaining)@ + final(c.1.remaining)@ + seq![*final(r.0)]
                } else {
                    final(c.0.remaining)@ + seq![*final(r.0)] + final(c.1.remaining)@
                },
                None => final(self.remaining)@ == seq![*final(r.0)],
            },
    {
        proof {
            let len = self.remaining@.len() as int;
            lemma_complete_height(len);
            let ch = complete_height(len);
            lemma_nodes_of_height_odd(ch);
            D::lemma_positions(len);
            assert(nodes_of_height(0) == 0);
            assert(nodes_of_height(1) == 1);
            if len != 1 {
                assert(ch >= 2);
                assert(nodes_of_height(2) == 3);
                if ch > 2 {
                    lemma_nodes_of_height_increases(2, ch);
                }
                assert(nodes_of_height(ch) == 2 * nodes_of_height((ch - 1) as nat) + 1);
                assert(is_complete_len((len - 1) / 2)) by {
                    assert(nodes_of_height((ch - 1) as nat) == (len - 1) / 2);
                }
                lemma_complete_height((len - 1) / 2);
            }
        }
        let VistrMut { remaining, _p } = self;
        if remaining.len() == 1 {
            let cur = remaining.first_mut().unwrap();
            proof {
                assert(after_borrow(remaining)@ =~= seq![*final(cur)]);
            }
            (cur, None)
        } else {
            let (middle, left, right) = D::split_mut(remaining);
            (
                middle,
                Some(
                    (
                        VistrMut { _p: PhantomData, remaining: left },
                        VistrMut { _p: PhantomData, remaining: right },
                    ),
                ),
            )
        }
    }

    /// The exact number of levels below this visitor, as both bounds.
    fn level_remaining_hint(&self) -> (r: (usize, Option<usize>))
        ensures
            r.0 == self.levels(),
            r.1 == Some(r.0),
    {
        let h = compute_height(self.remaining.len());
        (h, Some(h))
    }
}

impl<'a, T, D: DfsOrder> FixedDepthVisitor for VistrMut<'a, T, D> {

}

/// Walking an in-order-stored tree with the consuming visitor, emitting
/// left subtree, root, right subtree, reads the storage back exactly: the
/// round-trip law of the in order layout. The walk itself descends through
/// [`Visitor::next`] alone.
pub fn inorder_items<'a, T>(v: Vistr<'a, T, InOrder>) -> (r: Vec<&'a T>)
    requires
        v.wf(),
    ensures
        r@.len() == v.remaining@.len(),
        forall|i: int| 0 <= i < r@.len() ==> *(#[trigger] r@[i]) == v.remaining@[i],
{
    let n = v.remaining.len();
    let mut out: Vec<&'a T> = Vec::new();
    inorder_collect(v, &mut out);
    proof {
        assert forall|i: int| 0 <= i < out@.len() implies *(#[trigger] out@[i])
            == v.remaining@[i] by {
            assert(*out@[0 + i] == v.remaining@[i]);
        }
    }
    out
}

/// Append the in-order walk of `v` to `out`; what is appended is exactly
/// `v`'s span in storage order.
fn inorder_collect<'a, T>(v: Vistr<'a, T, InOrder>, out: &mut Vec<&'a T>)
    requires
        v.wf(),
        old(out)@.len() + v.remaining@.len() <= usize::MAX,
    ensures
        final(out)@.len() == old(out)@.len() + v.remaining@.len(),
        final(out)@.subrange(0, old(out)@.len() as int) == old(out)@,
        forall|i: int|
            0 <= i < v.remaining@.len() ==> *(#[trigger] final(out)@[old(out)@.len() + i])
                == v.remaining@[i],
    decreases v.levels(),
{
    let ghost prior = out@;
    let ghost span = v.remaining@;
    let ghost half = (span.len() as int - 1) / 2;
    let (item, rest) = v.next();
    match rest {
        Some((left, right)) => {
            let ghost lspan = left.remaining@;
            let ghost rspan = right.remaining@;
            inorder_collect(left, out);
            let ghost s1 = out@;
            out.push(item);
            let ghost s2 = out@;
            inorder_collect(right, out);
            proof {
                assert(lspan.len() == half);
                assert(rspan.len() == half);
                assert(s2.subrange(0, s1.len() as int) =~= s1);
                assert forall|i: int| 0 <= i < span.len() implies *(#[trigger] out@[prior.len()
                    + i]) == span[i] by {
                    if i < half {
                        assert(out@.subrange(0, s2.len() as int)[prior.len() + i] == s2[prior.len()
                            + i]);
                        assert(s2[prior.len() + i] == s1[prior.len() + i]);
                        assert(*s1[prior.len() + i] == lspan[i]);
                        assert(lspan[i] == span[i]);
                    } else if i == half {
                        assert(out@.subrange(0, s2.len() as int)[prior.len() + i] == s2[prior.len()
                            + i]);
                        assert(s2[prior.len() + i] == item);
                    } else {
                        assert(*out@[s2.len() + (i - half - 1)] == rspan[i - half - 1]);
                        assert(rspan[i - half - 1] == span[i]);
                    }
                }
                assert(s2.subrange(0, s1.len() as int) =~= s1);
                crate::lemma_prefix_transitive(prior, s1, s2);
                crate::lemma_prefix_transitive(prior, s2, out@);
            }
        },
        None => {
            out.push(item);
            proof {
                assert(out@.subrange(0, prior.len() as int) =~= prior);
                assert(*out@[prior.len() as int] == span[0]);
            }
        },
    }
}

/// Walking a pre-order-stored tree with the consuming visitor, emitting
/// root, left subtree, right subtree, reads the storage back exactly: the
/// round-trip law of the pre order layout.
pub fn preorder_items<'a, T>(v: Vistr<'a, T, PreOrder>) -> (r: Vec<&'a T>)
    requires
        v.wf(),
    ensures
        r@.len() == v.remaining@.len(),
        forall|i: int| 0 <= i < r@.len() ==> *(#[trigger] r@[i]) == v.remaining@[i],
{
    let n = v.remaining.len();
    let mut out: Vec<&'a T> = Vec::new();
    preorder_collect(v, &mut out);
    proof {
        assert forall|i: int| 0 <= i < out@.len() implies *(#[trigger] out@[i])
            == v.remaining@[i] by {
            assert(*out@[0 + i] == v.remaining@[i]);
        }
    }
    out
}

/// Append the preorder walk of `v` to `out`; what is appended is exactly
/// `v`'s span in storage order.
fn preorder_collect<'a, T>(v: Vistr<'a, T, PreOrder>, out: &mut Vec<&'a T>)
    requires
        v.wf(),
        old(out)@.len() + v.remaining@.len() <= usize::MAX,
    ensures
        final(out)@.len() == old(out)@.len() + v.remaining@.len(),
        final(out)@.subrange(0, old(out)@.len() as int) == old(out)@,
        forall|i: int|
            0 <= i < v.remaining@.len() ==> *(#[trigger] final(out)@[old(out)@.len() + i])
                == v.remaining@[i],
    decreases v.levels(),
{
    let ghost prior = out@;
    let ghost span = v.remaining@;
    let ghost half = (span.len() as int - 1) / 2;
    let (item, rest) = v.next();
    match rest {
        Some((left, right)) => {
            let ghost lspan = left.remaining@;
            let ghost rspan = right.remaining@;
            out.push(item);
            let ghost s1 = out@;
            preorder_collect(left, out);
            let ghost s2 = out@;
            preorder_collect(right, out);
            proof {
                assert(lspan.len() == half);
                assert(rspan.len() == half);
                assert(s2.subrange(0, s1.len() as int) =~= s1);
                assert forall|i: int| 0 <= i < span.len() implies *(#[trigger] out@[prior.len()
                    + i]) == span[i] by {
                    if i == 0 {
                        assert(out@.subrange(0, s2.len() as int)[prior.len() as int]
                            == s2[prior.len() as int]);
                        assert(s2[prior.len() as int] == s1[prior.len() as int]);
                        assert(s1[prior.len() as int] == item);
                    } else if i <= half {
                        assert(out@.subrange(0, s2.len() as int)[prior.len() + i] == s2[prior.len()
                            + i]);
                        assert(*s2[s1.len() + (i - 1)] == lspan[i - 1]);
                        assert(lspan[i - 1] == span[i]);
                    } else {
                        assert(*out@[s2.len() + (i - half - 1)] == rspan[i - half - 1]);
                        assert(rspan[i - half - 1] == span[i]);
                    }
                }
                assert(s1.subrange(0, prior.len() as int) =~= prior);
                crate::lemma_prefix_transitive(prior, s1, s2);
                crate::lemma_prefix_transitive(prior, s2, out@);
            }
        },
        None => {
            out.push(item);
            proof {
                assert(out@.subrange(0, prior.len() as int) =~= prior);
                assert(*out@[prior.len() as int] == span[0]);
            }
        },
    }
}

/// Walking a post-order-stored tree with the consuming visitor, emitting
/// left subtree, right subtree, root, reads the storage back exactly: the
/// round-trip law of the post order layout.
pub fn postorder_items<'a, T>(v: Vistr<'a, T, PostOrder>) -> (r: Vec<&'a T>)
    requires
        v.wf(),
    ensures
        r@.len() == v.remaining@.len(),
        forall|i: int| 0 <= i < r@.len() ==> *(#[trigger] r@[i]) == v.remaining@[i],
{
    let n = v.remaining.len();
    let mut out: Vec<&'a T> = Vec::new();
    postorder_collect(v, &mut out);
    proof {
        assert forall|i: int| 0 <= i < out@.len() implies *(#[trigger] out@[i])
            == v.remaining@[i] by {
            assert(*out@[0 + i] == v.remaining@[i]);
        }
    }
    out
}

/// Append the postorder walk of `v` to `out`; what is appended is exactly
/// `v`'s span in storage order.
fn postorder_collect<'a, T>(v: Vistr<'a, T, PostOrder>, out: &mut Vec<&'a T>)
    requires
        v.wf(),
        old(out)@.len() + v.remaining@.len() <= usize::MAX,
    ensures
        final(out)@.len() == old(out)@.len() + v.remaining@.len(),
        final(out)@.subrange(0, old(out)@.len() as int) == old(out)@,
        forall|i: int|
            0 <= i < v.remaining@.len() ==> *(#[trigger] final(out)@[old(out)@.len() + i])
                == v.remaining@[i],
    decreases v.levels(),
{
    let ghost prior = out@;
    let ghost span = v.remaining@;
    let ghost half = (span.len() as int - 1) / 2;
    let (item, rest) = v.next();
    match rest {
        Some((left, right)) => {
            let ghost lspan = left.remaining@;
            let ghost rspan = right.remaining@;
            postorder_collect(left, out);
            let ghost s1 = out@;
            postorder_collect(right, out);
            let ghost s2 = out@;
            out.push(item);
            proof {
                assert(lspan.len() == half);
                assert(rspan.len() == half);
                assert(s2.subrange(0, s1.len() as int) =~= s1);
                assert forall|i: int| 0 <= i < span.len() implies *(#[trigger] out@[prior.len()
                    + i]) == span[i] by {
                    if i < half {
                        assert(out@[prior.len() + i] == s2[prior.len() + i]);
                        assert(s2[prior.len() + i] == s1[prior.len() + i]);
                        assert(*s1[prior.len() + i] == lspan[i]);
                        assert(lspan[i] == span[i]);
                    } else if i < span.len() - 1 {
                        assert(out@[prior.len() + i] == s2[prior.len() + i]);
                        assert(*s2[s1.len() + (i - half)] == rspan[i - half]);
                        assert(rspan[i - half] == span[i]);
                    } else {
                        assert(out@[prior.len() + i] == item);
                    }
                }
                assert(out@.subrange(0, s2.len() as int) =~= s2);
                crate::lemma_prefix_transitive(prior, s1, s2);
                crate::lemma_prefix_transitive(prior, s2, out@);
            }
        },
        None => {
            out.push(item);
            proof {
                assert(out@.subrange(0, prior.len() as int) =~= prior);
                assert(*out@[prior.len() as int] == span[0]);
            }
        },
    }
}

/// The sequence a preorder walk (root, left, right) produces over a span
/// stored under policy `D`.
pub open spec fn span_preorder<D: DfsOrder, A>(s: Seq<A>) -> Seq<A>
    decreases s.len(),
    when s.len() >= 1
{
    if s.len() == 1 {
        s
    } else {
        let half = (s.len() as int - 1) / 2;
        let llo = D::left_lo(s.len() as int);
        let rlo = D::right_lo(s.len() as int);
        // The range check only serves termination: the recursion must
        // shrink even for a policy whose positions lay outside the span,
        // which `DfsOrder::lemma_positions` rules out for the real ones.
        if 0 <= llo && llo + half <= s.len() && 0 <= rlo && rlo + half <= s.len() {
            seq![s[D::root_pos(s.len() as int)]] + span_preorder::<D, A>(
                s.subrange(llo, llo + half),
            ) + span_preorder::<D, A>(s.subrange(rlo, rlo + half))
        } else {
            s
        }
    }
}

/// A preorder walk visits as many nodes as the span holds.
pub proof fn lemma_span_preorder_len<D: DfsOrder, A>(s: Seq<A>)
    requires
        is_complete_len(s.len() as int),
    ensures
        span_preorder::<D, A>(s).len() == s.len(),
    decreases s.len(),
{
    let len = s.len() as int;
    lemma_complete_height(len);
    let ch = complete_height(len);
    lemma_nodes_of_height_odd(ch);
    if s.len() > 1 {
        let half = (len - 1) / 2;
        D::lemma_positions(len);
        assert(nodes_of_height(0) == 0);
        assert(nodes_of_height(1) == 1);
        assert(nodes_of_height(ch) == 2 * nodes_of_height((ch - 1) as nat) + 1);
        assert(is_complete_len(half)) by {
            assert(nodes_of_height((ch - 1) as nat) == half);
        }
        lemma_span_preorder_len::<D, A>(
            s.subrange(D::left_lo(len), D::left_lo(len) + half),
        );
        lemma_span_preorder_len::<D, A>(
            s.subrange(D::right_lo(len), D::right_lo(len) + half),
        );
    }
}

/// Walk `v` in preorder (root, left, right), whatever policy its tree is
/// stored under, descending through [`Visitor::next`] alone. The result is
/// exactly the model sequence [`span_preorder`] of the span.
pub fn preorder_walk_items<'a, T, D: DfsOrder>(v: Vistr<'a, T, D>) -> (r: Vec<&'a T>)
    requires
        v.wf(),
    ensures
        r@.len() == v.remaining@.len(),
        forall|i: int|
            0 <= i < r@.len() ==> *(#[trigger] r@[i]) == span_preorder::<D, T>(v.remaining@)[i],
{
    proof {
        let len = v.remaining@.len() as int;
        lemma_complete_height(len);
        lemma_nodes_of_height_odd(complete_height(len));
        lemma_span_preorder_len::<D, T>(v.remaining@);
    }
    let n = v.remaining.len();
    let mut out: Vec<&'a T> = Vec::new();
    preorder_walk_collect(v, &mut out);
    proof {
        let s = span_preorder::<D, T>(v.remaining@);
        assert forall|i: int| 0 <= i < out@.len() implies *(#[trigger] out@[i]) == s[i] by {
            assert(*out@[0 + i] == s[i]);
        }
    }
    out
}

/// Append the preorder walk of `v` to `out`; what is appended is exactly
/// the model sequence [`span_preorder`] of `v`'s span.
fn preorder_walk_collect<'a, T, D: DfsOrder>(v: Vistr<'a, T, D>, out: &mut Vec<&'a T>)
    requires
        v.wf(),
        old(out)@.len() + v.remaining@.len() <= usize::MAX,
    ensures
        final(out)@.len() == old(out)@.len() + v.remaining@.len(),
        final(out)@.subrange(0, old(out)@.len() as int) == old(out)@,
        forall|i: int|
            0 <= i < v.remaining@.len() ==> *(#[trigger] final(out)@[old(out)@.len() + i])
                == span_preorder::<D, T>(v.remaining@)[i],
    decreases v.levels(),
{
    proof {
        let len = v.remaining@.len() as int;
        lemma_complete_height(len);
        lemma_nodes_of_height_odd(complete_height(len));
        D::lemma_positions(len);
        lemma_span_preorder_len::<D, T>(v.remaining@);
    }
    let ghost prior = out@;
    let ghost span = v.remaining@;
    let ghost s = span_preorder::<D, T>(span);
    let ghost half = (span.len() as int - 1) / 2;
    let (item, rest) = v.next();
    out.push(item);
    let ghost s0 = out@;
    match rest {
        Some((left, right)) => {
            let ghost l = span_preorder::<D, T>(left.remaining@);
            let ghost r = span_preorder::<D, T>(right.remaining@);
            proof {
                lemma_span_preorder_len::<D, T>(left.remaining@);
                lemma_span_preorder_len::<D, T>(right.remaining@);
                assert(s == seq![span[D::root_pos(span.len() as int)]] + l + r);
            }
            preorder_walk_collect(left, out);
            let ghost s1 = out@;
            preorder_walk_collect(right, out);
            proof {
                assert(s1.subrange(0, s0.len() as int) =~= s0);
                assert forall|i: int| 0 <= i < span.len() implies *(#[trigger] out@[prior.len()
                    + i]) == s[i] by {
                    if i == 0 {
                        assert(out@.subrange(0, s1.len() as int)[prior.len() as int]
                            == s1[prior.len() as int]);
                        assert(s1[prior.len() as int] == s0[prior.len() as int]);
                        assert(s0[prior.len() as int] == item);
                    } else if i <= half {
                        assert(out@.subrange(0, s1.len() as int)[prior.len() + i] == s1[prior.len()
                            + i]);
                        assert(*s1[s0.len() + (i - 1)] == l[i - 1]);
                        assert(l[i - 1] == s[i]);
                    } else {
                        assert(*out@[s1.len() + (i - 1 - half)] == r[i - 1 - half]);
                        assert(r[i - 1 - half] == s[i]);
                    }
                }
                assert(s0.subrange(0, prior.len() as int) =~= prior);
                crate::lemma_prefix_transitive(prior, s0, s1);
                crate::lemma_prefix_transitive(prior, s1, out@);
            }
        },
        None => {
            proof {
                assert(s =~= span);
                assert(out@.subrange(0, prior.len() as int) =~= prior);
                assert(*out@[prior.len() as int] == span[0]);
            }
        },
    }
}

} // verus!
