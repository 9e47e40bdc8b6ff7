//! Complete binary tree stored in one flat buffer in breadth-first order.
//!
//! The node at flat index `i` has its children at `2 * i + 1` and
//! `2 * i + 2`; index 0 is the root. A node is a leaf exactly when its index
//! is at least half the buffer length. The mutable visitor hands out flat
//! indices, and this module proves the index-disjointness fact that makes
//! them safe to use from two sides at once: the index sets reachable from
//! the two children of any node share no element.

use vstd::prelude::*;

verus! {

use crate::Visitor;
use crate::FixedDepthVisitor;
use crate::nodes_of_height;
use crate::is_complete_len;
use crate::complete_height;
use crate::lemma_complete_height;
use crate::lemma_nodes_of_height_odd;
use crate::lemma_nodes_of_height_increases;
use crate::valid_node_num;
use crate::compute_height;

/// Error indicating the buffer that was passed does not hold a node count of
/// the form `2^h - 1`, so it cannot back a complete binary tree.
#[derive(Copy, Clone, Debug)]
pub struct NotCompleteTreeSizeErr;

/// The depth of the node at flat index `i`: the number of parent steps from
/// `i` to the root at index 0.
pub open spec fn depth_of(i: int) -> nat
    decreases i,
{
    if i <= 0 {
        0
    } else {
        1 + depth_of((i - 1) / 2)
    }
}

/// The node at flat index `x` lies in the subtree rooted at flat index `a`:
/// following parent steps from `x` reaches `a`.
pub open spec fn in_subtree(a: int, x: int) -> bool
    decreases x,
{
    if x == a {
        true
    } else if x <= 0 {
        false
    } else {
        x > a && in_subtree(a, (x - 1) / 2)
    }
}

/// Every node of a subtree lies at or after its root.
pub proof fn lemma_in_subtree_ge(a: int, x: int)
    requires
        in_subtree(a, x),
    ensures
        x >= a,
    decreases x,
{
    if x != a && x > 0 {
        lemma_in_subtree_ge(a, (x - 1) / 2);
    }
}

/// A node below `a` other than `a` itself lies in the subtree of one of
/// `a`'s two children.
pub proof fn lemma_in_subtree_step(a: int, x: int)
    requires
        a >= 0,
        in_subtree(a, x),
        x != a,
    ensures
        in_subtree(2 * a + 1, x) || in_subtree(2 * a + 2, x),
    decreases x,
{
    let p = (x - 1) / 2;
    if p == a {
        assert(x == 2 * a + 1 || x == 2 * a + 2);
    } else {
        lemma_in_subtree_step(a, p);
    }
}

/// A node in a child's subtree is in the parent's subtree.
pub proof fn lemma_child_subtree(c: int, x: int)
    requires
        c >= 0,
        in_subtree(2 * c + 1, x) || in_subtree(2 * c + 2, x),
    ensures
        in_subtree(c, x),
    decreases x,
{
    reveal_with_fuel(in_subtree, 3);
    if in_subtree(2 * c + 1, x) {
        lemma_in_subtree_ge(2 * c + 1, x);
        if x == 2 * c + 1 {
            assert((x - 1) / 2 == c);
            assert(in_subtree(c, x));
        } else {
            assert(x > 2 * c + 1 && in_subtree(2 * c + 1, (x - 1) / 2));
            lemma_child_subtree(c, (x - 1) / 2);
            assert(x > c && in_subtree(c, (x - 1) / 2));
            assert(in_subtree(c, x));
        }
    } else {
        lemma_in_subtree_ge(2 * c + 2, x);
        if x == 2 * c + 2 {
            assert((x - 1) / 2 == c);
            assert(in_subtree(c, x));
        } else {
            assert(x > 2 * c + 2 && in_subtree(2 * c + 2, (x - 1) / 2));
            lemma_child_subtree(c, (x - 1) / 2);
            assert(x > c && in_subtree(c, (x - 1) / 2));
            assert(in_subtree(c, x));
        }
    }
}

/// The subtrees of the two children of any node are disjoint: no flat index
/// lies in both. This is the aliasing-freedom fact of the breadth-first
/// layout: the two visitors produced by a split can never reach the same
/// slot.
pub proof fn lemma_sibling_subtrees_disjoint(c: int, x: int)
    requires
        c >= 0,
    ensures
        !(in_subtree(2 * c + 1, x) && in_subtree(2 * c + 2, x)),
    decreases x,
{
    if in_subtree(2 * c + 1, x) && in_subtree(2 * c + 2, x) {
        lemma_in_subtree_ge(2 * c + 1, x);
        lemma_in_subtree_ge(2 * c + 2, x);
        if x == 2 * c + 2 {
            lemma_in_subtree_ge(2 * c + 1, (x - 1) / 2);
        } else {
            lemma_sibling_subtrees_disjoint(c, (x - 1) / 2);
        }
    }
}

/// A parent lies in the subtree of neither of its children.
pub proof fn lemma_parent_outside_children(c: int)
    requires
        c >= 0,
    ensures
        !in_subtree(2 * c + 1, c),
        !in_subtree(2 * c + 2, c),
{
    if in_subtree(2 * c + 1, c) {
        lemma_in_subtree_ge(2 * c + 1, c);
    }
    if in_subtree(2 * c + 2, c) {
        lemma_in_subtree_ge(2 * c + 2, c);
    }
}

/// The sequence of flat indices that a preorder walk of the subtree rooted
/// at `c` produces, in a buffer of odd length `len`.
pub open spec fn bfs_pre(len: int, c: int) -> Seq<int>
    decreases len - c,
    when 0 <= c < len
{
    if c >= len / 2 {
        seq![c]
    } else {
        seq![c] + bfs_pre(len, 2 * c + 1) + bfs_pre(len, 2 * c + 2)
    }
}

/// The preorder walk of the subtree at `c` produces exactly the indices of
/// that subtree, each exactly once.
pub proof fn lemma_bfs_pre_once(len: int, c: int)
    requires
        len % 2 == 1,
        0 <= c < len,
    ensures
        bfs_pre(len, c).no_duplicates(),
        forall|x: int| #[trigger] bfs_pre(len, c).contains(x) <==> (in_subtree(c, x) && x < len),
    decreases len - c,
{
    let s = bfs_pre(len, c);
    if c >= len / 2 {
        assert forall|x: int| #[trigger] s.contains(x) implies (in_subtree(c, x) && x < len) by {
            assert(s[0] == c);
        }
        assert forall|x: int| in_subtree(c, x) && x < len implies s.contains(x) by {
            if x != c {
                lemma_in_subtree_step(c, x);
                if in_subtree(2 * c + 1, x) {
                    lemma_in_subtree_ge(2 * c + 1, x);
                } else {
                    lemma_in_subtree_ge(2 * c + 2, x);
                }
            } else {
                assert(s[0] == c);
            }
        }
    } else {
        let l = bfs_pre(len, 2 * c + 1);
        let r = bfs_pre(len, 2 * c + 2);
        lemma_bfs_pre_once(len, 2 * c + 1);
        lemma_bfs_pre_once(len, 2 * c + 2);
        assert forall|x: int| #[trigger] s.contains(x) implies (in_subtree(c, x) && x < len) by {
            let i = choose|i: int| 0 <= i < s.len() && s[i] == x;
            if i == 0 {
                assert(x == c);
            } else if i <= l.len() {
                assert(l[i - 1] == x);
                assert(l.contains(x));
                lemma_child_subtree(c, x);
            } else {
                assert(r[i - 1 - l.len()] == x);
                assert(r.contains(x));
                lemma_child_subtree(c, x);
            }
        }
        assert forall|x: int| in_subtree(c, x) && x < len implies s.contains(x) by {
            if x == c {
                assert(s[0] == c);
            } else {
                lemma_in_subtree_step(c, x);
                if in_subtree(2 * c + 1, x) {
                    assert(l.contains(x));
                    let i = choose|i: int| 0 <= i < l.len() && l[i] == x;
                    assert(s[i + 1] == x);
                } else {
                    assert(r.contains(x));
                    let i = choose|i: int| 0 <= i < r.len() && r[i] == x;
                    assert(s[i + 1 + l.len()] == x);
                }
            }
        }
        assert forall|i: int, j: int| 0 <= i < j < s.len() implies s[i] != s[j] by {
            if s[i] == s[j] {
                let x = s[i];
                if i == 0 {
                    if j <= l.len() {
                        assert(l[j - 1] == x);
                        assert(l.contains(x));
                        lemma_in_subtree_ge(2 * c + 1, x);
                    } else {
                        assert(r[j - 1 - l.len()] == x);
                        assert(r.contains(x));
                        lemma_in_subtree_ge(2 * c + 2, x);
                    }
                } else if j <= l.len() {
                    assert(l[i - 1] == x && l[j - 1] == x);
                    assert(l.no_duplicates());
                } else if i > l.len() {
                    assert(r[i - 1 - l.len()] == x && r[j - 1 - l.len()] == x);
                    assert(r.no_duplicates());
                } else {
                    assert(l[i - 1] == x);
                    assert(l.contains(x));
                    assert(r[j - 1 - l.len()] == x);
                    assert(r.contains(x));
                    lemma_sibling_subtrees_disjoint(c, x);
                }
            }
        }
        assert(s.no_duplicates());
    }
}

/// A preorder walk from the root of a buffer of odd length visits every
/// index of the buffer exactly once.
pub proof fn lemma_bfs_preorder_visits_all(len: int)
    requires
        len % 2 == 1,
        len >= 1,
    ensures
        bfs_pre(len, 0).no_duplicates(),
        forall|x: int| #[trigger] bfs_pre(len, 0).contains(x) <==> 0 <= x < len,
    decreases len,
{
    lemma_bfs_pre_once(len, 0);
    assert forall|x: int| 0 <= x < len implies in_subtree(0, x) by {
        lemma_root_reaches_all(x);
    }
    assert forall|x: int| #[trigger] bfs_pre(len, 0).contains(x) implies 0 <= x < len by {
        lemma_in_subtree_ge(0, x);
    }
}

/// Every nonnegative index lies in the root's subtree.
pub proof fn lemma_root_reaches_all(x: int)
    requires
        x >= 0,
    ensures
        in_subtree(0, x),
    decreases x,
{
    if x > 0 {
        lemma_root_reaches_all((x - 1) / 2);
    }
}

/// The depth of a node never exceeds its index.
pub proof fn lemma_depth_le(i: int)
    requires
        i >= 0,
    ensures
        depth_of(i) <= i,
    decreases i,
{
    if i > 0 {
        lemma_depth_le((i - 1) / 2);
    }
}

/// A node's index lies between the node counts of the trees of its depth
/// and of its depth plus one: level `d` holds exactly the indices from
/// `2^d - 1` up to `2^(d+1) - 1`.
pub proof fn lemma_depth_range(i: int)
    requires
        i >= 0,
    ensures
        nodes_of_height(depth_of(i)) <= i < nodes_of_height(depth_of(i) + 1),
    decreases i,
{
    assert(nodes_of_height(0) == 0);
    assert(nodes_of_height(1) == 1);
    if i > 0 {
        let p = (i - 1) / 2;
        lemma_depth_range(p);
        let dp = depth_of(p);
        assert(nodes_of_height(dp + 1) == 2 * nodes_of_height(dp) + 1);
        assert(nodes_of_height(dp + 2) == 2 * nodes_of_height(dp + 1) + 1);
    }
}

/// Compute the depth of the node at flat index `i`.
fn depth_index(i: usize) -> (d: usize)
    ensures
        d == depth_of(i as int),
{
    proof {
        lemma_depth_le(i as int);
    }
    let mut cur: usize = i;
    let mut d: usize = 0;
    while cur > 0
        invariant
            depth_of(i as int) == d + depth_of(cur as int),
            d + depth_of(cur as int) <= i,
        decreases cur,
    {
        proof {
            lemma_depth_le(cur as int);
            assert(depth_of(cur as int) == 1 + depth_of((cur - 1) as int / 2));
        }
        cur = (cur - 1) / 2;
        d = d + 1;
    }
    d
}

/// Container for a complete tree in breadth-first order. Internally uses a
/// Vec.
pub struct CompleteTreeContainer<T> {
    nodes: Vec<T>,
}

impl<T> View for CompleteTreeContainer<T> {
    type V = Seq<T>;

    closed spec fn view(&self) -> Seq<T> {
        self.nodes@
    }
}

impl<T> CompleteTreeContainer<T> {
    /// Wrap a buffer whose elements are laid out in bfs order. Succeeds
    /// exactly when the buffer holds `2^h - 1` elements for some height
    /// `h >= 1`.
    pub fn from_vec(vec: Vec<T>) -> (r: Result<CompleteTreeContainer<T>, NotCompleteTreeSizeErr>)
        ensures
            match r {
                Ok(c) => c@ == vec@ && is_complete_len(vec@.len() as int),
                Err(_) => !is_complete_len(vec@.len() as int),
            },
    {
        if valid_node_num(vec.len()) {
            Ok(CompleteTreeContainer { nodes: vec })
        } else {
            Err(NotCompleteTreeSizeErr)
        }
    }

    /// Build a tree of the given height by invoking `func` once per node,
    /// in bfs storage order, handing it each node's flat index.
    pub fn from_generator<F: Fn(usize) -> T>(height: usize, func: F) -> (r: CompleteTreeContainer<
        T,
    >)
        requires
            1 <= height,
            nodes_of_height(height as nat) <= usize::MAX,
            forall|i: usize| call_requires(func, (i,)),
        ensures
            r@.len() == nodes_of_height(height as nat),
            is_complete_len(r@.len() as int),
            forall|i: int| 0 <= i < r@.len() ==> call_ensures(func, (i as usize,), #[trigger] r@[i]),
    {
        let n = crate::compute_num_nodes(height);
        let mut nodes: Vec<T> = Vec::new();
        let mut i: usize = 0;
        while i < n
            invariant
                i <= n,
                nodes@.len() == i,
                forall|j: int|
                    0 <= j < i ==> call_ensures(func, (j as usize,), #[trigger] nodes@[j]),
                forall|k: usize| call_requires(func, (k,)),
            decreases n - i,
        {
            nodes.push(func(i));
            i = i + 1;
        }
        CompleteTreeContainer { nodes }
    }

    /// Return the underlying elements as they are, in bfs order.
    pub fn into_nodes(self) -> (r: Vec<T>)
        ensures
            r@ == self@,
    {
        self.nodes
    }

    /// The height of the tree: the number of levels.
    pub fn get_height(&self) -> (h: usize)
        requires
            is_complete_len(self@.len() as int),
        ensures
            h == complete_height(self@.len() as int),
            1 <= h,
            self@.len() == nodes_of_height(h as nat),
    {
        compute_height(self.nodes.len())
    }

    /// Create an immutable visitor standing on the root.
    pub fn vistr(&self) -> (r: Vistr<T>)
        ensures
            r.arr@ == self@,
            r.current == 0,
    {
        Vistr { current: 0, arr: self.nodes.as_slice() }
    }

    /// Create a mutable visitor standing on the root. The visitor yields
    /// flat indices; the elements themselves are written through
    /// [`Self::get_nodes_mut`].
    pub fn vistr_mut(&mut self) -> (r: VistrMut)
        ensures
            r.len == old(self)@.len(),
            r.current == 0,
            final(self)@ == old(self)@,
    {
        VistrMut { current: 0, len: self.nodes.len() }
    }

    /// Borrow the underlying elements as they are, in bfs order.
    pub fn get_nodes(&self) -> (r: &[T])
        ensures
            r@ == self@,
    {
        self.nodes.as_slice()
    }

    /// Mutably borrow the underlying elements as they are, in bfs order.
    pub fn get_nodes_mut(&mut self) -> (r: &mut [T])
        ensures
            r@ == old(self)@,
            final(self)@ == final(r)@,
    {
        self.nodes.as_mut_slice()
    }
}

/// A complete binary tree in bfs order, borrowed from its backing buffer.
pub struct CompleteTree<'a, T> {
    /// The backing buffer in bfs order.
    pub nodes: &'a [T],
}

impl<'a, T> CompleteTree<'a, T> {
    /// Borrow a slice whose elements are laid out in bfs order. Succeeds
    /// exactly when the slice holds `2^h - 1` elements for some height
    /// `h >= 1`.
    pub fn from_slice(arr: &'a [T]) -> (r: Result<CompleteTree<'a, T>, NotCompleteTreeSizeErr>)
        ensures
            match r {
                Ok(c) => c.nodes@ == arr@ && is_complete_len(arr@.len() as int),
                Err(_) => !is_complete_len(arr@.len() as int),
            },
    {
        if valid_node_num(arr.len()) {
            Ok(CompleteTree { nodes: arr })
        } else {
            Err(NotCompleteTreeSizeErr)
        }
    }

    /// The height of the tree: the number of levels.
    pub fn get_height(&self) -> (h: usize)
        requires
            is_complete_len(self.nodes@.len() as int),
        ensures
            h == complete_height(self.nodes@.len() as int),
            1 <= h,
            self.nodes@.len() == nodes_of_height(h as nat),
    {
        compute_height(self.nodes.len())
    }

    /// Create an immutable visitor standing on the root.
    pub fn vistr(&self) -> (r: Vistr<'a, T>)
        ensures
            r.arr@ == self.nodes@,
            r.current == 0,
    {
        Vistr { current: 0, arr: self.nodes }
    }

    /// Create a mutable visitor standing on the root. The visitor yields
    /// flat indices into the buffer.
    pub fn vistr_mut(&self) -> (r: VistrMut)
        ensures
            r.len == self.nodes@.len(),
            r.current == 0,
    {
        VistrMut { current: 0, len: self.nodes.len() }
    }

    /// Return the underlying elements as they are, in bfs order.
    pub fn get_nodes(&self) -> (r: &'a [T])
        ensures
            r@ == self.nodes@,
    {
        self.nodes
    }
}

/// Tree visitor that hands out a shared reference to each element of a
/// bfs-ordered buffer.
pub struct Vistr<'a, T> {
    /// Flat index of the node this visitor stands on.
    pub current: usize,
    /// The whole backing buffer in bfs order.
    pub arr: &'a [T],
}

/// Tree visitor that hands out the flat index of each node of a
/// bfs-ordered buffer. The index sets reachable from the two children of a
/// split are disjoint ([`lemma_sibling_subtrees_disjoint`]), so values may
/// be written at the indices the two sides produce without interference.
pub struct VistrMut {
    /// Flat index of the node this visitor stands on.
    pub current: usize,
    /// Length of the backing buffer.
    pub len: usize,
}

impl<'a, T> Visitor for Vistr<'a, T> {
    type Item = &'a T;

    open spec fn wf(&self) -> bool {
        is_complete_len(self.arr@.len() as int) && self.current < self.arr@.len()
    }

    open spec fn levels(&self) -> nat {
        (complete_height(self.arr@.len() as int) - depth_of(self.current as int)) as nat
    }

    /// The item refers to the element at the current flat index; the
    /// children stand on indices `2 * current + 1` and `2 * current + 2` of
    /// the same buffer, produced exactly when the index is in the first
    /// half of the buffer.
    open spec fn next_spec(&self, r: (&'a T, Option<(Self, Self)>)) -> bool {
        &&& *r.0 == self.arr@[self.current as int]
        &&& match r.1 {
            Some(c) => self.current < self.arr@.len() / 2 && c.0.arr@ == self.arr@ && c.1.arr@
                == self.arr@ && c.0.current == 2 * self.current + 1 && c.1.current == 2
                * self.current + 2,
            None => self.current >= self.arr@.len() / 2,
        }
    }

    /// The exact level count, as both bounds.
    open spec fn hint_spec(&self) -> (usize, Option<usize>) {
        (self.levels() as usize, Some(self.levels() as usize))
    }

    /// The item is the element at the current flat index; the children
    /// stand on indices `2 * current + 1` and `2 * current + 2` of the same
    /// buffer, and the node is a leaf exactly when its index is in the
    /// second half of the buffer, all per `next_spec`.
    fn next(self) -> (r: (&'a T, Option<(Self, Self)>)) {
        proof {
            lemma_bfs_shape(self.arr@.len() as int, self.current as int);
        }
        let len = self.arr.len();
        let cur = vstd::slice::slice_index_get(self.arr, self.current);
        if self.current >= len / 2 {
            (cur, None)
        } else {
            let j = (
                Vistr { current: 2 * self.current + 1, arr: self.arr },
                Vistr { current: 2 * self.current + 2, arr: self.arr },
            );
            (cur, Some(j))
        }
    }

    /// The exact number of levels below this visitor, as both bounds.
    fn level_remaining_hint(&self) -> (r: (usize, Option<usize>))
        ensures
            r.0 == self.levels(),
            r.1 == Some(r.0),
    {
        proof {
            lemma_bfs_shape(self.arr@.len() as int, self.current as int);
        }
        let depth = depth_index(self.current);
        let height = compute_height(self.arr.len());
        let diff = height - depth;
        (diff, Some(diff))
    }
}

impl<'a, T> FixedDepthVisitor for Vistr<'a, T> {

}

impl Visitor for VistrMut {
    type Item = usize;

    open spec fn wf(&self) -> bool {
        is_complete_len(self.len as int) && self.current < self.len
    }

    open spec fn levels(&self) -> nat {
        (complete_height(self.len as int) - depth_of(self.current as int)) as nat
    }

    /// The item is the current flat index; the children stand on indices
    /// `2 * current + 1` and `2 * current + 2` of the same buffer, produced
    /// exactly when the index is in the first half of the buffer.
    open spec fn next_spec(&self, r: (usize, Option<(Self, Self)>)) -> bool {
        &&& r.0 == self.current
        &&& match r.1 {
            Some(c) => self.current < self.len / 2 && c.0.len == self.len && c.1.len == self.len
                && c.0.current == 2 * self.current + 1 && c.1.current == 2 * self.current + 2,
            None => self.current >= self.len / 2,
        }
    }

    /// The exact level count, as both bounds.
    open spec fn hint_spec(&self) -> (usize, Option<usize>) {
        (self.levels() as usize, Some(self.levels() as usize))
    }

    /// The item is the current flat index; the children stand on indices
    /// `2 * current + 1` and `2 * current + 2` of the same buffer, and the
    /// node is a leaf exactly when its index is in the second half of the
    /// buffer, all per `next_spec`.
    fn next(self) -> (r: (usize, Option<(Self, Self)>)) {
        proof {
            lemma_bfs_shape(self.len as int, self.current as int);
        }
        if self.current >= self.len / 2 {
            (self.current, None)
        } else {
            let j = (
                VistrMut { current: 2 * self.current + 1, len: self.len },
                VistrMut { current: 2 * self.current + 2, len: self.len },
            );
            (self.current, Some(j))
        }
    }

    /// The exact number of levels below this visitor, as both bounds.
    fn level_remaining_hint(&self) -> (r: (usize, Option<usize>))
        ensures
            r.0 == self.levels(),
            r.1 == Some(r.0),
    {
        proof {
            lemma_bfs_shape(self.len as int, self.current as int);
        }
        let depth = depth_index(self.current);
        let height = compute_height(self.len);
        let diff = height - depth;
        (diff, Some(diff))
    }
}

impl FixedDepthVisitor for VistrMut {

}

/// What the index arithmetic of the bfs layout rests on, for a buffer of
/// complete length and a valid index: the node's depth stays below the
/// height, the leaf test `current >= len / 2` matches having exactly one
/// level left, and an internal node's children are valid indices one depth
/// further down.
pub proof fn lemma_bfs_shape(len: int, current: int)
    requires
        is_complete_len(len),
        0 <= current < len,
    ensures
        len % 2 == 1,
        depth_of(current) < complete_height(len),
        current >= len / 2 <==> depth_of(current) + 1 == complete_height(len),
        current < len / 2 ==> 2 * current + 2 < len && depth_of(2 * current + 1) == depth_of(
            current,
        ) + 1 && depth_of(2 * current + 2) == depth_of(current) + 1,
{
    let ch = complete_height(len);
    lemma_complete_height(len);
    lemma_nodes_of_height_odd(ch);
    lemma_depth_range(current);
    let d = depth_of(current);
    assert(nodes_of_height(ch) == 2 * nodes_of_height((ch - 1) as nat) + 1);
    assert(len / 2 == nodes_of_height((ch - 1) as nat));
    if d >= ch {
        if d > ch {
            lemma_nodes_of_height_increases(ch, d);
        }
        assert(current >= nodes_of_height(d));
        assert(false);
    }
    if current >= len / 2 {
        if d + 1 < ch {
            if d + 2 < ch {
                lemma_nodes_of_height_increases(d + 1, (ch - 1) as nat);
            }
            assert(nodes_of_height(d + 1) <= nodes_of_height((ch - 1) as nat));
            assert(current < nodes_of_height(d + 1));
            assert(false);
        }
    } else {
        if d + 1 == ch {
            assert(current >= nodes_of_height((ch - 1) as nat));
            assert(false);
        }
        assert(2 * current + 2 < 2 * nodes_of_height((ch - 1) as nat) + 1);
        assert((2 * current + 1 - 1) / 2 == current);
        assert((2 * current + 2 - 1) / 2 == current);
    }
}

/// The sequence of flat indices that an in-order walk of the subtree
/// rooted at `c` produces, in a buffer of odd length `len`.
pub open spec fn bfs_ino(len: int, c: int) -> Seq<int>
    decreases len - c,
    when 0 <= c < len
{
    if c >= len / 2 {
        seq![c]
    } else {
        bfs_ino(len, 2 * c + 1) + seq![c] + bfs_ino(len, 2 * c + 2)
    }
}

/// The sequence of flat indices that a postorder walk of the subtree
/// rooted at `c` produces, in a buffer of odd length `len`.
pub open spec fn bfs_post(len: int, c: int) -> Seq<int>
    decreases len - c,
    when 0 <= c < len
{
    if c >= len / 2 {
        seq![c]
    } else {
        bfs_post(len, 2 * c + 1) + bfs_post(len, 2 * c + 2) + seq![c]
    }
}

/// The in-order walk of the subtree at `c` produces exactly the indices of
/// that subtree, each exactly once, just as the preorder walk does: the
/// emission order moves the root between the two child blocks, but the
/// blocks themselves are the same.
pub proof fn lemma_bfs_ino_once(len: int, c: int)
    requires
        len % 2 == 1,
        0 <= c < len,
    ensures
        bfs_ino(len, c).no_duplicates(),
        forall|x: int| #[trigger] bfs_ino(len, c).contains(x) <==> (in_subtree(c, x) && x < len),
    decreases len - c,
{
    let s = bfs_ino(len, c);
    if c >= len / 2 {
        assert forall|x: int| #[trigger] s.contains(x) implies (in_subtree(c, x) && x < len) by {
            assert(s[0] == c);
        }
        assert forall|x: int| in_subtree(c, x) && x < len implies s.contains(x) by {
            if x != c {
                lemma_in_subtree_step(c, x);
                if in_subtree(2 * c + 1, x) {
                    lemma_in_subtree_ge(2 * c + 1, x);
                } else {
                    lemma_in_subtree_ge(2 * c + 2, x);
                }
            } else {
                assert(s[0] == c);
            }
        }
    } else {
        let l = bfs_ino(len, 2 * c + 1);
        let r = bfs_ino(len, 2 * c + 2);
        lemma_bfs_ino_once(len, 2 * c + 1);
        lemma_bfs_ino_once(len, 2 * c + 2);
        assert forall|x: int| #[trigger] s.contains(x) implies (in_subtree(c, x) && x < len) by {
            let i = choose|i: int| 0 <= i < s.len() && s[i] == x;
            if i < l.len() {
                assert(l[i] == x);
                assert(l.contains(x));
                lemma_child_subtree(c, x);
            } else if i == l.len() {
                assert(x == c);
            } else {
                assert(r[i - 1 - l.len()] == x);
                assert(r.contains(x));
                lemma_child_subtree(c, x);
            }
        }
        assert forall|x: int| in_subtree(c, x) && x < len implies s.contains(x) by {
            if x == c {
                assert(s[l.len() as int] == c);
            } else {
                lemma_in_subtree_step(c, x);
                if in_subtree(2 * c + 1, x) {
                    assert(l.contains(x));
                    let i = choose|i: int| 0 <= i < l.len() && l[i] == x;
                    assert(s[i] == x);
                } else {
                    assert(r.contains(x));
                    let i = choose|i: int| 0 <= i < r.len() && r[i] == x;
                    assert(s[i + 1 + l.len()] == x);
                }
            }
        }
        assert forall|i: int, j: int| 0 <= i < j < s.len() implies s[i] != s[j] by {
            if s[i] == s[j] {
                let x = s[i];
                if i < l.len() && j < l.len() {
                    assert(l[i] == x && l[j] == x);
                    assert(l.no_duplicates());
                } else if i > l.len() && j > l.len() {
                    assert(r[i - 1 - l.len()] == x && r[j - 1 - l.len()] == x);
                    assert(r.no_duplicates());
                } else if i == l.len() {
                    assert(x == c);
                    assert(r[j - 1 - l.len()] == x);
                    assert(r.contains(x));
                    lemma_in_subtree_ge(2 * c + 2, x);
                } else if j == l.len() {
                    assert(x == c);
                    assert(l[i] == x);
                    assert(l.contains(x));
                    lemma_in_subtree_ge(2 * c + 1, x);
                } else {
                    assert(l[i] == x);
                    assert(l.contains(x));
                    assert(r[j - 1 - l.len()] == x);
                    assert(r.contains(x));
                    lemma_sibling_subtrees_disjoint(c, x);
                }
            }
        }
        assert(s.no_duplicates());
    }
}

/// The postorder walk of the subtree at `c` produces exactly the indices
/// of that subtree, each exactly once, just as the preorder walk does.
pub proof fn lemma_bfs_post_once(len: int, c: int)
    requires
        len % 2 == 1,
        0 <= c < len,
    ensures
        bfs_post(len, c).no_duplicates(),
        forall|x: int| #[trigger] bfs_post(len, c).contains(x) <==> (in_subtree(c, x) && x < len),
    decreases len - c,
{
    let s = bfs_post(len, c);
    if c >= len / 2 {
        assert forall|x: int| #[trigger] s.contains(x) implies (in_subtree(c, x) && x < len) by {
            assert(s[0] == c);
        }
        assert forall|x: int| in_subtree(c, x) && x < len implies s.contains(x) by {
            if x != c {
                lemma_in_subtree_step(c, x);
                if in_subtree(2 * c + 1, x) {
                    lemma_in_subtree_ge(2 * c + 1, x);
                } else {
                    lemma_in_subtree_ge(2 * c + 2, x);
                }
            } else {
                assert(s[0] == c);
            }
        }
    } else {
        let l = bfs_post(len, 2 * c + 1);
        let r = bfs_post(len, 2 * c + 2);
        lemma_bfs_post_once(len, 2 * c + 1);
        lemma_bfs_post_once(len, 2 * c + 2);
        assert forall|x: int| #[trigger] s.contains(x) implies (in_subtree(c, x) && x < len) by {
            let i = choose|i: int| 0 <= i < s.len() && s[i] == x;
            if i < l.len() {
                assert(l[i] == x);
                assert(l.contains(x));
                lemma_child_subtree(c, x);
            } else if i < l.len() + r.len() {
                assert(r[i - l.len()] == x);
                assert(r.contains(x));
                lemma_child_subtree(c, x);
            } else {
                assert(x == c);
            }
        }
        assert forall|x: int| in_subtree(c, x) && x < len implies s.contains(x) by {
            if x == c {
                assert(s[s.len() - 1] == c);
            } else {
                lemma_in_subtree_step(c, x);
                if in_subtree(2 * c + 1, x) {
                    assert(l.contains(x));
                    let i = choose|i: int| 0 <= i < l.len() && l[i] == x;
                    assert(s[i] == x);
                } else {
                    assert(r.contains(x));
                    let i = choose|i: int| 0 <= i < r.len() && r[i] == x;
                    assert(s[i + l.len()] == x);
                }
            }
        }
        assert forall|i: int, j: int| 0 <= i < j < s.len() implies s[i] != s[j] by {
            if s[i] == s[j] {
                let x = s[i];
                if i < l.len() && j < l.len() {
                    assert(l[i] == x && l[j] == x);
                    assert(l.no_duplicates());
                } else if l.len() <= i && j < l.len() + r.len() {
                    assert(r[i - l.len()] == x && r[j - l.len()] == x);
                    assert(r.no_duplicates());
                } else if j == s.len() - 1 {
                    assert(x == c);
                    if i < l.len() {
                        assert(l[i] == x);
                        assert(l.contains(x));
                        lemma_in_subtree_ge(2 * c + 1, x);
                    } else {
                        assert(r[i - l.len()] == x);
                        assert(r.contains(x));
                        lemma_in_subtree_ge(2 * c + 2, x);
                    }
                } else {
                    assert(l[i] == x);
                    assert(l.contains(x));
                    assert(r[j - l.len()] == x);
                    assert(r.contains(x));
                    lemma_sibling_subtrees_disjoint(c, x);
                }
            }
        }
        assert(s.no_duplicates());
    }
}

/// A preorder walk's index sequence is no longer than the buffer: its
/// entries are distinct indices of the buffer.
pub proof fn lemma_bfs_pre_size(len: int, c: int)
    requires
        len % 2 == 1,
        0 <= c < len,
    ensures
        bfs_pre(len, c).len() <= len,
{
    let s = bfs_pre(len, c);
    lemma_bfs_pre_once(len, c);
    s.unique_seq_to_set();
    assert forall|x: int| s.to_set().contains(x) implies vstd::set_lib::set_int_range(
        0,
        len,
    ).contains(x) by {
        assert(s.contains(x));
        lemma_in_subtree_ge(c, x);
    }
    assert(s.to_set().subset_of(vstd::set_lib::set_int_range(0, len)));
    vstd::set_lib::lemma_int_range(0, len);
    vstd::set_lib::lemma_len_subset(s.to_set(), vstd::set_lib::set_int_range(0, len));
}

/// Collect the flat indices of a preorder walk below `v`, descending
/// through [`Visitor::next`] alone. The result is exactly the model
/// sequence [`bfs_pre`], so with [`lemma_bfs_preorder_visits_all`] a
/// preorder walk from the root produces every index of the buffer exactly
/// once.
pub fn preorder_indices(v: VistrMut) -> (r: Vec<usize>)
    requires
        v.wf(),
    ensures
        r@.len() == bfs_pre(v.len as int, v.current as int).len(),
        forall|i: int|
            0 <= i < r@.len() ==> (#[trigger] r@[i]) as int == bfs_pre(
                v.len as int,
                v.current as int,
            )[i],
{
    proof {
        lemma_bfs_shape(v.len as int, v.current as int);
        lemma_bfs_pre_size(v.len as int, v.current as int);
    }
    let mut out: Vec<usize> = Vec::new();
    preorder_indices_collect(v, &mut out);
    proof {
        let s = bfs_pre(v.len as int, v.current as int);
        assert forall|i: int| 0 <= i < out@.len() implies (#[trigger] out@[i]) as int == s[i] by {
            assert(out@[0 + i] as int == s[i]);
        }
    }
    out
}

/// Append the preorder walk of `v`'s subtree to `out`; what is appended is
/// exactly the model sequence [`bfs_pre`].
fn preorder_indices_collect(v: VistrMut, out: &mut Vec<usize>)
    requires
        v.wf(),
        old(out)@.len() + bfs_pre(v.len as int, v.current as int).len() <= usize::MAX,
    ensures
        final(out)@.len() == old(out)@.len() + bfs_pre(v.len as int, v.current as int).len(),
        final(out)@.subrange(0, old(out)@.len() as int) == old(out)@,
        forall|i: int|
            0 <= i < bfs_pre(v.len as int, v.current as int).len() ==> (#[trigger] final(out)@[old(
                out,
            )@.len() + i]) as int == bfs_pre(v.len as int, v.current as int)[i],
    decreases v.levels(),
{
    let ghost prior = out@;
    let ghost s = bfs_pre(v.len as int, v.current as int);
    let (item, rest) = v.next();
    out.push(item);
    let ghost s0 = out@;
    match rest {
        Some((left, right)) => {
            let ghost l = bfs_pre(left.len as int, left.current as int);
            let ghost r = bfs_pre(right.len as int, right.current as int);
            proof {
                assert(s == seq![v.current as int] + l + r);
            }
            preorder_indices_collect(left, out);
            let ghost s1 = out@;
            preorder_indices_collect(right, out);
            proof {
                assert(s1.subrange(0, s0.len() as int) =~= s0);
                assert forall|i: int| 0 <= i < s.len() implies (#[trigger] out@[prior.len()
                    + i]) as int == s[i] by {
                    if i == 0 {
                        assert(out@.subrange(0, s1.len() as int)[prior.len() as int]
                            == s1[prior.len() as int]);
                        assert(s1[prior.len() as int] == s0[prior.len() as int]);
                        assert(s0[prior.len() as int] == item);
                    } else if i <= l.len() {
                        assert(out@.subrange(0, s1.len() as int)[prior.len() + i] == s1[prior.len()
                            + i]);
                        assert(s1[s0.len() + (i - 1)] as int == l[i - 1]);
                        assert(l[i - 1] == s[i]);
                    } else {
                        assert(out@[s1.len() + (i - 1 - l.len())] as int == r[i - 1 - l.len()]);
                        assert(r[i - 1 - l.len()] == s[i]);
                    }
                }
                assert(s0.subrange(0, prior.len() as int) =~= prior);
                crate::lemma_prefix_transitive(prior, s0, s1);
                crate::lemma_prefix_transitive(prior, s1, out@);
            }
        },
        None => {
            proof {
                assert(s =~= seq![v.current as int]);
                assert(out@.subrange(0, prior.len() as int) =~= prior);
                assert(out@[prior.len() as int] == item);
            }
        },
    }
}

/// Collect the flat indices of an in-order walk below `v`, descending
/// through [`Visitor::next`] alone. The result is exactly the model
/// sequence [`bfs_ino`], so with [`lemma_bfs_ino_once`] an in-order walk
/// visits every index of its subtree exactly once.
pub fn inorder_indices(v: VistrMut) -> (r: Vec<usize>)
    requires
        v.wf(),
    ensures
        r@.len() == bfs_ino(v.len as int, v.current as int).len(),
        forall|i: int|
            0 <= i < r@.len() ==> (#[trigger] r@[i]) as int == bfs_ino(
                v.len as int,
                v.current as int,
            )[i],
{
    proof {
        lemma_bfs_ino_size(v.len as int, v.current as int);
    }
    let mut out: Vec<usize> = Vec::new();
    inorder_indices_collect(v, &mut out);
    proof {
        let s = bfs_ino(v.len as int, v.current as int);
        assert forall|i: int| 0 <= i < out@.len() implies (#[trigger] out@[i]) as int == s[i] by {
            assert(out@[0 + i] as int == s[i]);
        }
    }
    out
}

/// An in-order walk's index sequence is no longer than the buffer.
proof fn lemma_bfs_ino_size(len: int, c: int)
    requires
        len % 2 == 1,
        0 <= c < len,
    ensures
        bfs_ino(len, c).len() <= len,
{
    let s = bfs_ino(len, c);
    lemma_bfs_ino_once(len, c);
    s.unique_seq_to_set();
    assert forall|x: int| s.to_set().contains(x) implies vstd::set_lib::set_int_range(
        0,
        len,
    ).contains(x) by {
        assert(s.contains(x));
        lemma_in_subtree_ge(c, x);
    }
    assert(s.to_set().subset_of(vstd::set_lib::set_int_range(0, len)));
    vstd::set_lib::lemma_int_range(0, len);
    vstd::set_lib::lemma_len_subset(s.to_set(), vstd::set_lib::set_int_range(0, len));
}

/// Append the in-order walk of `v`'s subtree to `out`; what is appended is
/// exactly the model sequence [`bfs_ino`].
fn inorder_indices_collect(v: VistrMut, out: &mut Vec<usize>)
    requires
        v.wf(),
        old(out)@.len() + bfs_ino(v.len as int, v.current as int).len() <= usize::MAX,
    ensures
        final(out)@.len() == old(out)@.len() + bfs_ino(v.len as int, v.current as int).len(),
        final(out)@.subrange(0, old(out)@.len() as int) == old(out)@,
        forall|i: int|
            0 <= i < bfs_ino(v.len as int, v.current as int).len() ==> (#[trigger] final(out)@[old(
                out,
            )@.len() + i]) as int == bfs_ino(v.len as int, v.current as int)[i],
    decreases v.levels(),
{
    let ghost prior = out@;
    let ghost s = bfs_ino(v.len as int, v.current as int);
    let (item, rest) = v.next();
    match rest {
        Some((left, right)) => {
            let ghost l = bfs_ino(left.len as int, left.current as int);
            let ghost r = bfs_ino(right.len as int, right.current as int);
            proof {
                assert(s == l + seq![item as int] + r);
            }
            inorder_indices_collect(left, out);
            let ghost s1 = out@;
            out.push(item);
            let ghost s2 = out@;
            inorder_indices_collect(right, out);
            proof {
                assert(s2.subrange(0, s1.len() as int) =~= s1);
                assert forall|i: int| 0 <= i < s.len() implies (#[trigger] out@[prior.len()
                    + i]) as int == s[i] by {
                    if i < l.len() {
                        assert(out@.subrange(0, s2.len() as int)[prior.len() + i] == s2[prior.len()
                            + i]);
                        assert(s2[prior.len() + i] == s1[prior.len() + i]);
                        assert(s1[prior.len() + i] as int == l[i]);
                    } else if i == l.len() {
                        assert(out@.subrange(0, s2.len() as int)[prior.len() + i] == s2[prior.len()
                            + i]);
                        assert(s2[prior.len() + i] == item);
                    } else {
                        assert(out@[s2.len() + (i - 1 - l.len())] as int == r[i - 1 - l.len()]);
                        assert(r[i - 1 - l.len()] == s[i]);
                    }
                }
                assert(s2.subrange(0, s1.len() as int) =~= s1);
                crate::lemma_prefix_transitive(prior, s1, s2);
                crate::lemma_prefix_transitive(prior, s2, out@);
            }
        },
        None => {
            out.push(item);
            proof {
                assert(s =~= seq![v.current as int]);
                assert(out@.subrange(0, prior.len() as int) =~= prior);
                assert(out@[prior.len() as int] == item);
            }
        },
    }
}

/// Collect the flat indices of a postorder walk below `v`, descending
/// through [`Visitor::next`] alone. The result is exactly the model
/// sequence [`bfs_post`], so with [`lemma_bfs_post_once`] a postorder walk
/// visits every index of its subtree exactly once.
pub fn postorder_indices(v: VistrMut) -> (r: Vec<usize>)
    requires
        v.wf(),
    ensures
        r@.len() == bfs_post(v.len as int, v.current as int).len(),
        forall|i: int|
            0 <= i < r@.len() ==> (#[trigger] r@[i]) as int == bfs_post(
                v.len as int,
                v.current as int,
            )[i],
{
    proof {
        lemma_bfs_post_size(v.len as int, v.current as int);
    }
    let mut out: Vec<usize> = Vec::new();
    postorder_indices_collect(v, &mut out);
    proof {
        let s = bfs_post(v.len as int, v.current as int);
        assert forall|i: int| 0 <= i < out@.len() implies (#[trigger] out@[i]) as int == s[i] by {
            assert(out@[0 + i] as int == s[i]);
        }
    }
    out
}

/// A postorder walk's index sequence is no longer than the buffer.
proof fn lemma_bfs_post_size(len: int, c: int)
    requires
        len % 2 == 1,
        0 <= c < len,
    ensures
        bfs_post(len, c).len() <= len,
{
    let s = bfs_post(len, c);
    lemma_bfs_post_once(len, c);
    s.unique_seq_to_set();
    assert forall|x: int| s.to_set().contains(x) implies vstd::set_lib::set_int_range(
        0,
        len,
    ).contains(x) by {
        assert(s.contains(x));
        lemma_in_subtree_ge(c, x);
    }
    assert(s.to_set().subset_of(vstd::set_lib::set_int_range(0, len)));
    vstd::set_lib::lemma_int_range(0, len);
    vstd::set_lib::lemma_len_subset(s.to_set(), vstd::set_lib::set_int_range(0, len));
}

/// Append the postorder walk of `v`'s subtree to `out`; what is appended
/// is exactly the model sequence [`bfs_post`].
fn postorder_indices_collect(v: VistrMut, out: &mut Vec<usize>)
    requires
        v.wf(),
        old(out)@.len() + bfs_post(v.len as int, v.current as int).len() <= usize::MAX,
    ensures
        final(out)@.len() == old(out)@.len() + bfs_post(v.len as int, v.current as int).len(),
        final(out)@.subrange(0, old(out)@.len() as int) == old(out)@,
        forall|i: int|
            0 <= i < bfs_post(v.len as int, v.current as int).len() ==> (#[trigger] final(out)@[
                old(out)@.len() + i
            ]) as int == bfs_post(v.len as int, v.current as int)[i],
    decreases v.levels(),
{
    let ghost prior = out@;
    let ghost s = bfs_post(v.len as int, v.current as int);
    let (item, rest) = v.next();
    match rest {
        Some((left, right)) => {
            let ghost l = bfs_post(left.len as int, left.current as int);
            let ghost r = bfs_post(right.len as int, right.current as int);
            proof {
                assert(s == l + r + seq![item as int]);
            }
            postorder_indices_collect(left, out);
            let ghost s1 = out@;
            postorder_indices_collect(right, out);
            let ghost s2 = out@;
            out.push(item);
            proof {
                assert(s2.subrange(0, s1.len() as int) =~= s1);
                assert forall|i: int| 0 <= i < s.len() implies (#[trigger] out@[prior.len()
                    + i]) as int == s[i] by {
                    if i < l.len() {
                        assert(out@[prior.len() + i] == s2[prior.len() + i]);
                        assert(s2[prior.len() + i] == s1[prior.len() + i]);
                        assert(s1[prior.len() + i] as int == l[i]);
                    } else if i < l.len() + r.len() {
                        assert(out@[prior.len() + i] == s2[prior.len() + i]);
                        assert(s2[s1.len() + (i - l.len())] as int == r[i - l.len()]);
                        assert(r[i - l.len()] == s[i]);
                    } else {
                        assert(out@[prior.len() + i] == item);
                    }
                }
                assert(out@.subrange(0, s2.len() as int) =~= s2);
                crate::lemma_prefix_transitive(prior, s1, s2);
                crate::lemma_prefix_transitive(prior, s2, out@);
            }
        },
        None => {
            out.push(item);
            proof {
                assert(s =~= seq![v.current as int]);
                assert(out@.subrange(0, prior.len() as int) =~= prior);
                assert(out@[prior.len() as int] == item);
            }
        },
    }
}

} // verus!
