//! Complete binary tree containers with consuming tree visitors.
//!
//! A complete binary tree of height `h` holds exactly `2^h - 1` nodes in one
//! flat buffer. Two storage layouts are provided: breadth-first
//! ([`bfs_order`]) and depth-first ([`dfs_order`], with pre-, in- and
//! post-order policies). Both expose cursors ("visitors") that descend the
//! tree by consuming themselves and handing back cursors for the two
//! children; the parts of the buffer the two children can reach are proved
//! disjoint, which is what makes it safe to hand the children to independent
//! sub-computations.

use vstd::prelude::*;

pub mod bfs_order;
pub mod dfs_order;
pub mod timer;

verus! {

use vstd::arithmetic::power2::pow2;
use vstd::arithmetic::power2::lemma_pow2_unfold;
use vstd::arithmetic::power2::lemma2_to64;
use vstd::math::min;

/// The number of nodes in a complete binary tree of height `h`: `2^h - 1`.
pub open spec fn nodes_of_height(h: nat) -> nat
    decreases h,
{
    if h == 0 {
        0
    } else {
        2 * nodes_of_height((h - 1) as nat) + 1
    }
}

/// `nodes_of_height(h)` is the familiar `2^h - 1`.
pub proof fn lemma_nodes_of_height_pow2(h: nat)
    ensures
        nodes_of_height(h) == pow2(h) - 1,
    decreases h,
{
    if h == 0 {
        lemma2_to64();
    } else {
        lemma_nodes_of_height_pow2((h - 1) as nat);
        lemma_pow2_unfold(h);
    }
}

/// A complete tree has at least as many nodes as its height.
pub proof fn lemma_nodes_of_height_at_least(h: nat)
    ensures
        nodes_of_height(h) >= h,
    decreases h,
{
    if h > 0 {
        lemma_nodes_of_height_at_least((h - 1) as nat);
    }
}

/// A complete tree of positive height has an odd number of nodes.
pub proof fn lemma_nodes_of_height_odd(h: nat)
    requires
        1 <= h,
    ensures
        nodes_of_height(h) % 2 == 1,
{
}

/// Node counts grow strictly with the height.
pub proof fn lemma_nodes_of_height_increases(h1: nat, h2: nat)
    requires
        h1 < h2,
    ensures
        nodes_of_height(h1) < nodes_of_height(h2),
    decreases h2,
{
    if h1 + 1 < h2 {
        lemma_nodes_of_height_increases(h1, (h2 - 1) as nat);
    }
}

/// `n` is the node count of some complete binary tree of height at least 1.
pub open spec fn is_complete_len(n: int) -> bool {
    exists|h: nat| 1 <= h && n == nodes_of_height(h)
}

/// The height of a complete binary tree with `n` nodes: the `h` with
/// `n == nodes_of_height(h)`.
pub open spec fn complete_height(n: int) -> nat {
    choose|h: nat| 1 <= h && n == nodes_of_height(h)
}

/// The height picked by `complete_height` is unique.
pub proof fn lemma_complete_height(n: int)
    requires
        is_complete_len(n),
    ensures
        1 <= complete_height(n),
        n == nodes_of_height(complete_height(n)),
        forall|h: nat| n == nodes_of_height(h) ==> h == complete_height(n),
{
    let ch = complete_height(n);
    assert(1 <= ch && n == nodes_of_height(ch));
    assert forall|h: nat| n == nodes_of_height(h) implies h == ch by {
        if h < ch {
            lemma_nodes_of_height_increases(h, ch);
        } else if h > ch {
            lemma_nodes_of_height_increases(ch, h);
        }
    }
}

/// Compute the number of nodes in a complete binary tree based on a height.
pub fn compute_num_nodes(height: usize) -> (n: usize)
    requires
        nodes_of_height(height as nat) <= usize::MAX,
    ensures
        n == nodes_of_height(height as nat),
{
    let mut cur: usize = 0;
    let mut i: usize = 0;
    while i < height
        invariant
            i <= height,
            cur == nodes_of_height(i as nat),
            nodes_of_height(height as nat) <= usize::MAX,
        decreases height - i,
    {
        proof {
            if i + 1 < height {
                lemma_nodes_of_height_increases((i + 1) as nat, height as nat);
            }
        }
        cur = 2 * cur + 1;
        i = i + 1;
    }
    cur
}

/// Decide whether `num` nodes can form a complete binary tree:
/// `num + 1` must be a power of two and `num` nonzero.
pub fn valid_node_num(num: usize) -> (r: bool)
    ensures
        r == is_complete_len(num as int),
{
    if num == 0 {
        proof {
            assert forall|h: nat| 1 <= h implies nodes_of_height(h) != 0 by {
                lemma_nodes_of_height_increases(0, h);
            }
        }
        return false;
    }
    let mut cur: usize = 1;
    let ghost mut j: nat = 1;
    proof {
        assert(nodes_of_height(0) == 0);
    }
    loop
        invariant
            cur == nodes_of_height(j),
            1 <= j,
            1 <= cur <= num,
            forall|h: nat| 1 <= h < j ==> nodes_of_height(h) != num,
        decreases num - cur,
    {
        if cur == num {
            return true;
        }
        if cur > (num - 1) / 2 {
            proof {
                assert forall|h: nat| 1 <= h implies nodes_of_height(h) != num by {
                    if h >= j + 1 {
                        if h > j + 1 {
                            lemma_nodes_of_height_increases(j + 1, h);
                        }
                        assert(nodes_of_height(j + 1) == 2 * cur + 1);
                    }
                }
            }
            return false;
        }
        cur = 2 * cur + 1;
        proof {
            j = j + 1;
        }
    }
}

/// Computes the height for the number of nodes given.
pub fn compute_height(num_nodes: usize) -> (h: usize)
    requires
        is_complete_len(num_nodes as int),
    ensures
        h == complete_height(num_nodes as int),
        1 <= h,
        num_nodes == nodes_of_height(h as nat),
{
    let mut cur: usize = 1;
    let mut h: usize = 1;
    proof {
        assert(nodes_of_height(0) == 0);
    }
    while cur != num_nodes
        invariant
            is_complete_len(num_nodes as int),
            cur == nodes_of_height(h as nat),
            1 <= h,
            1 <= cur <= num_nodes,
        decreases num_nodes - cur,
    {
        proof {
            let ch = complete_height(num_nodes as int);
            lemma_complete_height(num_nodes as int);
            if h as nat >= ch {
                if h as nat > ch {
                    lemma_nodes_of_height_increases(ch, h as nat);
                }
                assert(cur == num_nodes);
            }
            lemma_nodes_of_height_increases(h as nat, ch);
            lemma_nodes_of_height_at_least(ch);
            if ((h + 1) as nat) < ch {
                lemma_nodes_of_height_increases((h + 1) as nat, ch);
            }
        }
        cur = 2 * cur + 1;
        h = h + 1;
    }
    proof {
        lemma_complete_height(num_nodes as int);
    }
    h
}

/// A complete binary tree cursor.
///
/// A visitor stands on one node of a complete binary tree and owns the
/// exclusive right to walk the subtree below it. Calling [`Visitor::next`]
/// consumes the visitor and produces the item for the current node together
/// with the two visitors for the children, or no children at a leaf. Which of
/// the two happens is decided purely by the structure: a well-formed visitor
/// with one level remaining is a leaf, any other has exactly two children,
/// each with one level fewer.
pub trait Visitor: Sized {
    /// The common item produced for both leafs and non leafs.
    type Item;

    /// The cursor is in a state its operations may rely on.
    spec fn wf(&self) -> bool;

    /// The number of levels remaining, including the current one, so a
    /// visitor standing on a leaf has one level remaining.
    spec fn levels(&self) -> nat;

    /// What one call of [`Visitor::next`] may produce. Each implementation
    /// pins its own item and children here: the layouts fix the item and the
    /// two child positions exactly, and every adapter ties its outcome to
    /// the outcome of the cursor it wraps.
    spec fn next_spec(&self, r: (Self::Item, Option<(Self, Self)>)) -> bool;

    /// The pair `level_remaining_hint` returns, fixed per cursor state.
    spec fn hint_spec(&self) -> (usize, Option<usize>);

    /// Consume this visitor, and produce the element it was pointing to
    /// along with its children visitors.
    fn next(self) -> (r: (Self::Item, Option<(Self, Self)>))
        requires
            self.wf(),
        ensures
            self.levels() >= 1,
            (r.1 is None) <==> self.levels() == 1,
            match r.1 {
                Some(c) => c.0.wf() && c.1.wf() && c.0.levels() == (self.levels() - 1) as nat
                    && c.1.levels() == (self.levels() - 1) as nat,
                None => true,
            },
            self.next_spec(r),
    ;

    /// Return bounds on the levels remaining, including the one that will be
    /// produced by consuming this visitor: exactly the pair `hint_spec`
    /// fixes, sound against the true level count. Layouts whose depth is
    /// known report the exact value; adapters that do not track one report
    /// the uninformative `(0, None)`.
    fn level_remaining_hint(&self) -> (r: (usize, Option<usize>))
        requires
            self.wf(),
        ensures
            r == self.hint_spec(),
            r.0 <= self.levels(),
            match r.1 {
                Some(m) => self.levels() <= m,
                None => true,
            },
    ;

    /// Adapter that also produces the depth on every step.
    fn with_depth(self, start_depth: Depth) -> (r: LevelIter<Self>)
        ensures
            r == (LevelIter { inner: self, depth: start_depth }),
    {
        LevelIter { inner: self, depth: start_depth }
    }

    /// Only produce children up to `num` more levels.
    fn take(self, num: usize) -> (r: Take<Self>)
        ensures
            r == (Take { a: self, num }),
    {
        Take { a: self, num }
    }

    /// Flips left and right children on every split.
    fn flip(self) -> (r: Flip<Self>)
        ensures
            r == (Flip(self)),
    {
        Flip(self)
    }

}

/// Marker for visitors whose `level_remaining_hint` is exact, so the pull
/// iterators built over them report an exact remaining count.
pub trait FixedDepthVisitor: Visitor {

}

/// A sequence that keeps `s1` as a prefix, where `s1` keeps `s0` as a
/// prefix, keeps `s0` as a prefix.
pub proof fn lemma_prefix_transitive<A>(s0: Seq<A>, s1: Seq<A>, s2: Seq<A>)
    requires
        s0.len() <= s1.len() <= s2.len(),
        s1.subrange(0, s0.len() as int) == s0,
        s2.subrange(0, s1.len() as int) == s1,
    ensures
        s2.subrange(0, s0.len() as int) == s0,
{
    assert(s2.subrange(0, s0.len() as int) =~= s0) by {
        assert forall|i: int| 0 <= i < s0.len() implies s2.subrange(0, s0.len() as int)[i]
            == s0[i] by {
            assert(s2.subrange(0, s1.len() as int)[i] == s1[i]);
            assert(s1.subrange(0, s0.len() as int)[i] == s0[i]);
        }
    }
}

/// The item sequences a preorder walk of `a` may produce: `a`'s own item
/// first, then a preorder walk of its left child, then one of its right
/// child.
pub open spec fn preorder_unfolding<C: Visitor>(a: C, items: Seq<C::Item>) -> bool
    decreases items.len(),
{
    exists|k: (C::Item, Option<(C, C)>)|
        {
            &&& #[trigger] a.next_spec(k)
            &&& match k.1 {
                Some(c) => {
                    let m = nodes_of_height(c.0.levels()) as int;
                    &&& 1 + m <= items.len()
                    &&& items[0] == k.0
                    &&& preorder_unfolding(c.0, items.subrange(1, 1 + m))
                    &&& preorder_unfolding(c.1, items.subrange(1 + m, items.len() as int))
                },
                None => items.len() == 1 && items[0] == k.0,
            }
        }
}

/// The item sequences an in-order walk of `a` may produce: an in-order walk
/// of its left child, then `a`'s own item, then an in-order walk of its
/// right child.
pub open spec fn inorder_unfolding<C: Visitor>(a: C, items: Seq<C::Item>) -> bool
    decreases items.len(),
{
    exists|k: (C::Item, Option<(C, C)>)|
        {
            &&& #[trigger] a.next_spec(k)
            &&& match k.1 {
                Some(c) => {
                    let m = nodes_of_height(c.0.levels()) as int;
                    &&& 1 + m <= items.len()
                    &&& items[m] == k.0
                    &&& inorder_unfolding(c.0, items.subrange(0, m))
                    &&& inorder_unfolding(c.1, items.subrange(m + 1, items.len() as int))
                },
                None => items.len() == 1 && items[0] == k.0,
            }
        }
}

/// The item sequences a postorder walk of `a` may produce: a postorder walk
/// of its left child, then one of its right child, then `a`'s own item.
pub open spec fn postorder_unfolding<C: Visitor>(a: C, items: Seq<C::Item>) -> bool
    decreases items.len(),
{
    exists|k: (C::Item, Option<(C, C)>)|
        {
            &&& #[trigger] a.next_spec(k)
            &&& match k.1 {
                Some(c) => {
                    let m = nodes_of_height(c.0.levels()) as int;
                    &&& 1 + m <= items.len()
                    &&& items[items.len() - 1] == k.0
                    &&& postorder_unfolding(c.0, items.subrange(0, m))
                    &&& postorder_unfolding(c.1, items.subrange(m, items.len() - 1))
                },
                None => items.len() == 1 && items[0] == k.0,
            }
        }
}

/// Append every item of `a`'s subtree to `out` in preorder: what is
/// appended is a preorder unfolding of `a`.
pub fn rec_pre<C: Visitor>(a: C, out: &mut Vec<C::Item>)
    requires
        a.wf(),
        old(out)@.len() + nodes_of_height(a.levels()) <= usize::MAX,
    ensures
        final(out)@.len() == old(out)@.len() + nodes_of_height(a.levels()),
        final(out)@.subrange(0, old(out)@.len() as int) == old(out)@,
        preorder_unfolding(
            a,
            final(out)@.subrange(old(out)@.len() as int, final(out)@.len() as int),
        ),
    decreases a.levels(),
{
    proof {
        assert(nodes_of_height(0) == 0);
    }
    let ghost prior = out@;
    let (nn, rest) = a.next();
    let ghost kk = (nn, rest);
    out.push(nn);
    let ghost s1 = out@;
    match rest {
        Some((left, right)) => {
            let ghost m = nodes_of_height(left.levels()) as int;
            rec_pre(left, out);
            let ghost s2 = out@;
            rec_pre(right, out);
            proof {
                assert(s1.subrange(0, prior.len() as int) =~= prior);
                lemma_prefix_transitive(prior, s1, s2);
                lemma_prefix_transitive(prior, s2, out@);
                let seg = out@.subrange(prior.len() as int, out@.len() as int);
                assert(seg.subrange(1, 1 + m) =~= s2.subrange(s1.len() as int, s2.len() as int))
                    by {
                    assert forall|i: int| 0 <= i < m implies seg.subrange(1, 1 + m)[i]
                        == s2.subrange(s1.len() as int, s2.len() as int)[i] by {
                        assert(out@.subrange(0, s2.len() as int)[s1.len() + i] == s2[s1.len()
                            + i]);
                    }
                }
                assert(seg.subrange(1 + m, seg.len() as int) =~= out@.subrange(
                    s2.len() as int,
                    out@.len() as int,
                ));
                assert(seg[0] == s1.last());
                assert(a.next_spec(kk));
                assert(preorder_unfolding(kk.1.unwrap().0, seg.subrange(1, 1 + m)));
                assert(preorder_unfolding(
                    kk.1.unwrap().1,
                    seg.subrange(1 + m, seg.len() as int),
                ));
                assert(preorder_unfolding(a, seg));
            }
        }
        None => {
            proof {
                assert(out@.subrange(0, prior.len() as int) =~= prior);
                let seg = out@.subrange(prior.len() as int, out@.len() as int);
                assert(seg =~= seq![out@.last()]);
                assert(a.next_spec(kk));
                assert(preorder_unfolding(a, seg));
            }
        }
    }
}

/// Append every item of `a`'s subtree to `out` in order: what is appended
/// is an in-order unfolding of `a`.
pub fn rec_inorder<C: Visitor>(a: C, out: &mut Vec<C::Item>)
    requires
        a.wf(),
        old(out)@.len() + nodes_of_height(a.levels()) <= usize::MAX,
    ensures
        final(out)@.len() == old(out)@.len() + nodes_of_height(a.levels()),
        final(out)@.subrange(0, old(out)@.len() as int) == old(out)@,
        inorder_unfolding(
            a,
            final(out)@.subrange(old(out)@.len() as int, final(out)@.len() as int),
        ),
    decreases a.levels(),
{
    proof {
        assert(nodes_of_height(0) == 0);
    }
    let ghost prior = out@;
    let (nn, rest) = a.next();
    let ghost kk = (nn, rest);
    match rest {
        Some((left, right)) => {
            let ghost m = nodes_of_height(left.levels()) as int;
            rec_inorder(left, out);
            let ghost s1 = out@;
            out.push(nn);
            let ghost s2 = out@;
            rec_inorder(right, out);
            proof {
                assert(s2.subrange(0, s1.len() as int) =~= s1);
                lemma_prefix_transitive(prior, s1, s2);
                lemma_prefix_transitive(prior, s2, out@);
                let seg = out@.subrange(prior.len() as int, out@.len() as int);
                assert(seg.subrange(0, m) =~= s1.subrange(prior.len() as int, s1.len() as int))
                    by {
                    assert forall|i: int| 0 <= i < m implies seg.subrange(0, m)[i] == s1.subrange(
                        prior.len() as int,
                        s1.len() as int,
                    )[i] by {
                        assert(out@.subrange(0, s2.len() as int)[prior.len() + i] == s2[prior.len()
                            + i]);
                        assert(s2.subrange(0, s1.len() as int)[prior.len() + i] == s1[prior.len()
                            + i]);
                    }
                }
                assert(seg.subrange(m + 1, seg.len() as int) =~= out@.subrange(
                    s2.len() as int,
                    out@.len() as int,
                ));
                assert(out@.subrange(0, s2.len() as int)[s1.len() as int] == s2[s1.len() as int]);
                assert(seg[m] == s2.last());
                assert(a.next_spec(kk));
                assert(inorder_unfolding(kk.1.unwrap().0, seg.subrange(0, m)));
                assert(inorder_unfolding(kk.1.unwrap().1, seg.subrange(m + 1, seg.len() as int)));
                assert(inorder_unfolding(a, seg));
            }
        }
        None => {
            out.push(nn);
            proof {
                assert(out@.subrange(0, prior.len() as int) =~= prior);
                let seg = out@.subrange(prior.len() as int, out@.len() as int);
                assert(seg =~= seq![out@.last()]);
                assert(a.next_spec(kk));
                assert(inorder_unfolding(a, seg));
            }
        }
    }
}

/// Append every item of `a`'s subtree to `out` in postorder: what is
/// appended is a postorder unfolding of `a`.
pub fn rec_post<C: Visitor>(a: C, out: &mut Vec<C::Item>)
    requires
        a.wf(),
        old(out)@.len() + nodes_of_height(a.levels()) <= usize::MAX,
    ensures
        final(out)@.len() == old(out)@.len() + nodes_of_height(a.levels()),
        final(out)@.subrange(0, old(out)@.len() as int) == old(out)@,
        postorder_unfolding(
            a,
            final(out)@.subrange(old(out)@.len() as int, final(out)@.len() as int),
        ),
    decreases a.levels(),
{
    proof {
        assert(nodes_of_height(0) == 0);
    }
    let ghost prior = out@;
    let (nn, rest) = a.next();
    let ghost kk = (nn, rest);
    match rest {
        Some((left, right)) => {
            let ghost m = nodes_of_height(left.levels()) as int;
            rec_post(left, out);
            let ghost s1 = out@;
            rec_post(right, out);
            let ghost s2 = out@;
            out.push(nn);
            proof {
                assert(out@.subrange(0, s2.len() as int) =~= s2);
                lemma_prefix_transitive(prior, s1, s2);
                lemma_prefix_transitive(prior, s2, out@);
                let seg = out@.subrange(prior.len() as int, out@.len() as int);
                assert(seg.subrange(0, m) =~= s1.subrange(prior.len() as int, s1.len() as int))
                    by {
                    assert forall|i: int| 0 <= i < m implies seg.subrange(0, m)[i] == s1.subrange(
                        prior.len() as int,
                        s1.len() as int,
                    )[i] by {
                        assert(s2.subrange(0, s1.len() as int)[prior.len() + i] == s1[prior.len()
                            + i]);
                    }
                }
                assert(seg.subrange(m, seg.len() - 1) =~= s2.subrange(
                    s1.len() as int,
                    s2.len() as int,
                ));
                assert(seg[seg.len() - 1] == out@.last());
                assert(a.next_spec(kk));
                assert(postorder_unfolding(kk.1.unwrap().0, seg.subrange(0, m)));
                assert(postorder_unfolding(kk.1.unwrap().1, seg.subrange(m, seg.len() - 1)));
                assert(postorder_unfolding(a, seg));
            }
        }
        None => {
            out.push(nn);
            proof {
                assert(out@.subrange(0, prior.len() as int) =~= prior);
                let seg = out@.subrange(prior.len() as int, out@.len() as int);
                assert(seg =~= seq![out@.last()]);
                assert(a.next_spec(kk));
                assert(postorder_unfolding(a, seg));
            }
        }
    }
}

/// Collect every item of `a`'s subtree in depth-first preorder
/// (root, left, right): the result is a preorder unfolding of `a`.
pub fn dfs_preorder<C: Visitor>(a: C) -> (r: Vec<C::Item>)
    requires
        a.wf(),
        nodes_of_height(a.levels()) <= usize::MAX,
    ensures
        r@.len() == nodes_of_height(a.levels()),
        preorder_unfolding(a, r@),
{
    let mut out: Vec<C::Item> = Vec::new();
    rec_pre(a, &mut out);
    proof {
        assert(out@.subrange(0, out@.len() as int) =~= out@);
    }
    out
}

/// Collect every item of `a`'s subtree in depth-first in order
/// (left, root, right): the result is an in-order unfolding of `a`.
pub fn dfs_inorder<C: Visitor>(a: C) -> (r: Vec<C::Item>)
    requires
        a.wf(),
        nodes_of_height(a.levels()) <= usize::MAX,
    ensures
        r@.len() == nodes_of_height(a.levels()),
        inorder_unfolding(a, r@),
{
    let mut out: Vec<C::Item> = Vec::new();
    rec_inorder(a, &mut out);
    proof {
        assert(out@.subrange(0, out@.len() as int) =~= out@);
    }
    out
}

/// Collect every item of `a`'s subtree in depth-first postorder
/// (left, right, root): the result is a postorder unfolding of `a`.
pub fn dfs_postorder<C: Visitor>(a: C) -> (r: Vec<C::Item>)
    requires
        a.wf(),
        nodes_of_height(a.levels()) <= usize::MAX,
    ensures
        r@.len() == nodes_of_height(a.levels()),
        postorder_unfolding(a, r@),
{
    let mut out: Vec<C::Item> = Vec::new();
    rec_post(a, &mut out);
    proof {
        assert(out@.subrange(0, out@.len() as int) =~= out@);
    }
    out
}

/// The total number of nodes below the visitors on a preorder stack.
pub open spec fn count_of_stack<C: Visitor>(s: Seq<C>) -> nat
    decreases s.len(),
{
    if s.len() == 0 {
        0
    } else {
        count_of_stack(s.drop_last()) + nodes_of_height(s.last().levels())
    }
}

/// Every visitor on a preorder stack is well formed.
pub open spec fn stack_wf<C: Visitor>(s: Seq<C>) -> bool {
    forall|i: int| 0 <= i < s.len() ==> (#[trigger] s[i]).wf()
}

/// The total number of nodes still owed by an in-order stack: one per stored
/// item, plus the nodes below each stored right-hand visitor.
pub open spec fn count_of_entries<C: Visitor>(s: Seq<(C::Item, Option<C>)>) -> nat
    decreases s.len(),
{
    if s.len() == 0 {
        0
    } else {
        count_of_entries(s.drop_last()) + 1 + match s.last().1 {
            Some(c) => nodes_of_height(c.levels()),
            None => 0,
        }
    }
}

/// Every stored right-hand visitor on an in-order stack is well formed.
pub open spec fn entries_wf<C: Visitor>(s: Seq<(C::Item, Option<C>)>) -> bool {
    forall|i: int| 0 <= i < s.len() ==> match (#[trigger] s[i]).1 {
        Some(c) => c.wf(),
        None => true,
    }
}

/// The stack segment an in-order descent pushes for `node`: the items along
/// `node`'s leftmost path, each stored with its right-hand visitor, pushed
/// root first, and the leftmost leaf's item, stored with no visitor, pushed
/// last.
pub open spec fn left_spine<C: Visitor>(node: C, pushed: Seq<(C::Item, Option<C>)>) -> bool
    decreases pushed.len(),
{
    if pushed.len() == 0 {
        false
    } else {
        exists|k: (C::Item, Option<(C, C)>)|
            {
                &&& #[trigger] node.next_spec(k)
                &&& pushed[0].0 == k.0
                &&& match k.1 {
                    Some(c) => pushed[0].1 == Some(c.1) && left_spine(c.0, pushed.drop_first()),
                    None => pushed[0].1 is None && pushed.len() == 1,
                }
            }
    }
}

/// Compute `nodes_of_height(h)`, saturating at the largest `usize`.
fn nodes_saturating(h: usize) -> (n: usize)
    ensures
        n == min(nodes_of_height(h as nat) as int, usize::MAX as int),
{
    let mut cur: usize = 0;
    let mut i: usize = 0;
    while i < h
        invariant
            i <= h,
            cur == min(nodes_of_height(i as nat) as int, usize::MAX as int),
        decreases h - i,
    {
        proof {
            lemma_nodes_of_height_increases(i as nat, (i + 1) as nat);
        }
        if cur > (usize::MAX - 1) / 2 {
            cur = usize::MAX;
        } else {
            cur = 2 * cur + 1;
        }
        i = i + 1;
    }
    cur
}

/// Compute `nodes_of_height(h)` when it fits in a `usize`.
fn nodes_checked(h: usize) -> (r: Option<usize>)
    ensures
        match r {
            Some(n) => n == nodes_of_height(h as nat),
            None => nodes_of_height(h as nat) > usize::MAX,
        },
{
    let mut cur: usize = 0;
    let mut i: usize = 0;
    while i < h
        invariant
            i <= h,
            cur == nodes_of_height(i as nat),
        decreases h - i,
    {
        if cur > (usize::MAX - 1) / 2 {
            proof {
                if ((i + 1) as nat) < h as nat {
                    lemma_nodes_of_height_increases((i + 1) as nat, h as nat);
                }
            }
            return None;
        }
        cur = 2 * cur + 1;
        i = i + 1;
    }
    Some(cur)
}

/// Non-strict form of the growth of node counts.
proof fn lemma_nodes_of_height_le(h1: nat, h2: nat)
    requires
        h1 <= h2,
    ensures
        nodes_of_height(h1) <= nodes_of_height(h2),
{
    if h1 < h2 {
        lemma_nodes_of_height_increases(h1, h2);
    }
}

/// The total number of nodes below the visitors on a bfs queue.
pub open spec fn count_of_queue<C: Visitor>(s: Seq<C>) -> nat
    decreases s.len(),
{
    if s.len() == 0 {
        0
    } else {
        nodes_of_height(s[0].levels()) + count_of_queue(s.drop_first())
    }
}

/// Pushing a visitor at the back of a bfs queue adds its node count.
proof fn lemma_count_of_queue_push<C: Visitor>(s: Seq<C>, e: C)
    ensures
        count_of_queue(s.push(e)) == count_of_queue(s) + nodes_of_height(e.levels()),
    decreases s.len(),
{
    if s.len() == 0 {
        assert(s.push(e).drop_first() =~= s);
    } else {
        assert(s.push(e).drop_first() =~= s.drop_first().push(e));
        lemma_count_of_queue_push(s.drop_first(), e);
    }
}

/// Every visitor on a bfs queue is well formed.
pub open spec fn queue_wf<C: Visitor>(s: Seq<C>) -> bool {
    forall|i: int| 0 <= i < s.len() ==> (#[trigger] s[i]).wf()
}

/// Bfs iterator. Each call to `next` returns the next element in bfs
/// order. Internally uses a VecDeque for the queue.
pub struct BfsIter<C: Visitor> {
    a: std::collections::VecDeque<C>,
    length: Option<usize>,
    min_length: usize,
    num: usize,
}

impl<C: Visitor> BfsIter<C> {
    /// The iterator's bookkeeping is consistent.
    pub closed spec fn wf(&self) -> bool {
        &&& queue_wf(self.a@)
        &&& (self.min_length <= self.num + count_of_queue(self.a@) || self.num == usize::MAX)
        &&& match self.length {
            Some(l) => self.num + count_of_queue(self.a@) <= l,
            None => true,
        }
    }

    /// How many items the iterator will still produce.
    pub closed spec fn remaining(&self) -> nat {
        count_of_queue(self.a@)
    }

    /// The visitors still to be opened, in queue order: the next one to be
    /// consumed is first.
    pub closed spec fn queue(&self) -> Seq<C> {
        self.a@
    }

    /// The iterator knows its remaining count exactly: it was built from a
    /// visitor whose level bounds agreed.
    pub closed spec fn exact(&self) -> bool {
        self.length == Some(self.min_length) && self.num + count_of_queue(self.a@)
            == self.min_length
    }

    /// Produce the next element in bfs order, or nothing once every element
    /// has been produced: the frontmost queued visitor is opened, its item
    /// handed out, and its children enqueued at the back, left first.
    pub fn next(&mut self) -> (r: Option<C::Item>)
        requires
            old(self).wf(),
        ensures
            final(self).wf(),
            (r is Some) <==> old(self).remaining() > 0,
            final(self).remaining() == if r is Some {
                (old(self).remaining() - 1) as nat
            } else {
                0nat
            },
            old(self).exact() ==> final(self).exact(),
            old(self).queue().len() == 0 ==> r is None && final(self).queue() == old(
                self,
            ).queue(),
            old(self).queue().len() > 0 ==> exists|k: (C::Item, Option<(C, C)>)|
                {
                    &&& #[trigger] old(self).queue().first().next_spec(k)
                    &&& r == Some(k.0)
                    &&& final(self).queue() == match k.1 {
                        Some(c) => old(self).queue().drop_first().push(c.0).push(c.1),
                        None => old(self).queue().drop_first(),
                    }
                },
    {
        proof {
            assert(nodes_of_height(0) == 0);
        }
        let ghost q0 = self.a@;
        match self.a.pop_front() {
            Some(e) => {
                let ghost popped = self.a@;
                let ghost el = e.levels();
                proof {
                    assert(popped =~= q0.drop_first());
                    assert(e == q0.first());
                }
                let (nn, rest) = e.next();
                let ghost kk = (nn, rest);
                if let Some((left, right)) = rest {
                    let ghost ll = left.levels();
                    let ghost rl = right.levels();
                    self.a.push_back(left);
                    let ghost with_left = self.a@;
                    self.a.push_back(right);
                    proof {
                        lemma_count_of_queue_push(popped, with_left.last());
                        lemma_count_of_queue_push(with_left, self.a@.last());
                        assert(nodes_of_height(el) == 2 * nodes_of_height((el - 1) as nat) + 1);
                        assert(self.a@ =~= popped.push(kk.1.unwrap().0).push(kk.1.unwrap().1));
                    }
                } else {
                    proof {
                        assert(nodes_of_height(el) == 1);
                    }
                }
                proof {
                    assert(q0.first().next_spec(kk));
                }
                if self.num < usize::MAX {
                    self.num = self.num + 1;
                }
                Some(nn)
            },
            None => {
                proof {
                    assert(q0 =~= Seq::<C>::empty());
                }
                None
            },
        }
    }

    /// Bounds on how many items are still to come: the lower bound is sound,
    /// and so is the upper bound whenever one is returned.
    pub fn size_hint(&self) -> (r: (usize, Option<usize>))
        requires
            self.wf(),
        ensures
            r.0 <= self.remaining(),
            match r.1 {
                Some(u) => self.remaining() <= u,
                None => true,
            },
            self.exact() ==> r.0 == self.remaining() && r.1 == Some(r.0),
    {
        let lo = if self.num <= self.min_length {
            self.min_length - self.num
        } else {
            0
        };
        let hi = match self.length {
            Some(l) => Some(
                if self.num <= l {
                    l - self.num
                } else {
                    0
                },
            ),
            None => None,
        };
        (lo, hi)
    }
}

/// Provides a bfs order iterator over everything below the visitor, backed
/// by a queue seeded with the visitor itself. When the visitor's two level
/// bounds agree and the node count fits, the iterator knows its remaining
/// count exactly.
pub fn bfs_iter<C: Visitor>(a: C) -> (it: BfsIter<C>)
    requires
        a.wf(),
    ensures
        it.wf(),
        it.remaining() == nodes_of_height(a.levels()),
        it.queue() == seq![a],
        a.hint_spec().1 == Some(a.hint_spec().0) && nodes_of_height(a.hint_spec().0 as nat)
            <= usize::MAX ==> it.exact(),
{
    let (levels, max_levels) = a.level_remaining_hint();
    let min_length = nodes_saturating(levels);
    let length = match max_levels {
        Some(m) => nodes_checked(m),
        None => None,
    };
    proof {
        lemma_nodes_of_height_le(levels as nat, a.levels());
        if max_levels is Some {
            lemma_nodes_of_height_le(a.levels(), max_levels.unwrap() as nat);
        }
    }
    let ghost al = a.levels();
    let mut queue: std::collections::VecDeque<C> = std::collections::VecDeque::new();
    queue.push_back(a);
    proof {
        assert(count_of_queue(Seq::<C>::empty()) == 0);
        assert(queue@.drop_first() =~= Seq::<C>::empty());
        assert(count_of_queue(queue@) == nodes_of_height(al));
    }
    BfsIter { a: queue, length, min_length, num: 0 }
}

/// Dfs preorder iterator. Each call to `next` returns the next element in
/// dfs preorder. Internally uses a Vec for the stack.
pub struct DfsPreOrderIter<C: Visitor> {
    a: Vec<C>,
    length: Option<usize>,
    min_length: usize,
    num: usize,
}

impl<C: Visitor> DfsPreOrderIter<C> {
    /// The iterator's bookkeeping is consistent.
    pub closed spec fn wf(&self) -> bool {
        &&& stack_wf(self.a@)
        &&& (self.min_length <= self.num + count_of_stack(self.a@) || self.num == usize::MAX)
        &&& match self.length {
            Some(l) => self.num + count_of_stack(self.a@) <= l,
            None => true,
        }
    }

    /// How many items the iterator will still produce.
    pub closed spec fn remaining(&self) -> nat {
        count_of_stack(self.a@)
    }

    /// The visitors still to be opened, in stack order: the next one to be
    /// consumed is last.
    pub closed spec fn stack(&self) -> Seq<C> {
        self.a@
    }

    /// The iterator knows its remaining count exactly: it was built from a
    /// visitor whose level bounds agreed.
    pub closed spec fn exact(&self) -> bool {
        self.length == Some(self.min_length) && self.num + count_of_stack(self.a@)
            == self.min_length
    }

    /// Produce the next element in dfs preorder, or nothing once every
    /// element has been produced: the topmost stacked visitor is opened,
    /// its item handed out, and its children stacked with the left child
    /// on top.
    pub fn next(&mut self) -> (r: Option<C::Item>)
        requires
            old(self).wf(),
        ensures
            final(self).wf(),
            (r is Some) <==> old(self).remaining() > 0,
            final(self).remaining() == if r is Some {
                (old(self).remaining() - 1) as nat
            } else {
                0nat
            },
            old(self).exact() ==> final(self).exact(),
            old(self).stack().len() == 0 ==> r is None && final(self).stack() == old(
                self,
            ).stack(),
            old(self).stack().len() > 0 ==> exists|k: (C::Item, Option<(C, C)>)|
                {
                    &&& #[trigger] old(self).stack().last().next_spec(k)
                    &&& r == Some(k.0)
                    &&& final(self).stack() == match k.1 {
                        Some(c) => old(self).stack().drop_last().push(c.1).push(c.0),
                        None => old(self).stack().drop_last(),
                    }
                },
    {
        proof {
            assert(nodes_of_height(0) == 0);
        }
        let ghost st0 = self.a@;
        match self.a.pop() {
            Some(x) => {
                let ghost popped = self.a@;
                let ghost xl = x.levels();
                proof {
                    assert(popped =~= st0.drop_last());
                    assert(count_of_stack(st0) == count_of_stack(popped) + nodes_of_height(xl));
                }
                let (i, next) = x.next();
                let ghost kk = (i, next);
                if let Some((left, right)) = next {
                    let ghost ll = left.levels();
                    let ghost rl = right.levels();
                    self.a.push(right);
                    let ghost with_right = self.a@;
                    self.a.push(left);
                    proof {
                        assert(with_right.drop_last() =~= popped);
                        assert(self.a@.drop_last() =~= with_right);
                        assert(count_of_stack(with_right) == count_of_stack(popped)
                            + nodes_of_height(rl));
                        assert(count_of_stack(self.a@) == count_of_stack(with_right)
                            + nodes_of_height(ll));
                        assert(nodes_of_height(xl) == 2 * nodes_of_height((xl - 1) as nat) + 1);
                        assert(self.a@ =~= popped.push(kk.1.unwrap().1).push(kk.1.unwrap().0));
                    }
                } else {
                    proof {
                        assert(nodes_of_height(xl) == 1);
                    }
                }
                proof {
                    assert(st0.last().next_spec(kk));
                }
                if self.num < usize::MAX {
                    self.num = self.num + 1;
                }
                Some(i)
            },
            None => {
                proof {
                    assert(st0 =~= Seq::<C>::empty());
                }
                None
            },
        }
    }

    /// Bounds on how many items are still to come: the lower bound is
    /// sound, the upper bound is sound whenever one is returned, and when
    /// the iterator knows its count exactly, both bounds equal the exact
    /// remaining count.
    pub fn size_hint(&self) -> (r: (usize, Option<usize>))
        requires
            self.wf(),
        ensures
            r.0 <= self.remaining(),
            match r.1 {
                Some(u) => self.remaining() <= u,
                None => true,
            },
            self.exact() ==> r.0 == self.remaining() && r.1 == Some(r.0),
    {
        let lo = if self.num <= self.min_length {
            self.min_length - self.num
        } else {
            0
        };
        let hi = match self.length {
            Some(l) => Some(
                if self.num <= l {
                    l - self.num
                } else {
                    0
                },
            ),
            None => None,
        };
        (lo, hi)
    }
}

/// Provides a dfs preorder iterator over everything below the visitor.
/// Unlike [`dfs_preorder`], this one supports partial consumption and
/// relies on an explicit stack instead of the call stack. When the
/// visitor's two level bounds agree and the node count fits, the iterator
/// knows its remaining count exactly.
pub fn dfs_preorder_iter<C: Visitor>(a: C) -> (it: DfsPreOrderIter<C>)
    requires
        a.wf(),
    ensures
        it.wf(),
        it.remaining() == nodes_of_height(a.levels()),
        it.stack() == seq![a],
        a.hint_spec().1 == Some(a.hint_spec().0) && nodes_of_height(a.hint_spec().0 as nat)
            <= usize::MAX ==> it.exact(),
{
    let (levels, max_levels) = a.level_remaining_hint();
    let min_length = nodes_saturating(levels);
    let length = match max_levels {
        Some(m) => nodes_checked(m),
        None => None,
    };
    proof {
        lemma_nodes_of_height_le(levels as nat, a.levels());
        if max_levels is Some {
            lemma_nodes_of_height_le(a.levels(), max_levels.unwrap() as nat);
        }
    }
    let ghost al = a.levels();
    let mut stack: Vec<C> = Vec::new();
    stack.push(a);
    proof {
        assert(stack@.drop_last() =~= Seq::<C>::empty());
        assert(count_of_stack(Seq::<C>::empty()) == 0);
        assert(count_of_stack(stack@) == nodes_of_height(al));
    }
    DfsPreOrderIter { a: stack, length, min_length, num: 0 }
}

/// Dfs in order iterator. Each call to `next` returns the next element in
/// dfs in order. Internally uses a Vec for the stack.
pub struct DfsInOrderIter<C: Visitor> {
    a: Vec<(C::Item, Option<C>)>,
    length: Option<usize>,
    min_length: usize,
    num: usize,
}

impl<C: Visitor> DfsInOrderIter<C> {
    /// The iterator's bookkeeping is consistent.
    pub closed spec fn wf(&self) -> bool {
        &&& entries_wf(self.a@)
        &&& (self.min_length <= self.num + count_of_entries(self.a@) || self.num == usize::MAX)
        &&& match self.length {
            Some(l) => self.num + count_of_entries(self.a@) <= l,
            None => true,
        }
    }

    /// How many items the iterator will still produce.
    pub closed spec fn remaining(&self) -> nat {
        count_of_entries(self.a@)
    }

    /// The stacked items with their right-hand visitors: the next item to
    /// be produced is last.
    pub closed spec fn entries(&self) -> Seq<(C::Item, Option<C>)> {
        self.a@
    }

    /// The iterator knows its remaining count exactly: it was built from a
    /// visitor whose level bounds agreed.
    pub closed spec fn exact(&self) -> bool {
        self.length == Some(self.min_length) && self.num + count_of_entries(self.a@)
            == self.min_length
    }

    /// Descend to the leftmost node below `node`, stacking each passed item
    /// together with its right-hand visitor: the pushed segment is exactly
    /// `node`'s left spine, the old stack stays untouched below it.
    pub fn add_all_lefts(stack: &mut Vec<(C::Item, Option<C>)>, node: C)
        requires
            entries_wf(old(stack)@),
            node.wf(),
        ensures
            entries_wf(final(stack)@),
            count_of_entries(final(stack)@) == count_of_entries(old(stack)@) + nodes_of_height(
                node.levels(),
            ),
            final(stack)@.len() > old(stack)@.len(),
            final(stack)@.subrange(0, old(stack)@.len() as int) == old(stack)@,
            left_spine(
                node,
                final(stack)@.subrange(old(stack)@.len() as int, final(stack)@.len() as int),
            ),
        decreases node.levels(),
    {
        proof {
            assert(nodes_of_height(0) == 0);
        }
        let ghost prior = stack@;
        let ghost nl = node.levels();
        let (i, next) = node.next();
        let ghost kk = (i, next);
        match next {
            Some((left, right)) => {
                let ghost rl = right.levels();
                stack.push((i, Some(right)));
                let ghost s1 = stack@;
                proof {
                    assert(s1.drop_last() =~= prior);
                    assert(count_of_entries(s1) == count_of_entries(prior) + 1 + nodes_of_height(
                        rl,
                    ));
                    assert(nodes_of_height(nl) == 2 * nodes_of_height((nl - 1) as nat) + 1);
                }
                Self::add_all_lefts(stack, left);
                proof {
                    assert(s1.subrange(0, prior.len() as int) =~= prior);
                    lemma_prefix_transitive(prior, s1, stack@);
                    let seg = stack@.subrange(prior.len() as int, stack@.len() as int);
                    let subseg = stack@.subrange(s1.len() as int, stack@.len() as int);
                    assert(stack@.subrange(0, s1.len() as int)[prior.len() as int] == s1[prior.len(
                    ) as int]);
                    assert(seg[0] == s1.last());
                    assert(seg.drop_first() =~= subseg);
                    assert(node.next_spec(kk));
                    assert(left_spine(kk.1.unwrap().0, subseg));
                    assert(left_spine(node, seg));
                }
            },
            None => {
                stack.push((i, None));
                proof {
                    assert(stack@.drop_last() =~= prior);
                    assert(count_of_entries(stack@) == count_of_entries(prior) + 1);
                    assert(nodes_of_height(nl) == 1);
                    assert(stack@.subrange(0, prior.len() as int) =~= prior);
                    let seg = stack@.subrange(prior.len() as int, stack@.len() as int);
                    assert(seg =~= seq![stack@.last()]);
                    assert(node.next_spec(kk));
                    assert(left_spine(node, seg));
                }
            },
        }
    }

    /// Produce the next element in dfs in order, or nothing once every
    /// element has been produced: the topmost stacked item is handed out,
    /// and its right-hand visitor, if it stored one, is replaced by that
    /// visitor's left spine.
    pub fn next(&mut self) -> (r: Option<C::Item>)
        requires
            old(self).wf(),
        ensures
            final(self).wf(),
            (r is Some) <==> old(self).remaining() > 0,
            final(self).remaining() == if r is Some {
                (old(self).remaining() - 1) as nat
            } else {
                0nat
            },
            old(self).exact() ==> final(self).exact(),
            old(self).entries().len() == 0 ==> r is None && final(self).entries() == old(
                self,
            ).entries(),
            old(self).entries().len() > 0 ==> r == Some(old(self).entries().last().0) && match old(
                self,
            ).entries().last().1 {
                Some(c) => {
                    &&& final(self).entries().len() >= old(self).entries().len()
                    &&& final(self).entries().subrange(0, old(self).entries().len() - 1) == old(
                        self,
                    ).entries().drop_last()
                    &&& left_spine(
                        c,
                        final(self).entries().subrange(
                            old(self).entries().len() - 1,
                            final(self).entries().len() as int,
                        ),
                    )
                },
                None => final(self).entries() == old(self).entries().drop_last(),
            },
    {
        let ghost st0 = self.a@;
        match self.a.pop() {
            Some((i, nl)) => {
                let ghost popped = self.a@;
                proof {
                    assert(popped =~= st0.drop_last());
                }
                match nl {
                    Some(nl) => {
                        proof {
                            assert(count_of_entries(st0) == count_of_entries(popped) + 1
                                + nodes_of_height(st0.last().1.unwrap().levels()));
                        }
                        DfsInOrderIter::add_all_lefts(&mut self.a, nl);
                        proof {
                            assert(self.a@.subrange(0, popped.len() as int) =~= popped);
                        }
                        if self.num < usize::MAX {
                            self.num = self.num + 1;
                        }
                        Some(i)
                    },
                    None => {
                        proof {
                            assert(count_of_entries(st0) == count_of_entries(popped) + 1);
                        }
                        if self.num < usize::MAX {
                            self.num = self.num + 1;
                        }
                        Some(i)
                    },
                }
            },
            None => {
                proof {
                    assert(st0 =~= Seq::<(C::Item, Option<C>)>::empty());
                }
                None
            },
        }
    }

    /// Bounds on how many items are still to come: the lower bound is sound,
    /// and so is the upper bound whenever one is returned.
    pub fn size_hint(&self) -> (r: (usize, Option<usize>))
        requires
            self.wf(),
        ensures
            r.0 <= self.remaining(),
            match r.1 {
                Some(u) => self.remaining() <= u,
                None => true,
            },
            self.exact() ==> r.0 == self.remaining() && r.1 == Some(r.0),
    {
        let lo = if self.num <= self.min_length {
            self.min_length - self.num
        } else {
            0
        };
        let hi = match self.length {
            Some(l) => Some(
                if self.num <= l {
                    l - self.num
                } else {
                    0
                },
            ),
            None => None,
        };
        (lo, hi)
    }
}

/// Provides a dfs in order iterator over everything below the visitor.
/// Unlike [`dfs_inorder`], this one supports partial consumption and
/// relies on an explicit stack instead of the call stack. The stack starts
/// as the visitor's left spine; when the visitor's two level bounds agree
/// and the node count fits, the iterator knows its remaining count exactly.
pub fn dfs_inorder_iter<C: Visitor>(a: C) -> (it: DfsInOrderIter<C>)
    requires
        a.wf(),
    ensures
        it.wf(),
        it.remaining() == nodes_of_height(a.levels()),
        left_spine(a, it.entries()),
        a.hint_spec().1 == Some(a.hint_spec().0) && nodes_of_height(a.hint_spec().0 as nat)
            <= usize::MAX ==> it.exact(),
{
    let (levels, max_levels) = a.level_remaining_hint();
    let min_length = nodes_saturating(levels);
    let length = match max_levels {
        Some(m) => nodes_checked(m),
        None => None,
    };
    proof {
        lemma_nodes_of_height_le(levels as nat, a.levels());
        if max_levels is Some {
            lemma_nodes_of_height_le(a.levels(), max_levels.unwrap() as nat);
        }
    }
    let mut stack: Vec<(C::Item, Option<C>)> = Vec::new();
    proof {
        assert(count_of_entries(Seq::<(C::Item, Option<C>)>::empty()) == 0);
    }
    DfsInOrderIter::add_all_lefts(&mut stack, a);
    proof {
        assert(stack@.subrange(0, stack@.len() as int) =~= stack@);
    }
    DfsInOrderIter { a: stack, length, min_length, num: 0 }
}

/// Flips left and right children on every split.
pub struct Flip<T: Visitor>(pub T);

impl<T: Visitor> Visitor for Flip<T> {
    type Item = T::Item;

    open spec fn wf(&self) -> bool {
        self.0.wf()
    }

    open spec fn levels(&self) -> nat {
        self.0.levels()
    }

    /// The item is whatever the wrapped cursor produces; the two children
    /// are the wrapped cursor's children exchanged, wrapped again.
    open spec fn next_spec(&self, r: (T::Item, Option<(Self, Self)>)) -> bool {
        exists|k: (T::Item, Option<(T, T)>)|
            {
                &&& #[trigger] self.0.next_spec(k)
                &&& r.0 == k.0
                &&& match (r.1, k.1) {
                    (Some(c), Some(d)) => c.0 == (Flip(d.1)) && c.1 == (Flip(d.0)),
                    (None, None) => true,
                    _ => false,
                }
            }
    }

    open spec fn hint_spec(&self) -> (usize, Option<usize>) {
        (0, None)
    }

    fn next(self) -> (r: (T::Item, Option<(Self, Self)>)) {
        let Flip(inner) = self;
        let (a, rest) = inner.next();
        let ghost kk = (a, rest);
        let out = match rest {
            Some((l, r)) => (a, Some((Flip(r), Flip(l)))),
            None => (a, None),
        };
        proof {
            assert(self.0.next_spec(kk));
        }
        out
    }

    fn level_remaining_hint(&self) -> (r: (usize, Option<usize>)) {
        (0, None)
    }
}

impl<T: FixedDepthVisitor> FixedDepthVisitor for Flip<T> {

}

/// Only returns children until `num` more levels have been opened.
pub struct Take<T: Visitor> {
    pub a: T,
    pub num: usize,
}

impl<T: Visitor> Visitor for Take<T> {
    type Item = T::Item;

    open spec fn wf(&self) -> bool {
        self.a.wf()
    }

    open spec fn levels(&self) -> nat {
        min(self.a.levels() as int, self.num as int + 1) as nat
    }

    /// The item is whatever the wrapped cursor produces; its children are
    /// kept, each carrying one unit less budget, unless the budget has run
    /// out, in which case no children are produced.
    open spec fn next_spec(&self, r: (T::Item, Option<(Self, Self)>)) -> bool {
        exists|k: (T::Item, Option<(T, T)>)|
            {
                &&& #[trigger] self.a.next_spec(k)
                &&& r.0 == k.0
                &&& match k.1 {
                    Some(d) => if self.num == 0 {
                        r.1 is None
                    } else {
                        r.1 == Some(
                            (
                                (Take { a: d.0, num: (self.num - 1) as usize }),
                                (Take { a: d.1, num: (self.num - 1) as usize }),
                            ),
                        )
                    },
                    None => r.1 is None,
                }
            }
    }

    open spec fn hint_spec(&self) -> (usize, Option<usize>) {
        (0, None)
    }

    fn next(self) -> (r: (T::Item, Option<(Self, Self)>)) {
        let Take { a: inner, num } = self;
        let (a, rest) = inner.next();
        let ghost kk = (a, rest);
        let rest = match rest {
            Some((left, right)) => {
                if num == 0 {
                    None
                } else {
                    Some(
                        (Take { a: left, num: num - 1 }, Take { a: right, num: num - 1 }),
                    )
                }
            },
            None => None,
        };
        proof {
            assert(self.a.next_spec(kk));
        }
        (a, rest)
    }

    fn level_remaining_hint(&self) -> (r: (usize, Option<usize>)) {
        (0, None)
    }
}

/// Tree visitor that zips up two separate visitors.
/// If one of the two runs out of children, the zipped visitor stops there.
pub struct Zip<T1: Visitor, T2: Visitor> {
    pub a: T1,
    pub b: T2,
}

impl<T1: Visitor, T2: Visitor> Zip<T1, T2> {
    /// Combine two tree visitors into one that walks them in lockstep.
    pub fn new(a: T1, b: T2) -> (r: Zip<T1, T2>)
        ensures
            r == (Zip { a, b }),
    {
        Zip { a, b }
    }

    /// Split back into the two wrapped visitors.
    pub fn into_inner(self) -> (r: (T1, T2))
        ensures
            r.0 == self.a,
            r.1 == self.b,
    {
        let Zip { a, b } = self;
        (a, b)
    }

    /// Borrow the two wrapped visitors.
    pub fn as_inner(&self) -> (r: (&T1, &T2))
        ensures
            *r.0 == self.a,
            *r.1 == self.b,
    {
        (&self.a, &self.b)
    }

    /// Borrow the two wrapped visitors mutably.
    pub fn as_inner_mut(&mut self) -> (r: (&mut T1, &mut T2))
        ensures
            *r.0 == old(self).a,
            *r.1 == old(self).b,
            final(self).a == *final(r.0),
            final(self).b == *final(r.1),
    {
        (&mut self.a, &mut self.b)
    }
}

impl<T1: Visitor, T2: Visitor> Visitor for Zip<T1, T2> {
    type Item = (T1::Item, T2::Item);

    open spec fn wf(&self) -> bool {
        self.a.wf() && self.b.wf()
    }

    open spec fn levels(&self) -> nat {
        min(self.a.levels() as int, self.b.levels() as int) as nat
    }

    /// The item is the pair of the two wrapped cursors' items; when both
    /// sides have children, the left children are paired and the right
    /// children are paired, in that order; when either side is a leaf, no
    /// children are produced.
    open spec fn next_spec(&self, r: ((T1::Item, T2::Item), Option<(Self, Self)>)) -> bool {
        exists|ka: (T1::Item, Option<(T1, T1)>), kb: (T2::Item, Option<(T2, T2)>)|
            {
                &&& #[trigger] self.a.next_spec(ka)
                &&& #[trigger] self.b.next_spec(kb)
                &&& r.0 == ((ka.0, kb.0))
                &&& match (ka.1, kb.1) {
                    (Some(ca), Some(cb)) => r.1 == Some(
                        ((Zip { a: ca.0, b: cb.0 }), (Zip { a: ca.1, b: cb.1 })),
                    ),
                    _ => r.1 is None,
                }
            }
    }

    /// The minimum of both sides' bounds: the minimum of the lower hints,
    /// and the minimum of the upper hints when both sides have one.
    open spec fn hint_spec(&self) -> (usize, Option<usize>) {
        (
            min(self.a.hint_spec().0 as int, self.b.hint_spec().0 as int) as usize,
            match (self.a.hint_spec().1, self.b.hint_spec().1) {
                (Some(x), Some(y)) => Some(min(x as int, y as int) as usize),
                _ => None,
            },
        )
    }

    fn next(self) -> (r: ((T1::Item, T2::Item), Option<(Self, Self)>)) {
        let Zip { a, b } = self;
        let (a_item, a_rest) = a.next();
        let (b_item, b_rest) = b.next();
        let ghost kka = (a_item, a_rest);
        let ghost kkb = (b_item, b_rest);
        let item = (a_item, b_item);
        let out = match (a_rest, b_rest) {
            (Some(a_rest), Some(b_rest)) => {
                let (aleft, aright) = a_rest;
                let (bleft, bright) = b_rest;
                let f1 = Zip { a: aleft, b: bleft };
                let f2 = Zip { a: aright, b: bright };
                (item, Some((f1, f2)))
            },
            _ => (item, None),
        };
        proof {
            assert(self.a.next_spec(kka));
            assert(self.b.next_spec(kkb));
        }
        out
    }

    fn level_remaining_hint(&self) -> (r: (usize, Option<usize>)) {
        let a = self.a.level_remaining_hint();
        let b = self.b.level_remaining_hint();
        let low = if a.0 <= b.0 {
            a.0
        } else {
            b.0
        };
        let high = match (a.1, b.1) {
            (Some(x), Some(y)) => Some(
                if x <= y {
                    x
                } else {
                    y
                },
            ),
            _ => None,
        };
        (low, high)
    }
}

impl<T1: FixedDepthVisitor, T2: FixedDepthVisitor> FixedDepthVisitor for Zip<T1, T2> {

}

/// Map adapter: applies a function to every item.
pub struct MapVisitor<C, F> {
    pub func: F,
    pub inner: C,
}

impl<B, C: Visitor, F: Fn(C::Item) -> B + Copy> MapVisitor<C, F> {
    /// Adapter that applies `func` to every item `inner` produces.
    pub fn new(inner: C, func: F) -> (r: MapVisitor<C, F>)
        ensures
            r == (MapVisitor { func, inner }),
    {
        MapVisitor { func, inner }
    }
}

impl<B, C: Visitor, F: Fn(C::Item) -> B + Copy> Visitor for MapVisitor<C, F> {
    type Item = B;

    open spec fn wf(&self) -> bool {
        self.inner.wf() && forall|x: C::Item| call_requires(self.func, (x,))
    }

    open spec fn levels(&self) -> nat {
        self.inner.levels()
    }

    /// The item is the function applied to the item the wrapped cursor
    /// itself produced, and the children are the wrapped cursor's children,
    /// each wrapped with the same function, in the same order.
    open spec fn next_spec(&self, r: (B, Option<(Self, Self)>)) -> bool {
        exists|k: (C::Item, Option<(C, C)>)|
            {
                &&& #[trigger] self.inner.next_spec(k)
                &&& call_ensures(self.func, (k.0,), r.0)
                &&& match k.1 {
                    Some(d) => r.1 == Some(
                        (
                            (MapVisitor { func: self.func, inner: d.0 }),
                            (MapVisitor { func: self.func, inner: d.1 }),
                        ),
                    ),
                    None => r.1 is None,
                }
            }
    }

    open spec fn hint_spec(&self) -> (usize, Option<usize>) {
        self.inner.hint_spec()
    }

    fn next(self) -> (r: (B, Option<(Self, Self)>)) {
        let MapVisitor { func, inner } = self;
        let (a, rest) = inner.next();
        let ghost kk = (a, rest);
        let k = func(a);
        let out = match rest {
            Some((left, right)) => {
                let ll = MapVisitor { func, inner: left };
                let rr = MapVisitor { func, inner: right };
                (k, Some((ll, rr)))
            },
            None => (k, None),
        };
        proof {
            assert(self.inner.next_spec(kk));
            assert(call_ensures(self.func, (kk.0,), out.0));
        }
        out
    }

    fn level_remaining_hint(&self) -> (r: (usize, Option<usize>)) {
        self.inner.level_remaining_hint()
    }
}

impl<B, C: FixedDepthVisitor, F: Fn(C::Item) -> B + Copy> FixedDepthVisitor for MapVisitor<C, F> {

}

/// A level descriptor.
#[derive(Copy, Clone)]
pub struct Depth(pub usize);

/// A wrapper visitor that will additionally return the depth of each element.
pub struct LevelIter<T> {
    pub inner: T,
    pub depth: Depth,
}

impl<T> LevelIter<T> {
    /// The depth of the node the visitor stands on.
    pub fn depth(&self) -> (r: usize)
        ensures
            r == self.depth.0,
    {
        self.depth.0
    }

    /// Unwrap the underlying visitor.
    pub fn into_inner(self) -> (r: T)
        ensures
            r == self.inner,
    {
        self.inner
    }

    /// Borrow the underlying visitor.
    pub fn as_inner(&self) -> (r: &T)
        ensures
            *r == self.inner,
    {
        &self.inner
    }

    /// Borrow the underlying visitor mutably.
    pub fn as_inner_mut(&mut self) -> (r: &mut T)
        ensures
            *r == old(self).inner,
            final(self).inner == *final(r),
            final(self).depth == old(self).depth,
    {
        &mut self.inner
    }
}

impl<T: Visitor> Visitor for LevelIter<T> {
    type Item = (Depth, T::Item);

    open spec fn wf(&self) -> bool {
        self.inner.wf() && self.depth.0 + self.inner.levels() <= usize::MAX + 1
    }

    open spec fn levels(&self) -> nat {
        self.inner.levels()
    }

    /// The item pairs this visitor's own depth with the item the wrapped
    /// cursor produced, and the children wrap the wrapped cursor's own
    /// children, in the same order, one depth further down.
    open spec fn next_spec(&self, r: ((Depth, T::Item), Option<(Self, Self)>)) -> bool {
        exists|k: (T::Item, Option<(T, T)>)|
            {
                &&& #[trigger] self.inner.next_spec(k)
                &&& r.0 == ((self.depth, k.0))
                &&& match k.1 {
                    Some(d) => r.1 == Some(
                        (
                            (
                                LevelIter {
                                    inner: d.0,
                                    depth: (Depth((self.depth.0 + 1) as usize)),
                                }
                            ),
                            (
                                LevelIter {
                                    inner: d.1,
                                    depth: (Depth((self.depth.0 + 1) as usize)),
                                }
                            ),
                        ),
                    ),
                    None => r.1 is None,
                }
            }
    }

    open spec fn hint_spec(&self) -> (usize, Option<usize>) {
        self.inner.hint_spec()
    }

    /// The depth handed out with the root item is exactly the visitor's own
    /// depth, and both children report a depth greater by one.
    fn next(self) -> (r: ((Depth, T::Item), Option<(Self, Self)>))
        ensures
            r.0.0.0 == self.depth.0,
            match r.1 {
                Some(c) => c.0.depth.0 == self.depth.0 + 1 && c.1.depth.0 == self.depth.0 + 1,
                None => true,
            },
    {
        let LevelIter { inner, depth } = self;
        let (nn, rest) = inner.next();
        let ghost kk = (nn, rest);
        let rr = (depth, nn);
        let out = match rest {
            Some((left, right)) => {
                let ln = Depth(depth.0 + 1);
                let ll = LevelIter { inner: left, depth: ln };
                let rr2 = LevelIter { inner: right, depth: ln };
                (rr, Some((ll, rr2)))
            },
            None => (rr, None),
        };
        proof {
            assert(self.inner.next_spec(kk));
        }
        out
    }

    fn level_remaining_hint(&self) -> (r: (usize, Option<usize>)) {
        self.inner.level_remaining_hint()
    }
}

impl<T: FixedDepthVisitor> FixedDepthVisitor for LevelIter<T> {

}

/// The (depth, leafness) pairs that a preorder walk reports for a tree of
/// `l` levels whose root is announced at depth `d`: the root first, then
/// the two subtrees, each one level lower and one depth deeper.
pub open spec fn depth_profile(l: nat, d: int) -> Seq<(int, bool)>
    decreases l,
    when l >= 1
{
    if l == 1 {
        seq![(d, true)]
    } else {
        seq![(d, false)] + depth_profile((l - 1) as nat, d + 1) + depth_profile(
            (l - 1) as nat,
            d + 1,
        )
    }
}

/// The depth-tagging law: in a walk started at depth `d` of a tree with
/// `l` levels, the root reports depth `d`, every reported depth lies
/// between `d` and `d + l - 1`, and a node is a leaf exactly when its
/// reported depth is `d + l - 1`.
pub proof fn lemma_depth_profile(l: nat, d: int)
    requires
        l >= 1,
    ensures
        depth_profile(l, d).len() == nodes_of_height(l),
        depth_profile(l, d)[0] == (d, (l == 1)),
        forall|i: int|
            0 <= i < depth_profile(l, d).len() ==> d <= (#[trigger] depth_profile(l, d)[i]).0 <= d
                + l - 1,
        forall|i: int|
            0 <= i < depth_profile(l, d).len() ==> ((#[trigger] depth_profile(l, d)[i]).1 <==> (
            depth_profile(l, d)[i]).0 == d + l - 1),
    decreases l,
{
    assert(nodes_of_height(0) == 0);
    let s = depth_profile(l, d);
    if l > 1 {
        lemma_depth_profile((l - 1) as nat, d + 1);
        let sub = depth_profile((l - 1) as nat, d + 1);
        assert forall|i: int| 0 <= i < s.len() implies d <= (#[trigger] s[i]).0 <= d + l - 1 && (
        s[i].1 <==> s[i].0 == d + l - 1) by {
            if i == 0 {
            } else if i <= sub.len() {
                assert(s[i] == sub[i - 1]);
            } else {
                assert(s[i] == sub[i - 1 - sub.len()]);
            }
        }
    }
}

/// Walk `v` in preorder, recording for every node the depth the adapter
/// reports and whether the node is a leaf. The record is exactly
/// [`depth_profile`], so by [`lemma_depth_profile`] the root reports the
/// caller's start depth, depths grow by one per level, and every leaf
/// reports depth `start + levels - 1`.
pub fn depth_profile_walk<C: Visitor>(v: LevelIter<C>) -> (r: Vec<(usize, bool)>)
    requires
        v.wf(),
        nodes_of_height(v.levels()) <= usize::MAX,
    ensures
        r@.len() == nodes_of_height(v.levels()),
        forall|i: int|
            0 <= i < r@.len() ==> (((#[trigger] r@[i]).0 as int, r@[i].1)) == depth_profile(
                v.levels(),
                v.depth.0 as int,
            )[i],
{
    let mut out: Vec<(usize, bool)> = Vec::new();
    depth_profile_collect(v, &mut out);
    proof {
        let s = depth_profile(v.levels(), v.depth.0 as int);
        assert forall|i: int| 0 <= i < out@.len() implies (((#[trigger] out@[i]).0 as int,
        out@[i].1)) == s[i] by {
            assert(((out@[0 + i].0 as int, out@[0 + i].1)) == s[i]);
        }
    }
    out
}

/// Append the preorder depth record of `v`'s subtree to `out`; what is
/// appended is exactly [`depth_profile`].
fn depth_profile_collect<C: Visitor>(v: LevelIter<C>, out: &mut Vec<(usize, bool)>)
    requires
        v.wf(),
        old(out)@.len() + nodes_of_height(v.levels()) <= usize::MAX,
    ensures
        final(out)@.len() == old(out)@.len() + nodes_of_height(v.levels()),
        final(out)@.subrange(0, old(out)@.len() as int) == old(out)@,
        forall|i: int|
            0 <= i < nodes_of_height(v.levels()) ==> (((#[trigger] final(out)@[old(out)@.len()
                + i]).0 as int, final(out)@[old(out)@.len() + i].1)) == depth_profile(
                v.levels(),
                v.depth.0 as int,
            )[i],
    decreases v.levels(),
{
    proof {
        assert(nodes_of_height(0) == 0);
    }
    let ghost prior = out@;
    let ghost s = depth_profile(v.levels(), v.depth.0 as int);
    let ghost lv = v.levels();
    let ghost d0 = v.depth.0 as int;
    let (item, rest) = v.next();
    match rest {
        Some((left, right)) => {
            let ghost sub = depth_profile((lv - 1) as nat, d0 + 1);
            out.push((item.0.0, false));
            let ghost s0 = out@;
            depth_profile_collect(left, out);
            let ghost s1 = out@;
            depth_profile_collect(right, out);
            proof {
                lemma_depth_profile((lv - 1) as nat, d0 + 1);
                assert(s == seq![(d0, false)] + sub + sub);
                assert(s1.subrange(0, s0.len() as int) =~= s0);
                assert forall|i: int| 0 <= i < s.len() implies (((#[trigger] out@[prior.len()
                    + i]).0 as int, out@[prior.len() + i].1)) == s[i] by {
                    if i == 0 {
                        assert(out@.subrange(0, s1.len() as int)[prior.len() as int]
                            == s1[prior.len() as int]);
                        assert(s1[prior.len() as int] == s0[prior.len() as int]);
                        assert(s0[prior.len() as int] == (item.0.0, false));
                    } else if i <= sub.len() {
                        assert(out@.subrange(0, s1.len() as int)[prior.len() + i] == s1[prior.len()
                            + i]);
                        assert(((s1[s0.len() + (i - 1)].0 as int, s1[s0.len() + (i - 1)].1))
                            == sub[i - 1]);
                        assert(sub[i - 1] == s[i]);
                    } else {
                        assert(((out@[s1.len() + (i - 1 - sub.len())].0 as int, out@[s1.len() + (i
                            - 1 - sub.len())].1)) == sub[i - 1 - sub.len()]);
                        assert(sub[i - 1 - sub.len()] == s[i]);
                    }
                }
                assert(s0.subrange(0, prior.len() as int) =~= prior);
                lemma_prefix_transitive(prior, s0, s1);
                lemma_prefix_transitive(prior, s1, out@);
            }
        },
        None => {
            out.push((item.0.0, true));
            proof {
                assert(s =~= seq![(d0, true)]);
                assert(out@.subrange(0, prior.len() as int) =~= prior);
                assert(out@[prior.len() as int] == (item.0.0, true));
            }
        },
    }
}


} // verus!
