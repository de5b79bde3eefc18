//! A binary search tree over `i64` keys, abstracted as the set of keys it
//! holds. Duplicates are not stored.

use vstd::prelude::*;
use vstd::arithmetic::power2::pow2;
use vstd::arithmetic::power2::lemma_pow2_strictly_increases;
use vstd::arithmetic::power2::lemma_pow2_unfold;

verus! {

struct TreeNode {
    data: i64,
    left: Option<Box<TreeNode>>,
    right: Option<Box<TreeNode>>,
}

impl TreeNode {
    /// Does this subtree hold `x`?
    spec fn has(self, x: i64) -> bool
        decreases self,
    {
        x == self.data || link_has(self.left, x) || link_has(self.right, x)
    }

    /// The search-tree ordering: keys to the left below, keys to the right
    /// above, recursively.
    spec fn ordered(self) -> bool
        decreases self,
    {
        &&& (forall|x: i64| link_has(self.left, x) ==> x < self.data)
        &&& (forall|x: i64| link_has(self.right, x) ==> x > self.data)
        &&& (match self.left {
            Some(l) => l.ordered(),
            None => true,
        })
        &&& (match self.right {
            Some(r) => r.ordered(),
            None => true,
        })
    }

    /// The keys of this subtree in symmetric (ascending) order.
    spec fn keys(self) -> Seq<i64>
        decreases self,
    {
        link_keys(self.left) + seq![self.data] + link_keys(self.right)
    }

    /// Height of this subtree: longest chain of nodes from here down.
    spec fn height(self) -> nat
        decreases self,
    {
        1 + if link_height(self.left) >= link_height(self.right) {
            link_height(self.left)
        } else {
            link_height(self.right)
        }
    }
}

/// Does the optional subtree hold `x`?
spec fn link_has(link: Option<Box<TreeNode>>, x: i64) -> bool
    decreases link,
{
    match link {
        None => false,
        Some(node) => node.has(x),
    }
}

/// Is the optional subtree ordered?
spec fn link_ordered(link: Option<Box<TreeNode>>) -> bool
    decreases link,
{
    match link {
        None => true,
        Some(node) => node.ordered(),
    }
}

/// Keys of the optional subtree in ascending order.
spec fn link_keys(link: Option<Box<TreeNode>>) -> Seq<i64>
    decreases link,
{
    match link {
        None => Seq::empty(),
        Some(node) => node.keys(),
    }
}

/// Height of the optional subtree.
spec fn link_height(link: Option<Box<TreeNode>>) -> nat
    decreases link,
{
    match link {
        None => 0,
        Some(node) => node.height(),
    }
}

/// Membership in a subtree agrees with membership in its key sequence.
proof fn lemma_has_keys(link: Option<Box<TreeNode>>, x: i64)
    ensures
        link_has(link, x) <==> link_keys(link).contains(x),
    decreases link,
{
    match link {
        None => {},
        Some(node) => {
            lemma_has_keys(node.left, x);
            lemma_has_keys(node.right, x);
            let ls = link_keys(node.left);
            let rs = link_keys(node.right);
            let s = ls + seq![node.data] + rs;
            if link_has(link, x) {
                if x == node.data {
                    assert(s[ls.len() as int] == x);
                } else if ls.contains(x) {
                    let i = choose|i: int| 0 <= i < ls.len() && ls[i] == x;
                    assert(s[i] == x);
                } else {
                    let i = choose|i: int| 0 <= i < rs.len() && rs[i] == x;
                    assert(s[ls.len() + 1 + i] == x);
                }
                assert(s.contains(x));
            }
            if s.contains(x) {
                let i = choose|i: int| 0 <= i < s.len() && s[i] == x;
                if i < ls.len() {
                    assert(ls[i] == x);
                } else if i > ls.len() {
                    assert(rs[i - ls.len() - 1] == x);
                }
            }
        },
    }
}

/// An ordered subtree lists its keys in strictly increasing order.
proof fn lemma_keys_sorted(link: Option<Box<TreeNode>>)
    requires
        link_ordered(link),
    ensures
        forall|i: int, j: int|
            0 <= i < j < link_keys(link).len() ==> link_keys(link)[i] < link_keys(link)[j],
    decreases link,
{
    match link {
        None => {},
        Some(node) => {
            lemma_keys_sorted(node.left);
            lemma_keys_sorted(node.right);
            let ls = link_keys(node.left);
            let rs = link_keys(node.right);
            let s = ls + seq![node.data] + rs;
            assert forall|i: int, j: int|
                0 <= i < j < s.len() implies s[i] < s[j] by {
                if i < ls.len() {
                    assert(s[i] == ls[i]);
                    assert(ls.contains(ls[i]));
                    lemma_has_keys(node.left, ls[i]);
                    assert(s[i] < node.data);
                }
                if j > ls.len() {
                    assert(s[j] == rs[j - ls.len() - 1]);
                    assert(rs.contains(rs[j - ls.len() - 1]));
                    lemma_has_keys(node.right, s[j]);
                    assert(s[j] > node.data);
                }
                if j < ls.len() {
                    assert(s[j] == ls[j]);
                } else if i > ls.len() {
                    assert(s[i] == rs[i - ls.len() - 1] && s[j] == rs[j - ls.len() - 1]);
                } else if i == ls.len() {
                    assert(s[i] == node.data);
                } else if j == ls.len() {
                    assert(s[j] == node.data);
                }
            }
        },
    }
}

/// A subtree of height `h` holds fewer than `2^h` keys.
proof fn lemma_count_lt_pow2(link: Option<Box<TreeNode>>)
    ensures
        link_keys(link).len() < pow2(link_height(link)),
    decreases link,
{
    match link {
        None => {
            vstd::arithmetic::power2::lemma_pow2(0);
            assert(pow2(0) == 1) by {
                vstd::arithmetic::power::lemma_pow0(2);
            }
        },
        Some(node) => {
            lemma_count_lt_pow2(node.left);
            lemma_count_lt_pow2(node.right);
            let hl = link_height(node.left);
            let hr = link_height(node.right);
            let h = link_height(link);
            let hm = if hl >= hr {
                hl
            } else {
                hr
            };
            if hl < hm {
                lemma_pow2_strictly_increases(hl, hm);
            }
            if hr < hm {
                lemma_pow2_strictly_increases(hr, hm);
            }
            lemma_pow2_unfold(h);
        },
    }
}

/// The height of a subtree never exceeds its number of keys.
proof fn lemma_height_le_count(link: Option<Box<TreeNode>>)
    ensures
        link_height(link) <= link_keys(link).len(),
    decreases link,
{
    match link {
        None => {},
        Some(node) => {
            lemma_height_le_count(node.left);
            lemma_height_le_count(node.right);
        },
    }
}

/// Binary search tree holding a set of `i64` keys.
pub struct BinarySearchTree {
    root: Option<Box<TreeNode>>,
    size: usize,
}

impl View for BinarySearchTree {
    type V = Set<i64>;

    closed spec fn view(&self) -> Set<i64> {
        Set::new(|x: i64| link_has(self.root, x))
    }
}

impl BinarySearchTree {
    /// The keys in ascending order, as the tree stores them.
    pub closed spec fn key_seq(self) -> Seq<i64> {
        link_keys(self.root)
    }

    /// The tree's height: longest chain of nodes from the root down.
    pub closed spec fn spec_height(self) -> nat {
        link_height(self.root)
    }

    #[verifier::type_invariant]
    spec fn wf(self) -> bool {
        link_ordered(self.root) && self.size == link_keys(self.root).len()
    }

    /// An empty tree.
    pub fn new() -> (r: BinarySearchTree)
        ensures
            r@ == Set::<i64>::empty(),
            r.key_seq() == Seq::<i64>::empty(),
    {
        let r = BinarySearchTree { root: None, size: 0 };
        proof {
            assert(r@ =~= Set::<i64>::empty());
        }
        r
    }

    /// Insert a key; a key already present is left alone.
    pub fn insert(&mut self, data: i64)
        requires
            old(self).key_seq().len() < usize::MAX || old(self)@.contains(data),
        ensures
            final(self)@ == old(self)@.insert(data),
            final(self).key_seq().len() == old(self).key_seq().len() + (if old(self)@.contains(
                data,
            ) {
                0int
            } else {
                1int
            }),
    {
        proof {
            use_type_invariant(&*self);
        }
        let mut tmp = BinarySearchTree { root: None, size: 0 };
        core::mem::swap(self, &mut tmp);
        let mut root = tmp.root;
        let added = Self::insert_link(&mut root, data);
        proof {
            lemma_has_keys(tmp.root, data);
        }
        let new_size = if added {
            tmp.size + 1
        } else {
            tmp.size
        };
        *self = BinarySearchTree { root, size: new_size };
        proof {
            assert(final(self)@ =~= old(self)@.insert(data));
        }
    }

    fn insert_link(link: &mut Option<Box<TreeNode>>, data: i64) -> (added: bool)
        requires
            link_ordered(*old(link)),
        ensures
            link_ordered(*final(link)),
            added == !link_has(*old(link), data),
            forall|x: i64| link_has(*final(link), x) <==> (link_has(*old(link), x) || x == data),
            link_keys(*final(link)).len() == link_keys(*old(link)).len() + (if added {
                1int
            } else {
                0int
            }),
        decreases *old(link),
    {
        let mut taken: Option<Box<TreeNode>> = None;
        core::mem::swap(&mut taken, link);
        match taken {
            None => {
                let node = TreeNode { data, left: None, right: None };
                let ghost gnode = node;
                proof {
                    assert(node.keys() =~= seq![data]);
                }
                *link = Some(Box::new(node));
                proof {
                    assert forall|x: i64|
                        link_has(*final(link), x) <==> (link_has(*old(link), x) || x
                        == data) by {
                        assert(link_has(*final(link), x) == gnode.has(x));
                        assert(!link_has(gnode.left, x));
                        assert(!link_has(gnode.right, x));
                        assert(!link_has(*old(link), x));
                    }
                }
                true
            },
            Some(mut boxed_node) => {
                let ghost before = *boxed_node;
                let added = (&mut *boxed_node).insert_node(data);
                let ghost after = *boxed_node;
                *link = Some(boxed_node);
                proof {
                    assert forall|x: i64|
                        link_has(*final(link), x) <==> (link_has(*old(link), x) || x
                        == data) by {
                        assert(link_has(*final(link), x) == after.has(x));
                        assert(link_has(*old(link), x) == before.has(x));
                    }
                }
                added
            },
        }
    }

    /// Is the key in the tree?
    pub fn contains(&self, data: &i64) -> (r: bool)
        ensures
            r == self@.contains(*data),
    {
        proof {
            use_type_invariant(self);
        }
        Self::contains_link(&self.root, data)
    }

    fn contains_link(link: &Option<Box<TreeNode>>, data: &i64) -> (r: bool)
        requires
            link_ordered(*link),
        ensures
            r == link_has(*link, *data),
        decreases *link,
    {
        match link {
            None => false,
            Some(node) => (&**node).contains_node(data),
        }
    }

    /// Number of keys stored.
    pub fn len(&self) -> (r: usize)
        ensures
            r == self.key_seq().len(),
    {
        proof {
            use_type_invariant(self);
        }
        self.size
    }

    /// Is the tree empty?
    pub fn is_empty(&self) -> (r: bool)
        ensures
            r == (self.key_seq().len() == 0),
            r ==> forall|x: i64| !self@.contains(x),
    {
        proof {
            use_type_invariant(self);
            if self.size == 0 {
                assert forall|x: i64| !self@.contains(x) by {
                    lemma_has_keys(self.root, x);
                }
            }
        }
        self.size == 0
    }

    /// The keys in strictly increasing order: the sorted, duplicate-free
    /// view of exactly the stored set.
    pub fn inorder(&self) -> (r: Vec<i64>)
        ensures
            r@ == self.key_seq(),
            forall|i: int, j: int| 0 <= i < j < r@.len() ==> r@[i] < r@[j],
            forall|k: i64| r@.contains(k) <==> self@.contains(k),
    {
        proof {
            use_type_invariant(self);
        }
        let mut result: Vec<i64> = Vec::new();
        Self::inorder_link(&self.root, &mut result);
        proof {
            lemma_keys_sorted(self.root);
            assert forall|k: i64| result@.contains(k) <==> self@.contains(k) by {
                lemma_has_keys(self.root, k);
            }
        }
        result
    }

    fn inorder_link(link: &Option<Box<TreeNode>>, result: &mut Vec<i64>)
        requires
            old(result)@.len() + link_keys(*link).len() <= usize::MAX,
        ensures
            final(result)@ == old(result)@ + link_keys(*link),
        decreases *link,
    {
        match link {
            None => {
                proof {
                    assert(final(result)@ =~= old(result)@ + link_keys(*link));
                }
            },
            Some(node) => {
                Self::inorder_link(&node.left, result);
                result.push(node.data);
                Self::inorder_link(&node.right, result);
                proof {
                    assert(final(result)@ =~= old(result)@ + link_keys(*link));
                }
            },
        }
    }

    /// The least key, or `None` for an empty tree.
    pub fn min(&self) -> (r: Option<i64>)
        ensures
            r is None <==> self.key_seq().len() == 0,
            r matches Some(m) ==> self@.contains(m) && forall|x: i64| self@.contains(x) ==> m <= x,
    {
        proof {
            use_type_invariant(self);
        }
        match &self.root {
            None => None,
            Some(node) => {
                let m = (&**node).min_node();
                proof {
                    lemma_has_keys(self.root, m);
                    assert forall|x: i64| self@.contains(x) implies m <= x by {
                        assert(link_has(self.root, x));
                        assert((**node).has(x));
                    }
                }
                Some(m)
            },
        }
    }

    /// The greatest key, or `None` for an empty tree.
    pub fn max(&self) -> (r: Option<i64>)
        ensures
            r is None <==> self.key_seq().len() == 0,
            r matches Some(m) ==> self@.contains(m) && forall|x: i64| self@.contains(x) ==> m >= x,
    {
        proof {
            use_type_invariant(self);
        }
        match &self.root {
            None => None,
            Some(node) => {
                let m = (&**node).max_node();
                proof {
                    lemma_has_keys(self.root, m);
                    assert forall|x: i64| self@.contains(x) implies m >= x by {
                        assert(link_has(self.root, x));
                        assert((**node).has(x));
                    }
                }
                Some(m)
            },
        }
    }

    /// Longest chain of nodes from the root to a leaf. The height is at
    /// most the number of keys, and at least logarithmic in it: fewer than
    /// `2^height` keys fit.
    pub fn height(&self) -> (r: usize)
        ensures
            r == self.spec_height(),
            r <= self.key_seq().len(),
            self.key_seq().len() < pow2(r as nat),
    {
        proof {
            use_type_invariant(self);
            lemma_height_le_count(self.root);
            lemma_count_lt_pow2(self.root);
        }
        Self::height_link(&self.root)
    }

    fn height_link(link: &Option<Box<TreeNode>>) -> (r: usize)
        requires
            link_height(*link) <= usize::MAX,
        ensures
            r == link_height(*link),
        decreases *link,
    {
        match link {
            None => 0,
            Some(node) => {
                proof {
                    lemma_height_le_count(node.left);
                    lemma_height_le_count(node.right);
                }
                let lh = Self::height_link(&node.left);
                let rh = Self::height_link(&node.right);
                if lh >= rh {
                    1 + lh
                } else {
                    1 + rh
                }
            },
        }
    }
}

impl TreeNode {
    fn insert_node(&mut self, data: i64) -> (added: bool)
        requires
            old(self).ordered(),
        ensures
            final(self).ordered(),
            added == !old(self).has(data),
            forall|x: i64| final(self).has(x) <==> (old(self).has(x) || x == data),
            final(self).keys().len() == old(self).keys().len() + (if added {
                1int
            } else {
                0int
            }),
        decreases *old(self),
    {
        if data < self.data {
            let added = BinarySearchTree::insert_link(&mut self.left, data);
            proof {
                assert(!link_has(self.right, data));
                assert forall|x: i64|
                    final(self).has(x) <==> (old(self).has(x) || x == data) by {
                    assert(final(self).has(x) == (x == final(self).data || link_has(
                        final(self).left,
                        x,
                    ) || link_has(final(self).right, x)));
                    assert(old(self).has(x) == (x == old(self).data || link_has(old(self).left, x)
                        || link_has(old(self).right, x)));
                }
            }
            added
        } else if data > self.data {
            let added = BinarySearchTree::insert_link(&mut self.right, data);
            proof {
                assert(!link_has(self.left, data));
                assert forall|x: i64|
                    final(self).has(x) <==> (old(self).has(x) || x == data) by {
                    assert(final(self).has(x) == (x == final(self).data || link_has(
                        final(self).left,
                        x,
                    ) || link_has(final(self).right, x)));
                    assert(old(self).has(x) == (x == old(self).data || link_has(old(self).left, x)
                        || link_has(old(self).right, x)));
                }
            }
            added
        } else {
            proof {
                assert(!link_has(self.left, data));
                assert(!link_has(self.right, data));
            }
            false
        }
    }

    fn contains_node(&self, data: &i64) -> (r: bool)
        requires
            self.ordered(),
        ensures
            r == self.has(*data),
        decreases *self,
    {
        if *data < self.data {
            let r = BinarySearchTree::contains_link(&self.left, data);
            proof {
                assert(!link_has(self.right, *data));
            }
            r
        } else if *data > self.data {
            let r = BinarySearchTree::contains_link(&self.right, data);
            proof {
                assert(!link_has(self.left, *data));
            }
            r
        } else {
            true
        }
    }

    fn min_node(&self) -> (m: i64)
        requires
            self.ordered(),
        ensures
            self.has(m),
            forall|x: i64| self.has(x) ==> m <= x,
        decreases *self,
    {
        match &self.left {
            None => {
                proof {
                    assert forall|x: i64| self.has(x) implies self.data <= x by {
                        if link_has(self.right, x) {
                            assert(x > self.data);
                        }
                    }
                }
                self.data
            },
            Some(l) => {
                let m = (&**l).min_node();
                proof {
                    assert(link_has(self.left, m));
                    assert(m < self.data);
                    assert forall|x: i64| self.has(x) implies m <= x by {
                        if link_has(self.right, x) {
                            assert(x > self.data);
                        }
                        if link_has(self.left, x) {
                            assert((**l).has(x));
                        }
                    }
                }
                m
            },
        }
    }

    fn max_node(&self) -> (m: i64)
        requires
            self.ordered(),
        ensures
            self.has(m),
            forall|x: i64| self.has(x) ==> m >= x,
        decreases *self,
    {
        match &self.right {
            None => {
                proof {
                    assert forall|x: i64| self.has(x) implies self.data >= x by {
                        if link_has(self.left, x) {
                            assert(x < self.data);
                        }
                    }
                }
                self.data
            },
            Some(r) => {
                let m = (&**r).max_node();
                proof {
                    assert(link_has(self.right, m));
                    assert(m > self.data);
                    assert forall|x: i64| self.has(x) implies m >= x by {
                        if link_has(self.left, x) {
                            assert(x < self.data);
                        }
                        if link_has(self.right, x) {
                            assert((**r).has(x));
                        }
                    }
                }
                m
            },
        }
    }
}

} // verus!
