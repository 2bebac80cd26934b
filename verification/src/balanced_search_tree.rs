//! A left-leaning red-black tree symbol table.
//!
//! Each link to a child carries a color; a red link stands for a 3-node of
//! the corresponding 2-3 tree that has not been absorbed yet. Insertion
//! rebalances on the way back up with a fixed sequence of two rotations and
//! a color flip, so that the tree always satisfies, at every node:
//!
//! * no red right child (red links lean left),
//! * no red node with a red left child (no two red links in a row), and
//! * both children carry the same number of black links on every path to an
//!   absent leaf (perfect black balance).
//!
//! The root of the whole table is forced black after every insertion.
//!
//! The table offers insertion and lookup; it does not offer deletion, which
//! [`crate::binary_search_tree::BinarySearchTree`] provides with the plain
//! Hibbard algorithm. Because every mutation here goes through `put`, the
//! red-black invariant above holds of every reachable table.

use vstd::arithmetic::power2::lemma2_to64;
use vstd::arithmetic::power2::lemma_pow2_unfold;
use vstd::arithmetic::power2::pow2;
use vstd::prelude::*;

verus! {

/// The color of a node's link to its parent. An absent child counts as
/// black.
#[derive(Clone, Copy, PartialEq, Eq, Structural)]
pub enum Color {
    Red,
    Black,
}

/// A node of the balanced tree: a key/value pair, the two owned child
/// subtrees, the size `n` of the subtree rooted here, and the color of the
/// link to the parent.
pub struct Node<V> {
    key: i64,
    value: V,
    left: Option<Box<Node<V>>>,
    right: Option<Box<Node<V>>>,
    n: usize,
    color: Color,
}

/// An ordered symbol table backed by a left-leaning red-black tree. Its
/// abstract state is the map [`BalancedSearchTree::as_map`].
pub struct BalancedSearchTree<V> {
    root: Option<Box<Node<V>>>,
}

impl<V> Node<V> {
    /// The key/value pairs stored in an optional subtree, as a map.
    spec fn opt_map(node: Option<Box<Node<V>>>) -> Map<i64, V>
        decreases node,
    {
        match node {
            None => Map::empty(),
            Some(n) => n.entry_map(),
        }
    }

    /// The key/value pairs stored in the subtree rooted at this node.
    spec fn entry_map(self) -> Map<i64, V>
        decreases self,
    {
        Node::opt_map(self.left)
            .union_prefer_right(Node::opt_map(self.right))
            .insert(self.key, self.value)
    }

    /// The keys of an optional subtree, in symmetric (in-order) order.
    spec fn opt_keys(node: Option<Box<Node<V>>>) -> Seq<i64>
        decreases node,
    {
        match node {
            None => Seq::empty(),
            Some(n) => n.key_seq(),
        }
    }

    /// The keys of the subtree rooted at this node, in symmetric order.
    spec fn key_seq(self) -> Seq<i64>
        decreases self,
    {
        Node::opt_keys(self.left) + seq![self.key] + Node::opt_keys(self.right)
    }

    /// Search-order and size well-formedness of an optional subtree.
    spec fn opt_wf(node: Option<Box<Node<V>>>) -> bool
        decreases node,
    {
        match node {
            None => true,
            Some(n) => n.wf(),
        }
    }

    /// Search-order and size well-formedness: every key on the left is
    /// smaller than this node's key, every key on the right is larger, both
    /// children are well-formed, and `n` counts this subtree's nodes.
    spec fn wf(self) -> bool
        decreases self,
    {
        &&& (forall|k: i64| Node::opt_map(self.left).dom().contains(k) ==> k < self.key)
        &&& (forall|k: i64| Node::opt_map(self.right).dom().contains(k) ==> k > self.key)
        &&& Node::opt_wf(self.left)
        &&& Node::opt_wf(self.right)
        &&& self.n == self.key_seq().len()
    }

    /// Whether the root of an optional subtree is red; an absent subtree is
    /// black.
    spec fn red(node: Option<Box<Node<V>>>) -> bool {
        match node {
            None => false,
            Some(n) => n.color == Color::Red,
        }
    }

    /// The number of black links on the path from the root of the subtree
    /// down its left spine to an absent leaf. Under [`Node::color_wf`] every
    /// root-to-absent-leaf path of the subtree carries this many black
    /// links.
    spec fn bh(node: Option<Box<Node<V>>>) -> nat
        decreases node,
    {
        match node {
            None => 0,
            Some(n) => Node::bh(n.left) + if n.color == Color::Black {
                1nat
            } else {
                0nat
            },
        }
    }

    /// The red-black invariant of a left-leaning red-black tree, at every
    /// node of the subtree: the right child is never red, a red node never
    /// has a red left child, and both children have the same black height.
    spec fn color_wf(node: Option<Box<Node<V>>>) -> bool
        decreases node,
    {
        match node {
            None => true,
            Some(n) => {
                &&& Node::color_wf(n.left)
                &&& Node::color_wf(n.right)
                &&& !Node::red(n.right)
                &&& (n.color == Color::Red ==> !Node::red(n.left))
                &&& Node::bh(n.left) == Node::bh(n.right)
            },
        }
    }

    /// The height of an optional subtree: the number of nodes on the
    /// longest root-to-leaf path.
    spec fn height(node: Option<Box<Node<V>>>) -> nat
        decreases node,
    {
        match node {
            None => 0,
            Some(n) => 1 + if Node::height(n.left) >= Node::height(n.right) {
                Node::height(n.left)
            } else {
                Node::height(n.right)
            },
        }
    }

    /// Whether the sequence of turns `p` (`false` descends left, `true`
    /// descends right) leads from this subtree's root exactly to an absent
    /// leaf.
    spec fn is_leaf_path(node: Option<Box<Node<V>>>, p: Seq<bool>) -> bool
        decreases node,
    {
        match node {
            None => p.len() == 0,
            Some(n) => p.len() > 0 && Node::is_leaf_path(
                if p[0] {
                    n.right
                } else {
                    n.left
                },
                p.skip(1),
            ),
        }
    }

    /// The number of black links on the path `p` from this subtree's root.
    spec fn blacks_on_path(node: Option<Box<Node<V>>>, p: Seq<bool>) -> nat
        decreases node,
    {
        match node {
            None => 0,
            Some(n) => (if n.color == Color::Black {
                1nat
            } else {
                0nat
            }) + if p.len() == 0 {
                0nat
            } else {
                Node::blacks_on_path(
                    if p[0] {
                        n.right
                    } else {
                        n.left
                    },
                    p.skip(1),
                )
            },
        }
    }

    /// The colors of the nodes visited along the path `p` from this
    /// subtree's root, `true` for red, in visiting order.
    spec fn colors_on_path(node: Option<Box<Node<V>>>, p: Seq<bool>) -> Seq<bool>
        decreases node,
    {
        match node {
            None => Seq::empty(),
            Some(n) => seq![n.color == Color::Red] + if p.len() == 0 {
                Seq::empty()
            } else {
                Node::colors_on_path(
                    if p[0] {
                        n.right
                    } else {
                        n.left
                    },
                    p.skip(1),
                )
            },
        }
    }

    /// The red-black invariant weakened at the root only: the subtree's two
    /// children are fully well-colored and equally black-balanced, and the
    /// right child is not red, but a red root may still have a red left
    /// child. Insertion's fix-up hands such a subtree up to its parent,
    /// which absorbs the extra red link.
    spec fn near_color_wf(node: Option<Box<Node<V>>>) -> bool {
        match node {
            None => true,
            Some(n) => {
                &&& Node::color_wf(n.left)
                &&& Node::color_wf(n.right)
                &&& !Node::red(n.right)
                &&& Node::bh(n.left) == Node::bh(n.right)
            },
        }
    }
}

/// Under the red-black invariant, every path from the root to an absent
/// leaf carries exactly `bh(node)` black links.
proof fn lemma_paths_equally_black<V>(node: Option<Box<Node<V>>>, p: Seq<bool>)
    requires
        Node::color_wf(node),
        Node::is_leaf_path(node, p),
    ensures
        Node::blacks_on_path(node, p) == Node::bh(node),
    decreases node,
{
    match node {
        None => {}
        Some(n) => {
            if p[0] {
                lemma_paths_equally_black(n.right, p.skip(1));
            } else {
                lemma_paths_equally_black(n.left, p.skip(1));
            }
        }
    }
}

/// A key occurs in a subtree's key sequence exactly when the subtree's map
/// contains it.
proof fn lemma_keys_match_dom<V>(node: Option<Box<Node<V>>>)
    ensures
        forall|k: i64| #[trigger] Node::opt_keys(node).contains(k) <==> Node::opt_map(
            node,
        ).dom().contains(k),
    decreases node,
{
    match node {
        None => {
            assert forall|k: i64| #[trigger] Node::opt_keys(node).contains(k) <==> Node::opt_map(
                node,
            ).dom().contains(k) by {
                if Node::opt_keys(node).contains(k) {
                    let i = choose|i: int|
                        0 <= i < Node::opt_keys(node).len() && Node::opt_keys(node)[i] == k;
                }
            }
        }
        Some(n) => {
            lemma_keys_match_dom(n.left);
            lemma_keys_match_dom(n.right);
            let ls = Node::opt_keys(n.left);
            let rs = Node::opt_keys(n.right);
            let s = n.key_seq();
            assert forall|k: i64| #[trigger] s.contains(k) <==> n.entry_map().dom().contains(
                k,
            ) by {
                if s.contains(k) {
                    let i = choose|i: int| 0 <= i < s.len() && s[i] == k;
                    if i < ls.len() {
                        assert(ls[i] == k);
                        assert(ls.contains(k));
                    } else if i == ls.len() {
                        assert(k == n.key);
                    } else {
                        assert(rs[i - ls.len() - 1] == k);
                        assert(rs.contains(k));
                    }
                }
                if n.entry_map().dom().contains(k) {
                    if k == n.key {
                        assert(s[ls.len() as int] == k);
                    } else if Node::opt_map(n.left).dom().contains(k) {
                        assert(ls.contains(k));
                        let i = choose|i: int| 0 <= i < ls.len() && ls[i] == k;
                        assert(s[i] == k);
                    } else {
                        assert(Node::opt_map(n.right).dom().contains(k));
                        assert(rs.contains(k));
                        let i = choose|i: int| 0 <= i < rs.len() && rs[i] == k;
                        assert(s[i + ls.len() + 1] == k);
                    }
                }
            }
        }
    }
}

/// A well-formed subtree lists its keys in strictly increasing order.
proof fn lemma_wf_keys_sorted<V>(node: Option<Box<Node<V>>>)
    requires
        Node::opt_wf(node),
    ensures
        crate::binary_search_tree::sorted_strict(Node::opt_keys(node)),
    decreases node,
{
    match node {
        None => {}
        Some(n) => {
            lemma_wf_keys_sorted(n.left);
            lemma_wf_keys_sorted(n.right);
            lemma_keys_match_dom(n.left);
            lemma_keys_match_dom(n.right);
            let ls = Node::opt_keys(n.left);
            let rs = Node::opt_keys(n.right);
            let s = n.key_seq();
            assert forall|i: int, j: int| 0 <= i < j < s.len() implies s[i] < s[j] by {
                if i < ls.len() {
                    assert(ls.contains(ls[i]));
                }
                if j > ls.len() {
                    assert(rs.contains(rs[j - ls.len() - 1]));
                }
                if i < ls.len() && j < ls.len() {
                    assert(ls[i] < ls[j]);
                }
                if i > ls.len() && j > ls.len() {
                    assert(rs[i - ls.len() - 1] < rs[j - ls.len() - 1]);
                }
            }
        }
    }
}

/// Under the red-black invariant, no two consecutive nodes on any path are
/// both red: a red node's left child is not red and no right child is ever
/// red.
proof fn lemma_no_two_reds_on_path<V>(node: Option<Box<Node<V>>>, p: Seq<bool>)
    requires
        Node::color_wf(node),
    ensures
        forall|i: int|
            0 <= i < Node::colors_on_path(node, p).len() - 1 ==> !(
            #[trigger] Node::colors_on_path(node, p)[i] && Node::colors_on_path(node, p)[i + 1]),
    decreases node,
{
    match node {
        None => {}
        Some(n) => {
            if p.len() > 0 {
                let child = if p[0] {
                    n.right
                } else {
                    n.left
                };
                lemma_no_two_reds_on_path(child, p.skip(1));
                let c = Node::colors_on_path(node, p);
                let ct = Node::colors_on_path(child, p.skip(1));
                assert forall|i: int| 0 <= i < c.len() - 1 implies !(#[trigger] c[i] && c[i
                    + 1]) by {
                    if i == 0 {
                        if n.color == Color::Red && ct.len() > 0 {
                            match child {
                                None => {}
                                Some(cn) => {
                                    assert(c[1] == (cn.color == Color::Red));
                                    assert(cn.color != Color::Red);
                                }
                            }
                        }
                    } else {
                        assert(!(ct[i - 1] && ct[i]));
                    }
                }
            }
        }
    }
}

proof fn lemma_height_le_size<V>(node: Option<Box<Node<V>>>)
    ensures
        Node::height(node) <= Node::opt_keys(node).len(),
    decreases node,
{
    match node {
        None => {}
        Some(n) => {
            lemma_height_le_size(n.left);
            lemma_height_le_size(n.right);
            assert(n.key_seq().len() == Node::opt_keys(n.left).len() + 1 + Node::opt_keys(
                n.right,
            ).len());
        }
    }
}

/// No root-to-leaf path can carry two red links in a row, so a path of
/// black height `b` visits at most `2 b + 1` nodes; at most `2 b` when the
/// root itself is black.
proof fn lemma_height_le_twice_bh<V>(node: Option<Box<Node<V>>>)
    requires
        Node::color_wf(node),
    ensures
        Node::height(node) <= 2 * Node::bh(node) + if Node::red(node) {
            1nat
        } else {
            0nat
        },
    decreases node,
{
    match node {
        None => {}
        Some(n) => {
            lemma_height_le_twice_bh(n.left);
            lemma_height_le_twice_bh(n.right);
        }
    }
}

/// Every key sits above a perfectly black-balanced skeleton, so a tree of
/// black height `b` holds at least `2^b - 1` keys.
proof fn lemma_size_ge_pow2_bh<V>(node: Option<Box<Node<V>>>)
    requires
        Node::color_wf(node),
    ensures
        Node::opt_keys(node).len() + 1 >= pow2(Node::bh(node)),
    decreases node,
{
    match node {
        None => {
            assert(pow2(0) == 1) by {
                lemma2_to64();
            }
        }
        Some(n) => {
            lemma_size_ge_pow2_bh(n.left);
            lemma_size_ge_pow2_bh(n.right);
            let b = Node::bh(n.left);
            assert(pow2(b + 1) == 2 * pow2(b)) by {
                lemma_pow2_unfold(b + 1);
            }
            assert(n.key_seq().len() == Node::opt_keys(n.left).len() + 1 + Node::opt_keys(
                n.right,
            ).len());
        }
    }
}

impl<V: Copy> Node<V> {
    fn new(key: i64, value: V, n: usize, color: Color) -> (r: Node<V>)
        ensures
            r.key == key,
            r.value == value,
            r.n == n,
            r.color == color,
            r.left is None,
            r.right is None,
    {
        Node { key, value, n, color, left: None, right: None }
    }
}

impl<V> View for BalancedSearchTree<V> {
    type V = Map<i64, V>;

    closed spec fn view(&self) -> Map<i64, V> {
        Node::opt_map(self.root)
    }
}

impl<V: Copy> BalancedSearchTree<V> {
    /// The table's contents as a map from keys to values.
    pub closed spec fn as_map(self) -> Map<i64, V> {
        Node::opt_map(self.root)
    }

    /// The table's keys, in increasing order.
    pub closed spec fn keys(self) -> Seq<i64> {
        Node::opt_keys(self.root)
    }

    /// The internal invariant: search order and sizes hold everywhere, the
    /// red-black coloring rules hold at every node, and the root is black.
    pub closed spec fn well_formed(self) -> bool {
        &&& Node::opt_wf(self.root)
        &&& Node::color_wf(self.root)
        &&& !Node::red(self.root)
    }

    /// The number of black links on the path from the root down the left
    /// spine to an absent leaf; under [`BalancedSearchTree::well_formed`]
    /// every root-to-absent-leaf path carries this many black links.
    pub closed spec fn black_height(self) -> nat {
        Node::bh(self.root)
    }

    /// The number of nodes on the longest root-to-leaf path; 0 when empty.
    pub closed spec fn tree_height(self) -> nat {
        Node::height(self.root)
    }

    /// The key sequence of a well-formed table is strictly increasing and
    /// lists exactly the domain of the table's map.
    pub proof fn lemma_sorted(self)
        requires
            self.well_formed(),
        ensures
            crate::binary_search_tree::sorted_strict(self.keys()),
            forall|k: i64| #[trigger] self.keys().contains(k) <==> self@.dom().contains(k),
    {
        lemma_wf_keys_sorted(self.root);
        lemma_keys_match_dom(self.root);
    }

    /// Whether the sequence of turns `p` (`false` descends left, `true`
    /// descends right) leads from the root exactly to an absent leaf.
    pub closed spec fn is_leaf_path(self, p: Seq<bool>) -> bool {
        Node::is_leaf_path(self.root, p)
    }

    /// The number of black links on the path `p` from the root.
    pub closed spec fn black_links_on_path(self, p: Seq<bool>) -> nat {
        Node::blacks_on_path(self.root, p)
    }

    /// Law (black balance): in a well-formed table every root-to-absent-leaf
    /// path carries the same number of black links, namely the table's black
    /// height.
    pub proof fn lemma_black_balance(self, p: Seq<bool>)
        requires
            self.well_formed(),
            self.is_leaf_path(p),
        ensures
            self.black_links_on_path(p) == self.black_height(),
    {
        lemma_paths_equally_black(self.root, p);
    }

    /// The colors of the nodes visited along the path `p` from the root,
    /// `true` for red, in visiting order.
    pub closed spec fn colors_on_path(self, p: Seq<bool>) -> Seq<bool> {
        Node::colors_on_path(self.root, p)
    }

    /// Law (no double red): in a well-formed table no two red links appear
    /// consecutively on any path from the root.
    pub proof fn lemma_no_double_red(self, p: Seq<bool>)
        requires
            self.well_formed(),
        ensures
            forall|i: int|
                0 <= i < self.colors_on_path(p).len() - 1 ==> !(#[trigger] self.colors_on_path(
                    p,
                )[i] && self.colors_on_path(p)[i + 1]),
    {
        lemma_no_two_reds_on_path(self.root, p);
    }

    /// Law: the red-black invariant keeps the tree shallow. A well-formed
    /// table's height never exceeds twice its black height, and `2^b` is at
    /// most `n + 1` for black height `b` and key count `n`; together the
    /// height is at most `2 * log2(n + 1)`.
    pub proof fn lemma_balanced_height(self)
        requires
            self.well_formed(),
        ensures
            self.tree_height() <= 2 * self.black_height(),
            pow2(self.black_height()) <= self.keys().len() + 1,
    {
        lemma_height_le_twice_bh(self.root);
        lemma_size_ge_pow2_bh(self.root);
    }

    /// Creates an empty table.
    pub fn new() -> (r: Self)
        ensures
            r.well_formed(),
            r@ == Map::<i64, V>::empty(),
            r.keys() == Seq::<i64>::empty(),
    {
        BalancedSearchTree { root: None }
    }

    /// The number of nodes on the longest root-to-leaf path.
    pub fn height(&self) -> (r: usize)
        requires
            self.well_formed(),
        ensures
            r == self.tree_height(),
    {
        Self::height_internal(&self.root)
    }

    fn height_internal(node: &Option<Box<Node<V>>>) -> (r: usize)
        requires
            Node::opt_wf(*node),
        ensures
            r == Node::height(*node),
        decreases node,
    {
        match node {
            Some(n) => {
                let hl = Self::height_internal(&n.left);
                let hr = Self::height_internal(&n.right);
                proof {
                    lemma_height_le_size(n.left);
                    lemma_height_le_size(n.right);
                    assert(n.key_seq().len() == Node::opt_keys(n.left).len() + 1
                        + Node::opt_keys(n.right).len());
                }
                if hl >= hr {
                    1 + hl
                } else {
                    1 + hr
                }
            }
            None => 0,
        }
    }

    /// Whether the root of the given subtree is red; an absent subtree
    /// counts as black.
    fn is_red(node: &Option<Box<Node<V>>>) -> (r: bool)
        ensures
            r == Node::red(*node),
    {
        match node {
            Some(n) => n.color == Color::Red,
            None => false,
        }
    }

    /// The number of nodes of an optional subtree.
    fn size(node: &Option<Box<Node<V>>>) -> (r: usize)
        requires
            Node::opt_wf(*node),
        ensures
            r == Node::opt_keys(*node).len(),
    {
        match node {
            Some(n) => n.n,
            None => 0,
        }
    }

    /// The number of keys in the table.
    pub fn len(&self) -> (r: usize)
        requires
            self.well_formed(),
        ensures
            r == self.keys().len(),
    {
        Self::size(&self.root)
    }

    /// Looks the key up and returns a copy of its value, or `None` when the
    /// table does not contain the key.
    pub fn get(&self, key: i64) -> (r: Option<V>)
        requires
            self.well_formed(),
        ensures
            r == if self@.dom().contains(key) {
                Some(self@[key])
            } else {
                None::<V>
            },
    {
        Self::get_internal(&self.root, key)
    }

    /// Rotates left at `h`: the red right child becomes the subtree's root,
    /// `h` descends to its left carrying a red link. Search order, contents
    /// and sizes are preserved; the new root keeps `h`'s color.
    fn rotate_left(h: Box<Node<V>>) -> (r: Box<Node<V>>)
        requires
            h.right is Some,
            Node::opt_wf(h.left),
            Node::opt_wf(h.right),
            forall|k: i64| Node::opt_map(h.left).dom().contains(k) ==> k < h.key,
            forall|k: i64| Node::opt_map(h.right).dom().contains(k) ==> k > h.key,
            Node::opt_keys(h.left).len() + Node::opt_keys(h.right).len() + 1 <= usize::MAX,
        ensures
            r.wf(),
            r.key == h.right.unwrap().key,
            r.value == h.right.unwrap().value,
            r.color == h.color,
            r.right == h.right.unwrap().right,
            r.left is Some,
            r.left.unwrap().key == h.key,
            r.left.unwrap().value == h.value,
            r.left.unwrap().color == Color::Red,
            r.left.unwrap().left == h.left,
            r.left.unwrap().right == h.right.unwrap().left,
            r.key_seq() == h.key_seq(),
            r.entry_map() == h.entry_map(),
    {
        let ghost h0 = *h;
        let mut h = h;
        let mut x = h.right.take().unwrap();
        let ghost x0 = *x;
        h.right = x.left.take();
        x.color = h.color;
        h.color = Color::Red;
        let nl = Self::size(&h.left);
        let nr = Self::size(&h.right);
        h.n = nl + nr + 1;
        let hn = h.n;
        let nxr = Self::size(&x.right);
        proof {
            reveal_with_fuel(Node::key_seq, 3);
            reveal_with_fuel(Node::opt_keys, 3);
            reveal_with_fuel(Node::entry_map, 3);
            reveal_with_fuel(Node::opt_map, 3);
            reveal_with_fuel(Node::wf, 3);
            reveal_with_fuel(Node::opt_wf, 3);
            assert(h0.right == Some(Box::new(x0)));
            assert(Node::opt_map(h0.right) == x0.entry_map());
            assert(Node::opt_keys(h0.right) == x0.key_seq());
            assert(x0.wf());
            assert forall|k: i64| Node::opt_map(x0.left).dom().contains(k) implies k
                > h0.key by {
                assert(x0.entry_map().dom().contains(k));
            }
            assert forall|k: i64| Node::opt_map(x0.right).dom().contains(k) implies k
                > h0.key by {
                assert(x0.entry_map().dom().contains(k));
            }
            assert(x0.entry_map().dom().contains(x0.key));
            assert(x0.key > h0.key);
            assert(h.wf());
        }
        let ghost h1 = *h;
        x.left = Some(h);
        x.n = hn + nxr + 1;
        proof {
            reveal_with_fuel(Node::key_seq, 3);
            reveal_with_fuel(Node::opt_keys, 3);
            reveal_with_fuel(Node::entry_map, 3);
            reveal_with_fuel(Node::opt_map, 3);
            reveal_with_fuel(Node::wf, 3);
            reveal_with_fuel(Node::opt_wf, 3);
            assert(x.left == Some(Box::new(h1)));
            assert(Node::opt_map(x.left) == h1.entry_map());
            assert(Node::opt_keys(x.left) == h1.key_seq());
            assert forall|k: i64| h1.entry_map().dom().contains(k) implies k < x0.key by {
                if Node::opt_map(h0.left).dom().contains(k) {
                }
                if Node::opt_map(x0.left).dom().contains(k) {
                }
            }
            assert forall|k: i64| Node::opt_map(x.right).dom().contains(k) implies k
                > x0.key by {}
            assert(x.wf());
            assert(x.key_seq() =~= h0.key_seq());
            let m1 = x.entry_map();
            let m2 = h0.entry_map();
            assert forall|k: i64| #[trigger] m2.dom().contains(k) implies m1.dom().contains(k)
                && m1[k] == m2[k] by {
                if Node::opt_map(h0.left).dom().contains(k) {
                }
                if Node::opt_map(x0.left).dom().contains(k) {
                }
                if Node::opt_map(x0.right).dom().contains(k) {
                }
            }
            assert forall|k: i64| #[trigger] m1.dom().contains(k) implies m2.dom().contains(
                k,
            ) by {
                if Node::opt_map(h0.left).dom().contains(k) {
                }
                if Node::opt_map(x0.left).dom().contains(k) {
                }
                if Node::opt_map(x0.right).dom().contains(k) {
                }
            }
            assert(x.entry_map() =~= h0.entry_map());
        }
        x
    }

    /// Rotates right at `h`: the red left child becomes the subtree's root,
    /// `h` descends to its right carrying a red link. Search order, contents
    /// and sizes are preserved; the new root keeps `h`'s color.
    fn rotate_right(h: Box<Node<V>>) -> (r: Box<Node<V>>)
        requires
            h.left is Some,
            Node::opt_wf(h.left),
            Node::opt_wf(h.right),
            forall|k: i64| Node::opt_map(h.left).dom().contains(k) ==> k < h.key,
            forall|k: i64| Node::opt_map(h.right).dom().contains(k) ==> k > h.key,
            Node::opt_keys(h.left).len() + Node::opt_keys(h.right).len() + 1 <= usize::MAX,
        ensures
            r.wf(),
            r.key == h.left.unwrap().key,
            r.value == h.left.unwrap().value,
            r.color == h.color,
            r.left == h.left.unwrap().left,
            r.right is Some,
            r.right.unwrap().key == h.key,
            r.right.unwrap().value == h.value,
            r.right.unwrap().color == Color::Red,
            r.right.unwrap().right == h.right,
            r.right.unwrap().left == h.left.unwrap().right,
            r.key_seq() == h.key_seq(),
            r.entry_map() == h.entry_map(),
    {
        let ghost h0 = *h;
        let mut h = h;
        let mut x = h.left.take().unwrap();
        let ghost x0 = *x;
        h.left = x.right.take();
        x.color = h.color;
        h.color = Color::Red;
        let nl = Self::size(&h.left);
        let nr = Self::size(&h.right);
        h.n = nl + nr + 1;
        let hn = h.n;
        let nxl = Self::size(&x.left);
        proof {
            reveal_with_fuel(Node::key_seq, 3);
            reveal_with_fuel(Node::opt_keys, 3);
            reveal_with_fuel(Node::entry_map, 3);
            reveal_with_fuel(Node::opt_map, 3);
            reveal_with_fuel(Node::wf, 3);
            reveal_with_fuel(Node::opt_wf, 3);
            assert(h0.left == Some(Box::new(x0)));
            assert(Node::opt_map(h0.left) == x0.entry_map());
            assert(Node::opt_keys(h0.left) == x0.key_seq());
            assert(x0.wf());
            assert forall|k: i64| Node::opt_map(x0.left).dom().contains(k) implies k
                < h0.key by {
                assert(x0.entry_map().dom().contains(k));
            }
            assert forall|k: i64| Node::opt_map(x0.right).dom().contains(k) implies k
                < h0.key by {
                assert(x0.entry_map().dom().contains(k));
            }
            assert(x0.entry_map().dom().contains(x0.key));
            assert(x0.key < h0.key);
            assert(h.wf());
        }
        let ghost h1 = *h;
        x.right = Some(h);
        x.n = nxl + hn + 1;
        proof {
            reveal_with_fuel(Node::key_seq, 3);
            reveal_with_fuel(Node::opt_keys, 3);
            reveal_with_fuel(Node::entry_map, 3);
            reveal_with_fuel(Node::opt_map, 3);
            reveal_with_fuel(Node::wf, 3);
            reveal_with_fuel(Node::opt_wf, 3);
            assert(x.right == Some(Box::new(h1)));
            assert(Node::opt_map(x.right) == h1.entry_map());
            assert(Node::opt_keys(x.right) == h1.key_seq());
            assert forall|k: i64| h1.entry_map().dom().contains(k) implies k > x0.key by {
                if Node::opt_map(h0.right).dom().contains(k) {
                }
                if Node::opt_map(x0.right).dom().contains(k) {
                }
            }
            assert forall|k: i64| Node::opt_map(x.left).dom().contains(k) implies k
                < x0.key by {}
            assert(x.wf());
            assert(x.key_seq() =~= h0.key_seq());
            let m1 = x.entry_map();
            let m2 = h0.entry_map();
            assert forall|k: i64| #[trigger] m2.dom().contains(k) implies m1.dom().contains(k)
                && m1[k] == m2[k] by {
                if Node::opt_map(h0.right).dom().contains(k) {
                }
                if Node::opt_map(x0.left).dom().contains(k) {
                }
                if Node::opt_map(x0.right).dom().contains(k) {
                }
            }
            assert forall|k: i64| #[trigger] m1.dom().contains(k) implies m2.dom().contains(
                k,
            ) by {
                if Node::opt_map(h0.right).dom().contains(k) {
                }
                if Node::opt_map(x0.left).dom().contains(k) {
                }
                if Node::opt_map(x0.right).dom().contains(k) {
                }
            }
            assert(x.entry_map() =~= h0.entry_map());
        }
        x
    }

    /// Flips the colors at `h`: the node turns red and both (red) children
    /// turn black, absorbing a 3-node split and carrying the red link one
    /// level up. Contents, search order and sizes are untouched; both
    /// children gain one black link on every path.
    fn flip_color(h: &mut Box<Node<V>>)
        requires
            Node::red(old(h).left),
            Node::red(old(h).right),
        ensures
            final(h).key == old(h).key,
            final(h).value == old(h).value,
            final(h).n == old(h).n,
            final(h).color == Color::Red,
            final(h).left is Some,
            final(h).right is Some,
            final(h).left.unwrap().color == Color::Black,
            final(h).right.unwrap().color == Color::Black,
            final(h).left.unwrap().key == old(h).left.unwrap().key,
            final(h).left.unwrap().value == old(h).left.unwrap().value,
            final(h).left.unwrap().n == old(h).left.unwrap().n,
            final(h).left.unwrap().left == old(h).left.unwrap().left,
            final(h).left.unwrap().right == old(h).left.unwrap().right,
            final(h).right.unwrap().key == old(h).right.unwrap().key,
            final(h).right.unwrap().value == old(h).right.unwrap().value,
            final(h).right.unwrap().n == old(h).right.unwrap().n,
            final(h).right.unwrap().left == old(h).right.unwrap().left,
            final(h).right.unwrap().right == old(h).right.unwrap().right,
            final(h).key_seq() == old(h).key_seq(),
            final(h).entry_map() == old(h).entry_map(),
            old(h).wf() ==> final(h).wf(),
            Node::color_wf(old(h).left) ==> Node::color_wf(final(h).left),
            Node::color_wf(old(h).right) ==> Node::color_wf(final(h).right),
            Node::bh(final(h).left) == Node::bh(old(h).left) + 1,
            Node::bh(final(h).right) == Node::bh(old(h).right) + 1,
    {
        let ghost h0 = **h;
        h.color = Color::Red;
        let mut l = h.left.take().unwrap();
        l.color = Color::Black;
        h.left = Some(l);
        let mut r = h.right.take().unwrap();
        r.color = Color::Black;
        h.right = Some(r);
        proof {
            reveal_with_fuel(Node::key_seq, 3);
            reveal_with_fuel(Node::opt_keys, 3);
            reveal_with_fuel(Node::entry_map, 3);
            reveal_with_fuel(Node::opt_map, 3);
            reveal_with_fuel(Node::wf, 3);
            reveal_with_fuel(Node::opt_wf, 3);
            reveal_with_fuel(Node::color_wf, 3);
            reveal_with_fuel(Node::bh, 3);
            let l0 = h0.left.unwrap();
            let r0 = h0.right.unwrap();
            let lf = h.left.unwrap();
            let rf = h.right.unwrap();
            assert(Node::opt_map(h0.left) == l0.entry_map());
            assert(Node::opt_map(h0.right) == r0.entry_map());
            assert(Node::opt_map(h.left) == lf.entry_map());
            assert(Node::opt_map(h.right) == rf.entry_map());
            assert(Node::opt_keys(h0.left) == l0.key_seq());
            assert(Node::opt_keys(h0.right) == r0.key_seq());
            assert(Node::opt_keys(h.left) == lf.key_seq());
            assert(Node::opt_keys(h.right) == rf.key_seq());
            assert(lf.key_seq() == l0.key_seq());
            assert(rf.key_seq() == r0.key_seq());
            assert(lf.entry_map() == l0.entry_map());
            assert(rf.entry_map() == r0.entry_map());
            assert(h.key_seq() =~= h0.key_seq());
            assert(h.entry_map() =~= h0.entry_map());
            assert(lf.wf() == l0.wf());
            assert(rf.wf() == r0.wf());
            if h0.wf() {
                assert(h.wf());
            }
            if Node::color_wf(h0.left) {
                assert(Node::color_wf(h.left));
            }
            if Node::color_wf(h0.right) {
                assert(Node::color_wf(h.right));
            }
            assert(Node::bh(h.left) == Node::bh(h0.left) + 1);
            assert(Node::bh(h.right) == Node::bh(h0.right) + 1);
        }
    }

    /// Inserts the key with the given value, or replaces the value when the
    /// key is already present, rebalancing on the way back up and forcing
    /// the root black. The red-black invariant and black balance hold again
    /// when the call returns.
    pub fn put(&mut self, key: i64, val: V)
        requires
            old(self).well_formed(),
            old(self).keys().len() < usize::MAX,
        ensures
            final(self).well_formed(),
            final(self)@ == old(self)@.insert(key, val),
            final(self).keys().len() == old(self).keys().len()
                + (if old(self)@.dom().contains(key) { 0int } else { 1int }),
    {
        let root = self.root.take();
        let mut r = Self::put_internal(root, key, val);
        let ghost r0 = *r;
        r.color = Color::Black;
        proof {
            reveal_with_fuel(Node::key_seq, 3);
            reveal_with_fuel(Node::opt_keys, 3);
            reveal_with_fuel(Node::entry_map, 3);
            reveal_with_fuel(Node::opt_map, 3);
            reveal_with_fuel(Node::wf, 3);
            reveal_with_fuel(Node::opt_wf, 3);
            reveal_with_fuel(Node::color_wf, 3);
            assert(r.entry_map() == r0.entry_map());
            assert(r.key_seq() == r0.key_seq());
            assert(r.wf());
            assert(Node::color_wf(Some(r)));
        }
        self.root = Some(r);
    }

    #[verifier::rlimit(100)]
    #[verifier::spinoff_prover]
    fn put_internal(node: Option<Box<Node<V>>>, key: i64, val: V) -> (r: Box<Node<V>>)
        requires
            Node::opt_wf(node),
            Node::color_wf(node),
            Node::opt_keys(node).len() < usize::MAX,
        ensures
            r.wf(),
            Node::near_color_wf(Some(r)),
            !Node::red(node) ==> Node::color_wf(Some(r)),
            Node::bh(Some(r)) == Node::bh(node),
            r.entry_map() =~= Node::opt_map(node).insert(key, val),
            r.key_seq().len() == Node::opt_keys(node).len() + (if Node::opt_map(
                node,
            ).dom().contains(key) {
                0int
            } else {
                1int
            }),
        decreases node,
    {
        match node {
            None => {
                let r = Box::new(Node::new(key, val, 1, Color::Red));
                proof {
                    reveal_with_fuel(Node::key_seq, 2);
                    reveal_with_fuel(Node::opt_keys, 2);
                    reveal_with_fuel(Node::entry_map, 2);
                    reveal_with_fuel(Node::opt_map, 2);
                    assert(r.wf());
                    assert(r.entry_map() =~= Map::<i64, V>::empty().insert(key, val));
                    assert(Node::bh(Some(r)) == 0);
                }
                r
            }
            Some(mut h) => {
                let ghost h0 = *h;
                proof {
                    reveal_with_fuel(Node::key_seq, 3);
                    reveal_with_fuel(Node::opt_keys, 3);
                    reveal_with_fuel(Node::entry_map, 3);
                    reveal_with_fuel(Node::opt_map, 3);
                    reveal_with_fuel(Node::wf, 3);
                    reveal_with_fuel(Node::opt_wf, 3);
                    reveal_with_fuel(Node::color_wf, 3);
                    reveal_with_fuel(Node::bh, 3);
                    assert(h0.wf());
                    assert(Node::color_wf(h0.left));
                    assert(Node::color_wf(h0.right));
                }
                if key < h.key {
                    proof {
                        assert(!Node::opt_map(h0.right).dom().contains(key));
                    }
                    let l = Self::put_internal(h.left.take(), key, val);
                    h.left = Some(l);
                } else if key > h.key {
                    proof {
                        assert(!Node::opt_map(h0.left).dom().contains(key));
                    }
                    let rr = Self::put_internal(h.right.take(), key, val);
                    h.right = Some(rr);
                } else {
                    h.value = val;
                    proof {
                        assert(!Node::opt_map(h0.left).dom().contains(key));
                        assert(!Node::opt_map(h0.right).dom().contains(key));
                    }
                }
                proof {
                    reveal_with_fuel(Node::key_seq, 3);
                    reveal_with_fuel(Node::opt_keys, 3);
                    reveal_with_fuel(Node::entry_map, 3);
                    reveal_with_fuel(Node::opt_map, 3);
                    reveal_with_fuel(Node::wf, 3);
                    reveal_with_fuel(Node::opt_wf, 3);
                    reveal_with_fuel(Node::color_wf, 3);
                    reveal_with_fuel(Node::bh, 3);
                    assert forall|k: i64| Node::opt_map(h.left).dom().contains(k) implies k
                        < h.key by {
                        if Node::opt_map(h0.left).dom().contains(k) {
                        }
                    }
                    assert forall|k: i64| Node::opt_map(h.right).dom().contains(k) implies k
                        > h.key by {
                        if Node::opt_map(h0.right).dom().contains(k) {
                        }
                    }
                    assert(Node::opt_keys(h.left).len() + Node::opt_keys(h.right).len() + 1
                        <= usize::MAX);
                    assert(Node::bh(h.left) == Node::bh(h.right));
                }
                if Self::is_red(&h.right) && !Self::is_red(&h.left) {
                    h = Self::rotate_left(h);
                    proof {
                        reveal_with_fuel(Node::color_wf, 3);
                        reveal_with_fuel(Node::bh, 3);
                        assert(Node::color_wf(h.left));
                        assert(Node::bh(h.left) == Node::bh(h.right));
                    }
                }
                let left_left_red = match &h.left {
                    Some(l) => Self::is_red(&l.left),
                    None => false,
                };
                if Self::is_red(&h.left) && left_left_red {
                    h = Self::rotate_right(h);
                    proof {
                        reveal_with_fuel(Node::color_wf, 3);
                        reveal_with_fuel(Node::bh, 3);
                        assert(Node::color_wf(h.left));
                        assert(Node::color_wf(h.right));
                        assert(Node::bh(h.left) == Node::bh(h.right));
                    }
                }
                if Self::is_red(&h.left) && Self::is_red(&h.right) {
                    Self::flip_color(&mut h);
                    proof {
                        reveal_with_fuel(Node::color_wf, 3);
                        reveal_with_fuel(Node::bh, 3);
                        assert(Node::color_wf(h.left));
                        assert(Node::color_wf(h.right));
                        assert(Node::bh(h.left) == Node::bh(h.right));
                    }
                }
                let nl = Self::size(&h.left);
                let nr = Self::size(&h.right);
                h.n = nl + nr + 1;
                proof {
                    reveal_with_fuel(Node::key_seq, 3);
                    reveal_with_fuel(Node::opt_keys, 3);
                    reveal_with_fuel(Node::entry_map, 3);
                    reveal_with_fuel(Node::opt_map, 3);
                    reveal_with_fuel(Node::wf, 3);
                    reveal_with_fuel(Node::opt_wf, 3);
                    reveal_with_fuel(Node::color_wf, 3);
                    reveal_with_fuel(Node::bh, 3);
                    assert(h.wf());
                    assert(Node::near_color_wf(Some(h)));
                    assert(Node::bh(Some(h)) == Node::bh(node));
                    assert(h.entry_map() =~= Node::opt_map(node).insert(key, val));
                }
                h
            }
        }
    }

    fn get_internal(node: &Option<Box<Node<V>>>, key: i64) -> (r: Option<V>)
        requires
            Node::opt_wf(*node),
        ensures
            r == if Node::opt_map(*node).dom().contains(key) {
                Some(Node::opt_map(*node)[key])
            } else {
                None::<V>
            },
        decreases node,
    {
        if let Some(n) = node {
            if n.key > key {
                proof {
                    assert(!Node::opt_map(n.right).dom().contains(key));
                }
                Self::get_internal(&n.left, key)
            } else if n.key < key {
                proof {
                    assert(!Node::opt_map(n.left).dom().contains(key));
                }
                Self::get_internal(&n.right, key)
            } else {
                Some(n.value)
            }
        } else {
            None
        }
    }
}

} // verus!
