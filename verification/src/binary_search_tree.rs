//! A plain binary search tree symbol table with subtree-size metadata.
//!
//! Keys are `i64` and each node caches the size of its subtree, which makes
//! the order-statistics queries (`rank_of_key`, `key_of_rank`) run in time
//! proportional to the tree height. Deletion is Hibbard deletion: splice out
//! a node with a missing child, otherwise replace it by the minimum of its
//! right subtree. No rebalancing is attempted, so the shape depends on the
//! insertion order.

use vstd::prelude::*;

verus! {

/// A node of the tree: a key/value pair, the two owned child subtrees, and
/// `n`, the number of nodes in the subtree rooted here (itself included).
pub struct BTNode<V> {
    key: i64,
    value: V,
    left: Option<Box<BTNode<V>>>,
    right: Option<Box<BTNode<V>>>,
    n: usize,
}

/// An ordered symbol table backed by a binary search tree. Its abstract
/// state is the map [`BinarySearchTree::as_map`] together with the sorted
/// key sequence [`BinarySearchTree::keys`].
pub struct BinarySearchTree<V> {
    root: Option<Box<BTNode<V>>>,
}

impl<V> BTNode<V> {
    /// The key/value pairs stored in an optional subtree, as a map.
    spec fn opt_map(node: Option<Box<BTNode<V>>>) -> Map<i64, V>
        decreases node,
    {
        match node {
            None => Map::empty(),
            Some(n) => n.entry_map(),
        }
    }

    /// The key/value pairs stored in the subtree rooted at this node.
    spec fn entry_map(self) -> Map<i64, V>
        decreases self,
    {
        BTNode::opt_map(self.left)
            .union_prefer_right(BTNode::opt_map(self.right))
            .insert(self.key, self.value)
    }

    /// The keys of an optional subtree, in symmetric (in-order) order.
    spec fn opt_keys(node: Option<Box<BTNode<V>>>) -> Seq<i64>
        decreases node,
    {
        match node {
            None => Seq::empty(),
            Some(n) => n.key_seq(),
        }
    }

    /// The keys of the subtree rooted at this node, in symmetric order.
    spec fn key_seq(self) -> Seq<i64>
        decreases self,
    {
        BTNode::opt_keys(self.left) + seq![self.key] + BTNode::opt_keys(self.right)
    }

    /// Well-formedness of an optional subtree; an absent subtree is fine.
    spec fn opt_wf(node: Option<Box<BTNode<V>>>) -> bool
        decreases node,
    {
        match node {
            None => true,
            Some(n) => n.wf(),
        }
    }

    /// Well-formedness of the subtree rooted at this node: every key on the
    /// left is smaller than this node's key, every key on the right is
    /// larger, both children are well-formed, and `n` counts the nodes of
    /// this subtree exactly.
    spec fn wf(self) -> bool
        decreases self,
    {
        &&& (forall|k: i64| BTNode::opt_map(self.left).dom().contains(k) ==> k < self.key)
        &&& (forall|k: i64| BTNode::opt_map(self.right).dom().contains(k) ==> k > self.key)
        &&& BTNode::opt_wf(self.left)
        &&& BTNode::opt_wf(self.right)
        &&& self.n == self.key_seq().len()
    }
}

/// A strictly increasing sequence of keys.
pub open spec fn sorted_strict(s: Seq<i64>) -> bool {
    forall|i: int, j: int| 0 <= i < j < s.len() ==> s[i] < s[j]
}

/// How many entries of `s` are strictly below the bound `q`.
pub open spec fn count_below(s: Seq<i64>, q: i64) -> nat
    decreases s.len(),
{
    if s.len() == 0 {
        0
    } else {
        count_below(s.drop_last(), q) + if s.last() < q { 1nat } else { 0nat }
    }
}

proof fn lemma_count_below_concat(a: Seq<i64>, b: Seq<i64>, q: i64)
    ensures
        count_below(a + b, q) == count_below(a, q) + count_below(b, q),
    decreases b.len(),
{
    if b.len() == 0 {
        assert(a + b =~= a);
    } else {
        lemma_count_below_concat(a, b.drop_last(), q);
        assert((a + b).drop_last() =~= a + b.drop_last());
    }
}

proof fn lemma_count_below_single(k: i64, q: i64)
    ensures
        count_below(seq![k], q) == if k < q { 1nat } else { 0nat },
{
    assert(seq![k].drop_last() =~= Seq::<i64>::empty());
    assert(count_below(Seq::<i64>::empty(), q) == 0);
}

proof fn lemma_count_below_all(s: Seq<i64>, q: i64)
    requires
        forall|i: int| 0 <= i < s.len() ==> s[i] < q,
    ensures
        count_below(s, q) == s.len(),
    decreases s.len(),
{
    if s.len() > 0 {
        lemma_count_below_all(s.drop_last(), q);
    }
}

proof fn lemma_count_below_none(s: Seq<i64>, q: i64)
    requires
        forall|i: int| 0 <= i < s.len() ==> s[i] >= q,
    ensures
        count_below(s, q) == 0,
    decreases s.len(),
{
    if s.len() > 0 {
        lemma_count_below_none(s.drop_last(), q);
    }
}

proof fn lemma_count_below_le(s: Seq<i64>, q: i64)
    ensures
        count_below(s, q) <= s.len(),
    decreases s.len(),
{
    if s.len() > 0 {
        lemma_count_below_le(s.drop_last(), q);
    }
}

/// A key occurs in a subtree's key sequence exactly when the subtree's map
/// contains it.
proof fn lemma_keys_match_dom<V>(node: Option<Box<BTNode<V>>>)
    ensures
        forall|k: i64| #[trigger] BTNode::opt_keys(node).contains(k)
            <==> BTNode::opt_map(node).dom().contains(k),
    decreases node,
{
    match node {
        None => {
            assert forall|k: i64| #[trigger] BTNode::opt_keys(node).contains(k)
                <==> BTNode::opt_map(node).dom().contains(k) by {
                if BTNode::opt_keys(node).contains(k) {
                    let i = choose|i: int|
                        0 <= i < BTNode::opt_keys(node).len() && BTNode::opt_keys(node)[i] == k;
                }
            }
        }
        Some(n) => {
            lemma_keys_match_dom(n.left);
            lemma_keys_match_dom(n.right);
            let ls = BTNode::opt_keys(n.left);
            let rs = BTNode::opt_keys(n.right);
            let s = n.key_seq();
            assert forall|k: i64| #[trigger] s.contains(k)
                <==> n.entry_map().dom().contains(k) by {
                if s.contains(k) {
                    let i = choose|i: int| 0 <= i < s.len() && s[i] == k;
                    if i < ls.len() {
                        assert(ls[i] == k);
                        assert(ls.contains(k));
                    } else if i == ls.len() {
                        assert(k == n.key);
                    } else {
                        assert(rs[i - ls.len() - 1] == k);
                        assert(rs.contains(k));
                    }
                }
                if n.entry_map().dom().contains(k) {
                    if k == n.key {
                        assert(s[ls.len() as int] == k);
                    } else if BTNode::opt_map(n.left).dom().contains(k) {
                        assert(ls.contains(k));
                        let i = choose|i: int| 0 <= i < ls.len() && ls[i] == k;
                        assert(s[i] == k);
                    } else {
                        assert(BTNode::opt_map(n.right).dom().contains(k));
                        assert(rs.contains(k));
                        let i = choose|i: int| 0 <= i < rs.len() && rs[i] == k;
                        assert(s[i + ls.len() + 1] == k);
                    }
                }
            }
        }
    }
}

/// A well-formed subtree lists its keys in strictly increasing order.
proof fn lemma_wf_keys_sorted<V>(node: Option<Box<BTNode<V>>>)
    requires
        BTNode::opt_wf(node),
    ensures
        sorted_strict(BTNode::opt_keys(node)),
    decreases node,
{
    match node {
        None => {}
        Some(n) => {
            lemma_wf_keys_sorted(n.left);
            lemma_wf_keys_sorted(n.right);
            lemma_keys_match_dom(n.left);
            lemma_keys_match_dom(n.right);
            let ls = BTNode::opt_keys(n.left);
            let rs = BTNode::opt_keys(n.right);
            let s = n.key_seq();
            assert forall|i: int, j: int| 0 <= i < j < s.len() implies s[i] < s[j] by {
                if i < ls.len() {
                    assert(ls.contains(ls[i]));
                }
                if j > ls.len() {
                    assert(rs.contains(rs[j - ls.len() - 1]));
                }
                if i < ls.len() && j < ls.len() {
                    assert(ls[i] < ls[j]);
                }
                if i > ls.len() && j > ls.len() {
                    assert(rs[i - ls.len() - 1] < rs[j - ls.len() - 1]);
                }
            }
        }
    }
}

/// Law: a strictly sorted sequence is determined by the set of its
/// entries. Together with `lemma_sorted` (the key sequence is strictly
/// sorted and lists exactly the domain of the table's map), the map
/// contracts of `put`, `delete` and `delete_min` therefore pin the whole
/// key sequence, not only its length.
pub proof fn lemma_sorted_keys_unique(a: Seq<i64>, b: Seq<i64>)
    requires
        sorted_strict(a),
        sorted_strict(b),
        forall|k: i64| #[trigger] a.contains(k) <==> #[trigger] b.contains(k),
    ensures
        a == b,
    decreases a.len(),
{
    if a.len() == 0 {
        if b.len() > 0 {
            assert(b.contains(b[0]));
            assert(a.contains(b[0]));
            let i = choose|i: int| 0 <= i < a.len() && a[i] == b[0];
        }
        assert(a =~= b);
    } else {
        assert(a.contains(a[0]));
        assert(b.contains(a[0]));
        let i = choose|i: int| 0 <= i < b.len() && b[i] == a[0];
        assert(b.contains(b[0]));
        assert(a.contains(b[0]));
        let j = choose|j: int| 0 <= j < a.len() && a[j] == b[0];
        assert(a[0] == b[0]);
        let at = a.subrange(1, a.len() as int);
        let bt = b.subrange(1, b.len() as int);
        assert forall|k: i64| #[trigger] at.contains(k) implies bt.contains(k) by {
            let ii = choose|ii: int| 0 <= ii < at.len() && at[ii] == k;
            assert(a[ii + 1] == k);
            assert(a.contains(k));
            assert(b.contains(k));
            let jj = choose|jj: int| 0 <= jj < b.len() && b[jj] == k;
            assert(k > a[0]);
            assert(jj != 0);
            assert(bt[jj - 1] == k);
            assert(bt.contains(k));
        }
        assert forall|k: i64| #[trigger] bt.contains(k) implies at.contains(k) by {
            let ii = choose|ii: int| 0 <= ii < bt.len() && bt[ii] == k;
            assert(b[ii + 1] == k);
            assert(b.contains(k));
            assert(a.contains(k));
            let jj = choose|jj: int| 0 <= jj < a.len() && a[jj] == k;
            assert(k > b[0]);
            assert(jj != 0);
            assert(at[jj - 1] == k);
            assert(at.contains(k));
        }
        assert forall|k: i64| #[trigger] at.contains(k) <==> #[trigger] bt.contains(k) by {
            if at.contains(k) {
            }
            if bt.contains(k) {
            }
        }
        lemma_sorted_keys_unique(at, bt);
        assert(a.len() == b.len());
        assert forall|i: int| 0 <= i < a.len() implies a[i] == b[i] by {
            if i > 0 {
                assert(at[i - 1] == bt[i - 1]);
            }
        }
        assert(a =~= b);
    }
}

/// Law: after writing a value for a key, looking that key up yields exactly
/// the written value, whatever the table held before. Together with the
/// contracts of `put` (the table's map gains `key -> val`) and `get` (the
/// result is the table's map at the key), this is the put/get round trip.
pub proof fn lemma_put_get_round_trip<V>(m: Map<i64, V>, key: i64, val: V)
    ensures
        m.insert(key, val).dom().contains(key),
        m.insert(key, val)[key] == val,
{
}

/// Law: rank is the inverse of select. In a strictly increasing key
/// sequence, the key at position `i` has exactly `i` keys below it, so
/// `rank_of_key(key_of_rank(i)) == i` for every `i` below the table's size.
pub proof fn lemma_rank_select_inverse(s: Seq<i64>, i: int)
    requires
        sorted_strict(s),
        0 <= i < s.len(),
    ensures
        count_below(s, s[i]) == i,
    decreases s.len(),
{
    if i == s.len() - 1 {
        lemma_count_below_all(s.drop_last(), s[i]);
    } else {
        assert(sorted_strict(s.drop_last()));
        lemma_rank_select_inverse(s.drop_last(), i);
        assert(s.last() >= s[i]);
    }
}

/// Law: deleting an absent key leaves the table's contents unchanged; with
/// the contract of `delete` (the table's map loses the key) this makes such
/// a deletion a no-op on both size and contents.
pub proof fn lemma_delete_absent_identity<V>(m: Map<i64, V>, key: i64)
    requires
        !m.dom().contains(key),
    ensures
        m.remove(key) == m,
{
    assert(m.remove(key) =~= m);
}

impl<V: Copy> BTNode<V> {
    fn new(key: i64, value: V, n: usize) -> (r: BTNode<V>)
        ensures
            r.key == key,
            r.value == value,
            r.n == n,
            r.left is None,
            r.right is None,
    {
        BTNode { key, value, left: None, right: None, n }
    }
}

impl<V> View for BinarySearchTree<V> {
    type V = Map<i64, V>;

    closed spec fn view(&self) -> Map<i64, V> {
        BTNode::opt_map(self.root)
    }
}

impl<V: Copy> BinarySearchTree<V> {
    /// The table's contents as a map from keys to values.
    pub closed spec fn as_map(self) -> Map<i64, V> {
        BTNode::opt_map(self.root)
    }

    /// The table's keys, in increasing order.
    pub closed spec fn keys(self) -> Seq<i64> {
        BTNode::opt_keys(self.root)
    }

    /// The internal invariant: search order holds everywhere and every
    /// node's `n` field equals the size of its subtree.
    pub closed spec fn well_formed(self) -> bool {
        BTNode::opt_wf(self.root)
    }

    /// The key sequence of a well-formed table is strictly increasing.
    pub proof fn lemma_sorted(self)
        requires
            self.well_formed(),
        ensures
            sorted_strict(self.keys()),
            forall|k: i64| #[trigger] self.keys().contains(k) <==> self@.dom().contains(k),
    {
        lemma_wf_keys_sorted(self.root);
        lemma_keys_match_dom(self.root);
    }

    /// Creates an empty table.
    pub fn new() -> (r: Self)
        ensures
            r.well_formed(),
            r@ == Map::<i64, V>::empty(),
            r.keys() == Seq::<i64>::empty(),
    {
        BinarySearchTree { root: None }
    }

    /// The number of keys in the table.
    pub fn size(&self) -> (r: usize)
        requires
            self.well_formed(),
        ensures
            r == self.keys().len(),
    {
        match &self.root {
            Some(root) => root.n,
            None => 0,
        }
    }

    /// Looks the key up and returns a copy of its value, or `None` when the
    /// table does not contain the key.
    pub fn get(&self, key: i64) -> (r: Option<V>)
        requires
            self.well_formed(),
        ensures
            r == if self@.dom().contains(key) {
                Some(self@[key])
            } else {
                None::<V>
            },
    {
        Self::get_internal(&self.root, key)
    }

    /// Inserts the key with the given value, or replaces the value when the
    /// key is already present. The key count therefore grows by one exactly
    /// when the key was absent.
    pub fn put(&mut self, key: i64, val: V)
        requires
            old(self).well_formed(),
            old(self).keys().len() < usize::MAX,
        ensures
            final(self).well_formed(),
            final(self)@ == old(self)@.insert(key, val),
            final(self).keys().len() == old(self).keys().len()
                + (if old(self)@.dom().contains(key) { 0int } else { 1int }),
    {
        Self::put_internal(&mut self.root, key, val);
    }

    fn put_internal(node: &mut Option<Box<BTNode<V>>>, key: i64, val: V)
        requires
            BTNode::opt_wf(*old(node)),
            BTNode::opt_keys(*old(node)).len() < usize::MAX,
        ensures
            BTNode::opt_wf(*final(node)),
            BTNode::opt_map(*final(node)) =~= BTNode::opt_map(*old(node)).insert(key, val),
            BTNode::opt_keys(*final(node)).len() == BTNode::opt_keys(*old(node)).len()
                + (if BTNode::opt_map(*old(node)).dom().contains(key) { 0int } else { 1int }),
        decreases *old(node),
    {
        match node.take() {
            None => {
                *node = Some(Box::new(BTNode::new(key, val, 1)));
            }
            Some(mut b) => {
                if b.key > key {
                    proof {
                        assert(!BTNode::opt_map(b.right).dom().contains(key));
                    }
                    Self::put_internal(&mut b.left, key, val);
                } else if b.key < key {
                    proof {
                        assert(!BTNode::opt_map(b.left).dom().contains(key));
                    }
                    Self::put_internal(&mut b.right, key, val);
                } else {
                    b.value = val;
                    proof {
                        assert(!BTNode::opt_map(b.left).dom().contains(key));
                        assert(!BTNode::opt_map(b.right).dom().contains(key));
                    }
                }
                let nl = Self::node_size(&b.left);
                let nr = Self::node_size(&b.right);
                b.n = nl + nr + 1;
                *node = Some(b);
            }
        }
    }

    fn node_size(node: &Option<Box<BTNode<V>>>) -> (r: usize)
        requires
            BTNode::opt_wf(*node),
        ensures
            r == BTNode::opt_keys(*node).len(),
    {
        match node {
            Some(n) => n.n,
            None => 0,
        }
    }

    fn get_internal(node: &Option<Box<BTNode<V>>>, key: i64) -> (r: Option<V>)
        requires
            BTNode::opt_wf(*node),
        ensures
            r == if BTNode::opt_map(*node).dom().contains(key) {
                Some(BTNode::opt_map(*node)[key])
            } else {
                None::<V>
            },
        decreases node,
    {
        if let Some(n) = node {
            if n.key > key {
                proof {
                    assert(!BTNode::opt_map(n.right).dom().contains(key));
                }
                Self::get_internal(&n.left, key)
            } else if n.key < key {
                proof {
                    assert(!BTNode::opt_map(n.left).dom().contains(key));
                }
                Self::get_internal(&n.right, key)
            } else {
                Some(n.value)
            }
        } else {
            None
        }
    }

    /// The smallest key of the table, or `None` when the table is empty.
    pub fn min(&self) -> (r: Option<i64>)
        requires
            self.well_formed(),
        ensures
            r == if self.keys().len() == 0 {
                None::<i64>
            } else {
                Some(self.keys()[0])
            },
            r is Some ==> self@.dom().contains(r.unwrap()) && (forall|k: i64|
                #[trigger] self@.dom().contains(k) ==> r.unwrap() <= k),
    {
        let r = match &self.root {
            None => None,
            Some(n) => Some(Self::min_internal(n).0),
        };
        proof {
            if r is Some {
                self.lemma_sorted();
                let ks = self.keys();
                assert(ks.contains(ks[0]));
                assert forall|k: i64| #[trigger] self@.dom().contains(k) implies ks[0] <= k by {
                    assert(ks.contains(k));
                    let i = choose|i: int| 0 <= i < ks.len() && ks[i] == k;
                }
            }
        }
        r
    }

    /// Returns the entry with the smallest key of a non-empty subtree.
    fn min_internal(node: &BTNode<V>) -> (r: (i64, V))
        requires
            node.wf(),
        ensures
            r.0 == node.key_seq()[0],
            node.entry_map().dom().contains(r.0),
            r.1 == node.entry_map()[r.0],
        decreases node,
    {
        match &node.left {
            None => {
                proof {
                    assert(!BTNode::opt_map(node.left).dom().contains(node.key));
                    assert(!BTNode::opt_map(node.right).dom().contains(node.key));
                }
                (node.key, node.value)
            }
            Some(l) => {
                let r = Self::min_internal(l);
                proof {
                    assert(BTNode::opt_map(node.left).dom().contains(r.0));
                    assert(!BTNode::opt_map(node.right).dom().contains(r.0));
                }
                r
            }
        }
    }

    /// The largest key that is less than or equal to `key`, or `None` when
    /// every key of the table is larger than `key`.
    pub fn floor(&self, key: i64) -> (r: Option<i64>)
        requires
            self.well_formed(),
        ensures
            match r {
                None => forall|k: i64| #[trigger] self@.dom().contains(k) ==> k > key,
                Some(f) => self@.dom().contains(f) && f <= key && (forall|k: i64|
                    #[trigger] self@.dom().contains(k) && k <= key ==> k <= f),
            },
    {
        Self::floor_internal(&self.root, key)
    }

    fn floor_internal(node: &Option<Box<BTNode<V>>>, key: i64) -> (r: Option<i64>)
        requires
            BTNode::opt_wf(*node),
        ensures
            match r {
                None => forall|k: i64|
                    #[trigger] BTNode::opt_map(*node).dom().contains(k) ==> k > key,
                Some(f) => BTNode::opt_map(*node).dom().contains(f) && f <= key && (forall|
                    k: i64,
                |
                    #[trigger] BTNode::opt_map(*node).dom().contains(k) && k <= key ==> k <= f),
            },
        decreases node,
    {
        match node {
            Some(n) => {
                proof {
                    assert forall|k: i64|
                        #[trigger] BTNode::opt_map(*node).dom().contains(k) implies k == n.key
                        || BTNode::opt_map(n.left).dom().contains(k) || BTNode::opt_map(
                        n.right,
                    ).dom().contains(k) by {}
                }
                if key < n.key {
                    let t = Self::floor_internal(&n.left, key);
                    proof {
                        match t {
                            None => {
                                assert forall|k: i64|
                                    #[trigger] BTNode::opt_map(*node).dom().contains(k) implies k
                                    > key by {
                                    if BTNode::opt_map(n.left).dom().contains(k) {
                                    }
                                    if BTNode::opt_map(n.right).dom().contains(k) {
                                    }
                                }
                            }
                            Some(f) => {
                                assert forall|k: i64|
                                    #[trigger] BTNode::opt_map(*node).dom().contains(k) && k
                                    <= key implies k <= f by {
                                    if BTNode::opt_map(n.left).dom().contains(k) {
                                    }
                                    if BTNode::opt_map(n.right).dom().contains(k) {
                                    }
                                }
                            }
                        }
                    }
                    t
                } else if key > n.key {
                    let t = Self::floor_internal(&n.right, key);
                    match t {
                        Some(f) => {
                            proof {
                                assert forall|k: i64|
                                    #[trigger] BTNode::opt_map(*node).dom().contains(k) && k
                                    <= key implies k <= f by {
                                    if BTNode::opt_map(n.left).dom().contains(k) {
                                    }
                                    if BTNode::opt_map(n.right).dom().contains(k) {
                                    }
                                }
                            }
                            Some(f)
                        },
                        None => {
                            proof {
                                assert forall|k: i64|
                                    #[trigger] BTNode::opt_map(*node).dom().contains(k) && k
                                    <= key implies k <= n.key by {
                                    if BTNode::opt_map(n.left).dom().contains(k) {
                                    }
                                    if BTNode::opt_map(n.right).dom().contains(k) {
                                    }
                                }
                            }
                            Some(n.key)
                        },
                    }
                } else {
                    proof {
                        assert forall|k: i64|
                            #[trigger] BTNode::opt_map(*node).dom().contains(k) && k
                            <= key implies k <= n.key by {
                            if BTNode::opt_map(n.left).dom().contains(k) {
                            }
                            if BTNode::opt_map(n.right).dom().contains(k) {
                            }
                        }
                    }
                    Some(n.key)
                }
            }
            None => None,
        }
    }

    /// How many keys of the table are strictly smaller than `key`. The key
    /// itself need not be present; the result is then its insertion rank.
    pub fn rank_of_key(&self, key: i64) -> (r: usize)
        requires
            self.well_formed(),
        ensures
            r == count_below(self.keys(), key),
    {
        Self::rank_internal(&self.root, key)
    }

    fn rank_internal(node: &Option<Box<BTNode<V>>>, key: i64) -> (r: usize)
        requires
            BTNode::opt_wf(*node),
        ensures
            r == count_below(BTNode::opt_keys(*node), key),
        decreases node,
    {
        match node {
            Some(n) => {
                proof {
                    lemma_keys_match_dom(n.left);
                    lemma_keys_match_dom(n.right);
                    let ls = BTNode::opt_keys(n.left);
                    let rs = BTNode::opt_keys(n.right);
                    lemma_count_below_concat(ls + seq![n.key], rs, key);
                    lemma_count_below_concat(ls, seq![n.key], key);
                    lemma_count_below_single(n.key, key);
                    assert forall|i: int| 0 <= i < ls.len() implies ls[i] < n.key by {
                        assert(ls.contains(ls[i]));
                    }
                    assert forall|i: int| 0 <= i < rs.len() implies rs[i] > n.key by {
                        assert(rs.contains(rs[i]));
                    }
                }
                if key < n.key {
                    proof {
                        lemma_count_below_none(BTNode::opt_keys(n.right), key);
                    }
                    Self::rank_internal(&n.left, key)
                } else if key > n.key {
                    proof {
                        lemma_count_below_all(BTNode::opt_keys(n.left), key);
                        lemma_count_below_le(BTNode::opt_keys(n.right), key);
                    }
                    let nl = Self::node_size(&n.left);
                    let rr = Self::rank_internal(&n.right, key);
                    1 + nl + rr
                } else {
                    proof {
                        lemma_count_below_all(BTNode::opt_keys(n.left), key);
                        lemma_count_below_none(BTNode::opt_keys(n.right), key);
                    }
                    Self::node_size(&n.left)
                }
            }
            None => 0,
        }
    }

    /// The key with exactly `rank` smaller keys in the table, or `None` when
    /// `rank` is not below the table's size.
    pub fn key_of_rank(&self, rank: usize) -> (r: Option<i64>)
        requires
            self.well_formed(),
        ensures
            r == if rank < self.keys().len() {
                Some(self.keys()[rank as int])
            } else {
                None::<i64>
            },
    {
        Self::select_internal(&self.root, rank)
    }

    /// Removes the entry with the smallest key; does nothing on an empty
    /// table.
    pub fn delete_min(&mut self)
        requires
            old(self).well_formed(),
        ensures
            final(self).well_formed(),
            old(self).keys().len() == 0 ==> final(self)@ == old(self)@ && final(self).keys()
                == old(self).keys(),
            old(self).keys().len() > 0 ==> final(self)@ == old(self)@.remove(old(self).keys()[0])
                && final(self).keys() == old(self).keys().subrange(
                1,
                old(self).keys().len() as int,
            ),
    {
        Self::delete_min_internal(&mut self.root);
    }

    fn delete_min_internal(node: &mut Option<Box<BTNode<V>>>)
        requires
            BTNode::opt_wf(*old(node)),
        ensures
            BTNode::opt_wf(*final(node)),
            BTNode::opt_keys(*old(node)).len() == 0 ==> BTNode::opt_map(*final(node))
                == BTNode::opt_map(*old(node)) && BTNode::opt_keys(*final(node))
                == BTNode::opt_keys(*old(node)),
            BTNode::opt_keys(*old(node)).len() > 0 ==> BTNode::opt_map(*final(node))
                =~= BTNode::opt_map(*old(node)).remove(BTNode::opt_keys(*old(node))[0])
                && BTNode::opt_keys(*final(node)) =~= BTNode::opt_keys(*old(node)).subrange(
                1,
                BTNode::opt_keys(*old(node)).len() as int,
            ),
        decreases *old(node),
    {
        match node.take() {
            None => {}
            Some(mut b) => {
                let ghost b0 = b;
                let ghost s0 = b0.key_seq();
                if b.left.is_none() {
                    proof {
                        assert(BTNode::opt_keys(b.left) == Seq::<i64>::empty());
                        assert(!BTNode::opt_map(b.right).dom().contains(b.key));
                        assert(s0[0] == b.key);
                    }
                    *node = b.right;
                    proof {
                        assert(BTNode::opt_keys(*node) =~= s0.subrange(1, s0.len() as int));
                        assert(BTNode::opt_map(*node) =~= b0.entry_map().remove(s0[0]));
                    }
                } else {
                    proof {
                        assert(BTNode::opt_keys(b.left).len() > 0);
                        assert(s0[0] == BTNode::opt_keys(b.left)[0]);
                        assert(BTNode::opt_map(b.left).dom().contains(s0[0])) by {
                            lemma_keys_match_dom(b.left);
                            assert(BTNode::opt_keys(b.left).contains(BTNode::opt_keys(b.left)[0]));
                        }
                        assert(s0[0] < b.key);
                        assert(!BTNode::opt_map(b.right).dom().contains(s0[0]));
                    }
                    Self::delete_min_internal(&mut b.left);
                    let nl = Self::node_size(&b.left);
                    let nr = Self::node_size(&b.right);
                    b.n = nl + nr + 1;
                    *node = Some(b);
                    proof {
                        assert(BTNode::opt_keys(*node) == BTNode::opt_keys(b.left) + seq![b0.key]
                            + BTNode::opt_keys(b0.right));
                        assert(BTNode::opt_keys(*node) =~= s0.subrange(1, s0.len() as int));
                        assert(BTNode::opt_map(*node) =~= b0.entry_map().remove(s0[0]));
                    }
                }
            }
        }
    }

    /// Removes the key and its value; does nothing when the key is absent.
    pub fn delete(&mut self, key: i64)
        requires
            old(self).well_formed(),
        ensures
            final(self).well_formed(),
            final(self)@ == old(self)@.remove(key),
            final(self).keys().len() == old(self).keys().len() - (if old(
                self,
            )@.dom().contains(key) {
                1int
            } else {
                0int
            }),
            !old(self)@.dom().contains(key) ==> final(self)@ == old(self)@ && final(self).keys()
                == old(self).keys(),
    {
        Self::delete_internal(&mut self.root, key);
        proof {
            if !old(self)@.dom().contains(key) {
                assert(old(self)@.remove(key) =~= old(self)@);
            }
        }
    }

    fn delete_internal(node: &mut Option<Box<BTNode<V>>>, key: i64)
        requires
            BTNode::opt_wf(*old(node)),
        ensures
            BTNode::opt_wf(*final(node)),
            BTNode::opt_map(*final(node)) =~= BTNode::opt_map(*old(node)).remove(key),
            BTNode::opt_keys(*final(node)).len() == BTNode::opt_keys(*old(node)).len() - (if BTNode::opt_map(
                *old(node),
            ).dom().contains(key) {
                1int
            } else {
                0int
            }),
            !BTNode::opt_map(*old(node)).dom().contains(key) ==> BTNode::opt_keys(*final(node))
                == BTNode::opt_keys(*old(node)),
        decreases *old(node),
    {
        match node.take() {
            None => {}
            Some(mut b) => {
                if key < b.key {
                    proof {
                        assert(!BTNode::opt_map(b.right).dom().contains(key));
                    }
                    Self::delete_internal(&mut b.left, key);
                    let nl = Self::node_size(&b.left);
                    let nr = Self::node_size(&b.right);
                    b.n = nl + nr + 1;
                    *node = Some(b);
                } else if key > b.key {
                    proof {
                        assert(!BTNode::opt_map(b.left).dom().contains(key));
                    }
                    Self::delete_internal(&mut b.right, key);
                    let nl = Self::node_size(&b.left);
                    let nr = Self::node_size(&b.right);
                    b.n = nl + nr + 1;
                    *node = Some(b);
                } else {
                    proof {
                        assert(!BTNode::opt_map(b.left).dom().contains(key));
                        assert(!BTNode::opt_map(b.right).dom().contains(key));
                    }
                    if b.right.is_none() {
                        *node = b.left;
                    } else if b.left.is_none() {
                        *node = b.right;
                    } else {
                        proof {
                            lemma_wf_keys_sorted(b.right);
                            lemma_keys_match_dom(b.right);
                            assert(BTNode::opt_keys(b.right).contains(
                                BTNode::opt_keys(b.right)[0],
                            ));
                        }
                        let mut mk: i64 = 0;
                        let mut mv: V = b.value;
                        if let Some(r) = &b.right {
                            proof {
                                assert(BTNode::opt_wf(b.right));
                                assert(b.right == Some(*r));
                                assert(r.wf());
                            }
                            let m = Self::min_internal(r);
                            mk = m.0;
                            mv = m.1;
                        }
                        proof {
                            assert(mk == BTNode::opt_keys(b.right)[0]);
                            assert(BTNode::opt_map(b.right).dom().contains(mk));
                            assert(mk > b.key);
                            assert forall|k: i64|
                                #[trigger] BTNode::opt_map(b.right).dom().contains(k) && k
                                != mk implies k > mk by {
                                let rs = BTNode::opt_keys(b.right);
                                assert(rs.contains(k));
                                let i = choose|i: int| 0 <= i < rs.len() && rs[i] == k;
                                assert(rs[0] < rs[i] || i == 0);
                            }
                        }
                        Self::delete_min_internal(&mut b.right);
                        b.key = mk;
                        b.value = mv;
                        let nl = Self::node_size(&b.left);
                        let nr = Self::node_size(&b.right);
                        b.n = nl + nr + 1;
                        *node = Some(b);
                    }
                }
            }
        }
    }

    fn select_internal(node: &Option<Box<BTNode<V>>>, rank: usize) -> (r: Option<i64>)
        requires
            BTNode::opt_wf(*node),
        ensures
            r == if rank < BTNode::opt_keys(*node).len() {
                Some(BTNode::opt_keys(*node)[rank as int])
            } else {
                None::<i64>
            },
        decreases node,
    {
        match node {
            Some(n) => {
                let t = Self::node_size(&n.left);
                if t > rank {
                    Self::select_internal(&n.left, rank)
                } else if t < rank {
                    Self::select_internal(&n.right, rank - t - 1)
                } else {
                    Some(n.key)
                }
            }
            None => None,
        }
    }
}

} // verus!
