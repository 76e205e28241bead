//! A self-balancing (AVL) binary search tree of `usize` keys.

use vstd::prelude::*;
use vstd::arithmetic::power2::{pow2, lemma_pow2_unfold, lemma_pow2_strictly_increases, lemma2_to64};

verus! {

pub type Key = usize;

#[derive(Debug)]
struct Node {
    key: Key,
    left: Option<Box<Node>>,
    right: Option<Box<Node>>,
    height: i32,
}

/// The larger of two natural numbers.
pub open spec fn max_nat(a: nat, b: nat) -> nat {
    if a >= b { a } else { b }
}

/// Height of a subtree, counted in nodes along its longest path.
spec fn ht(t: Option<Box<Node>>) -> nat
    decreases t,
{
    match t {
        None => 0,
        Some(n) => 1 + max_nat(ht(n.left), ht(n.right)),
    }
}

/// The keys stored in a subtree.
spec fn keys(t: Option<Box<Node>>) -> Set<Key>
    decreases t,
{
    match t {
        None => Set::empty(),
        Some(n) => keys(n.left).union(keys(n.right)).insert(n.key),
    }
}

/// Number of nodes of a subtree.
spec fn size(t: Option<Box<Node>>) -> nat
    decreases t,
{
    match t {
        None => 0,
        Some(n) => 1 + size(n.left) + size(n.right),
    }
}

/// Search-tree order: left keys are smaller, right keys larger than the node's key.
spec fn bst(t: Option<Box<Node>>) -> bool
    decreases t,
{
    match t {
        None => true,
        Some(n) => {
            &&& bst(n.left)
            &&& bst(n.right)
            &&& forall|k: Key| #[trigger] keys(n.left).contains(k) ==> k < n.key
            &&& forall|k: Key| #[trigger] keys(n.right).contains(k) ==> k > n.key
        },
    }
}

/// Every node stores the height of the subtree it roots.
spec fn heights_ok(t: Option<Box<Node>>) -> bool
    decreases t,
{
    match t {
        None => true,
        Some(n) => heights_ok(n.left) && heights_ok(n.right) && n.height == ht(t),
    }
}

/// The heights of the two children of every node differ by at most one.
spec fn balanced(t: Option<Box<Node>>) -> bool
    decreases t,
{
    match t {
        None => true,
        Some(n) => {
            &&& balanced(n.left)
            &&& balanced(n.right)
            &&& ht(n.left) <= ht(n.right) + 1
            &&& ht(n.right) <= ht(n.left) + 1
        },
    }
}

spec fn avl(t: Option<Box<Node>>) -> bool {
    bst(t) && heights_ok(t) && balanced(t)
}

/// The height a node claims for the subtree `t` (zero for an empty one).
spec fn stored_height(t: Option<Box<Node>>) -> int {
    match t {
        None => 0,
        Some(n) => n.height as int,
    }
}

proof fn lemma_stored_height(t: Option<Box<Node>>)
    requires
        heights_ok(t),
    ensures
        stored_height(t) == ht(t),
{
}


/// A search tree whose keys lie in `[lo, hi]` has at most `hi - lo + 1` nodes.
proof fn lemma_size_within_range(t: Option<Box<Node>>, lo: int, hi: int)
    requires
        bst(t),
        lo <= hi + 1,
        forall|k: Key| #[trigger] keys(t).contains(k) ==> lo <= k <= hi,
    ensures
        size(t) <= hi - lo + 1,
    decreases t,
{
    if let Some(n) = t {
        assert(keys(t).contains(n.key));
        assert forall|k: Key| #[trigger] keys(n.left).contains(k) implies lo <= k <= n.key - 1 by {
            assert(keys(t).contains(k));
        }
        assert forall|k: Key| #[trigger] keys(n.right).contains(k) implies n.key + 1 <= k <= hi by {
            assert(keys(t).contains(k));
        }
        lemma_size_within_range(n.left, lo, n.key - 1);
        lemma_size_within_range(n.right, n.key + 1, hi);
    }
}

/// A balanced tree of height `h` has at least `2^(h/2) - 1` nodes.
proof fn lemma_balanced_size(t: Option<Box<Node>>)
    requires
        balanced(t),
    ensures
        pow2(ht(t) / 2) <= size(t) + 1,
    decreases t,
{
    if let Some(n) = t {
        lemma_balanced_size(n.left);
        lemma_balanced_size(n.right);
        let h = ht(t);
        let hl = ht(n.left);
        let hr = ht(n.right);
        assert(size(t) == 1 + size(n.left) + size(n.right));
        if h >= 2 {
            let e = ((h - 2) / 2) as nat;
            assert(hl + 2 >= h && hr + 2 >= h);
            assert(h / 2 == e + 1);
            assert(hl / 2 >= e && hr / 2 >= e);
            lemma_pow2_unfold(e + 1);
            if e < hl / 2 {
                lemma_pow2_strictly_increases(e, hl / 2);
            }
            if e < hr / 2 {
                lemma_pow2_strictly_increases(e, hr / 2);
            }
            assert(pow2(e) <= size(n.left) + 1);
            assert(pow2(e) <= size(n.right) + 1);
        } else {
            assert(h / 2 == 0);
            lemma2_to64();
        }
    } else {
        lemma2_to64();
    }
}

/// The Fibonacci numbers: 0, 1, 1, 2, 3, 5, ...
pub open spec fn fib(n: nat) -> nat
    decreases n,
{
    if n == 0 {
        0
    } else if n == 1 {
        1
    } else {
        fib((n - 1) as nat) + fib((n - 2) as nat)
    }
}

proof fn lemma_fib_monotone(a: nat, b: nat)
    requires
        a <= b,
    ensures
        fib(a) <= fib(b),
    decreases b - a,
{
    if a < b {
        lemma_fib_monotone(a, (b - 1) as nat);
        if b >= 2 {
            assert(fib(b) == fib((b - 1) as nat) + fib((b - 2) as nat));
        }
    }
}

/// A balanced tree of height `h` has at least `fib(h + 2) - 1` nodes.
proof fn lemma_balanced_fib(t: Option<Box<Node>>)
    requires
        balanced(t),
    ensures
        fib(ht(t) + 2) <= size(t) + 1,
    decreases t,
{
    reveal_with_fuel(fib, 3);
    if let Some(n) = t {
        lemma_balanced_fib(n.left);
        lemma_balanced_fib(n.right);
        let h = ht(t);
        let hl = ht(n.left);
        let hr = ht(n.right);
        assert(fib(h + 2) == fib(h + 1) + fib(h as nat));
        if hl >= hr {
            lemma_fib_monotone(h as nat, hr + 2);
        } else {
            lemma_fib_monotone(h as nat, hl + 2);
        }
    }
}

/// The height of an AVL tree of `usize` keys stays far below the limit of the
/// `i32` height field.
proof fn lemma_avl_height(t: Option<Box<Node>>)
    requires
        avl(t),
    ensures
        ht(t) <= 131,
{
    lemma_size_within_range(t, 0, usize::MAX as int);
    lemma_balanced_size(t);
    lemma2_to64();
    if ht(t) / 2 > 64 {
        lemma_pow2_strictly_increases(64, ht(t) / 2);
        lemma_pow2_unfold(65);
        if ht(t) / 2 > 65 {
            lemma_pow2_strictly_increases(65, ht(t) / 2);
        }
    }
}


/// The keys of a search tree are a finite set with one key per node.
proof fn lemma_size_is_key_count(t: Option<Box<Node>>)
    requires
        bst(t),
    ensures
        keys(t).finite(),
        keys(t).len() == size(t),
    decreases t,
{
    if let Some(n) = t {
        lemma_size_is_key_count(n.left);
        lemma_size_is_key_count(n.right);
        assert(keys(n.left).disjoint(keys(n.right))) by {
            assert forall|k: Key| keys(n.left).contains(k) implies !keys(n.right).contains(k) by {
                assert(k < n.key);
            }
        }
        vstd::set_lib::lemma_set_disjoint_lens(keys(n.left), keys(n.right));
        assert(!keys(n.left).union(keys(n.right)).contains(n.key)) by {
            if keys(n.left).contains(n.key) {
                assert(n.key < n.key);
            }
            if keys(n.right).contains(n.key) {
                assert(n.key > n.key);
            }
        }
    }
}

impl Node {
    fn new(key: Key) -> (n: Self)
        ensures
            n.key == key,
            n.left is None,
            n.right is None,
            n.height == 1,
    {
        Self { key, left: None, right: None, height: 1 }
    }
}


/// A node over `left` and `right` that stores its height.
spec fn make_node(key: Key, left: Option<Box<Node>>, right: Option<Box<Node>>) -> Box<Node> {
    let h = 1 + if stored_height(left) >= stored_height(right) {
        stored_height(left)
    } else {
        stored_height(right)
    };
    Box::new(Node { key, left, right, height: h as i32 })
}

/// `z` rotated to the left: its right child `y` becomes the root, with `z`
/// (keeping `y`'s left subtree on its right) as `y`'s left child.
spec fn rotated_left(z: Box<Node>) -> Box<Node> {
    let y = z.right.unwrap();
    make_node(y.key, Some(make_node(z.key, z.left, y.left)), y.right)
}

/// `z` rotated to the right: its left child `y` becomes the root, with `z`
/// (keeping `y`'s right subtree on its left) as `y`'s right child.
spec fn rotated_right(z: Box<Node>) -> Box<Node> {
    let y = z.left.unwrap();
    make_node(y.key, y.left, Some(make_node(z.key, y.right, z.right)))
}

/// A right rotation undoes a left rotation, and a left rotation undoes a
/// right one, on subtrees that store their heights.
proof fn lemma_rotations_undo(z: Box<Node>)
    requires
        heights_ok(Some(z)),
        ht(Some(z)) < height_limit(),
    ensures
        z.right is Some ==> rotated_right(rotated_left(z)) == z,
        z.left is Some ==> rotated_left(rotated_right(z)) == z,
{
    lemma_stored_height(z.left);
    lemma_stored_height(z.right);
    if z.right is Some {
        let y = z.right.unwrap();
        assert(heights_ok(z.right) && z.right == Some(y));
        assert(heights_ok(y.left) && heights_ok(y.right));
        lemma_stored_height(y.left);
        lemma_stored_height(y.right);
        let x = make_node(z.key, z.left, y.left);
        assert(rotated_left(z).left == Some(x));
        assert(make_node(y.key, y.left, y.right) == y);
        assert(make_node(z.key, z.left, Some(y)) == z);
    }
    if z.left is Some {
        let y = z.left.unwrap();
        assert(heights_ok(z.left) && z.left == Some(y));
        assert(heights_ok(y.left) && heights_ok(y.right));
        lemma_stored_height(y.left);
        lemma_stored_height(y.right);
        let x = make_node(z.key, y.right, z.right);
        assert(rotated_right(z).right == Some(x));
        assert(make_node(y.key, y.left, y.right) == y);
        assert(make_node(z.key, Some(y), z.right) == z);
    }
}

/// The heights that the `i32` height field holds.
spec fn height_limit() -> int {
    i32::MAX as int
}

/// A set of keys kept in an AVL tree.
#[derive(Debug)]
pub struct AvlTree {
    root: Option<Box<Node>>,
}

impl View for AvlTree {
    type V = Set<Key>;

    closed spec fn view(&self) -> Set<Key> {
        keys(self.root)
    }
}

impl Default for AvlTree {
    fn default() -> (t: Self)
        ensures
            t.wf(),
            t@ == Set::<Key>::empty(),
    {
        AvlTree { root: None }
    }
}

/// The view of a node reached while walking down from the root.
spec fn deref_opt(o: Option<&Box<Node>>) -> Option<Box<Node>> {
    match o {
        None => None,
        Some(b) => Some(*b),
    }
}

impl AvlTree {
    /// The tree is a search tree, every node stores its height, and the
    /// heights of sibling subtrees differ by at most one.
    pub closed spec fn wf(&self) -> bool {
        avl(self.root)
    }

    /// Height of the tree (zero when empty).
    pub closed spec fn tree_height(&self) -> nat {
        ht(self.root)
    }

    /// Law: an AVL tree with `n` keys has height at most about `2 log2(n + 1)`,
    /// so a search visits logarithmically many nodes.
    pub proof fn lemma_height_logarithmic(&self)
        requires
            self.wf(),
        ensures
            self@.finite(),
            pow2(self.tree_height() / 2) <= self@.len() + 1,
    {
        lemma_size_is_key_count(self.root);
        lemma_balanced_size(self.root);
    }

    /// Law: after `insert(k)`, `search(q)` finds `q` exactly when `q == k`
    /// or `q` was there before; inserting a key that is present changes nothing.
    pub proof fn lemma_search_after_insert(before: &AvlTree, after: &AvlTree, k: Key, q: Key)
        requires
            after@ == before@.insert(k),
        ensures
            after@.contains(q) == (q == k || before@.contains(q)),
            before@.contains(k) ==> after@ == before@,
    {
        if before@.contains(k) {
            assert(after@ =~= before@);
        }
    }

    /// Law: an AVL tree of height `h` holds at least `fib(h + 2) - 1` keys,
    /// so its height is at most about `1.44 log2(n + 2)`.
    pub proof fn lemma_height_fibonacci(&self)
        requires
            self.wf(),
        ensures
            fib(self.tree_height() + 2) <= self@.len() + 1,
    {
        lemma_size_is_key_count(self.root);
        lemma_balanced_fib(self.root);
    }

    /// An empty tree.
    pub fn new() -> (t: Self)
        ensures
            t.wf(),
            t@ == Set::<Key>::empty(),
    {
        AvlTree { root: None }
    }

    /// Adds `key` to the set; a key that is already present leaves the tree as it is.
    pub fn insert(&mut self, key: Key)
        requires
            old(self).wf(),
        ensures
            final(self).wf(),
            final(self)@ == old(self)@.insert(key),
            old(self).tree_height() <= final(self).tree_height() <= old(self).tree_height() + 1,
            old(self)@.contains(key) ==> *final(self) == *old(self),
    {
        self.root = Self::insert_node(self.root.take(), key);
    }

    /// Whether `key` is in the set.
    pub fn search(&self, key: Key) -> (found: bool)
        requires
            self.wf(),
        ensures
            found == self@.contains(key),
    {
        let mut current = self.root.as_ref();

        loop
            invariant
                bst(deref_opt(current)),
                keys(self.root).contains(key) == keys(deref_opt(current)).contains(key),
            decreases ht(deref_opt(current)),
        {
            match current {
                None => {
                    return false;
                },
                Some(node) => {
                    if key == node.key {
                        return true;
                    }
                    proof {
                        let n = *node;
                        assert(deref_opt(current) == Some(n));
                        if key < n.key {
                            assert(!keys(n.right).contains(key));
                        } else {
                            assert(!keys(n.left).contains(key));
                        }
                    }
                    current =
                        if key < node.key {
                            node.left.as_ref()
                        } else {
                            node.right.as_ref()
                        };
                },
            }
        }
    }

    fn insert_node(node: Option<Box<Node>>, key: Key) -> (r: Option<Box<Node>>)
        requires
            avl(node),
        ensures
            r is Some,
            avl(r),
            keys(r) == keys(node).insert(key),
            ht(node) <= ht(r) <= ht(node) + 1,
            keys(node).contains(key) ==> r == node,
        decreases node,
    {
        match node {
            None => {
                let r = Some(Box::new(Node::new(key)));
                proof {
                    assert(keys(r) =~= keys(node).insert(key));
                }
                r
            },
            Some(mut current) => {
                let ghost c0 = current;
                proof {
                    lemma_avl_height(node);
                    lemma_stored_height(c0.left);
                    lemma_stored_height(c0.right);
                }
                if key < current.key {
                    current.left = Self::insert_node(current.left.take(), key);
                    proof {
                        lemma_stored_height(current.left);
                        assert forall|k: Key| #[trigger] keys(current.left).contains(k) implies k
                            < current.key by {
                            if k != key {
                                assert(keys(c0.left).contains(k));
                            }
                        }
                    }
                } else if key > current.key {
                    current.right = Self::insert_node(current.right.take(), key);
                    proof {
                        lemma_stored_height(current.right);
                        assert forall|k: Key| #[trigger] keys(current.right).contains(k) implies k
                            > current.key by {
                            if k != key {
                                assert(keys(c0.right).contains(k));
                            }
                        }
                    }
                } else {
                    proof {
                        assert(keys(node) =~= keys(node).insert(key));
                    }
                    return Some(current);
                }

                Self::update_height(&mut current);
                proof {
                    if keys(node).contains(key) {
                        // The key was found further down: nothing changed.
                        if key < c0.key {
                            assert(!keys(c0.right).contains(key));
                        } else {
                            assert(!keys(c0.left).contains(key));
                        }
                        assert(current.left == c0.left && current.right == c0.right);
                        assert(current.height == c0.height);
                        assert(current == c0);
                    }
                    assert(heights_ok(Some(current)));
                    assert(bst(Some(current)));
                    assert(keys(Some(current)) =~= keys(node).insert(key));
                }
                Some(Self::rebalance(current))
            },
        }
    }

    fn height(node: &Option<Box<Node>>) -> (h: i32)
        ensures
            h == stored_height(*node),
    {
        match node {
            None => 0,
            Some(n) => n.height,
        }
    }

    fn update_height(node: &mut Box<Node>)
        requires
            0 <= stored_height(old(node).left) < height_limit(),
            0 <= stored_height(old(node).right) < height_limit(),
        ensures
            final(node).key == old(node).key,
            final(node).left == old(node).left,
            final(node).right == old(node).right,
            final(node).height == 1 + if stored_height(old(node).left) >= stored_height(
                old(node).right,
            ) {
                stored_height(old(node).left)
            } else {
                stored_height(old(node).right)
            },
    {
        node.height = 1 + Self::height(&node.left).max(Self::height(&node.right));
    }

    fn razlika_leva_desna(node: &Node) -> (d: i32)
        requires
            0 <= stored_height(node.left) < height_limit(),
            0 <= stored_height(node.right) < height_limit(),
        ensures
            d == stored_height(node.left) - stored_height(node.right),
    {
        Self::height(&node.left) - Self::height(&node.right)
    }

    /// Left rotation around `z`: its right child `y` becomes the root of the subtree.
    fn rotate_left(mut z: Box<Node>) -> (y: Box<Node>)
        requires
            z.right is Some,
            heights_ok(z.left),
            heights_ok(z.right),
            bst(Some(z)),
            ht(z.left) + 2 <= height_limit(),
            ht(z.right) + 2 <= height_limit(),
        ensures
            y.key == z.right.unwrap().key,
            y.right == z.right.unwrap().right,
            y.left matches Some(x) && x.key == z.key && x.left == z.left && x.right
                == z.right.unwrap().left,
            heights_ok(Some(y)),
            bst(Some(y)),
            keys(Some(y)) == keys(Some(z)),
            y == rotated_left(z),
    {
        let ghost z0 = z;
        let ghost y0 = z.right.unwrap();
        proof {
            lemma_stored_height(z0.left);
            lemma_stored_height(y0.left);
            lemma_stored_height(y0.right);
        }
        let mut y = z.right.take().expect("right child must exist");
        let t2 = y.left.take();

        z.right = t2;
        Self::update_height(&mut z);
        proof {
            assert(heights_ok(Some(z)));
            lemma_stored_height(Some(z));
        }

        y.left = Some(z);
        Self::update_height(&mut y);
        proof {
            assert(heights_ok(Some(y)));
            assert(z0.right == Some(y0));
            assert(keys(z0.right) == keys(y0.left).union(keys(y0.right)).insert(y0.key));
            assert(bst(z0.right));
            assert forall|k: Key| #[trigger] keys(y0.left).contains(k) implies k > z0.key by {
                assert(keys(z0.right).contains(k));
            }
            assert(keys(Some(z)) =~= keys(z0.left).union(keys(y0.left)).insert(z0.key));
            assert(keys(Some(y)) =~= keys(Some(z0)));
            assert(bst(Some(z)));
            assert(keys(z0.right).contains(y0.key));
            assert forall|k: Key| #[trigger] keys(Some(z)).contains(k) implies k < y0.key by {
                if keys(z0.left).contains(k) {
                    assert(k < z0.key);
                }
            }
            assert(bst(Some(y)));
        }
        y
    }

    /// Right rotation around `z`: its left child `y` becomes the root of the subtree.
    fn rotate_right(mut z: Box<Node>) -> (y: Box<Node>)
        requires
            z.left is Some,
            heights_ok(z.left),
            heights_ok(z.right),
            bst(Some(z)),
            ht(z.left) + 2 <= height_limit(),
            ht(z.right) + 2 <= height_limit(),
        ensures
            y.key == z.left.unwrap().key,
            y.left == z.left.unwrap().left,
            y.right matches Some(x) && x.key == z.key && x.right == z.right && x.left
                == z.left.unwrap().right,
            heights_ok(Some(y)),
            bst(Some(y)),
            keys(Some(y)) == keys(Some(z)),
            y == rotated_right(z),
    {
        let ghost z0 = z;
        let ghost y0 = z.left.unwrap();
        proof {
            lemma_stored_height(z0.right);
            lemma_stored_height(y0.left);
            lemma_stored_height(y0.right);
        }
        let mut y = z.left.take().expect("left child must exist");
        let t3 = y.right.take();

        z.left = t3;
        Self::update_height(&mut z);
        proof {
            assert(heights_ok(Some(z)));
            lemma_stored_height(Some(z));
        }

        y.right = Some(z);
        Self::update_height(&mut y);
        proof {
            assert(heights_ok(Some(y)));
            assert(z0.left == Some(y0));
            assert(keys(z0.left) == keys(y0.left).union(keys(y0.right)).insert(y0.key));
            assert(bst(z0.left));
            assert forall|k: Key| #[trigger] keys(y0.right).contains(k) implies k < z0.key by {
                assert(keys(z0.left).contains(k));
            }
            assert(keys(Some(z)) =~= keys(y0.right).union(keys(z0.right)).insert(z0.key));
            assert(keys(Some(y)) =~= keys(Some(z0)));
            assert(bst(Some(z)));
            assert(keys(z0.left).contains(y0.key));
            assert forall|k: Key| #[trigger] keys(Some(z)).contains(k) implies k > y0.key by {
                if keys(z0.right).contains(k) {
                    assert(k > z0.key);
                }
            }
            assert(bst(Some(y)));
        }
        y
    }

    /// Restores the balance of `node` whose children are AVL trees with heights
    /// that differ by at most two.
    fn rebalance(mut node: Box<Node>) -> (r: Box<Node>)
        requires
            avl(node.left),
            avl(node.right),
            bst(Some(node)),
            heights_ok(Some(node)),
            ht(node.left) <= ht(node.right) + 2,
            ht(node.right) <= ht(node.left) + 2,
            ht(node.left) + 3 <= height_limit(),
            ht(node.right) + 3 <= height_limit(),
        ensures
            avl(Some(r)),
            keys(Some(r)) == keys(Some(node)),
            ht(Some(node)) <= ht(Some(r)) + 1,
            ht(Some(r)) <= ht(Some(node)),
            ht(node.left) <= ht(node.right) + 1 && ht(node.right) <= ht(node.left) + 1 ==> r
                == node,
    {
        let ghost n0 = node;
        proof {
            lemma_stored_height(n0.left);
            lemma_stored_height(n0.right);
        }
        let balance = Self::razlika_leva_desna(&node);

        if balance > 1 {
            let ghost l0 = n0.left.unwrap();
            proof {
                lemma_stored_height(l0.left);
                lemma_stored_height(l0.right);
                assert(avl(l0.left) && avl(l0.right));
            }
            let left_balance = match node.left.as_ref() {
                Some(left) => Self::razlika_leva_desna(left),
                None => 0,
            };

            if left_balance < 0 {
                let ghost m0 = l0.right.unwrap();
                proof {
                    assert(avl(m0.left) && avl(m0.right));
                }
                let left = node.left.take().expect("left child must exist");
                node.left = Some(Self::rotate_left(left));
                proof {
                    let l2 = node.left.unwrap();
                    let x = l2.left.unwrap();
                    assert(x.left == l0.left && x.right == m0.left && l2.right == m0.right);
                    assert(ht(l2.left) <= ht(n0.left));
                    assert(ht(node.left) <= ht(n0.left));
                    assert(keys(node.left) == keys(n0.left));
                    assert(bst(Some(node)));
                }
                let r = Self::rotate_right(node);
                proof {
                    let x = r.left.unwrap();
                    let y = r.right.unwrap();
                    assert(x.left == l0.left && x.right == m0.left);
                    assert(y.left == m0.right && y.right == n0.right);
                    assert(balanced(r.left));
                    assert(balanced(r.right));
                    assert(balanced(Some(r)));
                }
                return r;
            }
            let r = Self::rotate_right(node);
            proof {
                let y = r.right.unwrap();
                assert(y.left == l0.right && y.right == n0.right);
                assert(balanced(r.right));
                assert(balanced(Some(r)));
            }
            return r;
        }

        if balance < -1 {
            let ghost l0 = n0.right.unwrap();
            proof {
                lemma_stored_height(l0.left);
                lemma_stored_height(l0.right);
                assert(avl(l0.left) && avl(l0.right));
            }
            let right_balance = match node.right.as_ref() {
                Some(right) => Self::razlika_leva_desna(right),
                None => 0,
            };

            if right_balance > 0 {
                let ghost m0 = l0.left.unwrap();
                proof {
                    assert(avl(m0.left) && avl(m0.right));
                }
                let right = node.right.take().expect("right child must exist");
                node.right = Some(Self::rotate_right(right));
                proof {
                    let l2 = node.right.unwrap();
                    let x = l2.right.unwrap();
                    assert(x.right == l0.right && x.left == m0.right && l2.left == m0.left);
                    assert(ht(l2.right) <= ht(n0.right));
                    assert(ht(node.right) <= ht(n0.right));
                    assert(keys(node.right) == keys(n0.right));
                    assert(bst(Some(node)));
                }
                let r = Self::rotate_left(node);
                proof {
                    let x = r.right.unwrap();
                    let y = r.left.unwrap();
                    assert(x.right == l0.right && x.left == m0.right);
                    assert(y.right == m0.left && y.left == n0.left);
                    assert(balanced(r.left));
                    assert(balanced(r.right));
                    assert(balanced(Some(r)));
                }
                return r;
            }
            let r = Self::rotate_left(node);
            proof {
                let y = r.left.unwrap();
                assert(y.right == l0.left && y.left == n0.left);
                assert(balanced(r.left));
                assert(balanced(Some(r)));
            }
            return r;
        }

        node
    }
}

} // verus!
