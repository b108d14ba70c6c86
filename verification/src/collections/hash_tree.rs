use std::collections::HashMap;

use vstd::prelude::*;

use crate::collections::key::HashKey;

verus! {

broadcast use vstd::std_specs::hash::group_hash_axioms;

/// A node of the AVL tree: a value, the two subtrees, and the recorded
/// height of the node.
pub struct Entry<T> {
    pub data: T,
    pub left: Option<Box<Entry<T>>>,
    pub right: Option<Box<Entry<T>>>,
    pub height: usize,
}

/// The values of a subtree, by key.
pub open spec fn tree_map<T: HashKey>(link: Option<Box<Entry<T>>>) -> Map<u64, T>
    decreases link,
{
    match link {
        None => Map::empty(),
        Some(node) => tree_map(node.left).union_prefer_right(tree_map(node.right)).insert(
            node.data.key_of(),
            node.data,
        ),
    }
}

/// A node built from a value, two subtrees and a recorded height.
pub open spec fn node_of<T>(
    data: T,
    left: Option<Box<Entry<T>>>,
    right: Option<Box<Entry<T>>>,
    height: usize,
) -> Option<Box<Entry<T>>> {
    Some(Box::new(Entry { data, left, right, height }))
}

/// A tree rotated to the left: its right child on top, with the old root,
/// its left subtree and the right child's left subtree below it on the
/// left. A tree without a right child is unchanged.
pub open spec fn rotated_left<T>(link: Option<Box<Entry<T>>>) -> Option<Box<Entry<T>>> {
    match link {
        None => None,
        Some(x) => match x.right {
            None => link,
            Some(y) => {
                let h1 = refreshed_height(height_of(x.left), height_of(y.left));
                node_of(
                    y.data,
                    node_of(x.data, x.left, y.left, h1),
                    y.right,
                    refreshed_height(h1, height_of(y.right)),
                )
            },
        },
    }
}

/// A tree rotated to the right: its left child on top, with the old root,
/// the left child's right subtree and the old right subtree below it on
/// the right. A tree without a left child is unchanged.
pub open spec fn rotated_right<T>(link: Option<Box<Entry<T>>>) -> Option<Box<Entry<T>>> {
    match link {
        None => None,
        Some(x) => match x.left {
            None => link,
            Some(y) => {
                let h1 = refreshed_height(height_of(y.right), height_of(x.right));
                node_of(
                    y.data,
                    y.left,
                    node_of(x.data, y.right, x.right, h1),
                    refreshed_height(height_of(y.left), h1),
                )
            },
        },
    }
}

/// The double rotation that lifts the right grandchild of the left child.
pub open spec fn rotated_left_right<T>(link: Option<Box<Entry<T>>>) -> Option<Box<Entry<T>>> {
    match link {
        None => None,
        Some(x) => rotated_right(node_of(x.data, rotated_left(x.left), x.right, x.height)),
    }
}

/// The double rotation that lifts the left grandchild of the right child.
pub open spec fn rotated_right_left<T>(link: Option<Box<Entry<T>>>) -> Option<Box<Entry<T>>> {
    match link {
        None => None,
        Some(x) => rotated_left(node_of(x.data, x.left, rotated_right(x.right), x.height)),
    }
}

/// A tree rebalanced: when its left subtree is more than one taller, it
/// is rotated to the right (first rotating the left subtree to the left
/// when that leans right); when its right subtree is more than one taller,
/// it is rotated to the left (first rotating the right subtree to the
/// right when that leans left). Otherwise it is unchanged.
pub open spec fn rebalanced<T>(link: Option<Box<Entry<T>>>) -> Option<Box<Entry<T>>> {
    match link {
        None => None,
        Some(x) => if balance_of(link) > 1 {
            if balance_of(x.left) >= 0 {
                rotated_right(link)
            } else {
                rotated_left_right(link)
            }
        } else if balance_of(link) < -1 {
            if balance_of(x.right) > 0 {
                rotated_right_left(link)
            } else {
                rotated_left(link)
            }
        } else {
            link
        },
    }
}

/// A detached node holding `data`: no subtrees, height one.
pub open spec fn leaf<T>(data: T) -> Box<Entry<T>> {
    Box::new(Entry { data, left: None, right: None, height: 1 })
}

/// The tree after inserting a detached node: it goes down by key, a node
/// with the same key is replaced (the new node takes over its subtrees),
/// and every node on the way back up is rebuilt and rebalanced.
pub open spec fn inserted<T: HashKey>(root: Option<Box<Entry<T>>>, entry: Box<Entry<T>>) -> Option<
    Box<Entry<T>>,
>
    decreases root,
{
    match root {
        None => Some(entry),
        Some(node) => {
            let k = entry.data.key_of();
            let nk = node.data.key_of();
            if k < nk {
                let l = inserted(node.left, entry);
                rebalanced(
                    node_of(node.data, l, node.right, refreshed_height(height_of(l), height_of(node.right))),
                )
            } else if nk < k {
                let r = inserted(node.right, entry);
                rebalanced(
                    node_of(node.data, node.left, r, refreshed_height(height_of(node.left), height_of(r))),
                )
            } else {
                node_of(
                    entry.data,
                    node.left,
                    node.right,
                    refreshed_height(height_of(node.left), height_of(node.right)),
                )
            }
        },
    }
}

/// The value with the smallest key in a non-empty tree: the leftmost one.
pub open spec fn min_value<T>(link: Option<Box<Entry<T>>>) -> T
    decreases link,
{
    match link {
        None => arbitrary(),
        Some(node) => match node.left {
            None => node.data,
            Some(_) => min_value(node.left),
        },
    }
}

/// The tree after removing the node with `key`: a node with at most one
/// subtree gives way to it, a node with two is replaced by the smallest
/// value of its right subtree, and every node on the way back up is
/// rebuilt and rebalanced.
pub open spec fn removed<T: HashKey>(root: Option<Box<Entry<T>>>, key: u64) -> Option<Box<Entry<T>>>
    decreases root,
{
    match root {
        None => None,
        Some(node) => {
            let nk = node.data.key_of();
            if key < nk {
                let l = removed(node.left, key);
                rebalanced(
                    node_of(node.data, l, node.right, refreshed_height(height_of(l), height_of(node.right))),
                )
            } else if nk < key {
                let r = removed(node.right, key);
                rebalanced(
                    node_of(node.data, node.left, r, refreshed_height(height_of(node.left), height_of(r))),
                )
            } else {
                match node.left {
                    None => node.right,
                    Some(_) => match node.right {
                        None => node.left,
                        Some(_) => {
                            let m = min_value(node.right);
                            let r = removed(node.right, m.key_of());
                            rebalanced(
                                node_of(m, node.left, r, refreshed_height(height_of(node.left), height_of(r))),
                            )
                        },
                    },
                }
            }
        },
    }
}

/// An AVL tree: every node records one more than the height of its taller
/// subtree, and the heights of its two subtrees differ by at most one.
pub open spec fn is_avl<T>(link: Option<Box<Entry<T>>>) -> bool
    decreases link,
{
    match link {
        None => true,
        Some(n) => {
            let hl = height_of(n.left);
            let hr = height_of(n.right);
            &&& n.height == (if hl >= hr {
                hl
            } else {
                hr
            }) + 1
            &&& hl <= hr + 1
            &&& hr <= hl + 1
            &&& is_avl(n.left)
            &&& is_avl(n.right)
        },
    }
}

/// Every key in the left subtree of a node is smaller than the node's key,
/// and every key in its right subtree is larger, all the way down.
pub open spec fn is_bst<T: HashKey>(link: Option<Box<Entry<T>>>) -> bool
    decreases link,
{
    match link {
        None => true,
        Some(node) => {
            &&& forall|k: u64| #[trigger]
                tree_map(node.left).contains_key(k) ==> k < node.data.key_of()
            &&& forall|k: u64| #[trigger]
                tree_map(node.right).contains_key(k) ==> k > node.data.key_of()
            &&& is_bst(node.left)
            &&& is_bst(node.right)
        },
    }
}

/// The recorded height of a subtree (zero for an empty one).
pub open spec fn height_of<T>(link: Option<Box<Entry<T>>>) -> usize {
    match link {
        None => 0,
        Some(node) => node.height,
    }
}

/// The height a node records from its children: one more than the taller child.
pub open spec fn refreshed_height(l: usize, r: usize) -> usize {
    let m = if l >= r {
        l
    } else {
        r
    };
    if m < usize::MAX {
        (m + 1) as usize
    } else {
        m
    }
}

/// The difference between the recorded heights of the left and right
/// subtrees, kept within the range of `i64`.
pub open spec fn balance_of<T>(link: Option<Box<Entry<T>>>) -> i64 {
    match link {
        None => 0,
        Some(node) => {
            let d = height_of(node.left) - height_of(node.right);
            if d > i64::MAX {
                i64::MAX
            } else if d < i64::MIN {
                i64::MIN
            } else {
                d as i64
            }
        },
    }
}

/// Every key of a subtree has the key and value that the map of the
/// subtree gives it.
pub proof fn lemma_tree_map_keys<T: HashKey>(link: Option<Box<Entry<T>>>)
    ensures
        forall|k: u64| #[trigger] tree_map(link).contains_key(k) ==> tree_map(link)[k].key_of() == k,
    decreases link,
{
    match link {
        None => {
            assert(tree_map(link) == Map::<u64, T>::empty());
            assert(tree_map(link).dom() =~= Set::<u64>::empty());
        },
        Some(node) => {
            lemma_tree_map_keys(node.left);
            lemma_tree_map_keys(node.right);
            let ml = tree_map(node.left);
            let mr = tree_map(node.right);
            let u = ml.union_prefer_right(mr);
            assert forall|k: u64| #[trigger] u.contains_key(k) implies u[k].key_of() == k by {
                if mr.contains_key(k) {
                    assert(u[k] == mr[k]);
                } else {
                    assert(u[k] == ml[k]);
                }
            }
        },
    }
}

/// An AVL search tree holds at least as many values as it is tall, and
/// at least twice its height less two: its height is logarithmic in its
/// size, so it is far below the largest `usize`.
pub proof fn lemma_avl_size<T: HashKey>(link: Option<Box<Entry<T>>>)
    requires
        is_bst(link),
        is_avl(link),
    ensures
        tree_map(link).dom().finite(),
        tree_map(link).len() >= height_of(link),
        tree_map(link).len() + 2 >= 2 * height_of(link),
    decreases link,
{
    match link {
        None => {
            assert(tree_map(link).dom() =~= Set::<u64>::empty());
        },
        Some(node) => {
            lemma_avl_size(node.left);
            lemma_avl_size(node.right);
            let ml = tree_map(node.left);
            let mr = tree_map(node.right);
            let k = node.data.key_of();
            let u = ml.union_prefer_right(mr);
            assert(ml.dom().disjoint(mr.dom())) by {
                assert forall|q: u64| ml.dom().contains(q) implies !mr.dom().contains(q) by {
                    assert(ml.contains_key(q));
                    assert(q < k);
                }
            }
            assert(u.dom() =~= ml.dom() + mr.dom());
            vstd::set_lib::lemma_set_disjoint_lens(ml.dom(), mr.dom());
            assert(!u.dom().contains(k)) by {
                if ml.contains_key(k) {
                    assert(k < k);
                }
                if mr.contains_key(k) {
                    assert(k > k);
                }
            }
            assert(tree_map(link).dom() =~= u.dom().insert(k));
        },
    }
}

/// A value inserted into a tree is found under its key, and a removed key
/// is found no more.
pub proof fn lemma_get_after_insert<T: HashKey>(m: Map<u64, T>, x: T, k: u64)
    ensures
        m.insert(x.key_of(), x).contains_key(x.key_of()),
        m.insert(x.key_of(), x)[x.key_of()] == x,
        !m.remove(k).contains_key(k),
        k != x.key_of() ==> m.insert(x.key_of(), x).contains_key(k) == m.contains_key(k),
{
}

/// Builds a node from a value, its subtrees and a recorded height.
fn make_node<T: HashKey>(
    data: T,
    left: Option<Box<Entry<T>>>,
    right: Option<Box<Entry<T>>>,
    height: usize,
) -> (r: Box<Entry<T>>)
    ensures
        r.data == data,
        r.left == left,
        r.right == right,
        r.height == height,
{
    Box::new(Entry { data, left, right, height })
}

fn link_height<T>(link: &Option<Box<Entry<T>>>) -> (h: usize)
    ensures
        h == height_of(*link),
{
    match link {
        None => 0,
        Some(node) => node.height,
    }
}

fn refresh(l: usize, r: usize) -> (h: usize)
    ensures
        h == refreshed_height(l, r),
{
    let m = if l >= r {
        l
    } else {
        r
    };
    if m < usize::MAX {
        m + 1
    } else {
        m
    }
}

/// Returns the difference between the heights of the left and the right
/// subtrees of the supplied node (zero for an empty tree).
pub fn balance_factor<T>(entry: &Option<Box<Entry<T>>>) -> (r: i64)
    ensures
        r == balance_of(*entry),
{
    match entry {
        None => 0,
        Some(node) => {
            let l = link_height(&node.left) as i128;
            let r = link_height(&node.right) as i128;
            let d = l - r;
            if d > i64::MAX as i128 {
                i64::MAX
            } else if d < i64::MIN as i128 {
                i64::MIN
            } else {
                d as i64
            }
        },
    }
}

/// Rotates a tree to the left: the right child becomes the root. A tree
/// that is empty or has no right child is returned unchanged.
pub fn rr_rotate<T: HashKey>(old_root: Option<Box<Entry<T>>>) -> (r: Option<Box<Entry<T>>>)
    ensures
        r == rotated_left(old_root),
        is_bst(old_root) ==> is_bst(r) && tree_map(r) == tree_map(old_root),
        old_root is None <==> r is None,
        (old_root is Some && old_root->0.right is None) ==> r == old_root,
{
    match old_root {
        None => None,
        Some(root_box) => {
            let root = *root_box;
            match root.right {
                None => Some(Box::new(root)),
                Some(new_root_box) => {
                    let new_root = *new_root_box;
                    let lh = link_height(&root.left);
                    let mh = link_height(&new_root.left);
                    let h1 = refresh(lh, mh);
                    let lower = make_node(root.data, root.left, new_root.left, h1);
                    let rh = link_height(&new_root.right);
                    let h2 = refresh(h1, rh);
                    let top = make_node(new_root.data, Some(lower), new_root.right, h2);
                    let r = Some(top);
                    proof {
                        if is_bst(old_root) {
                            lemma_rotate_left(old_root, r);
                        }
                    }
                    r
                },
            }
        },
    }
}

/// Rotates a tree to the right: the left child becomes the root. A tree
/// that is empty or has no left child is returned unchanged.
pub fn ll_rotate<T: HashKey>(old_root: Option<Box<Entry<T>>>) -> (r: Option<Box<Entry<T>>>)
    ensures
        r == rotated_right(old_root),
        is_bst(old_root) ==> is_bst(r) && tree_map(r) == tree_map(old_root),
        old_root is None <==> r is None,
        (old_root is Some && old_root->0.left is None) ==> r == old_root,
{
    match old_root {
        None => None,
        Some(root_box) => {
            let root = *root_box;
            match root.left {
                None => Some(Box::new(root)),
                Some(new_root_box) => {
                    let new_root = *new_root_box;
                    let mh = link_height(&new_root.right);
                    let rh = link_height(&root.right);
                    let h1 = refresh(mh, rh);
                    let lower = make_node(root.data, new_root.right, root.right, h1);
                    let lh = link_height(&new_root.left);
                    let h2 = refresh(lh, h1);
                    let top = make_node(new_root.data, new_root.left, Some(lower), h2);
                    let r = Some(top);
                    proof {
                        if is_bst(old_root) {
                            lemma_rotate_right(old_root, r);
                        }
                    }
                    r
                },
            }
        },
    }
}

/// Turning `before` (a node with a right child) into `after` (that right
/// child on top, the old root as its left child) keeps the values and the
/// search order.
proof fn lemma_rotate_left<T: HashKey>(before: Option<Box<Entry<T>>>, after: Option<Box<Entry<T>>>)
    requires
        before is Some,
        before->0.right is Some,
        after is Some,
        after->0.left is Some,
        after->0.data == before->0.right->0.data,
        after->0.right == before->0.right->0.right,
        after->0.left->0.data == before->0.data,
        after->0.left->0.left == before->0.left,
        after->0.left->0.right == before->0.right->0.left,
        is_bst(before),
    ensures
        tree_map(after) == tree_map(before),
        is_bst(after),
{
    let bx = before->0;
    let by = bx.right->0;
    let ay = after->0;
    let ax = ay.left->0;
    let x = bx.data;
    let y = by.data;
    let ma = tree_map(bx.left);
    let mb = tree_map(by.left);
    let mc = tree_map(by.right);
    assert(is_bst(bx.right));
    assert(is_bst(by.left) && is_bst(by.right));
    assert(forall|k: u64| #[trigger] mb.contains_key(k) ==> k < y.key_of());
    assert(forall|k: u64| #[trigger] mc.contains_key(k) ==> k > y.key_of());
    assert(tree_map(bx.right) == mb.union_prefer_right(mc).insert(y.key_of(), y));
    assert(tree_map(ay.left) == ma.union_prefer_right(mb).insert(x.key_of(), x));
    let mr = tree_map(bx.right);
    let mx = tree_map(ay.left);
    assert(mr.contains_key(y.key_of()));
    assert(y.key_of() > x.key_of());
    assert(tree_map(after) == mx.union_prefer_right(mc).insert(y.key_of(), y));
    assert(tree_map(before) == ma.union_prefer_right(mr).insert(x.key_of(), x));
    assert(tree_map(after) =~= tree_map(before)) by {
        assert forall|k: u64| #[trigger] tree_map(after).contains_key(k) == tree_map(before).contains_key(k) by {}
        assert forall|k: u64| tree_map(after).contains_key(k) implies #[trigger] tree_map(after)[k] == tree_map(before)[k] by {
            if k == y.key_of() {
                assert(!ma.contains_key(k));
                assert(mr[k] == y);
            } else if k == x.key_of() {
                assert(mx[k] == x);
                assert(!mc.contains_key(k));
            } else if mc.contains_key(k) {
                assert(mr.contains_key(k));
                assert(!mb.contains_key(k));
                assert(!ma.contains_key(k));
                assert(mr[k] == mc[k]);
            } else if mb.contains_key(k) {
                assert(mr.contains_key(k));
                assert(!ma.contains_key(k));
                assert(mr[k] == mb[k]);
                assert(mx[k] == mb[k]);
            } else {
                assert(ma.contains_key(k));
                assert(mx[k] == ma[k]);
                assert(!mr.contains_key(k));
            }
        }
    }
    assert(is_bst(ay.left)) by {
        assert forall|k: u64| #[trigger] mb.contains_key(k) implies k > x.key_of() by {
            assert(tree_map(bx.right).contains_key(k));
        }
    }
    assert forall|k: u64| #[trigger] tree_map(ay.left).contains_key(k) implies k < y.key_of() by {
        if ma.contains_key(k) {
            assert(tree_map(bx.right).contains_key(y.key_of()));
        }
    }
}

/// Turning `before` (a node with a left child) into `after` (that left
/// child on top, the old root as its right child) keeps the values and the
/// search order.
proof fn lemma_rotate_right<T: HashKey>(before: Option<Box<Entry<T>>>, after: Option<Box<Entry<T>>>)
    requires
        before is Some,
        before->0.left is Some,
        after is Some,
        after->0.right is Some,
        after->0.data == before->0.left->0.data,
        after->0.left == before->0.left->0.left,
        after->0.right->0.data == before->0.data,
        after->0.right->0.right == before->0.right,
        after->0.right->0.left == before->0.left->0.right,
        is_bst(before),
    ensures
        tree_map(after) == tree_map(before),
        is_bst(after),
{
    let bx = before->0;
    let by = bx.left->0;
    let ay = after->0;
    let ax = ay.right->0;
    let x = bx.data;
    let y = by.data;
    let mc = tree_map(bx.right);
    let ma = tree_map(by.left);
    let mb = tree_map(by.right);
    assert(is_bst(bx.left));
    assert(is_bst(by.left) && is_bst(by.right));
    assert(forall|k: u64| #[trigger] ma.contains_key(k) ==> k < y.key_of());
    assert(forall|k: u64| #[trigger] mb.contains_key(k) ==> k > y.key_of());
    assert(tree_map(bx.left) == ma.union_prefer_right(mb).insert(y.key_of(), y));
    assert(tree_map(ay.right) == mb.union_prefer_right(mc).insert(x.key_of(), x));
    let ml = tree_map(bx.left);
    let mx = tree_map(ay.right);
    assert(ml.contains_key(y.key_of()));
    assert(y.key_of() < x.key_of());
    assert(tree_map(after) == ma.union_prefer_right(mx).insert(y.key_of(), y));
    assert(tree_map(before) == ml.union_prefer_right(mc).insert(x.key_of(), x));
    assert(tree_map(after) =~= tree_map(before)) by {
        assert forall|k: u64| #[trigger] tree_map(after).contains_key(k) == tree_map(before).contains_key(k) by {}
        assert forall|k: u64| tree_map(after).contains_key(k) implies #[trigger] tree_map(after)[k] == tree_map(before)[k] by {
            if k == y.key_of() {
                assert(!mc.contains_key(k));
                assert(ml[k] == y);
            } else if k == x.key_of() {
                assert(mx[k] == x);
                assert(!ma.contains_key(k));
            } else if ma.contains_key(k) {
                assert(ml.contains_key(k));
                assert(!mb.contains_key(k));
                assert(!mc.contains_key(k));
                assert(ml[k] == ma[k]);
                assert(!mx.contains_key(k));
            } else if mb.contains_key(k) {
                assert(ml.contains_key(k));
                assert(!mc.contains_key(k));
                assert(ml[k] == mb[k]);
                assert(mx[k] == mb[k]);
            } else {
                assert(mc.contains_key(k));
                assert(mx[k] == mc[k]);
                assert(!ml.contains_key(k));
            }
        }
    }
    assert(is_bst(ay.right)) by {
        assert forall|k: u64| #[trigger] mb.contains_key(k) implies k < x.key_of() by {
            assert(tree_map(bx.left).contains_key(k));
        }
    }
    assert forall|k: u64| #[trigger] tree_map(ay.right).contains_key(k) implies k > y.key_of() by {
        if mc.contains_key(k) {
            assert(k > x.key_of());
        }
    }
}


/// Rotates the left subtree to the left, then the tree to the right.
/// An empty tree is returned unchanged.
pub fn lr_rotate<T: HashKey>(old_root: Option<Box<Entry<T>>>) -> (r: Option<Box<Entry<T>>>)
    ensures
        r == rotated_left_right(old_root),
        is_bst(old_root) ==> is_bst(r) && tree_map(r) == tree_map(old_root),
        old_root is None <==> r is None,
{
    match old_root {
        None => None,
        Some(root_box) => {
            let root = *root_box;
            let ghost left = root.left;
            let new_left = rr_rotate(root.left);
            let mid = Some(make_node(root.data, new_left, root.right, root.height));
            proof {
                if is_bst(old_root) {
                    assert(is_bst(left));
                    assert(tree_map(new_left) == tree_map(left));
                    assert(tree_map(mid) == tree_map(old_root));
                }
            }
            ll_rotate(mid)
        },
    }
}

/// Rotates the right subtree to the right, then the tree to the left.
/// An empty tree is returned unchanged.
pub fn rl_rotate<T: HashKey>(old_root: Option<Box<Entry<T>>>) -> (r: Option<Box<Entry<T>>>)
    ensures
        r == rotated_right_left(old_root),
        is_bst(old_root) ==> is_bst(r) && tree_map(r) == tree_map(old_root),
        old_root is None <==> r is None,
{
    match old_root {
        None => None,
        Some(root_box) => {
            let root = *root_box;
            let ghost right = root.right;
            let new_right = ll_rotate(root.right);
            let mid = Some(make_node(root.data, root.left, new_right, root.height));
            proof {
                if is_bst(old_root) {
                    assert(is_bst(right));
                    assert(tree_map(new_right) == tree_map(right));
                    assert(tree_map(mid) == tree_map(old_root));
                }
            }
            rr_rotate(mid)
        },
    }
}

/// Rebalances a node whose subtrees differ in height by more than one,
/// with the single or double rotation that the shape calls for. A balanced
/// or empty tree is returned unchanged.
pub fn balance_entry<T: HashKey>(entry: Option<Box<Entry<T>>>) -> (r: Option<Box<Entry<T>>>)
    ensures
        r == rebalanced(entry),
        is_bst(entry) ==> is_bst(r) && tree_map(r) == tree_map(entry),
        entry is None <==> r is None,
        -1 <= balance_of(entry) <= 1 ==> r == entry,
{
    let factor = balance_factor(&entry);
    if factor > 1 {
        let left_factor = match &entry {
            Some(node) => balance_factor(&node.left),
            None => 0,
        };
        if left_factor >= 0 {
            return ll_rotate(entry);
        } else {
            return lr_rotate(entry);
        }
    }
    if factor < -1 {
        let right_factor = match &entry {
            Some(node) => balance_factor(&node.right),
            None => 0,
        };
        if right_factor > 0 {
            return rl_rotate(entry);
        } else {
            return rr_rotate(entry);
        }
    }
    entry
}

/// Builds a node from a value and two subtrees, records its height from
/// theirs, and rebalances it.
fn rebuild<T: HashKey>(
    data: T,
    left: Option<Box<Entry<T>>>,
    right: Option<Box<Entry<T>>>,
) -> (r: Option<Box<Entry<T>>>)
    ensures
        ({
            let n = Some(Box::new(Entry { data: data, left: left, right: right, height: 0 }));
            &&& is_bst(n) ==> is_bst(r) && tree_map(r) == tree_map(n)
        }),
        r == rebalanced(
            node_of(data, left, right, refreshed_height(height_of(left), height_of(right))),
        ),
        r is Some,
{
    let rh = link_height(&right);
    let lh = link_height(&left);
    let h = refresh(lh, rh);
    let ghost l0 = left;
    let ghost r0 = right;
    let n = Some(make_node(data, left, right, h));
    proof {
        let n0 = Some(Box::new(Entry { data: data, left: l0, right: r0, height: 0 }));
        assert(tree_map(n) == tree_map(n0));
        assert(is_bst(n) == is_bst(n0));
    }
    balance_entry(n)
}

/// Rebuilding a node after its left subtree grew by at most one (and, when
/// it grew to two or more, leans to one side) gives an AVL tree that is as
/// tall as the node was, or one taller and leaning to one side.
proof fn lemma_avl_grow_left<T>(
    data: T,
    old_left: Option<Box<Entry<T>>>,
    new_left: Option<Box<Entry<T>>>,
    right: Option<Box<Entry<T>>>,
)
    requires
        is_avl(new_left),
        is_avl(right),
        height_of(old_left) <= height_of(right) + 1,
        height_of(right) <= height_of(old_left) + 1,
        height_of(new_left) == height_of(old_left) || height_of(new_left) == height_of(old_left)
            + 1,
        height_of(new_left) == height_of(old_left) + 1 ==> new_left is Some,
        height_of(new_left) == height_of(old_left) + 1 && height_of(new_left) >= 2 ==> balance_of(
            new_left,
        ) != 0,
        height_of(new_left) + 4 < usize::MAX,
        height_of(right) + 4 < usize::MAX,
    ensures
        ({
            let hl0 = height_of(old_left);
            let hr = height_of(right);
            let h0 = (if hl0 >= hr {
                hl0
            } else {
                hr
            }) + 1;
            let res = rebalanced(
                node_of(data, new_left, right, refreshed_height(height_of(new_left), hr)),
            );
            &&& is_avl(res)
            &&& res is Some
            &&& height_of(res) == h0 || height_of(res) == h0 + 1
            &&& height_of(res) == h0 + 1 ==> height_of(res) >= 2 && balance_of(res) != 0
        }),
{
    let hl = height_of(new_left);
    let hr = height_of(right);
    let node = node_of(data, new_left, right, refreshed_height(hl, hr));
    assert(balance_of(node) == hl - hr);
    if hl == hr + 2 {
        let y = new_left->0;
        assert(is_avl(y.left) && is_avl(y.right));
        if balance_of(new_left) >= 0 {
            assert(height_of(y.left) == hr + 1);
            assert(height_of(y.right) == hr);
            let res = rotated_right(node);
            let lower = node_of(data, y.right, right, refreshed_height(hr, hr));
            assert(res == node_of(y.data, y.left, lower, refreshed_height((hr + 1) as usize, (hr + 1) as usize)));
            assert(is_avl(lower));
        } else {
            assert(height_of(y.right) == hr + 1);
            assert(height_of(y.left) == hr);
            let m = y.right->0;
            assert(is_avl(m.left) && is_avl(m.right));
            let a = height_of(m.left);
            let b = height_of(m.right);
            let h1p = refreshed_height(hr, a);
            assert(h1p == hr + 1);
            let lp = node_of(y.data, y.left, m.left, h1p);
            let p = node_of(m.data, lp, m.right, refreshed_height(h1p, b));
            assert(rotated_left(new_left) == p);
            let mid = node_of(data, p, right, node->0.height);
            let rp = node_of(data, m.right, right, refreshed_height(b, hr));
            assert(rotated_right(mid) == node_of(m.data, lp, rp, refreshed_height(h1p, refreshed_height(b, hr))));
            assert(is_avl(lp));
            assert(is_avl(rp));
        }
    } else {
        assert(rebalanced(node) == node);
    }
}

/// Rebuilding a node after its right subtree grew by at most one (and,
/// when it grew to two or more, leans to one side) gives an AVL tree that
/// is as tall as the node was, or one taller and leaning to one side.
proof fn lemma_avl_grow_right<T>(
    data: T,
    left: Option<Box<Entry<T>>>,
    old_right: Option<Box<Entry<T>>>,
    new_right: Option<Box<Entry<T>>>,
)
    requires
        is_avl(left),
        is_avl(new_right),
        height_of(old_right) <= height_of(left) + 1,
        height_of(left) <= height_of(old_right) + 1,
        height_of(new_right) == height_of(old_right) || height_of(new_right) == height_of(
            old_right,
        ) + 1,
        height_of(new_right) == height_of(old_right) + 1 ==> new_right is Some,
        height_of(new_right) == height_of(old_right) + 1 && height_of(new_right) >= 2 ==> balance_of(
            new_right,
        ) != 0,
        height_of(new_right) + 4 < usize::MAX,
        height_of(left) + 4 < usize::MAX,
    ensures
        ({
            let hl = height_of(left);
            let hr0 = height_of(old_right);
            let h0 = (if hl >= hr0 {
                hl
            } else {
                hr0
            }) + 1;
            let res = rebalanced(
                node_of(data, left, new_right, refreshed_height(hl, height_of(new_right))),
            );
            &&& is_avl(res)
            &&& res is Some
            &&& height_of(res) == h0 || height_of(res) == h0 + 1
            &&& height_of(res) == h0 + 1 ==> height_of(res) >= 2 && balance_of(res) != 0
        }),
{
    let hl = height_of(left);
    let hr = height_of(new_right);
    let node = node_of(data, left, new_right, refreshed_height(hl, hr));
    assert(balance_of(node) == hl - hr);
    if hr == hl + 2 {
        let y = new_right->0;
        assert(is_avl(y.left) && is_avl(y.right));
        if balance_of(new_right) > 0 {
            assert(height_of(y.left) == hl + 1);
            assert(height_of(y.right) == hl);
            let m = y.left->0;
            assert(is_avl(m.left) && is_avl(m.right));
            let a = height_of(m.left);
            let b = height_of(m.right);
            let h1p = refreshed_height(b, hl);
            assert(h1p == hl + 1);
            let rp = node_of(y.data, m.right, y.right, h1p);
            let p = node_of(m.data, m.left, rp, refreshed_height(a, h1p));
            assert(rotated_right(new_right) == p);
            let mid = node_of(data, left, p, node->0.height);
            let lp = node_of(data, left, m.left, refreshed_height(hl, a));
            assert(rotated_left(mid) == node_of(m.data, lp, rp, refreshed_height(refreshed_height(hl, a), h1p)));
            assert(is_avl(lp));
            assert(is_avl(rp));
        } else {
            assert(height_of(y.right) == hl + 1);
            assert(height_of(y.left) == hl);
            let res = rotated_left(node);
            let lower = node_of(data, left, y.left, refreshed_height(hl, hl));
            assert(res == node_of(y.data, lower, y.right, refreshed_height((hl + 1) as usize, (hl + 1) as usize)));
            assert(is_avl(lower));
        }
    } else {
        assert(rebalanced(node) == node);
    }
}

/// Rebuilding a node after its left subtree lost at most one level gives
/// an AVL tree that is as tall as the node was, or one level shorter.
proof fn lemma_avl_shrink_left<T>(
    data: T,
    old_left: Option<Box<Entry<T>>>,
    new_left: Option<Box<Entry<T>>>,
    right: Option<Box<Entry<T>>>,
)
    requires
        is_avl(new_left),
        is_avl(right),
        height_of(old_left) <= height_of(right) + 1,
        height_of(right) <= height_of(old_left) + 1,
        height_of(new_left) == height_of(old_left) || height_of(new_left) + 1 == height_of(
            old_left,
        ),
        height_of(old_left) + 4 < usize::MAX,
        height_of(right) + 4 < usize::MAX,
    ensures
        ({
            let hl0 = height_of(old_left);
            let hr = height_of(right);
            let h0 = (if hl0 >= hr {
                hl0
            } else {
                hr
            }) + 1;
            let res = rebalanced(
                node_of(data, new_left, right, refreshed_height(height_of(new_left), hr)),
            );
            &&& is_avl(res)
            &&& res is Some
            &&& height_of(res) <= h0
            &&& h0 <= height_of(res) + 1
        }),
{
    let hl = height_of(new_left);
    let hr = height_of(right);
    let node = node_of(data, new_left, right, refreshed_height(hl, hr));
    assert(balance_of(node) == hl - hr);
    if hr == hl + 2 {
        let y = right->0;
        assert(is_avl(y.left) && is_avl(y.right));
        if balance_of(right) > 0 {
            assert(height_of(y.left) == hl + 1);
            assert(height_of(y.right) == hl);
            let m = y.left->0;
            assert(is_avl(m.left) && is_avl(m.right));
            let a = height_of(m.left);
            let b = height_of(m.right);
            let h1p = refreshed_height(b, hl);
            assert(h1p == hl + 1);
            let rp = node_of(y.data, m.right, y.right, h1p);
            let p = node_of(m.data, m.left, rp, refreshed_height(a, h1p));
            assert(rotated_right(right) == p);
            let mid = node_of(data, new_left, p, node->0.height);
            let lp = node_of(data, new_left, m.left, refreshed_height(hl, a));
            assert(rotated_left(mid) == node_of(m.data, lp, rp, refreshed_height(refreshed_height(hl, a), h1p)));
            assert(is_avl(lp));
            assert(is_avl(rp));
        } else {
            assert(height_of(y.right) == hl + 1);
            let yl = height_of(y.left);
            assert(yl == hl || yl == hl + 1);
            let res = rotated_left(node);
            let lower = node_of(data, new_left, y.left, refreshed_height(hl, yl));
            assert(res == node_of(y.data, lower, y.right, refreshed_height(refreshed_height(hl, yl), (hl + 1) as usize)));
            assert(is_avl(lower));
        }
    } else {
        assert(rebalanced(node) == node);
    }
}

/// Rebuilding a node after its right subtree lost at most one level gives
/// an AVL tree that is as tall as the node was, or one level shorter.
proof fn lemma_avl_shrink_right<T>(
    data: T,
    left: Option<Box<Entry<T>>>,
    old_right: Option<Box<Entry<T>>>,
    new_right: Option<Box<Entry<T>>>,
)
    requires
        is_avl(left),
        is_avl(new_right),
        height_of(old_right) <= height_of(left) + 1,
        height_of(left) <= height_of(old_right) + 1,
        height_of(new_right) == height_of(old_right) || height_of(new_right) + 1 == height_of(
            old_right,
        ),
        height_of(old_right) + 4 < usize::MAX,
        height_of(left) + 4 < usize::MAX,
    ensures
        ({
            let hl = height_of(left);
            let hr0 = height_of(old_right);
            let h0 = (if hl >= hr0 {
                hl
            } else {
                hr0
            }) + 1;
            let res = rebalanced(
                node_of(data, left, new_right, refreshed_height(hl, height_of(new_right))),
            );
            &&& is_avl(res)
            &&& res is Some
            &&& height_of(res) <= h0
            &&& h0 <= height_of(res) + 1
        }),
{
    let hl = height_of(left);
    let hr = height_of(new_right);
    let node = node_of(data, left, new_right, refreshed_height(hl, hr));
    assert(balance_of(node) == hl - hr);
    if hl == hr + 2 {
        let y = left->0;
        assert(is_avl(y.left) && is_avl(y.right));
        if balance_of(left) >= 0 {
            assert(height_of(y.left) == hr + 1);
            let yr = height_of(y.right);
            assert(yr == hr || yr == hr + 1);
            let res = rotated_right(node);
            let lower = node_of(data, y.right, new_right, refreshed_height(yr, hr));
            assert(res == node_of(y.data, y.left, lower, refreshed_height((hr + 1) as usize, refreshed_height(yr, hr))));
            assert(is_avl(lower));
        } else {
            assert(height_of(y.right) == hr + 1);
            assert(height_of(y.left) == hr);
            let m = y.right->0;
            assert(is_avl(m.left) && is_avl(m.right));
            let a = height_of(m.left);
            let b = height_of(m.right);
            let h1p = refreshed_height(hr, a);
            assert(h1p == hr + 1);
            let lp = node_of(y.data, y.left, m.left, h1p);
            let p = node_of(m.data, lp, m.right, refreshed_height(h1p, b));
            assert(rotated_left(left) == p);
            let mid = node_of(data, p, new_right, node->0.height);
            let rp = node_of(data, m.right, new_right, refreshed_height(b, hr));
            assert(rotated_right(mid) == node_of(m.data, lp, rp, refreshed_height(h1p, refreshed_height(b, hr))));
            assert(is_avl(lp));
            assert(is_avl(rp));
        }
    } else {
        assert(rebalanced(node) == node);
    }
}

/// Inserts a detached node into the tree and returns the new root. A node
/// already in the tree with the same key is replaced by the new one, which
/// takes over its subtrees and its height.
pub fn insert_entry<T: HashKey>(root: Option<Box<Entry<T>>>, entry: Box<Entry<T>>) -> (r: Option<
    Box<Entry<T>>,
>)
    requires
        is_bst(root),
        entry.left is None,
        entry.right is None,
    ensures
        r == inserted(root, entry),
        is_bst(r),
        tree_map(r) == tree_map(root).insert(entry.data.key_of(), entry.data),
        r is Some,
        is_avl(root) && entry.height == 1 && height_of(root) + 5 < usize::MAX ==> {
            &&& is_avl(r)
            &&& height_of(r) == height_of(root) || height_of(r) == height_of(root) + 1
            &&& height_of(r) == height_of(root) + 1 && height_of(r) >= 2 ==> balance_of(r) != 0
        },
    decreases root,
{
    match root {
        None => {
            proof {
                assert(tree_map(entry.left) =~= Map::<u64, T>::empty());
                assert(tree_map(entry.right) =~= Map::<u64, T>::empty());
                assert(Map::<u64, T>::empty().union_prefer_right(Map::<u64, T>::empty()) =~= Map::<u64, T>::empty());
                assert(tree_map(Some(entry)) =~= Map::<u64, T>::empty().insert(entry.data.key_of(), entry.data));
                assert(tree_map(root) == Map::<u64, T>::empty());
            }
            Some(entry)
        },
        Some(node_box) => {
            let node = *node_box;
            let k = entry.data.key();
            let nk = node.data.key();
            let ghost x = entry.data;
            let ghost ml = tree_map(node.left);
            let ghost mr = tree_map(node.right);
            proof {
                lemma_tree_map_keys(node.left);
                lemma_tree_map_keys(node.right);
            }
            if k < nk {
                let ghost nright = node.right;
                let ghost ndata = node.data;
                let ghost nleft = node.left;
                let new_left = insert_entry(node.left, entry);
                let r = rebuild(node.data, new_left, node.right);
                proof {
                    if is_avl(root) && entry.height == 1 && height_of(root) + 5 < usize::MAX {
                        lemma_avl_grow_left(ndata, nleft, new_left, nright);
                    }
                    let n0 = Some(Box::new(Entry { data: ndata, left: new_left, right: nright, height: 0 }));
                    assert forall|q: u64| #[trigger] tree_map(new_left).contains_key(q) implies q < ndata.key_of() by {
                        if q != k {
                            assert(ml.contains_key(q));
                        }
                    }
                    assert(is_bst(n0));
                    assert(tree_map(n0) =~= tree_map(root).insert(k, x)) by {
                        assert(!mr.contains_key(k));
                    }
                }
                r
            } else if nk < k {
                let ghost nleft = node.left;
                let ghost ndata = node.data;
                let ghost nright = node.right;
                let new_right = insert_entry(node.right, entry);
                let r = rebuild(node.data, node.left, new_right);
                proof {
                    if is_avl(root) && entry.height == 1 && height_of(root) + 5 < usize::MAX {
                        lemma_avl_grow_right(ndata, nleft, nright, new_right);
                    }
                    let n0 = Some(Box::new(Entry { data: ndata, left: nleft, right: new_right, height: 0 }));
                    assert forall|q: u64| #[trigger] tree_map(new_right).contains_key(q) implies q > ndata.key_of() by {
                        if q != k {
                            assert(mr.contains_key(q));
                        }
                    }
                    assert(is_bst(n0));
                    assert(tree_map(n0) =~= tree_map(root).insert(k, x)) by {
                        assert forall|q: u64| #[trigger] tree_map(n0).contains_key(q) implies tree_map(n0)[q] == tree_map(root).insert(k, x)[q] by {
                            if ml.contains_key(q) {
                                assert(q < nk);
                                assert(!tree_map(new_right).contains_key(q));
                            }
                        }
                    }
                }
                r
            } else {
                let mut e = *entry;
                let h = refresh(link_height(&node.left), link_height(&node.right));
                e.left = node.left;
                e.right = node.right;
                e.height = h;
                let r = Some(Box::new(e));
                proof {
                    assert(tree_map(r) =~= tree_map(root).insert(k, x));
                }
                r
            }
        },
    }
}

/// Returns the value with the smallest key in the tree, or `None` if the
/// tree is empty.
pub fn find_min<T: HashKey>(root: &Option<Box<Entry<T>>>) -> (r: Option<T>)
    requires
        is_bst(*root),
    ensures
        match r {
            Some(m) => {
                &&& tree_map(*root).contains_key(m.key_of())
                &&& tree_map(*root)[m.key_of()] == m
                &&& forall|q: u64| #[trigger] tree_map(*root).contains_key(q) ==> m.key_of() <= q
            },
            None => root is None,
        },
        root is Some ==> r == Some(min_value(*root)),
    decreases *root,
{
    match root {
        None => None,
        Some(node) => {
            proof {
                lemma_tree_map_keys(node.left);
                lemma_tree_map_keys(node.right);
            }
            match &node.left {
                None => {
                    proof {
                        assert(tree_map(node.left) == Map::<u64, T>::empty());
                        assert forall|q: u64| #[trigger] tree_map(*root).contains_key(q) implies node.data.key_of() <= q by {
                            if q != node.data.key_of() {
                                assert(tree_map(node.right).contains_key(q));
                            }
                        }
                    }
                    Some(node.data)
                },
                Some(_) => {
                    let m = find_min(&node.left);
                    proof {
                        let ml = tree_map(node.left);
                        let mr = tree_map(node.right);
                        let mm = m.unwrap();
                        assert(ml.contains_key(mm.key_of()));
                        assert(mm.key_of() < node.data.key_of());
                        assert(!mr.contains_key(mm.key_of()));
                        assert forall|q: u64| #[trigger] tree_map(*root).contains_key(q) implies mm.key_of() <= q by {
                            if mr.contains_key(q) {
                                assert(q > node.data.key_of());
                            } else if q != node.data.key_of() {
                                assert(ml.contains_key(q));
                            }
                        }
                    }
                    m
                },
            }
        },
    }
}


/// Removes the node with the supplied key from the tree. Returns the new
/// root, and the value and recorded height of the removed node (`None` if
/// no node has the key).
///
/// A node with two subtrees is replaced by the smallest node of its right
/// subtree. Every node on the way back up is rebuilt and rebalanced, so an
/// AVL tree stays one, as tall as before or one level shorter.
pub fn remove_entry<T: HashKey>(root: Option<Box<Entry<T>>>, key: u64) -> (r: (
    Option<Box<Entry<T>>>,
    Option<(T, usize)>,
))
    requires
        is_bst(root),
    ensures
        r.0 == removed(root, key),
        is_bst(r.0),
        tree_map(r.0) == tree_map(root).remove(key),
        match r.1 {
            Some((d, _)) => tree_map(root).contains_key(key) && d == tree_map(root)[key],
            None => !tree_map(root).contains_key(key),
        },
        is_avl(root) && height_of(root) + 5 < usize::MAX ==> {
            &&& is_avl(r.0)
            &&& height_of(r.0) <= height_of(root)
            &&& height_of(root) <= height_of(r.0) + 1
        },
    decreases root,
{
    match root {
        None => {
            proof {
                assert(tree_map(root).dom() =~= Set::<u64>::empty());
                assert(tree_map(root).remove(key) =~= tree_map(root));
            }
            (None, None)
        },
        Some(node_box) => {
            let node = *node_box;
            let nk = node.data.key();
            let ghost ml = tree_map(node.left);
            let ghost mr = tree_map(node.right);
            let ghost ndata = node.data;
            let ghost m = tree_map(root);
            proof {
                lemma_tree_map_keys(node.left);
                lemma_tree_map_keys(node.right);
            }
            if key < nk {
                let ghost nright = node.right;
                let ghost nleft = node.left;
                let (new_left, removed) = remove_entry(node.left, key);
                let r = rebuild(node.data, new_left, node.right);
                proof {
                    if is_avl(root) && height_of(root) + 5 < usize::MAX {
                        lemma_avl_shrink_left(ndata, nleft, new_left, nright);
                    }
                    let n0 = Some(Box::new(Entry { data: ndata, left: new_left, right: nright, height: 0 }));
                    assert forall|q: u64| #[trigger] tree_map(new_left).contains_key(q) implies q < nk by {
                        assert(ml.contains_key(q));
                    }
                    assert(is_bst(n0));
                    assert(!mr.contains_key(key));
                    assert(tree_map(n0) =~= m.remove(key));
                }
                (r, removed)
            } else if nk < key {
                let ghost nleft = node.left;
                let ghost nright = node.right;
                let (new_right, removed) = remove_entry(node.right, key);
                let r = rebuild(node.data, node.left, new_right);
                proof {
                    if is_avl(root) && height_of(root) + 5 < usize::MAX {
                        lemma_avl_shrink_right(ndata, nleft, nright, new_right);
                    }
                    let n0 = Some(Box::new(Entry { data: ndata, left: nleft, right: new_right, height: 0 }));
                    assert forall|q: u64| #[trigger] tree_map(new_right).contains_key(q) implies q > nk by {
                        assert(mr.contains_key(q));
                    }
                    assert(is_bst(n0));
                    assert(!ml.contains_key(key));
                    assert(tree_map(n0) =~= m.remove(key)) by {
                        assert forall|q: u64| #[trigger] tree_map(n0).contains_key(q) implies tree_map(n0)[q] == m.remove(key)[q] by {
                            if ml.contains_key(q) {
                                assert(!tree_map(new_right).contains_key(q));
                                assert(!mr.contains_key(q));
                            }
                        }
                    }
                }
                (r, removed)
            } else {
                let removed = Some((node.data, node.height));
                proof {
                    assert(!ml.contains_key(key));
                    assert(!mr.contains_key(key));
                }
                match node.left {
                    None => {
                        proof {
                            assert(ml =~= Map::<u64, T>::empty());
                            assert(tree_map(node.right) =~= m.remove(key));
                        }
                        (node.right, removed)
                    },
                    Some(left_box) => {
                        match node.right {
                            None => {
                                proof {
                                    assert(mr =~= Map::<u64, T>::empty());
                                    assert(tree_map(Some(left_box)) =~= m.remove(key));
                                }
                                (Some(left_box), removed)
                            },
                            Some(right_box) => {
                                let right = Some(right_box);
                                let ghost old_right = right;
                                let min = find_min(&right);
                                let min_data = min.unwrap();
                                let min_key = min_data.key();
                                let (new_right, min_removed) = remove_entry(right, min_key);
                                let (md, _) = min_removed.unwrap();
                                let left = Some(left_box);
                                let ghost gleft = left;
                                let r = rebuild(md, left, new_right);
                                proof {
                                    if is_avl(root) && height_of(root) + 5 < usize::MAX {
                                        lemma_avl_shrink_right(md, gleft, old_right, new_right);
                                    }
                                    let n0 = Some(Box::new(Entry { data: md, left: gleft, right: new_right, height: 0 }));
                                    assert(md == min_data);
                                    assert(min_key > nk);
                                    let mnr = tree_map(new_right);
                                    assert forall|q: u64| #[trigger] ml.contains_key(q) implies q < min_key by {
                                        assert(q < nk);
                                    }
                                    assert forall|q: u64| #[trigger] mnr.contains_key(q) implies q > min_key by {
                                        assert(mr.contains_key(q));
                                        assert(q != min_key);
                                    }
                                    assert(is_bst(n0));
                                    assert(tree_map(n0) =~= m.remove(key)) by {
                                        assert forall|q: u64| #[trigger] tree_map(n0).contains_key(q) == m.remove(key).contains_key(q) by {
                                            if q == min_key {
                                                assert(mr.contains_key(q));
                                            }
                                        }
                                        assert forall|q: u64| tree_map(n0).contains_key(q) implies #[trigger] tree_map(n0)[q] == m.remove(key)[q] by {
                                            if q == min_key {
                                                assert(mr[q] == md);
                                            } else if mnr.contains_key(q) {
                                                assert(!ml.contains_key(q));
                                                assert(mr.contains_key(q));
                                            } else {
                                                assert(ml.contains_key(q));
                                                assert(!mr.contains_key(q));
                                            }
                                        }
                                    }
                                }
                                (r, removed)
                            },
                        }
                    },
                }
            }
        },
    }
}


/// The value of the left (or right) child of the node with the supplied
/// key, found by searching the tree.
pub open spec fn child_of<T: HashKey>(link: Option<Box<Entry<T>>>, key: u64, left: bool) -> Option<T>
    decreases link,
{
    match link {
        None => None,
        Some(node) => {
            if key == node.data.key_of() {
                let c = if left {
                    node.left
                } else {
                    node.right
                };
                match c {
                    None => None,
                    Some(cn) => Some(cn.data),
                }
            } else if key < node.data.key_of() {
                child_of(node.left, key, left)
            } else {
                child_of(node.right, key, left)
            }
        },
    }
}

fn find_child<T: HashKey>(link: &Option<Box<Entry<T>>>, key: u64, left: bool) -> (r: Option<&T>)
    ensures
        r == (match child_of(*link, key, left) {
            Some(v) => Some(&v),
            None => None,
        }),
    decreases *link,
{
    match link {
        None => None,
        Some(node) => {
            let nk = node.data.key();
            if key == nk {
                let c = if left {
                    &node.left
                } else {
                    &node.right
                };
                match c {
                    None => None,
                    Some(cn) => Some(&cn.data),
                }
            } else if key < nk {
                find_child(&node.left, key, left)
            } else {
                find_child(&node.right, key, left)
            }
        },
    }
}

/// A hash AVL tree: a set of values kept in a self-balancing binary search
/// tree ordered by key, with a hash index that finds any value by its key in
/// constant time.
pub struct HashTree<T> {
    map: HashMap<u64, T>,
    root: Option<Box<Entry<T>>>,
}

impl<T: HashKey> HashTree<T> {
    /// The values of the tree, by key.
    pub closed spec fn view(&self) -> Map<u64, T> {
        self.map@
    }

    /// The tree's root node.
    pub closed spec fn root_link(&self) -> Option<Box<Entry<T>>> {
        self.root
    }

    /// The tree is a balanced search tree, and its index holds exactly its
    /// values.
    pub closed spec fn wf(&self) -> bool {
        &&& is_bst(self.root)
        &&& is_avl(self.root)
        &&& self.map@ == tree_map(self.root)
    }

    /// The key of every value is the key it is filed under.
    pub proof fn lemma_keys(&self)
        requires
            self.wf(),
        ensures
            forall|k: u64| #[trigger] self@.contains_key(k) ==> self@[k].key_of() == k,
            self@ == tree_map(self.root_link()),
            is_bst(self.root_link()),
            is_avl(self.root_link()),
    {
        lemma_tree_map_keys(self.root);
    }

    /// The tree is far too short for its height to reach the largest
    /// `usize`: an AVL tree is at most about twice as tall as the logarithm
    /// of its size, and its size is a `usize`.
    fn height_fits(&self)
        requires
            self.wf(),
        ensures
            height_of(self.root_link()) + 5 < usize::MAX,
    {
        let n = self.map.len();
        proof {
            lemma_avl_size(self.root);
            assert(2 * height_of(self.root) <= n + 2);
        }
    }

    /// Creates an empty hash tree.
    pub fn new() -> (tree: Self)
        ensures
            tree.wf(),
            tree@ == Map::<u64, T>::empty(),
            tree.root_link() is None,
    {
        let tree = HashTree { map: HashMap::new(), root: None };
        proof {
            assert(tree_map::<T>(None) == Map::<u64, T>::empty());
        }
        tree
    }

    /// Returns the tree's root node, through which the tree's shape can be
    /// inspected.
    pub fn root(&self) -> (r: &Option<Box<Entry<T>>>)
        ensures
            *r == self.root_link(),
    {
        &self.root
    }

    /// Returns `true` if the tree holds no values.
    pub fn is_empty(&self) -> (r: bool)
        requires
            self.wf(),
        ensures
            r == (self@.len() == 0),
    {
        proof {
            assert(self@.dom().finite());
            if self@.len() == 0 {
                assert(self@.dom() =~= Set::<u64>::empty());
            }
        }
        self.map.is_empty()
    }

    /// Returns the number of values in the tree.
    pub fn len(&self) -> (r: usize)
        requires
            self.wf(),
        ensures
            r == self@.len(),
    {
        self.map.len()
    }

    /// Inserts a value into the tree.
    ///
    /// If the tree did not hold the value, `None` is returned. If it did,
    /// the old entry is taken out of the tree, the value is inserted anew
    /// and the old entry is returned.
    pub fn insert(&mut self, data: T) -> (r: Option<T>)
        requires
            old(self).wf(),
        ensures
            final(self).wf(),
            final(self)@ == old(self)@.insert(data.key_of(), data),
            r == (if old(self)@.contains_key(data.key_of()) {
                Some(data)
            } else {
                None
            }),
            final(self).root_link() == inserted(
                if old(self)@.contains_key(data.key_of()) {
                    removed(old(self).root_link(), data.key_of())
                } else {
                    old(self).root_link()
                },
                leaf(data),
            ),
            is_avl(final(self).root_link()),
            height_of(final(self).root_link()) <= height_of(old(self).root_link()) + 1,
    {
        proof {
            lemma_tree_map_keys(self.root);
        }
        self.height_fits();
        let k = data.key();
        let old_data = self.map.remove(&k);
        if old_data.is_some() {
            let root = self.root.take();
            let (new_root, _) = remove_entry(root, k);
            self.root = new_root;
        } else {
            proof {
                assert(old(self)@.remove(k) =~= old(self)@);
            }
        }
        let entry = make_node(data, None, None, 1);
        let root = self.root.take();
        self.root = insert_entry(root, entry);
        self.map.insert(k, data);
        proof {
            if let Some(x) = old_data {
                T::lemma_key_injective(x, data);
            }
            assert(self.map@ =~= tree_map(self.root));
        }
        old_data
    }

    /// Returns the stored value with the supplied value's key, or `None`.
    pub fn get(&self, key: &T) -> (r: Option<&T>)
        requires
            self.wf(),
        ensures
            r == (if self@.contains_key(key.key_of()) {
                Some(&self@[key.key_of()])
            } else {
                None
            }),
    {
        let k = key.key();
        self.map.get(&k)
    }

    /// Returns the left (smaller) child of the node with the supplied
    /// value's key, or `None` if there is no such node or child.
    pub fn left(&self, key: &T) -> (r: Option<&T>)
        requires
            self.wf(),
        ensures
            r == (match child_of(self.root_link(), key.key_of(), true) {
                Some(v) => Some(&v),
                None => None,
            }),
    {
        find_child(&self.root, key.key(), true)
    }

    /// Returns the right (larger) child of the node with the supplied
    /// value's key, or `None` if there is no such node or child.
    pub fn right(&self, key: &T) -> (r: Option<&T>)
        requires
            self.wf(),
        ensures
            r == (match child_of(self.root_link(), key.key_of(), false) {
                Some(v) => Some(&v),
                None => None,
            }),
    {
        find_child(&self.root, key.key(), false)
    }

    /// Removes the value with the supplied value's key and returns it, or
    /// returns `None` if the tree does not hold it.
    pub fn remove(&mut self, key: &T) -> (r: Option<T>)
        requires
            old(self).wf(),
        ensures
            final(self).wf(),
            final(self)@ == old(self)@.remove(key.key_of()),
            r == (if old(self)@.contains_key(key.key_of()) {
                Some(old(self)@[key.key_of()])
            } else {
                None
            }),
            final(self).root_link() == if old(self)@.contains_key(key.key_of()) {
                removed(old(self).root_link(), key.key_of())
            } else {
                old(self).root_link()
            },
            is_avl(final(self).root_link()),
            height_of(final(self).root_link()) <= height_of(old(self).root_link()),
    {
        self.height_fits();
        let k = key.key();
        let removed = self.map.remove(&k);
        if removed.is_some() {
            let root = self.root.take();
            let (new_root, _) = remove_entry(root, k);
            self.root = new_root;
        } else {
            proof {
                assert(old(self)@.remove(k) =~= old(self)@);
            }
        }
        removed
    }

    /// Applies `f` to the value with the supplied value's key: the value is
    /// taken out of the tree and `f`'s result is inserted in its place. A
    /// value already in the tree under the result's key is replaced. Does
    /// nothing if the tree does not hold the supplied value.
    pub fn update<F: Fn(T) -> T>(&mut self, key: &T, f: F)
        requires
            old(self).wf(),
            forall|x: T| f.requires((x,)),
        ensures
            final(self).wf(),
            !old(self)@.contains_key(key.key_of()) ==> final(self)@ == old(self)@
                && final(self).root_link() == old(self).root_link(),
            old(self)@.contains_key(key.key_of()) ==> exists|y: T|
                f.ensures((old(self)@[key.key_of()],), y) && final(self)@ == old(self)@.remove(
                    key.key_of(),
                ).insert(y.key_of(), y) && final(self).root_link() == inserted(
                    removed(old(self).root_link(), key.key_of()),
                    leaf(y),
                ),
            is_avl(final(self).root_link()),
            height_of(final(self).root_link()) <= height_of(old(self).root_link()) + 1,
    {
        self.height_fits();
        let k = key.key();
        match self.map.remove(&k) {
            None => {
                proof {
                    assert(self.map@ =~= old(self).map@);
                }
            },
            Some(x) => {
                let root = self.root.take();
                let (new_root, _) = remove_entry(root, k);
                let y = f(x);
                let entry = make_node(y, None, None, 1);
                self.root = insert_entry(new_root, entry);
                self.map.insert(y.key(), y);
                proof {
                    assert(self.map@ =~= tree_map(self.root));
                }
            },
        }
    }
}

impl<T: HashKey> Default for HashTree<T> {
    fn default() -> (tree: Self)
        ensures
            tree.wf(),
            tree@ == Map::<u64, T>::empty(),
    {
        HashTree::new()
    }
}

} // verus!
