use kwik::collections::hash_tree::{
    balance_entry, balance_factor, ll_rotate, lr_rotate, rl_rotate, rr_rotate, Entry, HashTree,
};

type Link = Option<Box<Entry<u64>>>;

fn node(data: u64, left: Link, right: Link, height: usize) -> Link {
    Some(Box::new(Entry { data, left, right, height }))
}

fn get_entry_info(entry: &Link) -> (u64, usize) {
    let e = entry.as_ref().unwrap();
    (e.data, e.height)
}

fn get_entry_children(entry: &Link) -> (&Link, &Link) {
    let e = entry.as_ref().unwrap();
    (&e.left, &e.right)
}

#[test]
fn it_inserts_correctly() {
    let mut tree = HashTree::<u64>::default();

    // insert 1
    assert_eq!(tree.insert(1), None);
    assert_eq!(get_entry_info(tree.root()), (1, 1));
    let (l, r) = get_entry_children(tree.root());
    assert!(l.is_none());
    assert!(r.is_none());

    // insert 2
    assert_eq!(tree.insert(2), None);
    assert_eq!(get_entry_info(tree.root()), (1, 2));
    let (l, r) = get_entry_children(tree.root());
    assert!(l.is_none());
    assert!(r.is_some());
    assert_eq!(get_entry_info(r), (2, 1));

    // insert 3
    assert_eq!(tree.insert(3), None);
    assert_eq!(get_entry_info(tree.root()), (2, 2));
    let (l, r) = get_entry_children(tree.root());
    assert_eq!(get_entry_info(l), (1, 1));
    assert_eq!(get_entry_info(r), (3, 1));

    // insert 4
    assert_eq!(tree.insert(4), None);
    assert_eq!(get_entry_info(tree.root()), (2, 3));
    let (l, r) = get_entry_children(tree.root());
    assert_eq!(get_entry_info(l), (1, 1));
    assert_eq!(get_entry_info(r), (3, 2));
    let (rl, rr) = get_entry_children(r);
    assert!(rl.is_none());
    assert_eq!(get_entry_info(rr), (4, 1));

    // insert 5
    assert_eq!(tree.insert(5), None);
    assert_eq!(get_entry_info(tree.root()), (2, 3));
    let (l, r) = get_entry_children(tree.root());
    assert_eq!(get_entry_info(l), (1, 1));
    assert_eq!(get_entry_info(r), (4, 2));
    let (rl, rr) = get_entry_children(r);
    assert_eq!(get_entry_info(rl), (3, 1));
    assert_eq!(get_entry_info(rr), (5, 1));

    // insert 6
    assert_eq!(tree.insert(6), None);
    assert_eq!(get_entry_info(tree.root()), (4, 3));
    let (l, r) = get_entry_children(tree.root());
    assert_eq!(get_entry_info(l), (2, 2));
    let (ll, lr) = get_entry_children(l);
    assert_eq!(get_entry_info(ll), (1, 1));
    assert_eq!(get_entry_info(lr), (3, 1));
    assert_eq!(get_entry_info(r), (5, 2));
    let (rl, rr) = get_entry_children(r);
    assert!(rl.is_none());
    assert_eq!(get_entry_info(rr), (6, 1));

    // re-insert 1
    assert_eq!(tree.insert(1), Some(1));
    assert_eq!(get_entry_info(tree.root()), (4, 3));
    let (l, r) = get_entry_children(tree.root());
    assert_eq!(get_entry_info(l), (2, 2));
    let (ll, lr) = get_entry_children(l);
    assert_eq!(get_entry_info(ll), (1, 1));
    assert_eq!(get_entry_info(lr), (3, 1));
    assert_eq!(get_entry_info(r), (5, 2));
    let (rl, rr) = get_entry_children(r);
    assert!(rl.is_none());
    assert_eq!(get_entry_info(rr), (6, 1));

    // re-insert 4
    assert_eq!(tree.insert(4), Some(4));
    assert_eq!(get_entry_info(tree.root()), (3, 3));
    let (l, r) = get_entry_children(tree.root());
    assert_eq!(get_entry_info(l), (2, 2));
    let (ll, lr) = get_entry_children(l);
    assert_eq!(get_entry_info(ll), (1, 1));
    assert!(lr.is_none());
    assert_eq!(get_entry_info(r), (5, 2));
    let (rl, rr) = get_entry_children(r);
    assert_eq!(get_entry_info(rl), (4, 1));
    assert_eq!(get_entry_info(rr), (6, 1));
}

#[test]
fn it_balances_null_root() {
    balance_entry::<u64>(None);
}

#[test]
fn it_calculates_balance_factor_correctly() {
    let entry_three = node(3, None, None, 1);
    let entry_two = node(2, None, entry_three, 2);
    let entry_one = node(1, None, entry_two, 3);

    let factor = balance_factor(&entry_one);
    assert_eq!(factor, -2);
}

#[test]
fn it_rr_rotates_null_root() {
    rr_rotate::<u64>(None);
}

#[test]
fn it_rr_rotates_null_children() {
    let entry = node(0, None, None, 1);
    let root = rr_rotate(entry);
    assert_eq!(get_entry_info(&root), (0, 1));
}

#[test]
fn it_ll_rotates_null_root() {
    ll_rotate::<u64>(None);
}

#[test]
fn it_ll_rotates_null_children() {
    let entry = node(0, None, None, 1);
    let root = ll_rotate(entry);
    assert_eq!(get_entry_info(&root), (0, 1));
}

#[test]
fn it_lr_rotates_null_root() {
    lr_rotate::<u64>(None);
}

#[test]
fn it_lr_rotates_null_children() {
    let entry = node(0, None, None, 1);
    let root = lr_rotate(entry);
    assert_eq!(get_entry_info(&root), (0, 1));
}

#[test]
fn it_rl_rotates_null_root() {
    rl_rotate::<u64>(None);
}

#[test]
fn it_rl_rotates_null_children() {
    let entry = node(0, None, None, 1);
    let root = rl_rotate(entry);
    assert_eq!(get_entry_info(&root), (0, 1));
}

#[test]
fn it_rr_rotates_correctly() {
    let entry_three = node(3, None, None, 1);
    let entry_two = node(2, None, entry_three, 2);
    let entry_one = node(1, None, entry_two, 3);

    let root = rr_rotate(entry_one);
    assert_eq!(get_entry_info(&root), (2, 2));

    let (left, right) = get_entry_children(&root);
    assert_eq!(get_entry_info(left), (1, 1));
    assert_eq!(get_entry_info(right), (3, 1));
}

#[test]
fn it_ll_rotates_correctly() {
    let entry_three = node(3, None, None, 1);
    let entry_two = node(2, entry_three, None, 2);
    let entry_one = node(1, entry_two, None, 3);

    let root = ll_rotate(entry_one);
    assert_eq!(get_entry_info(&root), (2, 2));

    let (left, right) = get_entry_children(&root);
    assert_eq!(get_entry_info(left), (3, 1));
    assert_eq!(get_entry_info(right), (1, 1));
}

#[test]
fn it_lr_rotates_correctly() {
    let entry_three = node(3, None, None, 1);
    let entry_two = node(2, entry_three, None, 2);
    let entry_one = node(1, entry_two, None, 3);

    let root = lr_rotate(entry_one);
    assert_eq!(get_entry_info(&root), (2, 2));

    let (left, right) = get_entry_children(&root);
    assert_eq!(get_entry_info(left), (3, 1));
    assert_eq!(get_entry_info(right), (1, 1));
}

#[test]
fn it_reorders_updates() {
    let mut tree = HashTree::<u64>::default();

    tree.insert(1);
    tree.insert(2);
    tree.insert(3);

    // before update
    assert_eq!(get_entry_info(tree.root()), (2, 2));
    let (l, r) = get_entry_children(tree.root());
    assert_eq!(get_entry_info(l), (1, 1));
    assert_eq!(get_entry_info(r), (3, 1));

    // after update to leaf
    tree.update(&2, |_value: u64| 4);

    assert_eq!(get_entry_info(tree.root()), (3, 2));
    let (l, r) = get_entry_children(tree.root());
    assert_eq!(get_entry_info(l), (1, 1));
    assert_eq!(get_entry_info(r), (4, 1));

    // after update to root
    tree.update(&4, |_value: u64| 2);

    assert_eq!(get_entry_info(tree.root()), (2, 2));
    let (l, r) = get_entry_children(tree.root());
    assert_eq!(get_entry_info(l), (1, 1));
    assert_eq!(get_entry_info(r), (3, 1));
}

#[test]
fn tree_gets_children_and_removes() {
    let mut tree = HashTree::<u64>::new();
    assert!(tree.is_empty());
    tree.insert(1);
    tree.insert(2);
    tree.insert(3);
    assert_eq!(tree.len(), 3);
    assert_eq!(tree.get(&1), Some(&1));
    assert_eq!(tree.get(&5), None);
    assert_eq!(tree.left(&2), Some(&1));
    assert_eq!(tree.left(&1), None);
    assert_eq!(tree.left(&3), None);
    assert_eq!(tree.right(&2), Some(&3));
    assert_eq!(tree.right(&1), None);
    assert_eq!(tree.remove(&1), Some(1));
    assert_eq!(tree.remove(&7), None);
    assert_eq!(tree.len(), 2);
    assert_eq!(tree.left(&2), None);
    assert_eq!(tree.update(&9, |v: u64| v + 1), ());
    assert_eq!(tree.len(), 2);
}

#[test]
fn it_rebalances_after_removing_a_node_with_two_children() {
    let mut tree = HashTree::<u64>::default();
    tree.insert(3);
    tree.insert(2);
    tree.insert(4);
    tree.insert(1);

    assert_eq!(tree.remove(&3), Some(3));
    assert_eq!(tree.len(), 3);
    assert_eq!(tree.left(&2), Some(&1));
    assert_eq!(tree.right(&2), Some(&4));
    assert_eq!(tree.left(&4), None);
    assert_eq!(tree.right(&4), None);
}

#[test]
fn it_stays_balanced_when_the_left_child_is_even() {
    let mut tree = HashTree::<u64>::default();
    for value in [6, 3, 7, 2, 4, 8, 1, 5] {
        assert_eq!(tree.insert(value), None);
    }

    assert_eq!(tree.remove(&8), Some(8));
    assert_eq!(tree.left(&3), Some(&2));
    assert_eq!(tree.right(&3), Some(&6));
    assert_eq!(tree.left(&2), Some(&1));
    assert_eq!(tree.left(&6), Some(&4));
    assert_eq!(tree.right(&6), Some(&7));
    assert_eq!(tree.left(&4), None);
    assert_eq!(tree.right(&4), Some(&5));
}
