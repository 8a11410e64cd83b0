use bst::BST;

fn drain_pre(bst: BST<i32>) -> Vec<i32> {
    let mut it = bst.into_pre_order_iter();
    let mut out = Vec::new();
    while let Some(v) = it.next() {
        out.push(v);
    }
    out
}

fn drain_in(bst: BST<i32>) -> Vec<i32> {
    let mut it = bst.into_in_order_iter();
    let mut out = Vec::new();
    while let Some(v) = it.next() {
        out.push(v);
    }
    out
}

fn drain_post(bst: BST<i32>) -> Vec<i32> {
    let mut it = bst.into_post_order_iter();
    let mut out = Vec::new();
    while let Some(v) = it.next() {
        out.push(v);
    }
    out
}

#[test]
fn empty_tree_has_nothing_and_yields_nothing() {
    let bst: BST<i32> = BST::empty();
    assert!(!bst.has_element(0));
    assert!(!bst.has_element(-7));
    assert!(!bst.has_element(1000));
    assert_eq!(bst.retrieve(0), None);

    let empty_pre: BST<i32> = BST::empty();
    assert_eq!(drain_pre(empty_pre), Vec::<i32>::new());
    let empty_in: BST<i32> = BST::empty();
    assert_eq!(drain_in(empty_in), Vec::<i32>::new());
    let empty_post: BST<i32> = BST::empty();
    assert_eq!(drain_post(empty_post), Vec::<i32>::new());
}

#[test]
fn new_tree_holds_its_initial_value() {
    let bst = BST::new(7);
    assert!(bst.has_element(7));
    assert!(!bst.has_element(8));
    assert_eq!(drain_in(bst), vec![7]);
}

#[test]
fn duplicate_insert_changes_nothing() {
    let mut bst = BST::empty();
    bst.insert(4);
    bst.insert(2);
    bst.insert(6);
    bst.insert(4);
    bst.insert(2);

    assert!(bst.has_element(2));
    assert!(bst.has_element(4));
    assert!(bst.has_element(6));
    assert_eq!(drain_in(bst), vec![2, 4, 6]);
}

#[test]
fn membership_matches_inserted_values() {
    let values = [8, 3, 10, 1, 6, 14, 4, 7, 13];
    let mut bst = BST::empty();
    for v in values {
        bst.insert(v);
    }
    for v in values {
        assert!(bst.has_element(v));
    }
    assert!(!bst.has_element(0));
    assert!(!bst.has_element(5));
    assert!(!bst.has_element(15));
}

#[test]
fn in_order_is_sorted_on_shuffled_input() {
    let values = [8, 3, 10, 1, 6, 14, 4, 7, 13];
    let mut bst = BST::empty();
    for v in values {
        bst.insert(v);
    }
    assert_eq!(drain_in(bst), vec![1, 3, 4, 6, 7, 8, 10, 13, 14]);
}

#[test]
fn traversals_yield_the_same_elements() {
    let values = [5, 9, 2, 7, 3];
    let mut pre_tree = BST::empty();
    let mut in_tree = BST::empty();
    let mut post_tree = BST::empty();
    for v in values {
        pre_tree.insert(v);
        in_tree.insert(v);
        post_tree.insert(v);
    }
    let mut pre = drain_pre(pre_tree);
    let mut post = drain_post(post_tree);
    let in_order = drain_in(in_tree);
    assert_eq!(pre.len(), 5);
    assert_eq!(post.len(), 5);
    pre.sort();
    post.sort();
    assert_eq!(pre, vec![2, 3, 5, 7, 9]);
    assert_eq!(post, vec![2, 3, 5, 7, 9]);
    assert_eq!(in_order, vec![2, 3, 5, 7, 9]);
}

#[test]
fn retrieve_and_retrieve_as_mut_agree_with_has_element() {
    let mut bst = BST::empty();
    bst.insert(20);
    bst.insert(10);
    bst.insert(30);

    for v in [10, 20, 30] {
        assert!(bst.has_element(v));
        assert_eq!(bst.retrieve(v), Some(&v));
    }
    for v in [5, 15, 25, 35] {
        assert!(!bst.has_element(v));
        assert_eq!(bst.retrieve(v), None);
    }
    for v in [10, 20, 30] {
        assert!(bst.retrieve_as_mut(v).is_some());
    }
    for v in [5, 15, 25, 35] {
        assert!(bst.retrieve_as_mut(v).is_none());
    }
}

#[test]
fn mutation_through_retrieve_as_mut_is_visible() {
    let mut bst = BST::empty();
    bst.insert(20);
    bst.insert(10);

    let slot = bst.retrieve_as_mut(10).unwrap();
    *slot = 15;

    assert_eq!(bst.retrieve(15), Some(&15));
    assert_eq!(bst.retrieve(10), None);
    assert_eq!(drain_in(bst), vec![15, 20]);
}

#[test]
fn works_for_other_value_types() {
    let mut signed: BST<i64> = BST::empty();
    signed.insert(-5_000_000_000);
    signed.insert(5_000_000_000);
    assert!(signed.has_element(-5_000_000_000));
    assert!(signed.has_element(5_000_000_000));
    assert!(!signed.has_element(0));

    let mut unsigned: BST<u64> = BST::empty();
    unsigned.insert(u64::MAX);
    unsigned.insert(0);
    assert!(unsigned.has_element(u64::MAX));
    assert!(unsigned.has_element(0));
    assert!(!unsigned.has_element(1));
}

#[test]
fn single_descent_scenario_orders_left_and_right() {
    let mut bst = BST::empty();
    bst.insert(3);
    bst.insert(4);
    bst.insert(5);
    bst.insert(1);
    bst.insert(2);
    assert_eq!(drain_pre(bst), vec![3, 1, 2, 4, 5]);
}
