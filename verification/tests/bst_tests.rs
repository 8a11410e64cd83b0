use bst::BST;

#[test]
fn can_insert_element() {
    let mut bst = BST::new(-1);

    bst.insert(0);
    bst.insert(1);
    bst.insert(1);
    bst.insert(2);

    assert_eq!(bst.retrieve(-1), Some(&-1));
    assert_eq!(bst.retrieve(0), Some(&0));
    assert_eq!(bst.retrieve(1), Some(&1));
    assert_eq!(bst.retrieve(2), Some(&2));
}

#[test]
fn check_element_exists() {
    let mut bst = BST::empty();

    bst.insert(1);
    bst.insert(5);

    assert!(bst.has_element(1));
    assert!(bst.has_element(5));
    assert!(!bst.has_element(10));
}

#[test]
fn retrieve_element_from_bst() {
    let mut bst = BST::empty();
    bst.insert(5);
    bst.insert(10);

    let retrieved_value = bst.retrieve(5);
    let invalid_value = bst.retrieve(15);

    assert_eq!(retrieved_value, Some(&5));
    assert_eq!(invalid_value, None);
}

#[test]
fn retrieve_element_as_mut_and_modify_bst() {
    let mut bst = BST::empty();
    bst.insert(10);
    bst.insert(5);

    let _retrieved_value_as_mut: &mut i32 = bst.retrieve_as_mut(5).unwrap();
    *_retrieved_value_as_mut = 2;

    assert!(bst.has_element(10));
    assert!(bst.has_element(2));
    assert!(!bst.has_element(5));
}

#[test]
fn pre_order_traversal() {
    let mut bst = BST::empty();
    bst.insert(3);
    bst.insert(4);
    bst.insert(5);
    bst.insert(1);
    bst.insert(2);

    let mut pre_order_iter = bst.into_pre_order_iter();

    assert_eq!(pre_order_iter.next(), Some(3));
    assert_eq!(pre_order_iter.next(), Some(1));
    assert_eq!(pre_order_iter.next(), Some(2));
    assert_eq!(pre_order_iter.next(), Some(4));
    assert_eq!(pre_order_iter.next(), Some(5));
    assert_eq!(pre_order_iter.next(), None);
}

#[test]
fn in_order_traversal() {
    let mut bst = BST::empty();
    bst.insert(3);
    bst.insert(4);
    bst.insert(5);
    bst.insert(1);
    bst.insert(2);

    let mut in_order_iter = bst.into_in_order_iter();

    assert_eq!(in_order_iter.next(), Some(1));
    assert_eq!(in_order_iter.next(), Some(2));
    assert_eq!(in_order_iter.next(), Some(3));
    assert_eq!(in_order_iter.next(), Some(4));
    assert_eq!(in_order_iter.next(), Some(5));
    assert_eq!(in_order_iter.next(), None);
}

#[test]
fn post_order_traversal() {
    let mut bst = BST::empty();
    bst.insert(3);
    bst.insert(4);
    bst.insert(5);
    bst.insert(1);
    bst.insert(2);

    let mut post_order_traversal = bst.into_post_order_iter();

    assert_eq!(post_order_traversal.next(), Some(2));
    assert_eq!(post_order_traversal.next(), Some(1));
    assert_eq!(post_order_traversal.next(), Some(5));
    assert_eq!(post_order_traversal.next(), Some(4));
    assert_eq!(post_order_traversal.next(), Some(3));
    assert_eq!(post_order_traversal.next(), None);
}
