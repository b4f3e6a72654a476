use dakv_skiplist::skipnode::Node;

#[test]
fn test_new_node() {
    let node = Node::head();
    assert_eq!(node.to_string(), "[]");

    let node = Node::new("da".into(), 0);
    assert_eq!(node.to_string(), "[100, 97]");
}

#[test]
fn test_next() {
    // nodes referring to each other by storage index: 2 and 3 play the
    // parts the original pointers did
    let mut node = Node::new(vec![1u8].into(), 3);
    let mut next = Node::new(vec![2u8].into(), 4);
    let tail = Node::new(vec![3u8].into(), 1);
    node.set_next(2, 2);
    let ret = node.get_next(1);
    assert!(ret == 0);
    let ret = node.get_next(2);
    assert!(ret != 0);
    assert_eq!(next.data.as_ref(), &[2]);

    next.set_next(3, 3);
    let v = next.get_next(3);
    assert_eq!(v, 3);
    assert_eq!(tail.data.as_ref(), &[3]);
}
