use radixt::longest_common_prefix;
use radixt::node::Node;

#[test]
fn node_test_remove() {
    let mut node = Node::new(&[]);
    node.insert("hello".as_bytes(), 0);
    node.insert("hell".as_bytes(), 1);
    node.insert("hel".as_bytes(), 2);
    node.insert("h".as_bytes(), 3);

    assert_eq!(node.get("h".as_bytes()), Some(&3));
    assert_eq!(node.get("hel".as_bytes()), Some(&2));
    assert_eq!(node.get("hell".as_bytes()), Some(&1));
    assert_eq!(node.get("hello".as_bytes()), Some(&0));
    assert_eq!(node.node_count(), 5);

    assert_eq!(node.remove("he".as_bytes()), None);
    assert_eq!(node.get("h".as_bytes()), Some(&3));
    assert_eq!(node.get("hel".as_bytes()), Some(&2));
    assert_eq!(node.get("hell".as_bytes()), Some(&1));
    assert_eq!(node.get("hello".as_bytes()), Some(&0));
    assert_eq!(node.node_count(), 5);

    assert_eq!(node.remove("hell".as_bytes()), Some(1));
    assert_eq!(node.get("h".as_bytes()), Some(&3));
    assert_eq!(node.get("hel".as_bytes()), Some(&2));
    assert_eq!(node.get("hell".as_bytes()), None);
    assert_eq!(node.get("hello".as_bytes()), Some(&0));
    assert_eq!(node.node_count(), 4);

    assert_eq!(node.remove("hel".as_bytes()), Some(2));
    assert_eq!(node.get("h".as_bytes()), Some(&3));
    assert_eq!(node.get("hel".as_bytes()), None);
    assert_eq!(node.get("hell".as_bytes()), None);
    assert_eq!(node.get("hello".as_bytes()), Some(&0));
    assert_eq!(node.node_count(), 3);

    assert_eq!(node.remove("hello".as_bytes()), Some(0));
    assert_eq!(node.get("h".as_bytes()), Some(&3));
    assert_eq!(node.get("hel".as_bytes()), None);
    assert_eq!(node.get("hell".as_bytes()), None);
    assert_eq!(node.get("hello".as_bytes()), None);
    assert_eq!(node.node_count(), 2);

    assert_eq!(node.remove("h".as_bytes()), Some(3));
    assert_eq!(node.get("h".as_bytes()), None);
    assert_eq!(node.get("hel".as_bytes()), None);
    assert_eq!(node.get("hell".as_bytes()), None);
    assert_eq!(node.get("hello".as_bytes()), None);
    assert_eq!(node.node_count(), 1);

    node.insert(&vec![0; 512], 3);
    assert_eq!(node.node_count(), 4);
    assert_eq!(node.get(&vec![0; 512]), Some(&3));

    assert_eq!(node.remove(&vec![0; 512]), Some(3));
    assert_eq!(node.node_count(), 1);
}

#[test]
fn packed_node_test_remove() {
    let mut node = Node::new(&[]);
    node.insert("hello".as_bytes(), 0);
    node.insert("hell".as_bytes(), 1);
    node.insert("hel".as_bytes(), 2);
    node.insert("h".as_bytes(), 3);

    assert_eq!(node.get("h".as_bytes()), Some(&3));
    assert_eq!(node.get("hel".as_bytes()), Some(&2));
    assert_eq!(node.get("hell".as_bytes()), Some(&1));
    assert_eq!(node.get("hello".as_bytes()), Some(&0));
    assert_eq!(node.node_count(), 5);

    assert_eq!(node.remove("he".as_bytes()), None);
    assert_eq!(node.get("h".as_bytes()), Some(&3));
    assert_eq!(node.get("hel".as_bytes()), Some(&2));
    assert_eq!(node.get("hell".as_bytes()), Some(&1));
    assert_eq!(node.get("hello".as_bytes()), Some(&0));
    assert_eq!(node.node_count(), 5);

    assert_eq!(node.remove("hell".as_bytes()), Some(1));
    assert_eq!(node.get("h".as_bytes()), Some(&3));
    assert_eq!(node.get("hel".as_bytes()), Some(&2));
    assert_eq!(node.get("hell".as_bytes()), None);
    assert_eq!(node.get("hello".as_bytes()), Some(&0));
    assert_eq!(node.node_count(), 4);

    assert_eq!(node.remove("hel".as_bytes()), Some(2));
    assert_eq!(node.get("h".as_bytes()), Some(&3));
    assert_eq!(node.get("hel".as_bytes()), None);
    assert_eq!(node.get("hell".as_bytes()), None);
    assert_eq!(node.get("hello".as_bytes()), Some(&0));
    assert_eq!(node.node_count(), 3);

    assert_eq!(node.remove("hello".as_bytes()), Some(0));
    assert_eq!(node.get("h".as_bytes()), Some(&3));
    assert_eq!(node.get("hel".as_bytes()), None);
    assert_eq!(node.get("hell".as_bytes()), None);
    assert_eq!(node.get("hello".as_bytes()), None);
    assert_eq!(node.node_count(), 2);

    assert_eq!(node.remove("h".as_bytes()), Some(3));
    assert_eq!(node.get("h".as_bytes()), None);
    assert_eq!(node.get("hel".as_bytes()), None);
    assert_eq!(node.get("hell".as_bytes()), None);
    assert_eq!(node.get("hello".as_bytes()), None);
    assert_eq!(node.node_count(), 1);
}

fn four_children() -> Node<()> {
    let mut node: Node<()> = Node::new("".as_bytes());
    node.push_child(Node::new("abb;0".as_bytes()));
    node.push_child(Node::new("cde;1".as_bytes()));
    node.push_child(Node::new("fgh;2".as_bytes()));
    node.push_child(Node::new("ijk;3".as_bytes()));
    node
}

#[test]
fn packed_node_test_longest_common_prefix() {
    let node = four_children();
    assert_eq!(longest_common_prefix(node.children(), "abb;1".as_bytes()), (4, 0));
    assert_eq!(longest_common_prefix(node.children(), "abb;0123".as_bytes()), (5, 0));
    assert_eq!(longest_common_prefix(node.children(), "fg".as_bytes()), (2, 2));
    assert_eq!(longest_common_prefix(node.children(), "ijk;2".as_bytes()), (4, 3));
    assert_eq!(longest_common_prefix(node.children(), "ijk;3ab".as_bytes()), (5, 3));
    assert_eq!(longest_common_prefix(node.children(), "i".as_bytes()), (1, 3));
    assert_eq!(longest_common_prefix(node.children(), "lmo".as_bytes()), (0, 4));
    assert_eq!(longest_common_prefix(node.children(), "bar".as_bytes()), (0, 1));
}

#[test]
fn lib_test_longest_common_prefix() {
    let node = four_children();
    assert_eq!(longest_common_prefix(node.children(), "abb;1".as_bytes()), (4, 0));
    assert_eq!(longest_common_prefix(node.children(), "abb;0123".as_bytes()), (5, 0));
    assert_eq!(longest_common_prefix(node.children(), "fg".as_bytes()), (2, 2));
    assert_eq!(longest_common_prefix(node.children(), "ijk;2".as_bytes()), (4, 3));
    assert_eq!(longest_common_prefix(node.children(), "ijk;3ab".as_bytes()), (5, 3));
    assert_eq!(longest_common_prefix(node.children(), "i".as_bytes()), (1, 3));
    assert_eq!(longest_common_prefix(node.children(), "lmo".as_bytes()), (0, 4));
    assert_eq!(longest_common_prefix(node.children(), "bar".as_bytes()), (0, 1));
}

#[test]
fn tree_test_longest_common_prefix() {
    let mut node: Node<usize> = Node::new(&[]);
    node.insert("hello".as_bytes(), 0);
    node.insert("foo".as_bytes(), 2);
    node.insert("bar".as_bytes(), 3);

    let at = |key: &[u8]| {
        let (n, idx) = longest_common_prefix(node.children(), key);
        if n == 0 {
            None
        } else {
            Some((n, node.children()[idx].key().to_vec()))
        }
    };
    assert_eq!(at("heloo".as_bytes()), Some((3, b"hello".to_vec())));
    assert_eq!(at("helloa".as_bytes()), Some((5, b"hello".to_vec())));
    assert_eq!(at("hello".as_bytes()), Some((5, b"hello".to_vec())));
    assert_eq!(at("bar".as_bytes()), Some((3, b"bar".to_vec())));
    assert_eq!(at("f".as_bytes()), Some((1, b"foo".to_vec())));
    assert_eq!(at("fo".as_bytes()), Some((2, b"foo".to_vec())));
    assert_eq!(at("rand".as_bytes()), None);
}

#[test]
fn tree_test_insert_and_get() {
    let mut node: Node<usize> = Node::new(&[]);

    for i in 0..10_u32 {
        node.insert(i.to_be_bytes().as_slice(), i as usize);
    }

    for i in 0..10_u32 {
        assert_eq!(node.get(i.to_be_bytes().as_slice()), Some(&(i as usize)));
    }
}

#[test]
fn test_insert_with_key_len_greater_than_255() {
    let mut node = Node::new("".as_bytes());
    assert_eq!(node.node_count(), 1);

    let key_a = vec![0; 260];
    let mut key_b = key_a.clone();
    key_b.extend(&[1, 2, 3]);
    let mut key_c = key_a.clone();
    key_c.extend(&[4, 5, 6]);
    let key_d = vec![0; 520];
    let key_e = vec![1; 512];
    let key_f = vec![2; 510];

    node.insert(&key_a, 1);
    assert_eq!(node.node_count(), 3);
    assert_eq!(node.get(&key_a), Some(&1));

    node.insert(&key_b, 2);
    assert_eq!(node.node_count(), 4);
    assert_eq!(node.get(&key_b), Some(&2));

    node.insert(&key_c, 3);
    assert_eq!(node.node_count(), 5);
    assert_eq!(node.get(&key_c), Some(&3));

    node.insert(&key_d, 4);
    assert_eq!(node.node_count(), 7);
    assert_eq!(node.get(&key_d), Some(&4));

    node.insert(&key_e, 5);
    assert_eq!(node.node_count(), 10);
    assert_eq!(node.get(&key_e), Some(&5));

    node.insert(&key_f, 6);
    assert_eq!(node.node_count(), 12);
    assert_eq!(node.get(&key_f), Some(&6));
}

#[test]
fn test_find_prefix() {
    let mut root: Node<u32> = Node::new(&[]);
    root.insert(b"foo;bar;1", 1);
    root.insert(b"foo;bar;2", 2);
    root.insert(b"foo;baz;1", 3);
    root.insert(b"foo;baz;2", 4);
    root.insert(b"bar;1", 5);
    root.insert(b"bar;2", 6);

    let prefix = b"foo;ba";
    for i in 1..=prefix.len() {
        let (prefix_len, n) = root.find_prefix(&prefix[..i]).unwrap();
        assert_eq!(n.key(), b"foo;ba");
        assert_eq!(n.children().len(), 2);
        assert_eq!(prefix_len, 0);
    }

    let prefix = b"bar;";
    for i in 1..=prefix.len() {
        let (prefix_len, n) = root.find_prefix(&prefix[..i]).unwrap();
        assert_eq!(n.key(), b"bar;");
        assert_eq!(n.children().len(), 2);
        assert_eq!(n.children()[0].value(), Some(&5));
        assert_eq!(n.children()[1].value(), Some(&6));
        assert_eq!(prefix_len, 0);
    }

    let (prefix_len, n) = root.find_prefix(b"foo;bar").unwrap();
    assert_eq!(n.key(), b"r;");
    assert_eq!(prefix_len, 6);
    assert_eq!(n.children().len(), 2);
    assert_eq!(n.children()[0].value(), Some(&1));
    assert_eq!(n.children()[1].value(), Some(&2));

    let (prefix_len, n) = root.find_prefix(b"foo;baz").unwrap();
    assert_eq!(n.key(), b"z;");
    assert_eq!(prefix_len, 6);
    assert_eq!(n.children().len(), 2);
    assert_eq!(n.children()[0].value(), Some(&3));
    assert_eq!(n.children()[1].value(), Some(&4));

    assert!(root.find_prefix(b"goo").is_none());
    assert!(root.find_prefix(b"fooa").is_none());
    assert!(root.find_prefix(b"foo;bag").is_none());
    assert!(root.find_prefix(b"baz").is_none());
    assert!(root.find_prefix(b"bz").is_none());
}

#[test]
fn find_prefix_diverging_inside_an_edge() {
    let mut root: Node<u32> = Node::new(&[]);
    root.insert(b"abc", 1);
    root.insert(b"abcd", 2);
    assert!(root.find_prefix(b"abd").is_none());
    let (k, n) = root.find_prefix(b"ab").unwrap();
    assert_eq!(k, 0);
    assert_eq!(n.key(), b"abc");
}

#[test]
fn node_test_insert() {
    let mut node = Node::new("".as_bytes());
    assert_eq!(node.node_count(), 1);

    node.insert("abc;0".as_bytes(), 1);
    assert_eq!(node.node_count(), 2);

    node.insert("abb;0".as_bytes(), 2);
    assert_eq!(node.node_count(), 4);

    node.insert("ab".as_bytes(), 3);
    assert_eq!(node.node_count(), 4);

    node.insert("abd".as_bytes(), 4);
    assert_eq!(node.node_count(), 5);

    assert_eq!(node.children().len(), 1);
    assert_eq!(node.value(), None);

    let ab = &node.children()[0];
    assert_eq!(ab.key(), b"ab");
    assert_eq!(ab.children().len(), 3);
    assert_eq!(ab.value(), Some(&3));

    assert_eq!(ab.children()[0].key(), b"b;0");
    assert_eq!(ab.children()[0].children().len(), 0);
    assert_eq!(ab.children()[0].value(), Some(&2));

    assert_eq!(ab.children()[1].key(), b"c;0");
    assert_eq!(ab.children()[1].children().len(), 0);
    assert_eq!(ab.children()[1].value(), Some(&1));

    assert_eq!(ab.children()[2].key(), b"d");
    assert_eq!(ab.children()[2].children().len(), 0);
    assert_eq!(ab.children()[2].value(), Some(&4));
}

#[test]
fn node_value_replace_and_take() {
    let mut node: Node<u64> = Node::new(&[1, 2, 3]);
    assert_eq!(node.value(), None);
    assert_eq!(node.replace_value(123), None);
    assert_eq!(node.value(), Some(&123));
    assert_eq!(node.replace_value(456), Some(123));
    assert_eq!(node.take_value(), Some(456));
    assert_eq!(node.value(), None);
    assert!(node.is_empty());
    assert_eq!(node.key(), &[1, 2, 3]);
}
