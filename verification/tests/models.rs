use repository_tree_creator::error::RepTreeError;
use repository_tree_creator::ident::{generate, ID_LENGTH};
use repository_tree_creator::models::blob::Blob;
use repository_tree_creator::models::node::Node;
use repository_tree_creator::models::tree::Tree;

#[test]
fn identity_is_deterministic_and_content_sensitive() {
    let mut b1 = Blob::new("file".to_string(), "payload".to_string());
    let first = b1.generate_id();
    let second = b1.generate_id();
    assert_eq!(first, second);
    assert_eq!(first.len(), ID_LENGTH);

    let mut b2 = Blob::new("file".to_string(), "payload!".to_string());
    let other = b2.generate_id();
    assert_ne!(first, other);
}

#[test]
fn generate_is_a_function_of_the_payload_alone() {
    let a = generate(&"abc".to_string());
    let b = generate(&"abc".to_string());
    let c = generate(&"abd".to_string());
    assert_eq!(a, b);
    assert_eq!(a.len(), ID_LENGTH);
    assert_ne!(a, c);
}

#[test]
fn merkle_change_propagates_to_every_ancestor() {
    let leaf = Node::create_blob_node("leaf".to_string(), "v1".to_string());
    let mid = Node::create_tree_node("mid".to_string(), vec![leaf]);
    let other = Node::create_blob_node("other".to_string(), "same".to_string());
    let mut root = match Node::create_tree_node("root".to_string(), vec![mid, other]) {
        Node::TreeNode(t) => t,
        _ => unreachable!(),
    };
    let root_id_before = root.generate_id();
    let mut children = root.get_children();
    let mid_id_before = children[0].get_id();
    let other_id_before = children[1].get_id();

    // change the deep descendant's content and recompute
    let leaf2 = Node::create_blob_node("leaf".to_string(), "v2".to_string());
    let mid2 = Node::create_tree_node("mid".to_string(), vec![leaf2]);
    let other2 = Node::create_blob_node("other".to_string(), "same".to_string());
    let mut root2 = match Node::create_tree_node("root".to_string(), vec![mid2, other2]) {
        Node::TreeNode(t) => t,
        _ => unreachable!(),
    };
    let root_id_after = root2.generate_id();
    children = root2.get_children();
    let mid_id_after = children[0].get_id();
    let other_id_after = children[1].get_id();

    assert_ne!(root_id_before, root_id_after);
    assert_ne!(mid_id_before, mid_id_after);
    assert_eq!(other_id_before, other_id_after);
}

#[test]
fn childless_tree_hashes_its_name() {
    let mut t1 = Tree::new("dir".to_string(), vec![]);
    let id = t1.generate_id();
    assert_eq!(id, generate(&"dir".to_string()));
    assert_eq!(t1.get_id(), id);
}

#[test]
fn same_slot_requires_name_and_variant() {
    let tree_oak = Node::create_tree_node("Oak".to_string(), vec![]);
    let tree_oak2 = Node::create_tree_node("Oak".to_string(), vec![]);
    let blob_oak = Node::create_blob_node("Oak".to_string(), "content".to_string());
    let blob_pine = Node::create_blob_node("Pine".to_string(), "content".to_string());

    assert!(tree_oak.has_same_name(&tree_oak2) && Node::is_same_type(&tree_oak, &tree_oak2));
    assert!(!(blob_oak.has_same_name(&blob_pine) && Node::is_same_type(&blob_oak, &blob_pine)));
    assert!(!Node::is_same_type(&tree_oak, &blob_oak));
}

#[test]
fn add_node_never_leaves_two_children_in_one_slot() {
    let mut t1 = Tree::new("Pine".to_string(), vec![]);
    let mut t2 = Tree::new("Oak".to_string(), vec![]);
    let mut t3 = Tree::new("Syrup".to_string(), vec![]);
    let blob = Blob::new("Ball".to_string(), "booing booing".to_string());
    let tree = Tree::new("Ball".to_string(), vec![]);
    let blob_node: Node = Node::BlobNode(blob);
    let tree_node: Node = Node::TreeNode(tree);

    t1.add_node(blob_node.clone());

    t2.add_node(blob_node.clone());
    t2.add_node(blob_node.clone());

    t3.add_node(blob_node);
    t3.add_node(tree_node);

    assert_eq!(t1.get_children().len(), 1);
    assert_eq!(t2.get_children().len(), 1);
    assert_eq!(t3.get_children().len(), 2);
}

#[test]
fn node_accessors_distinguish_variants() {
    let b_node = Node::create_blob_node("Oak".to_string(), "John Doe".to_string());
    let t_node = Node::create_tree_node("Pine".to_string(), vec![]);

    assert_eq!(b_node.get_content(), Some(String::from("John Doe")));
    assert_eq!(t_node.get_content(), None);
    assert!(b_node.is_blob() && !b_node.is_tree());
    assert!(t_node.is_tree() && !t_node.is_blob());

    let mut b_node = b_node;
    let mut t_node = t_node;
    assert!(b_node.get_children().is_none());
    assert_eq!(t_node.get_children().unwrap().len(), 0);
}

#[test]
fn error_messages_carry_their_description() {
    let io = RepTreeError::IoError("disk gone".to_string());
    let odd = RepTreeError::UnexpectedComportment("strange object".to_string());
    let enc = RepTreeError::Encryptor("bad stream".to_string());
    assert_eq!(io.message(), "disk gone");
    assert_eq!(odd.message(), "strange object");
    assert_eq!(enc.message(), "bad stream");
}

#[test]
fn find_child_returns_first_tree_with_matching_name() {
    let blob = Node::create_blob_node("x".to_string(), "c".to_string());
    let sub = Node::create_tree_node("x".to_string(), vec![]);
    let tree = match Node::create_tree_node("root".to_string(), vec![blob, sub]) {
        Node::TreeNode(t) => t,
        _ => unreachable!(),
    };
    let probe = Node::create_tree_node("x".to_string(), vec![]);
    // the blob named `x` at position 0 is not a match: only trees are
    assert_eq!(tree.find_child(&probe), Some(1));
    let probe_missing = Node::create_tree_node("y".to_string(), vec![]);
    assert_eq!(tree.find_child(&probe_missing), None);
}
