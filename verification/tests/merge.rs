use repository_tree_creator::features::merge_repository_trees::{
    merge_blob, merge_content, merge_content_from_diff, merge_repository_trees, DiffLine, Mode,
};
use repository_tree_creator::models::blob::Blob;
use repository_tree_creator::models::node::Node;
use repository_tree_creator::models::tree::Tree;

#[test]
fn test_merge() {
    let text1 = "def add(a, b):\n    return a + b\n\n# Test\nprint(add(2, 3))".to_string();

    let text2 = "def add(a, b):\n    return a + b + 1\n\n# Test\nprint(add(2, 4))".to_string();

    let mut b1 = Blob::new("blob1".to_string(), text1);
    let b2 = Blob::new("blob2".to_string(), text2);

    let result = "def add(a, b):\n<<<<<< HEAD (current change)\n    return a + b\n======\n    return a + b + 1\n>>>>>> (incoming change)\n# Test\n<<<<<< HEAD (current change)\nprint(add(2, 3))\n======\nprint(add(2, 4))\n>>>>>> (incoming change)\n".to_string();

    merge_blob(&mut b1, &b2);
    assert_eq!(b1.get_content(), result);
}

#[test]
fn mode_as_str_names_each_policy() {
    assert_eq!(Mode::Partial.as_str(), "PARTIAL");
    assert_eq!(Mode::Complete.as_str(), "COMPLETE");
}

#[test]
fn conflict_markers_for_one_diverging_line() {
    let current = Node::create_blob_node("file".to_string(), "line1\nline2\n".to_string());
    let incoming = Node::create_blob_node("file".to_string(), "line1\nlineX\n".to_string());
    let merged = merge_repository_trees(current, incoming, &Mode::Complete).unwrap();
    let content = merged.get_content().unwrap();
    let expected = "line1\n<<<<<< HEAD (current change)\nline2\n======\nlineX\n>>>>>> (incoming change)\n";
    assert_eq!(content, expected);
}

#[test]
fn partial_mode_replaces_blob_content() {
    let current = Node::create_blob_node("file".to_string(), "line1\nline2\n".to_string());
    let incoming = Node::create_blob_node("file".to_string(), "line1\nlineX\n".to_string());
    let merged = merge_repository_trees(current, incoming, &Mode::Partial).unwrap();
    assert_eq!(merged.get_content().unwrap(), "line1\nlineX\n");
}

#[test]
fn merging_identical_roots_is_a_no_op() {
    let mut t1 = Tree::new("".to_string(), vec![]);
    t1.set_id("deadbeef".to_string());
    let mut t2 = Tree::new("".to_string(), vec![]);
    t2.set_id("deadbeef".to_string());
    let merged = merge_repository_trees(Node::TreeNode(t1), Node::TreeNode(t2), &Mode::Complete);
    assert!(merged.is_none());
}

#[test]
fn mismatched_variants_merge_to_nothing() {
    let b = Node::create_blob_node("x".to_string(), "text".to_string());
    let t = Node::create_tree_node("x".to_string(), vec![]);
    assert!(merge_repository_trees(b, t, &Mode::Complete).is_none());
}

#[test]
fn structural_merge_unions_children_by_slot() {
    let a = Node::create_blob_node("a".to_string(), "A\n".to_string());
    let b = Node::create_blob_node("b".to_string(), "B\n".to_string());
    let b2 = Node::create_blob_node("b".to_string(), "B\n".to_string());
    let c = Node::create_blob_node("c".to_string(), "C\n".to_string());
    let t1 = Node::create_tree_node("dir".to_string(), vec![a, b]);
    let t2 = Node::create_tree_node("dir".to_string(), vec![b2, c]);
    let mut merged = merge_repository_trees(t1, t2, &Mode::Complete).unwrap();
    let children = merged.get_children().unwrap();
    assert_eq!(children.len(), 3);
    let names: Vec<String> = children.iter().map(|n| n.get_name()).collect();
    assert!(names.contains(&"a".to_string()));
    assert!(names.contains(&"b".to_string()));
    assert!(names.contains(&"c".to_string()));
}

#[test]
fn diff_walk_emits_one_marker_pair_per_incoming_run() {
    let diff = vec![
        DiffLine::Both("common".to_string()),
        DiffLine::Left("mine".to_string()),
        DiffLine::Right("theirs".to_string()),
        DiffLine::Right("theirs2".to_string()),
    ];
    let merged = merge_content_from_diff(&diff);
    let expected = "common\n<<<<<< HEAD (current change)\nmine\n======\ntheirs\n>>>>>> (incoming change)\ntheirs2\n>>>>>> (incoming change)\n";
    assert_eq!(merged, expected);
}

#[test]
fn diff_walk_closes_open_conflict_at_the_end() {
    let diff = vec![DiffLine::Left("only mine".to_string())];
    let merged = merge_content_from_diff(&diff);
    let expected = "\n<<<<<< HEAD (current change)\nonly mine\n======\n>>>>>> (incoming change)\n";
    assert_eq!(merged, expected);
}

#[test]
fn equal_contents_merge_without_markers() {
    // common lines are appended bare: the walk re-inserts newlines only
    // around markers, so an all-common merge concatenates the lines
    let merged = merge_content(&"same\ntext\n".to_string(), &"same\ntext\n".to_string());
    assert_eq!(merged, "sametext");
}
