use repository_tree_creator::error::RepTreeError;
use repository_tree_creator::features::get_repository_tree_from_object_files::{
    get_blob_from_object_file, get_repository_tree_from_object_files, parse_tree_line,
};
use repository_tree_creator::features::transcript_repository_tree_to_object_files::{
    create_details, transcript_blob, transcript_repository_to_object_files, transcript_tree,
    ObjectFile,
};
use repository_tree_creator::models::blob::Blob;
use repository_tree_creator::models::node::Node;
use repository_tree_creator::models::tree::Tree;

#[test]
fn transcript_repository_tree_to_file_should_create_details() {
    let mut blob = Blob::new("HI".to_string(), "Hello".to_string());
    blob.set_id("12345667890".to_string());

    let (directory, filename) = create_details(&Node::BlobNode(blob), &String::from(""));
    assert_eq!("12", directory);
    assert_eq!("345667890", filename);
}

#[test]
fn transcript_repository_tree_to_object_files_should_create_details() {
    let mut blob = Blob::new("HI".to_string(), "Hello".to_string());
    blob.set_id("12345667890".to_string());

    let (directory, filename) = create_details(&Node::BlobNode(blob), &String::from(""));
    assert_eq!("12", directory);
    assert_eq!("345667890", filename);
}

#[test]
fn transcript_repository_tree_to_file_test_should_transcript_blob() {
    let blob = Blob::new(String::from("HAHA"), String::from("Hello"));
    let content = transcript_blob(&blob);
    assert_eq!("Hello", content, "Content should match");
}

#[test]
fn transcript_repository_tree_to_object_files_test_should_transcript_blob() {
    let blob = Blob::new(String::from("HAHA"), String::from("Hello"));
    let content = transcript_blob(&blob);
    assert_eq!("Hello", content, "Content should match");
}

#[test]
fn transcript_repository_tree_to_file_test_should_transcript_tree() {
    let blob = Blob::new(String::from("HAHA"), String::from("Hello"));
    let tree = Tree::new("tree".to_string(), vec![Node::BlobNode(blob)]);
    let content = transcript_tree(&tree);
    assert_eq!("BLOB  HAHA\n", content);
}

#[test]
fn transcript_repository_tree_to_object_files_test_should_transcript_tree() {
    let blob = Blob::new(String::from("HAHA"), String::from("Hello"));
    let tree = Tree::new("tree".to_string(), vec![Node::BlobNode(blob)]);
    let content = transcript_tree(&tree);
    assert_eq!("BLOB  HAHA\n", content);
}

#[test]
fn should_transcript_repository_to_object_files() {
    let mut b1 = Blob::new("file1".to_string(), "content".to_string());
    b1.set_id(String::from("1234567891"));
    let mut r2 = Tree::new("dir2".to_string(), vec![]);
    r2.set_id(String::from("1234567892"));
    let mut r1 = Tree::new(
        "dir1".to_string(),
        vec![Node::BlobNode(b1), Node::TreeNode(r2)],
    );
    r1.set_id(String::from("1234567890"));

    let plan = transcript_repository_to_object_files(
        &Node::TreeNode(r1),
        &"tempdir1".to_string(),
    );

    let find = |dir: &str, file: &str| -> &ObjectFile {
        plan.iter()
            .find(|o| o.directory == dir && o.filename == file)
            .expect("object should be in the plan")
    };
    assert_eq!(plan.len(), 3);
    let root_object = find("tempdir1/12", "34567890");
    assert_eq!(
        "BLOB 1234567891 file1\nTREE 1234567892 dir2\n",
        root_object.content
    );
    assert_eq!(find("tempdir1/12", "34567891").content, "content");
    assert_eq!(find("tempdir1/12", "34567892").content, "");
    // post-order: every child object is written before its parent's
    assert_eq!(plan[2].filename, "34567890");
}

#[test]
fn sharding_splits_after_two_characters() {
    let mut blob = Blob::new("f".to_string(), "data".to_string());
    blob.set_id("1234567890".to_string());
    let (directory, filename) = create_details(&Node::BlobNode(blob), &String::from(""));
    assert_eq!(directory, "12");
    assert_eq!(filename, "34567890");
}

fn store_from_plan(plan: &[ObjectFile], base: &str) -> Vec<(String, String)> {
    plan.iter()
        .map(|o| {
            let dir_part = if base.is_empty() {
                o.directory.clone()
            } else {
                o.directory[base.len() + 1..].to_string()
            };
            (format!("{}{}", dir_part, o.filename), o.content.clone())
        })
        .collect()
}

#[test]
fn encode_then_decode_rebuilds_the_tree() {
    let leaf = Node::create_blob_node("hello.txt".to_string(), "greetings\n".to_string());
    let inner = Node::create_tree_node("inner".to_string(), vec![leaf]);
    let other = Node::create_blob_node("notes".to_string(), "a b c".to_string());
    let mut root = Node::create_tree_node("project".to_string(), vec![inner, other]);
    let root_id = root.generate_id();

    let plan = transcript_repository_to_object_files(&root, &String::new());
    let store = store_from_plan(&plan, "");

    let mut rebuilt = Tree::new("project".to_string(), vec![]);
    rebuilt.set_id(root_id.clone());
    get_repository_tree_from_object_files(&mut rebuilt, &root_id, &store)
        .expect("decode should succeed");

    let rebuilt_node = Node::TreeNode(rebuilt);
    assert!(trees_equal(&root, &rebuilt_node));
}

fn trees_equal(a: &Node, b: &Node) -> bool {
    if a.get_name() != b.get_name() || a.get_id() != b.get_id() {
        return false;
    }
    match (a, b) {
        (Node::BlobNode(x), Node::BlobNode(y)) => x.get_content() == y.get_content(),
        (Node::TreeNode(x), Node::TreeNode(y)) => {
            let ca = x.get_children();
            let cb = y.get_children();
            ca.len() == cb.len()
                && ca.iter().zip(cb.iter()).all(|(u, v)| trees_equal(u, v))
        }
        _ => false,
    }
}

#[test]
fn malformed_object_decode_fails_with_unexpected_structure() {
    let store = vec![(
        "rootid".to_string(),
        "JUNK 0123456789abcdef name\n".to_string(),
    )];
    let mut root = Tree::new("r".to_string(), vec![]);
    let err = get_repository_tree_from_object_files(&mut root, &"rootid".to_string(), &store)
        .unwrap_err();
    match err {
        RepTreeError::UnexpectedComportment(m) => {
            assert_eq!(m, "Malformed line in tree object");
        }
        _ => panic!("expected an unexpected-structure error"),
    }
}

#[test]
fn missing_object_decode_fails_with_io_error() {
    let store: Vec<(String, String)> = vec![];
    let mut root = Tree::new("r".to_string(), vec![]);
    let err = get_repository_tree_from_object_files(&mut root, &"absent".to_string(), &store)
        .unwrap_err();
    match err {
        RepTreeError::IoError(m) => {
            assert_eq!(m, "Error file not found in objects");
        }
        _ => panic!("expected an I/O error"),
    }
}

#[test]
fn cyclic_store_decode_fails_instead_of_looping() {
    // an object whose single line names itself as a subtree
    let id = "aaaaaaaaaaaaaaaa".to_string();
    let store = vec![(id.clone(), format!("TREE {} self\n", id))];
    let mut root = Tree::new("r".to_string(), vec![]);
    let err =
        get_repository_tree_from_object_files(&mut root, &id, &store).unwrap_err();
    match err {
        RepTreeError::UnexpectedComportment(m) => {
            assert_eq!(m, "Object store references do not bottom out");
        }
        _ => panic!("expected an unexpected-structure error"),
    }
}

#[test]
fn parse_tree_line_reads_fixed_columns_and_spacey_names() {
    let line = "BLOB 0123456789abcdef a name with spaces".to_string();
    let (is_tree, id, name) = parse_tree_line(&line).unwrap();
    assert!(!is_tree);
    assert_eq!(id, "0123456789abcdef");
    assert_eq!(name, "a name with spaces");

    let tree_line = "TREE fedcba9876543210 dir".to_string();
    let (is_tree, id, name) = parse_tree_line(&tree_line).unwrap();
    assert!(is_tree);
    assert_eq!(id, "fedcba9876543210");
    assert_eq!(name, "dir");

    assert!(parse_tree_line(&"short".to_string()).is_none());
    assert!(parse_tree_line(&"NOPE 0123456789abcdef name".to_string()).is_none());
}

#[test]
fn get_blob_from_object_file_adds_the_fetched_blob() {
    let store = vec![("blobid".to_string(), "the content".to_string())];
    let mut root = Tree::new("r".to_string(), vec![]);
    get_blob_from_object_file(&mut root, "file".to_string(), "blobid".to_string(), &store)
        .expect("blob should be found");
    let children = root.get_children();
    assert_eq!(children.len(), 1);
    assert_eq!(children[0].get_name(), "file");
    assert_eq!(children[0].get_content().unwrap(), "the content");
    assert_eq!(children[0].get_id(), "blobid");
}

#[test]
fn round_trip_keeps_names_with_spaces() {
    let leaf = Node::create_blob_node("a name with spaces".to_string(), "body\n".to_string());
    let mut root = Node::create_tree_node("top level dir".to_string(), vec![leaf]);
    let root_id = root.generate_id();

    let plan = transcript_repository_to_object_files(&root, &String::new());
    let store = store_from_plan(&plan, "");

    let mut rebuilt = Tree::new("top level dir".to_string(), vec![]);
    rebuilt.set_id(root_id.clone());
    get_repository_tree_from_object_files(&mut rebuilt, &root_id, &store)
        .expect("decode should succeed");
    let children = rebuilt.get_children();
    assert_eq!(children.len(), 1);
    assert_eq!(children[0].get_name(), "a name with spaces");
    assert_eq!(children[0].get_content().unwrap(), "body\n");
}
