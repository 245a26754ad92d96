use repository_tree_creator::features::remove_element_from_repository_tree::remove_element_from_repository_tree;
use repository_tree_creator::features::repository_tree::{
    add_node_to_repository_tree, create_repository_tree, get_elements, PathElement,
};
use repository_tree_creator::features::transcript_repository_to_files::{
    transcript_repository_tree_to_files, FsAction, Mode,
};
use repository_tree_creator::models::blob::Blob;
use repository_tree_creator::models::node::Node;
use repository_tree_creator::models::tree::Tree;

#[test]
fn test_should_remove_blob() {
    let b1 = Node::create_blob_node("add".to_string(), "hello".to_string());
    let t2 = Node::create_tree_node("features".to_string(), vec![b1]);
    let mut t1 = Node::create_tree_node("src".to_string(), vec![t2]);
    let element = vec!["src".to_string(), "features".to_string(), "add".to_string()];
    remove_element_from_repository_tree(&mut t1, &element).expect("Error removing node");
    assert_eq!(1, t1.get_children().unwrap().len());
    assert_eq!(0, t1.get_children().unwrap()[0].clone().get_children().unwrap().len());
}

#[test]
fn test_should_remove_tree() {
    let b1 = Node::create_blob_node("add".to_string(), "hello".to_string());
    let t2 = Node::create_tree_node("features".to_string(), vec![b1]);
    let mut t1 = Node::create_tree_node("src".to_string(), vec![t2]);
    let element = vec!["src".to_string(), "features".to_string()];
    remove_element_from_repository_tree(&mut t1, &element).expect("Error removing node");
    assert_eq!(0, t1.get_children().unwrap().len());
}

#[test]
fn should_pass_get_elements() {
    let elements = get_elements(&"src/features/hello".to_string());
    let expected = vec![
        "src".to_string(),
        "src/features".to_string(),
        "src/features/hello".to_string(),
    ];
    assert_eq!(elements, expected)
}

#[test]
fn should_add_tree_node_to_repository() {
    let mut root_node: Node = Node::create_tree_node("".to_string(), vec![]);
    let mut paths: Vec<PathElement> = vec![PathElement::Directory(".tmp".to_string())];

    let result = add_node_to_repository_tree(&mut root_node, &mut paths);

    let binding = root_node.get_children().unwrap();
    let child: &Node = binding.get(0).unwrap();

    assert!(result.is_ok());
    assert_eq!(root_node.get_children().unwrap().len(), 1);
    assert_eq!(child.get_name(), ".tmp");
    assert!(child.is_tree())
}

#[test]
fn should_add_blob_node_to_repository() {
    let mut root_node: Node = Node::create_tree_node("".to_string(), vec![]);
    let mut paths: Vec<PathElement> =
        vec![PathElement::File("tmp1".to_string(), "".to_string())];

    let result = add_node_to_repository_tree(&mut root_node, &mut paths);

    let binding = root_node.get_children().unwrap();
    let child: &Node = binding.get(0).unwrap();

    assert!(result.is_ok());
    assert_eq!(root_node.get_children().unwrap().len(), 1);
    assert_eq!(child.get_name(), "tmp1");
    assert!(child.is_blob());
}

#[test]
fn should_not_add_tree_node_to_repository() {
    let mut root_node: Node = Node::create_tree_node("".to_string(), vec![]);
    let mut paths: Vec<PathElement> =
        vec![PathElement::File("tmp2".to_string(), "Hello, World".to_string())];

    let result = add_node_to_repository_tree(&mut root_node, &mut paths);
    assert!(result.is_ok());

    let mut paths: Vec<PathElement> = vec![PathElement::File(
        "tmp2".to_string(),
        "Hello, World, Everybody".to_string(),
    )];
    let result = add_node_to_repository_tree(&mut root_node, &mut paths);

    let binding = root_node.get_children().unwrap();
    let child: &Node = binding.get(0).unwrap();

    assert!(result.is_ok());
    assert_eq!(root_node.get_children().unwrap().len(), 1);
    assert_eq!(child.get_name(), "tmp2");
    assert!(child.is_blob());
    assert_eq!(child.get_content().unwrap(), "Hello, World, Everybody");
}

#[test]
fn should_create_repository_tree() {
    let paths: Vec<Vec<PathElement>> = vec![
        vec![
            PathElement::Directory(".tmp".to_string()),
            PathElement::Directory("foo".to_string()),
            PathElement::Directory("feat".to_string()),
            PathElement::File("hello.txt".to_string(), "".to_string()),
        ],
        vec![
            PathElement::Directory(".tmp".to_string()),
            PathElement::Directory("foo".to_string()),
            PathElement::Directory("feat".to_string()),
            PathElement::File("world.txt".to_string(), "".to_string()),
        ],
    ];
    let mut node = create_repository_tree(paths).unwrap();

    let binding = node.get_children().unwrap();
    let mut tmp: Node = binding.get(0).unwrap().clone();

    let binding = tmp.get_children().unwrap();
    let mut foo: Node = binding.get(0).unwrap().clone();

    let binding = foo.get_children().unwrap();
    let mut feat: Node = binding.get(0).unwrap().clone();

    let binding = feat.get_children().unwrap();
    let hello: Node = binding.get(0).unwrap().clone();
    let world: Node = binding.get(1).unwrap().clone();

    assert_eq!(node.get_name(), "");
    assert_eq!(node.get_children().unwrap().len(), 1);
    assert_eq!(tmp.get_name(), ".tmp");
    assert_eq!(tmp.get_children().unwrap().len(), 1);
    assert_eq!(foo.get_name(), "foo");
    assert_eq!(tmp.get_children().unwrap().len(), 1);
    assert_eq!(feat.get_name(), "feat");
    assert_eq!(feat.get_children().unwrap().len(), 2);
    assert_eq!(hello.get_name(), "hello.txt");
    assert!(hello.is_blob());
    assert_eq!(world.get_name(), "world.txt");
    assert!(world.is_blob());
}

#[test]
fn should_transcript_repository_to_files() {
    let mut b1 = Blob::new("file1".to_string(), "content".to_string());
    b1.set_id(String::from("1234567891"));
    let mut r2 = Tree::new("dir2".to_string(), vec![]);
    r2.set_id(String::from("1234567892"));
    let mut r1 = Tree::new(
        "dir1".to_string(),
        vec![Node::BlobNode(b1), Node::TreeNode(r2)],
    );
    r1.set_id(String::from("1234567890"));

    let plan = transcript_repository_tree_to_files(
        &Node::TreeNode(r1),
        &"tmp1".to_string(),
        &Mode::Complete,
    );

    let dir_paths: Vec<&String> = plan
        .iter()
        .filter_map(|a| match a {
            FsAction::RecreateDirectory { path } => Some(path),
            _ => None,
        })
        .collect();
    let file_paths: Vec<&String> = plan
        .iter()
        .filter_map(|a| match a {
            FsAction::WriteFile { path, .. } => Some(path),
            _ => None,
        })
        .collect();

    assert!(dir_paths.contains(&&"tmp1/dir1".to_string()));
    assert!(file_paths.contains(&&"tmp1/dir1/file1".to_string()));
    assert!(dir_paths.contains(&&"tmp1/dir1/dir2".to_string()));
}

#[test]
fn partial_mode_plan_never_descends_into_directories() {
    let b1 = Node::create_blob_node("file1".to_string(), "content".to_string());
    let root = Node::create_tree_node("dir".to_string(), vec![b1]);
    let plan = transcript_repository_tree_to_files(&root, &"base".to_string(), &Mode::Partial);
    assert!(plan.is_empty());

    let lone = Node::create_blob_node("solo".to_string(), "text".to_string());
    let plan = transcript_repository_tree_to_files(&lone, &"base".to_string(), &Mode::Partial);
    assert_eq!(plan.len(), 1);
    match &plan[0] {
        FsAction::WriteFile { path, content, only_if_absent } => {
            assert_eq!(path, "base/solo");
            assert_eq!(content, "text");
            assert!(*only_if_absent);
        }
        _ => panic!("expected a file write"),
    }
}

#[test]
fn modify_mode_plan_keeps_existing_directories() {
    let root = Node::create_tree_node("dir".to_string(), vec![]);
    let plan = transcript_repository_tree_to_files(&root, &"".to_string(), &Mode::Modify);
    assert_eq!(plan.len(), 1);
    match &plan[0] {
        FsAction::EnsureDirectory { path } => assert_eq!(path, "dir"),
        _ => panic!("expected a directory creation"),
    }
}

#[test]
fn files_mode_as_str_names_each_policy() {
    assert_eq!(Mode::Partial.as_str(), "PARTIAL");
    assert_eq!(Mode::Modify.as_str(), "MODIFY");
    assert_eq!(Mode::Complete.as_str(), "COMPLETE");
}

#[test]
fn remove_with_unknown_chain_changes_nothing() {
    let b1 = Node::create_blob_node("add".to_string(), "hello".to_string());
    let mut t1 = Node::create_tree_node("src".to_string(), vec![b1]);
    let element = vec!["elsewhere".to_string(), "add".to_string()];
    remove_element_from_repository_tree(&mut t1, &element).unwrap();
    assert_eq!(1, t1.get_children().unwrap().len());
}

#[test]
fn get_elements_of_edge_paths() {
    let empty: Vec<String> = get_elements(&"".to_string());
    assert!(empty.is_empty());
    let single = get_elements(&"alone".to_string());
    assert_eq!(single, vec!["alone".to_string()]);
}
