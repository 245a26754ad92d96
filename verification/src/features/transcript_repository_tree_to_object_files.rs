use vstd::prelude::*;

use crate::models::node::{children_view, lemma_children_view, Node, NodeView};
use crate::models::tree::Tree;
use crate::models::blob::Blob;

verus! {

broadcast use vstd::std_specs::vec::group_vec_axioms;

/// One object write of an encoding plan: the directory, the file name
/// inside it, and the bytes of the object.
#[derive(Debug)]
pub struct ObjectFile {
    pub directory: String,
    pub filename: String,
    pub content: String,
}

/// Mathematical model of an [`ObjectFile`].
pub struct ObjectFileView {
    pub directory: Seq<char>,
    pub filename: Seq<char>,
    pub content: Seq<char>,
}

impl View for ObjectFile {
    type V = ObjectFileView;

    open spec fn view(&self) -> ObjectFileView {
        ObjectFileView {
            directory: self.directory@,
            filename: self.filename@,
            content: self.content@,
        }
    }
}

/// The models of a sequence of object writes.
pub open spec fn object_files_view(s: Seq<ObjectFile>) -> Seq<ObjectFileView> {
    s.map_values(|o: ObjectFile| o@)
}

/// The shard directory of an identifier: its first two characters.
pub open spec fn shard_dir(id: Seq<char>) -> Seq<char> {
    if id.len() < 2 {
        id
    } else {
        id.take(2)
    }
}

/// The file name of an identifier inside its shard: all but the first two
/// characters.
pub open spec fn shard_file(id: Seq<char>) -> Seq<char> {
    if id.len() < 2 {
        Seq::<char>::empty()
    } else {
        id.skip(2)
    }
}

/// A path joined with one segment, with `/` between non-empty parts.
pub open spec fn join_path(base: Seq<char>, seg: Seq<char>) -> Seq<char> {
    if base.len() == 0 {
        seg
    } else {
        base + "/"@ + seg
    }
}

/// The line a tree object holds for one child: the kind token, the child's
/// identifier and the child's name, space-separated and newline-terminated.
pub open spec fn line_of(n: NodeView) -> Seq<char> {
    (if n.is_tree() {
        "TREE "@
    } else {
        "BLOB "@
    }) + n.id() + " "@ + n.name() + "\n"@
}

/// The content of a tree object: one line per direct child, in stored
/// order.
pub open spec fn tree_object_content(s: Seq<NodeView>) -> Seq<char>
    decreases s.len(),
{
    if s.len() == 0 {
        Seq::<char>::empty()
    } else {
        tree_object_content(s.drop_last()) + line_of(s.last())
    }
}

/// The bytes an object stores for a node: a blob stores its raw content, a
/// tree stores its child lines.
pub open spec fn object_content(n: NodeView) -> Seq<char> {
    match n {
        NodeView::Blob(b) => b.content,
        NodeView::Tree(t) => tree_object_content(t.children),
    }
}

/// The whole encoding plan of a subtree, in post-order: every descendant's
/// object is written before its parent's, each under
/// `base/<id[0:2]>/<id[2:]>`.
pub open spec fn encode_plan(n: NodeView, base: Seq<char>) -> Seq<ObjectFileView>
    decreases n,
{
    (match n {
        NodeView::Blob(b) => Seq::<ObjectFileView>::empty(),
        NodeView::Tree(t) => encode_plan_all(t.children, base),
    }) + seq![
        ObjectFileView {
            directory: join_path(base, shard_dir(n.id())),
            filename: shard_file(n.id()),
            content: object_content(n),
        },
    ]
}

/// The encoding plans of a sequence of nodes, concatenated in order.
pub open spec fn encode_plan_all(s: Seq<NodeView>, base: Seq<char>) -> Seq<ObjectFileView>
    decreases s,
{
    if s.len() == 0 {
        Seq::<ObjectFileView>::empty()
    } else {
        encode_plan_all(s.drop_last(), base) + encode_plan(s.last(), base)
    }
}

/// The directory and file name under which a node's object is stored:
/// `path` joined with the first two characters of the id, then the rest of
/// the id — the two-level shard of the store.
pub fn create_details(node: &Node, path: &String) -> (r: (String, String))
    ensures
        r.0@ == join_path(path@, shard_dir(node@.id())),
        r.1@ == shard_file(node@.id()),
{
    let id = node.get_id();
    let id_str = id.as_str();
    let id_len = id_str.unicode_len();
    let directory: String;
    let filename: String;
    if id_len < 2 {
        directory = id.clone();
        filename = String::new();
    } else {
        directory = String::from_str(id_str.substring_char(0, 2));
        filename = String::from_str(id_str.substring_char(2, id_len));
    }
    let mut full = String::new();
    if path.as_str().unicode_len() == 0 {
        full.append(directory.as_str());
    } else {
        full.append(path.as_str());
        full.append("/");
        full.append(directory.as_str());
    }
    proof {
        assert(full@ =~= join_path(path@, shard_dir(node@.id())));
        assert(filename@ =~= shard_file(node@.id()));
    }
    (full, filename)
}

/// The raw bytes a blob's object stores: its content verbatim, with no
/// framing and no added trailing newline.
pub fn transcript_blob(blob: &Blob) -> (r: String)
    ensures
        r@ == blob@.content,
{
    blob.get_content()
}

/// The bytes a tree's object stores: one `<KIND> <id> <name>` line per
/// direct child, in stored order.
pub fn transcript_tree(tree: &Tree) -> (r: String)
    ensures
        r@ == tree_object_content(tree@.children),
{
    proof {
        lemma_children_view(tree.children@);
    }
    let ghost cs = tree@.children;
    let mut out = String::new();
    let n = tree.children.len();
    let mut i: usize = 0;
    while i < n
        invariant
            i <= n,
            n == tree.children@.len(),
            n == cs.len(),
            cs == children_view(tree.children@),
            forall|k: int| 0 <= k < n ==> cs[k] == #[trigger] tree.children@[k]@,
            out@ == tree_object_content(cs.take(i as int)),
        decreases n - i,
    {
        let child = &tree.children[i];
        match child {
            Node::TreeNode(t) => {
                out.append("TREE ");
                out.append(t.get_id().as_str());
                out.append(" ");
                out.append(t.get_name().as_str());
                out.append("\n");
            },
            Node::BlobNode(b) => {
                out.append("BLOB ");
                out.append(b.get_id().as_str());
                out.append(" ");
                out.append(b.get_name().as_str());
                out.append("\n");
            },
        }
        proof {
            assert(child@ == cs[i as int]);
            assert(cs.take(i + 1).drop_last() =~= cs.take(i as int));
            assert(cs.take(i + 1).last() == cs[i as int]);
            assert(out@ =~= tree_object_content(cs.take(i as int)) + line_of(cs[i as int]));
        }
        i = i + 1;
    }
    proof {
        assert(cs.take(n as int) =~= cs);
    }
    out
}

/// The full write plan that commits a subtree to the object store rooted at
/// `path`: post-order, children before their parent, as [`encode_plan`]
/// states.
pub fn transcript_repository_to_object_files(root: &Node, path: &String) -> (r: Vec<ObjectFile>)
    ensures
        object_files_view(r@) == encode_plan(root@, path@),
    decreases root@,
{
    let mut out: Vec<ObjectFile> = Vec::new();
    let (directory, filename) = create_details(root, path);
    match root {
        Node::BlobNode(blob) => {
            let content = transcript_blob(blob);
            out.push(ObjectFile { directory, filename, content });
            proof {
                assert(encode_plan_all(root@.children(), path@) =~= Seq::<ObjectFileView>::empty());
                assert(object_files_view(out@) =~= encode_plan(root@, path@));
            }
        },
        Node::TreeNode(tree) => {
            proof {
                lemma_children_view(tree.children@);
            }
            let ghost cs = tree@.children;
            let n = tree.children.len();
            let mut i: usize = 0;
            while i < n
                invariant
                    i <= n,
                    n == tree.children@.len(),
                    n == cs.len(),
                    cs == children_view(tree.children@),
                    forall|k: int| 0 <= k < n ==> cs[k] == #[trigger] tree.children@[k]@,
                    root@ == NodeView::Tree(tree@),
                    root == &Node::TreeNode(*tree),
                    object_files_view(out@) == encode_plan_all(cs.take(i as int), path@),
                decreases n - i,
            {
                let child = &tree.children[i];
                proof {
                    assert(child@ == cs[i as int]);
                    assert(decreases_to!(root@ => root@->Tree_0));
                    assert(decreases_to!(root@->Tree_0 => root@->Tree_0.children));
                    assert(decreases_to!(root@->Tree_0.children => root@->Tree_0.children[i as int]));
                    assert(root@->Tree_0.children[i as int] == cs[i as int]);
                }
                let mut sub = transcript_repository_to_object_files(child, path);
                let ghost pre = out@;
                let ghost subv = sub@;
                out.append(&mut sub);
                proof {
                    assert(out@ =~= pre + subv);
                    assert(object_files_view(out@) =~= object_files_view(pre) + object_files_view(
                        subv,
                    ));
                    assert(cs.take(i + 1).drop_last() =~= cs.take(i as int));
                    assert(cs.take(i + 1).last() == cs[i as int]);
                }
                i = i + 1;
            }
            proof {
                assert(cs.take(n as int) =~= cs);
            }
            let content = transcript_tree(tree);
            out.push(ObjectFile { directory, filename, content });
            proof {
                assert(object_files_view(out@) =~= encode_plan(root@, path@));
            }
        },
    }
    out
}

} // verus!
