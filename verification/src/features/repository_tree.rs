use vstd::prelude::*;

use crate::error::RepTreeError;
use crate::ident::id_of;
use crate::models::blob::{Blob, BlobView};
use crate::models::node::{Node, NodeView};
use crate::models::tree::{add_or_replace, Tree, TreeView};

verus! {

broadcast use vstd::std_specs::vec::group_vec_axioms;

/// One element of a path being added to a repository tree: a directory, or
/// a file with its content. The last element of a path is the entry the
/// path names; every earlier one is a directory on the way down.
#[derive(Debug)]
pub enum PathElement {
    Directory(String),
    File(String, String),
}

impl View for PathElement {
    type V = (bool, Seq<char>, Seq<char>);

    /// Whether the element is a directory, its name, and (for a file) its
    /// content.
    open spec fn view(&self) -> (bool, Seq<char>, Seq<char>) {
        match self {
            PathElement::Directory(name) => (true, name@, Seq::<char>::empty()),
            PathElement::File(name, content) => (false, name@, content@),
        }
    }
}

/// The models of a sequence of path elements.
pub open spec fn elements_view(s: Seq<PathElement>) -> Seq<(bool, Seq<char>, Seq<char>)> {
    s.map_values(|e: PathElement| e@)
}

/// The ancestors of a path from position `i` on: one prefix per later
/// slash, shortest first, and the whole path last.
pub open spec fn ancestors_from(s: Seq<char>, i: int) -> Seq<Seq<char>>
    decreases s.len() - i,
{
    if i < 0 || i >= s.len() {
        seq![s]
    } else if s[i] == '/' {
        seq![s.take(i)] + ancestors_from(s, i + 1)
    } else {
        ancestors_from(s, i + 1)
    }
}

/// The ancestors of a slash-separated path, shortest first, ending with
/// the path itself; an empty path has none.
pub open spec fn ancestors_of(s: Seq<char>) -> Seq<Seq<char>> {
    if s.len() == 0 {
        Seq::<Seq<char>>::empty()
    } else {
        ancestors_from(s, 0)
    }
}

/// The models of a sequence of path strings.
pub open spec fn paths_view(s: Seq<String>) -> Seq<Seq<char>> {
    s.map_values(|p: String| p@)
}

/// Lists the elements that compose a slash-separated path: each ancestor
/// prefix, shortest first, then the path itself, as [`ancestors_of`]
/// states.
pub fn get_elements(path: &String) -> (r: Vec<String>)
    ensures
        paths_view(r@) == ancestors_of(path@),
{
    let ps = path.as_str();
    let n = ps.unicode_len();
    let mut out: Vec<String> = Vec::new();
    if n == 0 {
        proof {
            assert(paths_view(out@) =~= ancestors_of(path@));
        }
        return out;
    }
    let mut i: usize = 0;
    while i < n
        invariant
            i <= n,
            n == path@.len(),
            ps@ == path@,
            n > 0,
            paths_view(out@) + ancestors_from(path@, i as int) == ancestors_from(path@, 0),
        decreases n - i,
    {
        let c = ps.get_char(i);
        if c == '/' {
            let prefix = String::from_str(ps.substring_char(0, i));
            let ghost pre = out@;
            out.push(prefix);
            proof {
                assert(paths_view(out@) =~= paths_view(pre) + seq![path@.take(i as int)]);
            }
        }
        i = i + 1;
    }
    let ghost pre = out@;
    out.push(path.clone());
    proof {
        assert(ancestors_from(path@, n as int) == seq![path@]);
        assert(paths_view(out@) =~= paths_view(pre) + seq![path@]);
        assert(paths_view(out@) =~= ancestors_from(path@, 0));
    }
    out
}

/// The position of the first element of `s`, at or after `i`, that is a
/// tree named `name`.
pub open spec fn find_tree_child(s: Seq<NodeView>, name: Seq<char>, i: int) -> Option<int>
    decreases s.len() - i,
{
    if i < 0 || i >= s.len() {
        None
    } else if s[i].is_tree() && s[i].name() == name {
        Some(i)
    } else {
        find_tree_child(s, name, i + 1)
    }
}

pub proof fn lemma_find_tree_child_none(s: Seq<NodeView>, name: Seq<char>, i: int)
    requires
        0 <= i <= s.len(),
        forall|j: int| i <= j < s.len() ==> !((#[trigger] s[j]).is_tree() && s[j].name() == name),
    ensures
        find_tree_child(s, name, i) is None,
    decreases s.len() - i,
{
    if i < s.len() {
        lemma_find_tree_child_none(s, name, i + 1);
    }
}

pub proof fn lemma_find_tree_child_found(s: Seq<NodeView>, name: Seq<char>, i: int, k: int)
    requires
        0 <= i <= k < s.len(),
        s[k].is_tree() && s[k].name() == name,
        forall|j: int| i <= j < k ==> !((#[trigger] s[j]).is_tree() && s[j].name() == name),
    ensures
        find_tree_child(s, name, i) == Some(k),
    decreases k - i,
{
    if i < k {
        lemma_find_tree_child_found(s, name, i + 1, k);
    }
}

/// A chain of path elements inserted below `v`, one level per element: a
/// directory descends into the matching tree child, or creates it; a file
/// becomes a blob child, committed with the identifier of its content; on
/// a blob node nothing happens.
pub open spec fn insert_chain(v: NodeView, chain: Seq<(bool, Seq<char>, Seq<char>)>) -> NodeView
    decreases chain.len(),
{
    if chain.len() == 0 || !v.is_tree() {
        v
    } else {
        let t = v->Tree_0;
        let e = chain.first();
        if e.0 {
            match find_tree_child(t.children, e.1, 0) {
                Some(i) => NodeView::Tree(
                    TreeView {
                        children: t.children.update(
                            i,
                            insert_chain(t.children[i], chain.drop_first()),
                        ),
                        ..t
                    },
                ),
                None => {
                    let fresh = NodeView::Tree(
                        TreeView {
                            id: Seq::<char>::empty(),
                            name: e.1,
                            children: Seq::<NodeView>::empty(),
                        },
                    );
                    let sub = insert_chain(fresh, chain.drop_first());
                    NodeView::Tree(TreeView { children: add_or_replace(t.children, sub), ..t })
                },
            }
        } else {
            let blob = NodeView::Blob(BlobView { id: id_of(e.2), name: e.1, content: e.2 });
            NodeView::Tree(TreeView { children: add_or_replace(t.children, blob), ..t })
        }
    }
}

/// The leading directory elements of a chain dropped: what remains of the
/// element list after one insertion walk.
pub open spec fn drop_dirs(chain: Seq<(bool, Seq<char>, Seq<char>)>) -> Seq<
    (bool, Seq<char>, Seq<char>),
>
    decreases chain.len(),
{
    if chain.len() == 0 {
        chain
    } else if chain.first().0 {
        drop_dirs(chain.drop_first())
    } else {
        chain
    }
}

/// The models of a sequence of path chains.
pub open spec fn chains_view(s: Seq<Vec<PathElement>>) -> Seq<Seq<(bool, Seq<char>, Seq<char>)>> {
    s.map_values(|v: Vec<PathElement>| elements_view(v@))
}

/// `v` with every non-empty chain of `chains` inserted, in order.
pub open spec fn built_tree_from(
    v: NodeView,
    chains: Seq<Seq<(bool, Seq<char>, Seq<char>)>>,
) -> NodeView
    decreases chains.len(),
{
    if chains.len() == 0 {
        v
    } else {
        built_tree_from(
            if chains.first().len() == 0 {
                v
            } else {
                insert_chain(v, chains.first())
            },
            chains.drop_first(),
        )
    }
}

/// The empty root: a tree with the empty name, the sentinel of the top of
/// the tree.
pub open spec fn empty_root() -> NodeView {
    NodeView::Tree(
        TreeView {
            id: Seq::<char>::empty(),
            name: Seq::<char>::empty(),
            children: Seq::<NodeView>::empty(),
        },
    )
}

/// A repository tree built from scratch: every non-empty path chain
/// inserted, in order, under the empty root.
pub open spec fn built_tree(chains: Seq<Seq<(bool, Seq<char>, Seq<char>)>>) -> NodeView {
    built_tree_from(empty_root(), chains)
}

/// Builds a repository tree holding every given path, as [`built_tree`]
/// states.
pub fn create_repository_tree(paths: Vec<Vec<PathElement>>) -> (r: Result<Node, RepTreeError>)
    ensures
        (r matches Ok(root) && root@ == built_tree(chains_view(paths@))),
{
    let tree: Tree = Tree::default();
    let mut root = Node::TreeNode(tree);
    let ghost cv0 = chains_view(paths@);
    let mut rest = paths;
    proof {
        assert(root@ == empty_root());
    }
    while rest.len() > 0
        invariant
            built_tree_from(root@, chains_view(rest@)) == built_tree(cv0),
        decreases rest@.len(),
    {
        let ghost cv_here = chains_view(rest@);
        let mut chain = rest.remove(0);
        let ghost chainv = elements_view(chain@);
        proof {
            assert(cv_here.first() == chainv);
            assert(chains_view(rest@) =~= cv_here.drop_first());
        }
        if chain.len() > 0 {
            match add_node_to_repository_tree(&mut root, &mut chain) {
                Ok(()) => {},
                Err(e) => {
                    return Err(e);
                },
            }
        }
    }
    proof {
        assert(chains_view(rest@) =~= Seq::<Seq<(bool, Seq<char>, Seq<char>)>>::empty());
    }
    Ok(root)
}

/// Inserts one chain of path elements below `node`, consuming the chain's
/// leading directory elements: a directory descends into (or creates) the
/// matching tree child; a file becomes a blob child committed with the
/// identifier of its content, as [`insert_chain`] states. On a blob node
/// the tree is left as it is. Never fails.
pub fn add_node_to_repository_tree(node: &mut Node, paths: &mut Vec<PathElement>) -> (r: Result<
    (),
    RepTreeError,
>)
    ensures
        r is Ok,
        final(node)@ == insert_chain(old(node)@, elements_view(old(paths)@)),
        elements_view(final(paths)@) == drop_dirs(elements_view(old(paths)@)),
    decreases paths@.len(), 1int,
{
    if paths.len() == 0 {
        return Ok(());
    }
    proof {
        assert(elements_view(paths@).first() == paths@[0]@);
    }
    let first_is_dir = match &paths[0] {
        PathElement::Directory(name) => true,
        PathElement::File(name, content) => false,
    };
    if first_is_dir {
        let file_name = match &paths[0] {
            PathElement::Directory(name) => name.clone(),
            PathElement::File(name, content) => name.clone(),
        };
        _add_tree_node_to_repository_tree(node, paths, file_name)
    } else {
        let (file_name, content) = match &paths[0] {
            PathElement::Directory(name) => (name.clone(), String::new()),
            PathElement::File(name, content) => (name.clone(), content.clone()),
        };
        _add_blob_node_to_repository_tree(node, file_name, content)
    }
}

/// Descends into the tree child named by the chain's first element,
/// creating it if absent, and inserts the rest of the chain below it.
fn _add_tree_node_to_repository_tree(
    node: &mut Node,
    paths: &mut Vec<PathElement>,
    file_name: String,
) -> (r: Result<(), RepTreeError>)
    requires
        old(paths)@.len() > 0,
        old(paths)@[0]@ == (true, file_name@, Seq::<char>::empty()),
    ensures
        r is Ok,
        final(node)@ == insert_chain(old(node)@, elements_view(old(paths)@)),
        elements_view(final(paths)@) == drop_dirs(elements_view(old(paths)@)),
    decreases paths@.len(), 0int,
{
    let ghost chain = elements_view(paths@);
    proof {
        assert(chain.first() == paths@[0]@);
        assert(elements_view(paths@.remove(0)) =~= chain.drop_first());
    }
    let tree_node: Node = Node::create_tree_node(file_name.clone(), Vec::new());
    proof {
        assert(crate::models::node::children_view(Seq::<Node>::empty()) =~= Seq::<
            NodeView,
        >::empty());
    }
    let found = node.find_child(&tree_node);
    match found {
        Some(i) => {
            paths.remove(0);
            match node {
                Node::TreeNode(tree) => {
                    proof {
                        crate::models::node::lemma_children_view(tree.children@);
                        let cs = tree@.children;
                        assert forall|j: int| 0 <= j < i as int implies !((#[trigger] cs[j]).is_tree()
                            && cs[j].name() == file_name@) by {
                            assert(!(cs[j].names_match(tree_node@) && cs[j].is_tree()));
                        }
                        lemma_find_tree_child_found(cs, file_name@, 0, i as int);
                    }
                    let ghost cs = tree@.children;
                    let mut child = tree.children.remove(i);
                    proof {
                        crate::models::node::lemma_children_view(tree.children@);
                        assert(child@ == cs[i as int]);
                    }
                    match add_node_to_repository_tree(&mut child, paths) {
                        Ok(()) => {},
                        Err(e) => {
                            return Err(e);
                        },
                    }
                    let ghost removed = tree.children@;
                    tree.children.insert(i, child);
                    proof {
                        assert(tree.children@ =~= old(node)->TreeNode_0.children@.update(
                            i as int,
                            child,
                        ));
                        crate::models::node::lemma_children_view_update(
                            old(node)->TreeNode_0.children@,
                            i as int,
                            child,
                        );
                    }
                },
                _ => {},
            }
            Ok(())
        },
        None => {
            proof {
                if old(node)@.is_tree() {
                    let cs = old(node)@.children();
                    assert forall|j: int| 0 <= j < cs.len() implies !((#[trigger] cs[j]).is_tree()
                        && cs[j].name() == file_name@) by {
                        assert(!(cs[j].names_match(tree_node@) && cs[j].is_tree()));
                    }
                    lemma_find_tree_child_none(cs, file_name@, 0);
                }
            }
            let mut tn = tree_node;
            paths.remove(0);
            match add_node_to_repository_tree(&mut tn, paths) {
                Ok(()) => {},
                Err(e) => {
                    return Err(e);
                },
            }
            node.add_node_to_tree_node(tn);
            Ok(())
        },
    }
}

/// Adds a blob child holding the file's content, committed with the
/// identifier of that content.
fn _add_blob_node_to_repository_tree(node: &mut Node, file_name: String, content: String) -> (r:
    Result<(), RepTreeError>)
    ensures
        r is Ok,
        old(node)@.is_tree() ==> final(node)@ == NodeView::Tree(
            TreeView {
                children: add_or_replace(
                    old(node)@.children(),
                    NodeView::Blob(
                        BlobView { id: id_of(content@), name: file_name@, content: content@ },
                    ),
                ),
                ..old(node)@->Tree_0
            },
        ),
        !old(node)@.is_tree() ==> final(node)@ == old(node)@,
{
    let mut blob: Blob = Blob::new(file_name, content);
    blob.generate_id();
    node.add_node_to_tree_node(Node::BlobNode(blob));
    Ok(())
}

} // verus!
