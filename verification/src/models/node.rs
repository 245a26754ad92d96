use vstd::prelude::*;

use crate::ident::id_of;
use crate::models::blob::{Blob, BlobView};
use crate::models::tree::{Tree, TreeView};

verus! {

/// A node of the in-memory graph: either a file ([`Blob`]) or a
/// directory ([`Tree`]).
#[derive(Debug)]
pub enum Node {
    BlobNode(Blob),
    TreeNode(Tree),
}

/// Mathematical model of a [`Node`].
pub enum NodeView {
    Blob(BlobView),
    Tree(TreeView),
}

impl NodeView {
    pub open spec fn name(self) -> Seq<char> {
        match self {
            NodeView::Blob(b) => b.name,
            NodeView::Tree(t) => t.name,
        }
    }

    pub open spec fn id(self) -> Seq<char> {
        match self {
            NodeView::Blob(b) => b.id,
            NodeView::Tree(t) => t.id,
        }
    }

    pub open spec fn is_tree(self) -> bool {
        self matches NodeView::Tree(_)
    }

    pub open spec fn children(self) -> Seq<NodeView> {
        match self {
            NodeView::Blob(b) => Seq::<NodeView>::empty(),
            NodeView::Tree(t) => t.children,
        }
    }

    pub open spec fn content(self) -> Seq<char> {
        match self {
            NodeView::Blob(b) => b.content,
            NodeView::Tree(t) => Seq::<char>::empty(),
        }
    }

    /// Two nodes occupy the same slot when their names are equal and their
    /// variants match; content and children take no part in it.
    pub open spec fn same_slot(self, other: NodeView) -> bool {
        self.name() == other.name() && self.is_tree() == other.is_tree()
    }

    /// The name comparison of [`Node::has_same_name`]: equal names, except
    /// that a blob on the left is never given the name of a tree on the
    /// right.
    pub open spec fn names_match(self, other: NodeView) -> bool {
        if !self.is_tree() && other.is_tree() {
            false
        } else {
            self.name() == other.name()
        }
    }
}

/// The model of a node.
pub open spec fn node_view(n: Node) -> NodeView
    decreases n,
{
    match n {
        Node::BlobNode(b) => NodeView::Blob(b@),
        Node::TreeNode(t) => NodeView::Tree(spec_tree_view(t)),
    }
}

/// The model of a tree.
pub open spec fn spec_tree_view(t: Tree) -> TreeView
    decreases t,
{
    TreeView { id: t.id@, name: t.name@, children: children_view(t.children@) }
}

/// The models of a sequence of nodes, in order.
pub open spec fn children_view(s: Seq<Node>) -> Seq<NodeView>
    decreases s,
{
    if s.len() == 0 {
        Seq::<NodeView>::empty()
    } else {
        children_view(s.drop_last()).push(node_view(s.last()))
    }
}

impl View for Node {
    type V = NodeView;

    open spec fn view(&self) -> NodeView {
        node_view(*self)
    }
}

/// `children_view` maps each node of the sequence to its model.
pub proof fn lemma_children_view(s: Seq<Node>)
    ensures
        children_view(s).len() == s.len(),
        forall|i: int| 0 <= i < s.len() ==> children_view(s)[i] == #[trigger] s[i]@,
    decreases s,
{
    if s.len() > 0 {
        lemma_children_view(s.drop_last());
        assert forall|i: int| 0 <= i < s.len() implies children_view(s)[i] == #[trigger] s[i]@ by {
            if i < s.len() - 1 {
                assert(s.drop_last()[i] == s[i]);
            } else {
                assert(s.last() == s[i]);
            }
        }
    }
}

/// Appending a node appends its model.
pub proof fn lemma_children_view_push(s: Seq<Node>, x: Node)
    ensures
        children_view(s.push(x)) == children_view(s).push(x@),
{
    assert(s.push(x).drop_last() =~= s);
    assert(s.push(x).last() == x);
}

/// Removing a node removes its model.
pub proof fn lemma_children_view_remove(s: Seq<Node>, i: int)
    requires
        0 <= i < s.len(),
    ensures
        children_view(s.remove(i)) == children_view(s).remove(i),
{
    lemma_children_view(s);
    lemma_children_view(s.remove(i));
    s.remove_ensures(i);
    children_view(s).remove_ensures(i);
    assert forall|j: int| 0 <= j < s.len() - 1 implies children_view(s.remove(i))[j]
        == children_view(s).remove(i)[j] by {
        assert(children_view(s.remove(i))[j] == s.remove(i)[j]@);
        if j < i {
            assert(s.remove(i)[j] == s[j]);
            assert(children_view(s)[j] == s[j]@);
            assert(children_view(s).remove(i)[j] == children_view(s)[j]);
        } else {
            assert(s.remove(i)[j] == s[j + 1]);
            assert(children_view(s)[j + 1] == s[j + 1]@);
            assert(children_view(s).remove(i)[j] == children_view(s)[j + 1]);
        }
    }
    assert(children_view(s.remove(i)) =~= children_view(s).remove(i));
}

/// Updating a node updates its model.
pub proof fn lemma_children_view_update(s: Seq<Node>, i: int, x: Node)
    requires
        0 <= i < s.len(),
    ensures
        children_view(s.update(i, x)) == children_view(s).update(i, x@),
{
    lemma_children_view(s);
    lemma_children_view(s.update(i, x));
    assert forall|j: int| 0 <= j < s.len() implies children_view(s.update(i, x))[j]
        == children_view(s).update(i, x@)[j] by {
        assert(children_view(s.update(i, x))[j] == s.update(i, x)[j]@);
        if j == i {
            assert(s.update(i, x)[j] == x);
        } else {
            assert(s.update(i, x)[j] == s[j]);
            assert(children_view(s)[j] == s[j]@);
        }
    }
    assert(children_view(s.update(i, x)) =~= children_view(s).update(i, x@));
}

/// The identifier a commit assigns to a node: a blob hashes its content, a
/// childless tree hashes its name, and a tree with children hashes the
/// concatenation of its children's own identifiers — so a tree's identifier
/// commits to its whole subtree.
pub open spec fn node_id(n: NodeView) -> Seq<char>
    decreases n,
{
    match n {
        NodeView::Blob(b) => id_of(b.content),
        NodeView::Tree(t) => if t.children.len() == 0 {
            id_of(t.name)
        } else {
            id_of(ids_payload(t.children))
        },
    }
}

/// The concatenation, in child order, of the identifiers the children of a
/// tree receive when committed.
pub open spec fn ids_payload(s: Seq<NodeView>) -> Seq<char>
    decreases s,
{
    if s.len() == 0 {
        Seq::<char>::empty()
    } else {
        ids_payload(s.drop_last()) + node_id(s.last())
    }
}

/// A whole subtree with the identifiers a commit assigns, bottom-up.
pub open spec fn with_ids(n: NodeView) -> NodeView
    decreases n,
{
    match n {
        NodeView::Blob(b) => NodeView::Blob(BlobView { id: id_of(b.content), ..b }),
        NodeView::Tree(t) => NodeView::Tree(
            TreeView { id: node_id(n), name: t.name, children: with_ids_all(t.children) },
        ),
    }
}

/// `with_ids`, applied to each node of a sequence.
pub open spec fn with_ids_all(s: Seq<NodeView>) -> Seq<NodeView>
    decreases s,
{
    if s.len() == 0 {
        Seq::<NodeView>::empty()
    } else {
        with_ids_all(s.drop_last()).push(with_ids(s.last()))
    }
}

/// Identity determinism: committing a subtree assigns identifiers that
/// depend only on names and contents, so committing it a second time,
/// unchanged, assigns exactly the same identifiers — and the root's
/// identifier is unchanged too.
pub proof fn lemma_with_ids_stable(n: NodeView)
    ensures
        node_id(with_ids(n)) == node_id(n),
        with_ids(with_ids(n)) == with_ids(n),
    decreases n, 1int,
{
    match n {
        NodeView::Blob(b) => {},
        NodeView::Tree(t) => {
            lemma_with_ids_all_stable(t.children);
        },
    }
}

/// `lemma_with_ids_stable`, over a sequence of children: lengths, the
/// concatenated identifier payload, and idempotence are all preserved.
pub proof fn lemma_with_ids_all_stable(s: Seq<NodeView>)
    ensures
        with_ids_all(s).len() == s.len(),
        ids_payload(with_ids_all(s)) == ids_payload(s),
        with_ids_all(with_ids_all(s)) == with_ids_all(s),
    decreases s, 0int,
{
    if s.len() > 0 {
        lemma_with_ids_all_stable(s.drop_last());
        lemma_with_ids_stable(s.last());
        assert(with_ids_all(s).drop_last() =~= with_ids_all(s.drop_last()));
        assert(with_ids_all(s).last() == with_ids(s.last()));
        assert(with_ids_all(with_ids_all(s)).drop_last() =~= with_ids_all(
            with_ids_all(s).drop_last(),
        ));
    }
}

/// `with_ids_all` assigns each child its own `with_ids`, independently of
/// its siblings.
pub proof fn lemma_with_ids_all_pointwise(s: Seq<NodeView>)
    ensures
        with_ids_all(s).len() == s.len(),
        forall|j: int| 0 <= j < s.len() ==> with_ids_all(s)[j] == with_ids(#[trigger] s[j]),
    decreases s,
{
    if s.len() > 0 {
        lemma_with_ids_all_pointwise(s.drop_last());
        assert forall|j: int| 0 <= j < s.len() implies with_ids_all(s)[j] == with_ids(
            #[trigger] s[j],
        ) by {
            if j < s.len() - 1 {
                assert(s.drop_last()[j] == s[j]);
            } else {
                assert(s.last() == s[j]);
            }
        }
    }
}

/// Merkle stability: replacing one child's subtree and recomputing
/// identifiers leaves every other child's assigned identifiers exactly as
/// they were — an unchanged subtree keeps its identifiers.
pub proof fn lemma_merkle_unchanged_siblings(s: Seq<NodeView>, i: int, c: NodeView)
    requires
        0 <= i < s.len(),
    ensures
        forall|j: int|
            0 <= j < s.len() && j != i ==> with_ids_all(s.update(i, c))[j] == with_ids_all(s)[j],
{
    lemma_with_ids_all_pointwise(s);
    lemma_with_ids_all_pointwise(s.update(i, c));
    assert forall|j: int| 0 <= j < s.len() && j != i implies with_ids_all(s.update(i, c))[j]
        == with_ids_all(s)[j] by {
        assert(s.update(i, c)[j] == s[j]);
    }
}

impl Clone for Node {
    /// Clones preserve the whole model.
    fn clone(&self) -> (r: Node)
        ensures
            r@ == self@,
    {
        match self {
            Node::BlobNode(b) => Node::BlobNode(b.clone()),
            Node::TreeNode(t) => Node::TreeNode(t.clone()),
        }
    }
}

impl Node {
    /// True exactly when the two nodes have the same variant.
    pub fn is_same_type(n1: &Node, n2: &Node) -> (r: bool)
        ensures
            r == (n1@.is_tree() == n2@.is_tree()),
    {
        match (n1, n2) {
            (Node::BlobNode(_), Node::BlobNode(_)) => true,
            (Node::TreeNode(_), Node::TreeNode(_)) => true,
            _ => false,
        }
    }

    /// Compares the nodes' names, variant-wise as [`NodeView::names_match`]
    /// states.
    pub fn has_same_name(&self, other: &Node) -> (r: bool)
        ensures
            r == self@.names_match(other@),
    {
        match (self, other) {
            (Node::BlobNode(b1), Node::BlobNode(b2)) => b1.has_same_name(b2),
            (Node::TreeNode(t1), Node::TreeNode(t2)) => t1.has_same_name(t2),
            (Node::TreeNode(t1), Node::BlobNode(b1)) => t1.get_name().eq(&b1.get_name()),
            _ => false,
        }
    }

    pub fn is_tree(&self) -> (r: bool)
        ensures
            r == self@.is_tree(),
    {
        match self {
            Node::TreeNode(_) => true,
            _ => false,
        }
    }

    pub fn is_blob(&self) -> (r: bool)
        ensures
            r == !self@.is_tree(),
    {
        match self {
            Node::BlobNode(_) => true,
            _ => false,
        }
    }

    /// True exactly when the node carries the empty name, the sentinel of a
    /// tree root.
    pub fn is_root(&self) -> (r: bool)
        ensures
            r == (self@.name().len() == 0),
    {
        match self {
            Node::BlobNode(b) => b.get_name().as_str().unicode_len() == 0,
            Node::TreeNode(t) => t.get_name().as_str().unicode_len() == 0,
        }
    }

    /// Creates a tree node; the id starts empty.
    pub fn create_tree_node(name: String, children: Vec<Node>) -> (r: Node)
        ensures
            r@ == NodeView::Tree(
                TreeView {
                    id: Seq::<char>::empty(),
                    name: name@,
                    children: children_view(children@),
                },
            ),
    {
        let tree: Tree = Tree::new(name, children);
        Node::TreeNode(tree)
    }

    /// Creates a blob node; the id starts empty.
    pub fn create_blob_node(name: String, content: String) -> (r: Node)
        ensures
            r@ == NodeView::Blob(
                BlobView { id: Seq::<char>::empty(), name: name@, content: content@ },
            ),
    {
        let blob: Blob = Blob::new(name, content);
        Node::BlobNode(blob)
    }

    /// Adds `future_child` to a tree node, replacing at most one child in the
    /// same slot; on a blob node it does nothing and reports `false`.
    pub fn add_node_to_tree_node(&mut self, future_child: Node) -> (r: bool)
        ensures
            old(self)@.is_tree() ==> r && final(self)@ == NodeView::Tree(
                TreeView {
                    children: crate::models::tree::add_or_replace(
                        old(self)@.children(),
                        future_child@,
                    ),
                    ..old(self)@->Tree_0
                },
            ),
            !old(self)@.is_tree() ==> !r && final(self)@ == old(self)@,
    {
        match self {
            Node::TreeNode(tree) => {
                tree.add_node(future_child);
                true
            },
            _ => false,
        }
    }

    /// The children of a tree node, or `None` on a blob node.
    pub fn get_children(&mut self) -> (r: Option<Vec<Node>>)
        ensures
            final(self)@ == old(self)@,
            old(self)@.is_tree() ==> (r matches Some(c) && children_view(c@) == old(
                self,
            )@.children()),
            !old(self)@.is_tree() ==> r is None,
    {
        match self {
            Node::TreeNode(tree) => Some(tree.get_children()),
            _ => None,
        }
    }

    pub fn get_name(&self) -> (r: String)
        ensures
            r@ == self@.name(),
    {
        match self {
            Node::TreeNode(tree) => tree.get_name(),
            Node::BlobNode(blob) => blob.get_name(),
        }
    }

    pub fn get_id(&self) -> (r: String)
        ensures
            r@ == self@.id(),
    {
        match self {
            Node::TreeNode(tree) => tree.get_id(),
            Node::BlobNode(blob) => blob.get_id(),
        }
    }

    /// On a tree node, the position of the first child that is a tree and
    /// matches `node`'s name, as [`Tree::find_child`]; `None` on a blob node.
    pub fn find_child(&self, node: &Node) -> (r: Option<usize>)
        ensures
            match r {
                Some(i) => self@.is_tree() && 0 <= i < self@.children().len() && {
                    let c = self@.children();
                    &&& c[i as int].names_match(node@)
                    &&& c[i as int].is_tree()
                    &&& forall|j: int|
                        0 <= j < i ==> !(#[trigger] c[j].names_match(node@) && c[j].is_tree())
                },
                None => !self@.is_tree() || forall|j: int|
                    0 <= j < self@.children().len() ==> !(#[trigger] self@.children()[j].names_match(
                        node@,
                    ) && self@.children()[j].is_tree()),
            },
    {
        match self {
            Node::TreeNode(tree) => {
                let r = tree.find_child(node);
                proof {
                    assert(self@.children() == tree@.children);
                }
                r
            },
            _ => None,
        }
    }

    /// The content of a blob node, or `None` on a tree node.
    pub fn get_content(&self) -> (r: Option<String>)
        ensures
            !self@.is_tree() ==> (r matches Some(c) && c@ == self@.content()),
            self@.is_tree() ==> r is None,
    {
        match self {
            Node::BlobNode(blob) => Some(blob.get_content()),
            _ => None,
        }
    }

    /// Computes and assigns identifiers over the whole subtree, bottom-up,
    /// and returns this node's identifier.
    pub fn generate_id(&mut self) -> (id: String)
        ensures
            final(self)@ == with_ids(old(self)@),
            id@ == node_id(old(self)@),
        decreases *self,
    {
        match self {
            Node::BlobNode(b) => b.generate_id(),
            Node::TreeNode(t) => t.generate_id(),
        }
    }
}

} // verus!
