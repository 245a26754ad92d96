use vstd::prelude::*;

use crate::ident::{generate, id_of};
use crate::models::node::{
    children_view, lemma_children_view, node_id, with_ids, with_ids_all, ids_payload, Node,
    NodeView,
};

verus! {

broadcast use vstd::std_specs::vec::group_vec_axioms;

/// Mathematical model of a [`Tree`].
pub struct TreeView {
    pub id: Seq<char>,
    pub name: Seq<char>,
    pub children: Seq<NodeView>,
}

/// A directory-representing node: a name and an ordered sequence of child
/// nodes. `id` is empty until the tree is committed, and then commits to the
/// whole subtree.
#[derive(Debug)]
pub struct Tree {
    pub id: String,
    pub name: String,
    pub children: Vec<Node>,
}

impl View for Tree {
    type V = TreeView;

    open spec fn view(&self) -> TreeView {
        crate::models::node::spec_tree_view(*self)
    }
}

/// True when some element of `s` occupies the same slot as `n`.
pub open spec fn has_slot(s: Seq<NodeView>, n: NodeView) -> bool {
    exists|i: int| 0 <= i < s.len() && #[trigger] s[i].same_slot(n)
}

/// The position of the first element of `s`, at or after `i`, in the same
/// slot as `n`.
pub open spec fn find_slot(s: Seq<NodeView>, n: NodeView, i: int) -> Option<int>
    decreases s.len() - i,
{
    if i < 0 || i >= s.len() {
        None
    } else if s[i].same_slot(n) {
        Some(i)
    } else {
        find_slot(s, n, i + 1)
    }
}

/// Last write wins at a slot: the first child in `n`'s slot, if any, is
/// removed, and `n` is appended.
pub open spec fn add_or_replace(s: Seq<NodeView>, n: NodeView) -> Seq<NodeView> {
    match find_slot(s, n, 0) {
        Some(i) => s.remove(i).push(n),
        None => s.push(n),
    }
}

/// No two elements of `s` occupy the same slot.
pub open spec fn unique_slots(s: Seq<NodeView>) -> bool {
    forall|i: int, j: int| 0 <= i < j < s.len() ==> !(#[trigger] s[i].same_slot(s[j]))
}

pub proof fn lemma_find_slot_none(s: Seq<NodeView>, n: NodeView, i: int)
    requires
        0 <= i <= s.len(),
        forall|j: int| i <= j < s.len() ==> !(#[trigger] s[j].same_slot(n)),
    ensures
        find_slot(s, n, i) is None,
    decreases s.len() - i,
{
    if i < s.len() {
        lemma_find_slot_none(s, n, i + 1);
    }
}

pub proof fn lemma_find_slot_found(s: Seq<NodeView>, n: NodeView, i: int, k: int)
    requires
        0 <= i <= k < s.len(),
        s[k].same_slot(n),
        forall|j: int| i <= j < k ==> !(#[trigger] s[j].same_slot(n)),
    ensures
        find_slot(s, n, i) == Some(k),
    decreases k - i,
{
    if i < k {
        lemma_find_slot_found(s, n, i + 1, k);
    }
}

/// What `find_slot` finds: the first position in the same slot, if one
/// exists.
pub proof fn lemma_find_slot_spec(s: Seq<NodeView>, n: NodeView, i: int)
    requires
        0 <= i <= s.len(),
    ensures
        match find_slot(s, n, i) {
            Some(k) => i <= k < s.len() && s[k].same_slot(n) && forall|j: int|
                i <= j < k ==> !(#[trigger] s[j].same_slot(n)),
            None => forall|j: int| i <= j < s.len() ==> !(#[trigger] s[j].same_slot(n)),
        },
    decreases s.len() - i,
{
    if i < s.len() {
        lemma_find_slot_spec(s, n, i + 1);
    }
}

/// Slot semantics of insertion: adding a node to children whose slots are
/// pairwise distinct never produces two children in the same slot.
pub proof fn lemma_add_or_replace_unique_slots(s: Seq<NodeView>, n: NodeView)
    requires
        unique_slots(s),
    ensures
        unique_slots(add_or_replace(s, n)),
{
    lemma_find_slot_spec(s, n, 0);
    match find_slot(s, n, 0) {
        Some(k) => {
            let r = s.remove(k).push(n);
            s.remove_ensures(k);
            assert forall|i: int, j: int| 0 <= i < j < r.len() implies !(#[trigger] r[i].same_slot(
                r[j],
            )) by {
                if j < r.len() - 1 {
                    let oi: int = if i < k {
                        i
                    } else {
                        i + 1
                    };
                    let oj: int = if j < k {
                        j
                    } else {
                        j + 1
                    };
                    assert(r[i] == s[oi]);
                    assert(r[j] == s[oj]);
                } else {
                    let oi: int = if i < k {
                        i
                    } else {
                        i + 1
                    };
                    assert(r[i] == s[oi]);
                    assert(r[j] == n);
                    if r[i].same_slot(n) {
                        assert(s[oi].same_slot(n) && s[k].same_slot(n));
                        if oi < k {
                            assert(s[oi].same_slot(s[k]));
                        } else {
                            assert(s[k].same_slot(s[oi]));
                        }
                        assert(false);
                    }
                }
            }
        },
        None => {
            let r = s.push(n);
            assert forall|i: int, j: int| 0 <= i < j < r.len() implies !(#[trigger] r[i].same_slot(
                r[j],
            )) by {
                if j < r.len() - 1 {
                    assert(r[i] == s[i]);
                    assert(r[j] == s[j]);
                } else {
                    assert(r[i] == s[i]);
                    assert(r[j] == n);
                }
            }
        },
    }
}

/// The position of the first node of `v` in the same slot as `node`, if any.
fn slot_position(v: &Vec<Node>, node: &Node) -> (r: Option<usize>)
    ensures
        match r {
            Some(p) => 0 <= p < children_view(v@).len() && find_slot(
                children_view(v@),
                node@,
                0,
            ) == Some(p as int),
            None => find_slot(children_view(v@), node@, 0) is None,
        },
{
    proof {
        lemma_children_view(v@);
    }
    let ghost s = children_view(v@);
    let n = v.len();
    let mut i: usize = 0;
    while i < n
        invariant
            i <= n,
            n == v@.len(),
            s == children_view(v@),
            s.len() == n,
            forall|j: int| 0 <= j < n ==> s[j] == #[trigger] v@[j]@,
            forall|j: int| 0 <= j < i ==> !(#[trigger] s[j].same_slot(node@)),
        decreases n - i,
    {
        let c = &v[i];
        if c.has_same_name(node) && Node::is_same_type(c, node) {
            proof {
                assert(s[i as int].same_slot(node@));
                lemma_find_slot_found(s, node@, 0, i as int);
            }
            return Some(i);
        }
        i = i + 1;
    }
    proof {
        lemma_find_slot_none(s, node@, 0);
    }
    None
}

impl Clone for Tree {
    /// Clones preserve the whole model.
    fn clone(&self) -> (r: Tree)
        ensures
            r@ == self@,
    {
        Tree {
            id: self.id.clone(),
            name: self.name.clone(),
            children: clone_nodes(&self.children),
        }
    }
}

/// Deep-copies a sequence of nodes; the models are preserved, in order.
fn clone_nodes(v: &Vec<Node>) -> (r: Vec<Node>)
    ensures
        children_view(r@) == children_view(v@),
    decreases v,
{
    let mut r: Vec<Node> = Vec::new();
    let n = v.len();
    let mut i: usize = 0;
    while i < n
        invariant
            i <= n,
            n == v@.len(),
            r@.len() == i,
            forall|j: int| 0 <= j < i ==> #[trigger] r@[j]@ == v@[j]@,
        decreases n - i,
    {
        let c = clone_one(&v[i]);
        r.push(c);
        i = i + 1;
    }
    proof {
        lemma_children_view(r@);
        lemma_children_view(v@);
        assert forall|j: int| 0 <= j < v@.len() implies children_view(r@)[j] == children_view(
            v@,
        )[j] by {
            assert(r@[j]@ == v@[j]@);
        }
        assert(children_view(r@) =~= children_view(v@));
    }
    r
}

/// Deep-copies one node; the model is preserved.
fn clone_one(n: &Node) -> (r: Node)
    ensures
        r@ == n@,
    decreases n,
{
    match n {
        Node::BlobNode(b) => Node::BlobNode(b.clone()),
        Node::TreeNode(t) => Node::TreeNode(
            Tree { id: t.id.clone(), name: t.name.clone(), children: clone_nodes(&t.children) },
        ),
    }
}

impl Tree {
    /// Creates a `Tree` with all fields empty.
    pub fn default() -> (r: Tree)
        ensures
            r@ == (TreeView {
                id: Seq::<char>::empty(),
                name: Seq::<char>::empty(),
                children: Seq::<NodeView>::empty(),
            }),
    {
        Tree { id: String::new(), name: String::new(), children: Vec::new() }
    }

    /// Creates a `Tree` from a name and a child list; the id starts empty.
    pub fn new(name: String, children: Vec<Node>) -> (r: Tree)
        ensures
            r@ == (TreeView {
                id: Seq::<char>::empty(),
                name: name@,
                children: children_view(children@),
            }),
    {
        Tree { id: String::new(), name, children }
    }

    pub fn get_name(&self) -> (r: String)
        ensures
            r@ == self@.name,
    {
        self.name.clone()
    }

    pub fn set_name(&mut self, name: String)
        ensures
            final(self)@ == (TreeView { name: name@, ..old(self)@ }),
    {
        self.name = name;
    }

    pub fn get_id(&self) -> (r: String)
        ensures
            r@ == self@.id,
    {
        self.id.clone()
    }

    pub fn set_id(&mut self, id: String)
        ensures
            final(self)@ == (TreeView { id: id@, ..old(self)@ }),
    {
        self.id = id;
    }

    /// A copy of the child list; the models are preserved, in order.
    pub fn get_children(&self) -> (r: Vec<Node>)
        ensures
            children_view(r@) == self@.children,
    {
        clone_nodes(&self.children)
    }

    /// The position of the first child that is a tree and matches `node`'s
    /// name, if any.
    pub fn find_child(&self, node: &Node) -> (r: Option<usize>)
        ensures
            match r {
                Some(i) => 0 <= i < self@.children.len() && {
                    let c = self@.children;
                    &&& c[i as int].names_match(node@)
                    &&& c[i as int].is_tree()
                    &&& forall|j: int|
                        0 <= j < i ==> !(#[trigger] c[j].names_match(node@) && c[j].is_tree())
                },
                None => forall|j: int|
                    0 <= j < self@.children.len() ==> !(#[trigger] self@.children[j].names_match(
                        node@,
                    ) && self@.children[j].is_tree()),
            },
    {
        proof {
            lemma_children_view(self.children@);
        }
        let n = self.children.len();
        let mut i: usize = 0;
        while i < n
            invariant
                i <= n,
                n == self.children@.len(),
                children_view(self.children@).len() == n,
                forall|j: int|
                    0 <= j < n ==> children_view(self.children@)[j] == #[trigger] self.children@[j]@,
                forall|j: int|
                    0 <= j < i ==> !(#[trigger] self@.children[j].names_match(node@)
                        && self@.children[j].is_tree()),
            decreases n - i,
        {
            let c = &self.children[i];
            if c.has_same_name(node) && c.is_tree() {
                return Some(i);
            }
            i = i + 1;
        }
        None
    }

    /// True exactly when both trees carry the same name.
    pub fn has_same_name(&self, other: &Tree) -> (r: bool)
        ensures
            r == (self@.name == other@.name),
    {
        self.name.eq(&other.name)
    }

    /// True when some child occupies the same slot as `node`.
    pub fn exist_node_same_name_and_type(&self, node: &Node) -> (r: bool)
        ensures
            r == has_slot(self@.children, node@),
    {
        proof {
            lemma_children_view(self.children@);
        }
        let n = self.children.len();
        let mut i: usize = 0;
        while i < n
            invariant
                i <= n,
                n == self.children@.len(),
                children_view(self.children@).len() == n,
                forall|j: int|
                    0 <= j < n ==> children_view(self.children@)[j] == #[trigger] self.children@[j]@,
                forall|j: int| 0 <= j < i ==> !(#[trigger] self@.children[j].same_slot(node@)),
            decreases n - i,
        {
            let c = &self.children[i];
            if c.has_same_name(node) && Node::is_same_type(c, node) {
                proof {
                    assert(self@.children[i as int].same_slot(node@));
                }
                return true;
            }
            i = i + 1;
        }
        false
    }

    /// Adds `node`, first removing the one child in the same slot if one
    /// exists: last write wins at a slot.
    pub fn add_node(&mut self, node: Node)
        ensures
            final(self)@ == (TreeView {
                children: add_or_replace(old(self)@.children, node@),
                ..old(self)@
            }),
    {
        proof {
            lemma_children_view(self.children@);
        }
        let pos = slot_position(&self.children, &node);
        match pos {
            Some(p) => {
                self.children.remove(p);
                proof {
                    crate::models::node::lemma_children_view_remove(old(self).children@, p as int);
                }
            },
            None => {},
        }
        let ghost before_push = self.children@;
        self.children.push(node);
        proof {
            crate::models::node::lemma_children_view_push(before_push, node);
        }
    }

    /// Computes and assigns identifiers over the whole subtree, bottom-up,
    /// and returns this tree's identifier: a childless tree hashes its name,
    /// a tree with children hashes the concatenation of its children's
    /// freshly computed identifiers.
    pub fn generate_id(&mut self) -> (id: String)
        ensures
            final(self)@ == (TreeView {
                id: node_id(NodeView::Tree(old(self)@)),
                name: old(self)@.name,
                children: with_ids_all(old(self)@.children),
            }),
            id@ == node_id(NodeView::Tree(old(self)@)),
        decreases *self,
    {
        proof {
            lemma_children_view(self.children@);
        }
        if self.children.len() == 0 {
            let id = generate(&self.name);
            self.set_id(id.clone());
            proof {
                assert(with_ids_all(old(self)@.children) =~= old(self)@.children);
            }
            id
        } else {
            let ghost oldc = old(self)@.children;
            let mut content = String::new();
            let n = self.children.len();
            let mut i: usize = 0;
            while i < n
                invariant
                    i <= n,
                    n == self.children@.len(),
                    n == old(self).children@.len(),
                    n == oldc.len(),
                    children_view(self.children@).len() == n,
                    self.id@ == old(self)@.id,
                    self.name@ == old(self)@.name,
                    oldc == children_view(old(self).children@),
                    forall|j: int|
                        i <= j < n ==> self.children@[j] == #[trigger] old(self).children@[j],
                    children_view(self.children@).subrange(0, i as int) == with_ids_all(
                        oldc.subrange(0, i as int),
                    ),
                    content@ == ids_payload(oldc.subrange(0, i as int)),
                decreases n - i,
            {
                let ghost cur = self.children@;
                let mut child = self.children.remove(i);
                proof {
                    assert(child == old(self).children@[i as int]);
                    assert(decreases_to!(*old(self) => child)) by {
                        assert(decreases_to!(*old(self) => old(self).children));
                        assert(decreases_to!(old(self).children => old(self).children@[i as int]));
                    }
                }
                let cid = child.generate_id();
                self.children.insert(i, child);
                content.append(cid.as_str());
                proof {
                    lemma_children_view(cur);
                    lemma_children_view(old(self).children@);
                    assert(cur[i as int]@ == oldc[i as int]);
                    assert(child@ == with_ids(oldc[i as int]));
                    assert(cid@ == node_id(oldc[i as int]));
                    assert(self.children@ =~= cur.update(i as int, child));
                    crate::models::node::lemma_children_view_update(cur, i as int, child);
                    assert(children_view(self.children@).subrange(0, i + 1) =~= children_view(
                        cur,
                    ).update(i as int, child@).subrange(0, i as int).push(child@));
                    assert(children_view(cur).update(i as int, child@).subrange(0, i as int)
                        =~= children_view(cur).subrange(0, i as int));
                    assert(oldc.subrange(0, i + 1).drop_last() =~= oldc.subrange(0, i as int));
                    assert(oldc.subrange(0, i + 1).last() == oldc[i as int]);
                    assert(with_ids_all(oldc.subrange(0, i + 1)) == with_ids_all(
                        oldc.subrange(0, i as int),
                    ).push(with_ids(oldc[i as int])));
                    assert(ids_payload(oldc.subrange(0, i + 1)) == ids_payload(
                        oldc.subrange(0, i as int),
                    ) + node_id(oldc[i as int]));
                }
                i = i + 1;
            }
            proof {
                assert(oldc.subrange(0, n as int) =~= oldc);
                assert(children_view(self.children@).subrange(0, n as int) =~= children_view(
                    self.children@,
                ));
            }
            let id = generate(&content);
            self.set_id(id.clone());
            proof {
                assert(id@ == id_of(ids_payload(oldc)));
            }
            id
        }
    }
}

} // verus!
