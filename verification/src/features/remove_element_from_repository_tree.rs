use vstd::prelude::*;

use crate::error::RepTreeError;
use crate::models::node::{children_view, lemma_children_view, Node, NodeView};
use crate::models::tree::TreeView;

verus! {

broadcast use vstd::std_specs::vec::group_vec_axioms;

/// The position of the first element of `s`, at or after `i`, named
/// `name`, of either variant.
pub open spec fn find_named(s: Seq<NodeView>, name: Seq<char>, i: int) -> Option<int>
    decreases s.len() - i,
{
    if i < 0 || i >= s.len() {
        None
    } else if s[i].name() == name {
        Some(i)
    } else {
        find_named(s, name, i + 1)
    }
}

pub proof fn lemma_find_named_none(s: Seq<NodeView>, name: Seq<char>, i: int)
    requires
        0 <= i <= s.len(),
        forall|j: int| i <= j < s.len() ==> (#[trigger] s[j]).name() != name,
    ensures
        find_named(s, name, i) is None,
    decreases s.len() - i,
{
    if i < s.len() {
        lemma_find_named_none(s, name, i + 1);
    }
}

pub proof fn lemma_find_named_found(s: Seq<NodeView>, name: Seq<char>, i: int, k: int)
    requires
        0 <= i <= k < s.len(),
        s[k].name() == name,
        forall|j: int| i <= j < k ==> (#[trigger] s[j]).name() != name,
    ensures
        find_named(s, name, i) == Some(k),
    decreases k - i,
{
    if i < k {
        lemma_find_named_found(s, name, i + 1, k);
    }
}

/// `v` with the element that `element[i..]` names below it removed: at the
/// last name, the first child so named is removed; at an earlier name,
/// every child so named has the rest of the chain removed below it. A
/// blob, or a chain that has run out, is left as it is.
pub open spec fn remove_below(v: NodeView, element: Seq<Seq<char>>, i: int) -> NodeView
    decreases element.len() - i, 1int, 0int,
{
    if !v.is_tree() || i < 0 || i >= element.len() {
        v
    } else {
        let t = v->Tree_0;
        if i == element.len() - 1 {
            match find_named(t.children, element[i], 0) {
                Some(k) => NodeView::Tree(TreeView { children: t.children.remove(k), ..t }),
                None => v,
            }
        } else {
            NodeView::Tree(
                TreeView { children: remove_below_all(t.children, element, i), ..t },
            )
        }
    }
}

/// `remove_below` applied, one level further down, to every element of
/// `s` named `element[i]`.
pub open spec fn remove_below_all(s: Seq<NodeView>, element: Seq<Seq<char>>, i: int) -> Seq<
    NodeView,
>
    decreases element.len() - i, 0int, s.len(),
{
    if s.len() == 0 || i < 0 || i >= element.len() {
        s
    } else {
        remove_below_all(s.drop_last(), element, i).push(
            if s.last().name() == element[i] {
                remove_below(s.last(), element, i + 1)
            } else {
                s.last()
            },
        )
    }
}

/// What removing `element` from `root` yields: nothing happens unless the
/// chain starts with `root`'s own name; below that, [`remove_below`]
/// walks the remaining names.
pub open spec fn remove_spec(v: NodeView, element: Seq<Seq<char>>) -> NodeView {
    if element.len() == 0 || element.first() != v.name() {
        v
    } else {
        remove_below(v, element, 1)
    }
}

/// The models of a sequence of name strings.
pub open spec fn names_view(s: Seq<String>) -> Seq<Seq<char>> {
    s.map_values(|n: String| n@)
}

/// Removes the descendant that the name chain `element` (starting with
/// the root's own name) designates, as [`remove_spec`] states. Never
/// fails; a chain that matches nothing leaves the tree as it is.
pub fn remove_element_from_repository_tree(root: &mut Node, element: &Vec<String>) -> (r: Result<
    (),
    RepTreeError,
>)
    ensures
        r is Ok,
        final(root)@ == remove_spec(old(root)@, names_view(element@)),
{
    let ghost ev = names_view(element@);
    if element.len() == 0 {
        return Ok(());
    }
    proof {
        assert(ev.first() == element@[0]@);
    }
    if !root.get_name().eq(&element[0]) {
        return Ok(());
    }
    remove_below_in(root, element, 1)
}

/// The position of the first node of `v` named `target`, of either
/// variant, if any.
fn position_named(v: &Vec<Node>, target: &String) -> (r: Option<usize>)
    ensures
        match r {
            Some(k) => 0 <= k < children_view(v@).len() && find_named(
                children_view(v@),
                target@,
                0,
            ) == Some(k as int),
            None => find_named(children_view(v@), target@, 0) is None,
        },
{
    proof {
        lemma_children_view(v@);
    }
    let ghost s = children_view(v@);
    let n = v.len();
    let mut k: usize = 0;
    while k < n
        invariant
            k <= n,
            n == v@.len(),
            s == children_view(v@),
            s.len() == n,
            forall|j: int| 0 <= j < n ==> s[j] == #[trigger] v@[j]@,
            forall|j: int| 0 <= j < k ==> (#[trigger] s[j]).name() != target@,
        decreases n - k,
    {
        let c = &v[k];
        if c.get_name().eq(target) {
            proof {
                assert(s[k as int].name() == target@);
                lemma_find_named_found(s, target@, 0, k as int);
            }
            return Some(k);
        }
        k = k + 1;
    }
    proof {
        lemma_find_named_none(s, target@, 0);
    }
    None
}

/// The recursive worker of the remover: `element[i..]` is the chain still
/// to walk below `node`.
fn remove_below_in(node: &mut Node, element: &Vec<String>, i: usize) -> (r: Result<
    (),
    RepTreeError,
>)
    requires
        1 <= i,
    ensures
        r is Ok,
        final(node)@ == remove_below(old(node)@, names_view(element@), i as int),
    decreases element@.len() - i, 1int,
{
    let ghost ev = names_view(element@);
    proof {
        assert(forall|j: int| 0 <= j < element@.len() ==> ev[j] == #[trigger] element@[j]@);
    }
    if i >= element.len() {
        return Ok(());
    }
    if node.is_blob() {
        return Ok(());
    }
    if i == element.len() - 1 {
        match node {
            Node::TreeNode(tree) => {
                let pos = position_named(&tree.children, &element[i]);
                proof {
                    lemma_children_view(tree.children@);
                }
                match pos {
                    Some(k) => {
                        let ghost before = tree.children@;
                        tree.children.remove(k);
                        proof {
                            crate::models::node::lemma_children_view_remove(before, k as int);
                        }
                    },
                    None => {},
                }
            },
            _ => {},
        }
        Ok(())
    } else {
        let ghost cs = old(node)@.children();
        proof {
            match old(node)@ {
                NodeView::Tree(t) => {},
                NodeView::Blob(b) => {
                    assert(false);
                },
            }
        }
        let n = match node {
            Node::TreeNode(tree) => {
                proof {
                    lemma_children_view(tree.children@);
                }
                tree.children.len()
            },
            _ => 0,
        };
        let mut k: usize = 0;
        while k < n
            invariant
                k <= n,
                1 <= i,
                i < element@.len() - 1,
                element@.len() <= usize::MAX,
                ev == names_view(element@),
                forall|j: int| 0 <= j < element@.len() ==> ev[j] == #[trigger] element@[j]@,
                cs == old(node)@.children(),
                cs == children_view(old(node)->TreeNode_0.children@),
                n == cs.len(),
                (*node) is TreeNode,
                node->TreeNode_0.id@ == old(node)->TreeNode_0.id@,
                node->TreeNode_0.name@ == old(node)->TreeNode_0.name@,
                node->TreeNode_0.children@.len() == n,
                children_view(node->TreeNode_0.children@).take(k as int) == remove_below_all(
                    cs.take(k as int),
                    ev,
                    i as int,
                ),
                forall|j: int|
                    k <= j < n ==> node->TreeNode_0.children@[j] == #[trigger] old(
                        node,
                    )->TreeNode_0.children@[j],
            decreases n - k,
        {
            let tree = match node {
                Node::TreeNode(t) => t,
                _ => {
                    proof {
                        assert(false);
                    }
                    return Ok(());
                },
            };
            let ghost cur = tree.children@;
            proof {
                lemma_children_view(cur);
                lemma_children_view(old(node)->TreeNode_0.children@);
                assert(cur[k as int] == old(node)->TreeNode_0.children@[k as int]);
                assert(cur[k as int]@ == cs[k as int]);
            }
            let name_matches = tree.children[k].get_name().eq(&element[i]);
            if name_matches {
                let mut child = tree.children.remove(k);
                proof {
                    assert(child == cur[k as int]);
                }
                match remove_below_in(&mut child, element, i + 1) {
                    Ok(()) => {},
                    Err(e) => {
                        return Err(e);
                    },
                }
                tree.children.insert(k, child);
                proof {
                    assert(tree.children@ =~= cur.update(k as int, child));
                    crate::models::node::lemma_children_view_update(cur, k as int, child);
                }
            }
            proof {
                let newcv = children_view(node->TreeNode_0.children@);
                lemma_children_view(node->TreeNode_0.children@);
                assert(cs.take(k + 1).drop_last() =~= cs.take(k as int));
                assert(cs.take(k + 1).last() == cs[k as int]);
                assert(newcv.take(k + 1) =~= remove_below_all(cs.take(k + 1), ev, i as int));
            }
            k = k + 1;
        }
        proof {
            assert(cs.take(n as int) =~= cs);
            lemma_children_view(node->TreeNode_0.children@);
            let newcv = children_view(node->TreeNode_0.children@);
            assert(newcv.take(n as int) =~= newcv);
        }
        Ok(())
    }
}

} // verus!
