use vstd::prelude::*;

use crate::features::transcript_repository_tree_to_object_files::join_path;
use crate::models::node::{children_view, lemma_children_view, Node, NodeView};

verus! {

broadcast use vstd::std_specs::vec::group_vec_axioms;

/// The three write policies for materializing a tree onto a filesystem:
/// `Partial` creates files only where absent and never descends into
/// directories, `Modify` creates directories where absent and overwrites
/// files, `Complete` deletes and recreates directories and overwrites
/// files.
#[derive(PartialEq, Eq, Structural)]
pub enum Mode {
    Partial,
    Modify,
    Complete,
}

impl Mode {
    pub fn as_str(&self) -> (r: &'static str)
        ensures
            *self == Mode::Partial ==> r@ == "PARTIAL"@,
            *self == Mode::Modify ==> r@ == "MODIFY"@,
            *self == Mode::Complete ==> r@ == "COMPLETE"@,
    {
        match self {
            Mode::Partial => "PARTIAL",
            Mode::Modify => "MODIFY",
            Mode::Complete => "COMPLETE",
        }
    }
}

/// One filesystem action of a materialization plan. The conditions —
/// create only if absent, create the directory only where missing, or
/// delete and recreate it — are part of the action, so the plan itself is
/// a pure function of the tree.
#[derive(Debug)]
pub enum FsAction {
    WriteFile { path: String, content: String, only_if_absent: bool },
    EnsureDirectory { path: String },
    RecreateDirectory { path: String },
}

/// Mathematical model of an [`FsAction`].
pub enum FsActionView {
    WriteFile(Seq<char>, Seq<char>, bool),
    EnsureDirectory(Seq<char>),
    RecreateDirectory(Seq<char>),
}

impl View for FsAction {
    type V = FsActionView;

    open spec fn view(&self) -> FsActionView {
        match self {
            FsAction::WriteFile { path, content, only_if_absent } => FsActionView::WriteFile(
                path@,
                content@,
                *only_if_absent,
            ),
            FsAction::EnsureDirectory { path } => FsActionView::EnsureDirectory(path@),
            FsAction::RecreateDirectory { path } => FsActionView::RecreateDirectory(path@),
        }
    }
}

/// The models of a sequence of filesystem actions.
pub open spec fn actions_view(s: Seq<FsAction>) -> Seq<FsActionView> {
    s.map_values(|a: FsAction| a@)
}

/// The materialization plan of a subtree under `base`: a blob is one file
/// write (unconditional, or only-if-absent under `Partial`); a tree under
/// `Partial` is nothing at all — that policy never descends; under the
/// other policies the tree's directory action comes before its children's
/// plans, in child order.
pub open spec fn fs_plan(n: NodeView, base: Seq<char>, mode: Mode) -> Seq<FsActionView>
    decreases n,
{
    match n {
        NodeView::Blob(b) => seq![
            FsActionView::WriteFile(join_path(base, b.name), b.content, mode == Mode::Partial),
        ],
        NodeView::Tree(t) => {
            let dir = join_path(base, t.name);
            if mode == Mode::Partial {
                Seq::<FsActionView>::empty()
            } else if mode == Mode::Modify {
                seq![FsActionView::EnsureDirectory(dir)] + fs_plan_all(t.children, dir, mode)
            } else {
                seq![FsActionView::RecreateDirectory(dir)] + fs_plan_all(t.children, dir, mode)
            }
        },
    }
}

/// The materialization plans of a sequence of nodes, concatenated in
/// order.
pub open spec fn fs_plan_all(s: Seq<NodeView>, base: Seq<char>, mode: Mode) -> Seq<FsActionView>
    decreases s,
{
    if s.len() == 0 {
        Seq::<FsActionView>::empty()
    } else {
        fs_plan_all(s.drop_last(), base, mode) + fs_plan(s.last(), base, mode)
    }
}

/// Joins a base path with one segment, `/`-separated unless the base is
/// empty.
fn join_segment(base: &String, seg: &String) -> (r: String)
    ensures
        r@ == join_path(base@, seg@),
{
    let mut full = String::new();
    if base.as_str().unicode_len() == 0 {
        full.append(seg.as_str());
    } else {
        full.append(base.as_str());
        full.append("/");
        full.append(seg.as_str());
    }
    proof {
        assert(full@ =~= join_path(base@, seg@));
    }
    full
}

/// The plan of filesystem actions that materializes `root` under `path` by
/// policy `mode`, as [`fs_plan`] states. The caller performs the actions
/// in order on real storage.
pub fn transcript_repository_tree_to_files(root: &Node, path: &String, mode: &Mode) -> (r: Vec<
    FsAction,
>)
    ensures
        actions_view(r@) == fs_plan(root@, path@, *mode),
    decreases root@,
{
    let mut out: Vec<FsAction> = Vec::new();
    match root {
        Node::BlobNode(blob) => {
            let file_path = join_segment(path, &blob.get_name());
            out.push(
                FsAction::WriteFile {
                    path: file_path,
                    content: blob.get_content(),
                    only_if_absent: *mode == Mode::Partial,
                },
            );
            proof {
                assert(actions_view(out@) =~= fs_plan(root@, path@, *mode));
            }
        },
        Node::TreeNode(tree) => {
            if *mode == Mode::Partial {
                proof {
                    assert(actions_view(out@) =~= fs_plan(root@, path@, *mode));
                }
                return out;
            }
            let dir_path = join_segment(path, &tree.get_name());
            if *mode == Mode::Modify {
                out.push(FsAction::EnsureDirectory { path: dir_path.clone() });
            } else {
                out.push(FsAction::RecreateDirectory { path: dir_path.clone() });
            }
            proof {
                lemma_children_view(tree.children@);
            }
            let ghost cs = tree@.children;
            let ghost first = actions_view(out@);
            let n = tree.children.len();
            let mut i: usize = 0;
            proof {
                assert(cs.take(0) =~= Seq::<NodeView>::empty());
                assert(actions_view(out@) =~= first + fs_plan_all(cs.take(0), dir_path@, *mode));
            }
            while i < n
                invariant
                    i <= n,
                    n == tree.children@.len(),
                    n == cs.len(),
                    cs == children_view(tree.children@),
                    forall|k: int| 0 <= k < n ==> cs[k] == #[trigger] tree.children@[k]@,
                    root@ == NodeView::Tree(tree@),
                    root == &Node::TreeNode(*tree),
                    dir_path@ == join_path(path@, tree@.name),
                    actions_view(out@) == first + fs_plan_all(cs.take(i as int), dir_path@, *mode),
                decreases n - i,
            {
                let child = &tree.children[i];
                proof {
                    assert(child@ == cs[i as int]);
                    assert(decreases_to!(root@ => root@->Tree_0));
                    assert(decreases_to!(root@->Tree_0 => root@->Tree_0.children));
                    assert(decreases_to!(root@->Tree_0.children => root@->Tree_0.children[i as int]));
                    assert(root@->Tree_0.children[i as int] == cs[i as int]);
                }
                let mut sub = transcript_repository_tree_to_files(child, &dir_path, mode);
                let ghost pre = out@;
                let ghost subv = sub@;
                out.append(&mut sub);
                proof {
                    assert(out@ =~= pre + subv);
                    assert(actions_view(out@) =~= actions_view(pre) + actions_view(subv));
                    assert(cs.take(i + 1).drop_last() =~= cs.take(i as int));
                    assert(cs.take(i + 1).last() == cs[i as int]);
                }
                i = i + 1;
            }
            proof {
                assert(cs.take(n as int) =~= cs);
                assert(actions_view(out@) =~= fs_plan(root@, path@, *mode));
            }
        },
    }
    out
}

} // verus!
