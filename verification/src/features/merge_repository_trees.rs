use vstd::prelude::*;

use crate::models::blob::{Blob, BlobView};
use crate::models::node::{children_view, lemma_children_view, Node, NodeView};
use crate::models::tree::{add_or_replace, has_slot, TreeView};

verus! {

broadcast use vstd::std_specs::vec::group_vec_axioms;

/// The two merge policies: `Partial` replaces a blob's content outright with
/// the incoming one, `Complete` combines diverging blob contents line by
/// line under conflict markers.
#[derive(PartialEq, Eq, Structural)]
pub enum Mode {
    Partial,
    Complete,
}

impl Mode {
    pub fn as_str(&self) -> (r: &'static str)
        ensures
            *self == Mode::Partial ==> r@ == "PARTIAL"@,
            *self == Mode::Complete ==> r@ == "COMPLETE"@,
    {
        match self {
            Mode::Partial => "PARTIAL",
            Mode::Complete => "COMPLETE",
        }
    }
}

/// One entry of a line diff of two texts: a line only in the current text,
/// a line only in the incoming text, or a line common to both.
#[derive(Debug, Clone)]
pub enum DiffLine {
    Left(String),
    Right(String),
    Both(String),
}

impl View for DiffLine {
    type V = (char, Seq<char>);

    open spec fn view(&self) -> (char, Seq<char>) {
        match self {
            DiffLine::Left(s) => ('L', s@),
            DiffLine::Right(s) => ('R', s@),
            DiffLine::Both(s) => ('B', s@),
        }
    }
}

/// The models of a sequence of diff entries.
pub open spec fn diff_view(d: Seq<DiffLine>) -> Seq<(char, Seq<char>)> {
    d.map_values(|x: DiffLine| x@)
}

/// The line diff that [`diff_lines`] computes: a deterministic function of
/// the two texts alone.
pub uninterp spec fn diff_of(a: Seq<char>, b: Seq<char>) -> Seq<(char, Seq<char>)>;

/// Relies on `diff::lines`: a deterministic line-level diff of its two
/// arguments, partitioning lines into current-only, incoming-only and
/// common.
#[verifier::external_body]
fn diff_lines(a: &str, b: &str) -> (r: Vec<DiffLine>)
    ensures
        diff_view(r@) == diff_of(a@, b@),
{
    diff::lines(a, b)
        .into_iter()
        .map(|d| match d {
            diff::Result::Left(s) => DiffLine::Left(s.to_string()),
            diff::Result::Right(s) => DiffLine::Right(s.to_string()),
            diff::Result::Both(s, _) => DiffLine::Both(s.to_string()),
        })
        .collect()
}

/// The marker line that opens a conflict block.
pub open spec fn marker_open() -> Seq<char> {
    "\n<<<<<< HEAD (current change)\n"@
}

/// The separator between the current and the incoming side of a conflict.
pub open spec fn marker_separator() -> Seq<char> {
    "\n======\n"@
}

/// The marker line that closes an incoming run.
pub open spec fn marker_incoming() -> Seq<char> {
    "\n>>>>>> (incoming change)\n"@
}

/// The pair of markers that closes a conflict block no incoming line ended.
pub open spec fn marker_close() -> Seq<char> {
    "\n======\n>>>>>> (incoming change)\n"@
}

/// The conflict-annotated text built from the remaining diff entries, given
/// whether a conflict block is open: a current-only line opens a block if
/// none is open; an incoming-only line emits the separator if a block is
/// open and always closes with the incoming marker; a common line first
/// closes any open block; a block still open at the end is closed at the
/// very end.
pub open spec fn merged_rec(d: Seq<(char, Seq<char>)>, in_conflict: bool) -> Seq<char>
    decreases d.len(),
{
    if d.len() == 0 {
        if in_conflict {
            marker_close()
        } else {
            Seq::<char>::empty()
        }
    } else {
        let e = d.first();
        if e.0 == 'L' {
            if in_conflict {
                e.1 + merged_rec(d.drop_first(), true)
            } else {
                marker_open() + e.1 + merged_rec(d.drop_first(), true)
            }
        } else if e.0 == 'R' {
            if in_conflict {
                marker_separator() + e.1 + marker_incoming() + merged_rec(d.drop_first(), false)
            } else {
                e.1 + marker_incoming() + merged_rec(d.drop_first(), false)
            }
        } else {
            if in_conflict {
                marker_close() + e.1 + merged_rec(d.drop_first(), false)
            } else {
                e.1 + merged_rec(d.drop_first(), false)
            }
        }
    }
}

/// The conflict-annotated text a whole diff merges to.
pub open spec fn merged_content(d: Seq<(char, Seq<char>)>) -> Seq<char> {
    merged_rec(d, false)
}

/// Walks a line diff in order and builds the conflict-annotated text, as
/// [`merged_content`] states.
pub fn merge_content_from_diff(diff: &Vec<DiffLine>) -> (r: String)
    ensures
        r@ == merged_content(diff_view(diff@)),
{
    let ghost dv = diff_view(diff@);
    let mut result = String::new();
    let mut in_conflict = false;
    let n = diff.len();
    let mut i: usize = 0;
    proof {
        assert(dv.skip(0) =~= dv);
        assert(result@ + merged_rec(dv, false) =~= merged_rec(dv, false));
    }
    while i < n
        invariant
            i <= n,
            n == diff@.len(),
            dv == diff_view(diff@),
            dv.len() == n,
            result@ + merged_rec(dv.skip(i as int), in_conflict) == merged_content(dv),
        decreases n - i,
    {
        proof {
            assert(dv.skip(i as int).first() == dv[i as int]);
            assert(dv.skip(i as int).drop_first() =~= dv.skip(i + 1));
            assert(dv[i as int] == diff@[i as int]@);
        }
        let ghost pre = result@;
        let ghost was_in_conflict = in_conflict;
        match &diff[i] {
            DiffLine::Left(old_line) => {
                if !in_conflict {
                    result.append("\n<<<<<< HEAD (current change)\n");
                    in_conflict = true;
                }
                result.append(old_line.as_str());
            },
            DiffLine::Right(new_line) => {
                if in_conflict {
                    result.append("\n======\n");
                }
                result.append(new_line.as_str());
                result.append("\n>>>>>> (incoming change)\n");
                in_conflict = false;
            },
            DiffLine::Both(common) => {
                if in_conflict {
                    result.append("\n======\n>>>>>> (incoming change)\n");
                    in_conflict = false;
                }
                result.append(common.as_str());
            },
        }
        proof {
            assert(result@ + merged_rec(dv.skip(i + 1), in_conflict) =~= pre + merged_rec(
                dv.skip(i as int),
                was_in_conflict,
            ));
        }
        i = i + 1;
    }
    proof {
        assert(dv.skip(n as int) =~= Seq::<(char, Seq<char>)>::empty());
    }
    if in_conflict {
        result.append("\n======\n>>>>>> (incoming change)\n");
    }
    result
}

/// Combines two blob contents: the current against the incoming, by a line
/// diff with inline conflict markers.
pub fn merge_content(content1: &String, content2: &String) -> (r: String)
    ensures
        r@ == merged_content(diff_of(content1@, content2@)),
{
    let diff = diff_lines(content1.as_str(), content2.as_str());
    merge_content_from_diff(&diff)
}

/// What merging two nodes yields. Roots (empty name) that already share an
/// identifier merge to nothing; blobs combine by policy; trees merge
/// structurally; a blob against a tree merges to nothing.
pub open spec fn merge_nodes(v1: NodeView, v2: NodeView, mode: Mode) -> Option<NodeView>
    decreases v1, 0int, 0int,
{
    if v1.name().len() == 0 && v1.id() == v2.id() {
        None
    } else {
        match (v1, v2) {
            (NodeView::Blob(b1), NodeView::Blob(b2)) => if mode == Mode::Partial {
                Some(NodeView::Blob(b2))
            } else {
                Some(
                    NodeView::Blob(
                        BlobView {
                            content: merged_content(diff_of(b1.content, b2.content)),
                            ..b1
                        },
                    ),
                )
            },
            (NodeView::Tree(t1), NodeView::Tree(t2)) => Some(
                NodeView::Tree(
                    TreeView { children: merged_children(t1.children, t2.children, mode), ..t1 },
                ),
            ),
            _ => None,
        }
    }
}

/// The children of a merged tree: every child of the first tree that finds a
/// same-slot counterpart among the second tree's children is replaced by the
/// merged pair, then every child of the second tree whose slot is still
/// absent is appended.
pub open spec fn merged_children(s1: Seq<NodeView>, s2: Seq<NodeView>, mode: Mode) -> Seq<
    NodeView,
>
    decreases s1, 3int, 0int,
{
    append_missing(merge_all(s1, s1, 0, s2, mode), s2, 0)
}

/// The first tree's children `c` after the children of `s1` from position
/// `i` on have each been merged against all of `s2`.
pub open spec fn merge_all(
    c: Seq<NodeView>,
    s1: Seq<NodeView>,
    i: int,
    s2: Seq<NodeView>,
    mode: Mode,
) -> Seq<NodeView>
    decreases s1, 2int, s1.len() - i,
{
    if i < 0 || i >= s1.len() {
        c
    } else {
        merge_all(merge_one(c, s1[i], s2, 0, mode), s1, i + 1, s2, mode)
    }
}

/// The first tree's children `c` after `n1` has been merged against the
/// children of `s2` from position `j` on: each same-slot counterpart that
/// merges to something replaces `n1`'s slot in `c`.
pub open spec fn merge_one(
    c: Seq<NodeView>,
    n1: NodeView,
    s2: Seq<NodeView>,
    j: int,
    mode: Mode,
) -> Seq<NodeView>
    decreases n1, 1int, s2.len() - j,
{
    if j < 0 || j >= s2.len() {
        c
    } else {
        let c2 = if n1.same_slot(s2[j]) {
            match merge_nodes(n1, s2[j], mode) {
                Some(m) => add_or_replace(c, m),
                None => c,
            }
        } else {
            c
        };
        merge_one(c2, n1, s2, j + 1, mode)
    }
}

/// `c` with every child of `s2`, from position `j` on, whose slot `c` does
/// not yet hold appended.
pub open spec fn append_missing(c: Seq<NodeView>, s2: Seq<NodeView>, j: int) -> Seq<NodeView>
    decreases s2.len() - j,
{
    if j < 0 || j >= s2.len() {
        c
    } else {
        let c2 = if has_slot(c, s2[j]) {
            c
        } else {
            add_or_replace(c, s2[j])
        };
        append_missing(c2, s2, j + 1)
    }
}

/// Merges two node graphs under the given policy, as [`merge_nodes`]
/// states: `None` signals "nothing to merge" — identical roots, or a
/// blob against a tree.
pub fn merge_repository_trees(n1: Node, n2: Node, mode: &Mode) -> (r: Option<Node>)
    ensures
        match (r, merge_nodes(n1@, n2@, *mode)) {
            (Some(x), Some(v)) => x@ == v,
            (None, None) => true,
            _ => false,
        },
    decreases n1@,
{
    let ghost old_n1 = n1@;
    if n1.is_root() && n1.get_id().eq(&n2.get_id()) {
        return None;
    }
    match (n1, n2) {
        (Node::BlobNode(mut b1), Node::BlobNode(b2)) => {
            match mode {
                Mode::Partial => Some(Node::BlobNode(b2)),
                Mode::Complete => {
                    merge_blob(&mut b1, &b2);
                    Some(Node::BlobNode(b1))
                },
            }
        },
        (Node::TreeNode(mut t1), Node::TreeNode(t2)) => {
            let ghost tv1 = t1@;
            let ghost s1 = t1@.children;
            let ghost s2 = t2@.children;
            proof {
                assert(old_n1 == NodeView::Tree(tv1));
                lemma_children_view(t2.children@);
            }
            let children1 = t1.get_children();
            proof {
                lemma_children_view(children1@);
            }
            let n = children1.len();
            let mut i: usize = 0;
            while i < n
                invariant
                    i <= n,
                    n == children1@.len(),
                    n == s1.len(),
                    children_view(children1@) == s1,
                    forall|k: int|
                        0 <= k < n ==> children_view(children1@)[k] == #[trigger] children1@[k]@,
                    s2 == children_view(t2.children@),
                    forall|k: int|
                        0 <= k < s2.len() ==> children_view(t2.children@)[k]
                            == #[trigger] t2.children@[k]@,
                    s2.len() == t2.children@.len(),
                    t1@.id == tv1.id,
                    t1@.name == tv1.name,
                    old_n1 == NodeView::Tree(tv1),
                    s1 == tv1.children,
                    n1@ == old_n1,
                    merge_all(t1@.children, s1, i as int, s2, *mode) == merge_all(
                        s1,
                        s1,
                        0,
                        s2,
                        *mode,
                    ),
                decreases n - i,
            {
                let node1 = &children1[i];
                let ghost c0 = t1@.children;
                let m = t2.children.len();
                let mut j: usize = 0;
                while j < m
                    invariant
                        j <= m,
                        i < n,
                        n == children1@.len(),
                        n == s1.len(),
                        children_view(children1@) == s1,
                        forall|k: int|
                            0 <= k < n ==> children_view(children1@)[k]
                                == #[trigger] children1@[k]@,
                        node1 == &children1@[i as int],
                        m == s2.len(),
                        m == t2.children@.len(),
                        s2 == children_view(t2.children@),
                        forall|k: int|
                            0 <= k < s2.len() ==> children_view(t2.children@)[k]
                                == #[trigger] t2.children@[k]@,
                        t1@.id == tv1.id,
                        t1@.name == tv1.name,
                        old_n1 == NodeView::Tree(tv1),
                        s1 == tv1.children,
                        n1@ == old_n1,
                        merge_one(t1@.children, s1[i as int], s2, j as int, *mode) == merge_one(
                            c0,
                            s1[i as int],
                            s2,
                            0,
                            *mode,
                        ),
                    decreases m - j,
                {
                    let node2 = &t2.children[j];
                    let ghost cj = t1@.children;
                    if node1.get_name().eq(&node2.get_name()) && Node::is_same_type(node1, node2) {
                        proof {
                            assert(node1@ == s1[i as int]);
                            assert(node2@ == s2[j as int]);
                            assert(s1[i as int].same_slot(s2[j as int]));
                            assert(decreases_to!(old_n1 => old_n1->Tree_0));
                            assert(decreases_to!(old_n1->Tree_0 => old_n1->Tree_0.children));
                            assert(decreases_to!(old_n1->Tree_0.children => old_n1->Tree_0.children[i as int]));
                            assert(old_n1->Tree_0.children[i as int] == s1[i as int]);
                        }
                        let merged = merge_repository_trees(node1.clone(), node2.clone(), mode);
                        if let Some(result) = merged {
                            t1.add_node(result);
                        }
                    }
                    j = j + 1;
                }
                proof {
                    assert(merge_all(c0, s1, i as int, s2, *mode) == merge_all(
                        merge_one(c0, s1[i as int], s2, 0, *mode),
                        s1,
                        i + 1,
                        s2,
                        *mode,
                    ));
                }
                i = i + 1;
            }
            let ghost a0 = t1@.children;
            let m = t2.children.len();
            let mut j: usize = 0;
            while j < m
                invariant
                    j <= m,
                    m == s2.len(),
                    m == t2.children@.len(),
                    s2 == children_view(t2.children@),
                    forall|k: int|
                        0 <= k < s2.len() ==> children_view(t2.children@)[k]
                            == #[trigger] t2.children@[k]@,
                    t1@.id == tv1.id,
                    t1@.name == tv1.name,
                    append_missing(t1@.children, s2, j as int) == append_missing(a0, s2, 0),
                decreases m - j,
            {
                let node = &t2.children[j];
                proof {
                    assert(node@ == s2[j as int]);
                }
                if !t1.exist_node_same_name_and_type(node) {
                    t1.add_node(node.clone());
                }
                j = j + 1;
            }
            Some(Node::TreeNode(t1))
        },
        _ => None,
    }
}

/// Structural merge union: merging the children `[a, b]` with `[b2, c]`,
/// where `b` and `b2` share a slot, the other slots are pairwise distinct,
/// and the pair merges to `m`, yields exactly the three children
/// `[a, m, c]`: the unmatched child of the first tree is kept, the matched
/// pair is merged in place of its slot, and the new child of the second
/// tree is appended.
pub proof fn lemma_structural_merge_union(
    a: NodeView,
    b: NodeView,
    b2: NodeView,
    c: NodeView,
    mode: Mode,
    m: NodeView,
)
    requires
        b.same_slot(b2),
        !a.same_slot(b),
        !a.same_slot(c),
        !b.same_slot(c),
        merge_nodes(b, b2, mode) == Some(m),
    ensures
        merged_children(seq![a, b], seq![b2, c], mode) == seq![a, m, c],
{
    let s1 = seq![a, b];
    let s2 = seq![b2, c];
    assert(m.same_slot(b));
    assert(!a.same_slot(b2));
    assert(merge_one(s1, a, s2, 0, mode) == s1) by {
        assert(merge_one(s1, a, s2, 0, mode) == merge_one(s1, a, s2, 1, mode));
        assert(merge_one(s1, a, s2, 1, mode) == merge_one(s1, a, s2, 2, mode));
        assert(merge_one(s1, a, s2, 2, mode) == s1);
    }
    let after_b = add_or_replace(s1, m);
    crate::models::tree::lemma_find_slot_found(s1, m, 0, 1);
    assert(after_b =~= seq![a, m]);
    assert(merge_one(s1, b, s2, 1, mode) == merge_one(s1, b, s2, 2, mode));
    assert(merge_one(after_b, b, s2, 1, mode) == after_b) by {
        assert(merge_one(after_b, b, s2, 1, mode) == merge_one(after_b, b, s2, 2, mode));
        assert(merge_one(after_b, b, s2, 2, mode) == after_b);
    }
    assert(merge_one(s1, b, s2, 0, mode) == after_b);
    assert(merge_all(s1, s1, 0, s2, mode) == after_b) by {
        assert(s1[0] == a && s1[1] == b && s1.len() == 2);
        assert(merge_all(s1, s1, 0, s2, mode) == merge_all(
            merge_one(s1, a, s2, 0, mode),
            s1,
            1,
            s2,
            mode,
        ));
        assert(merge_all(s1, s1, 1, s2, mode) == merge_all(
            merge_one(s1, b, s2, 0, mode),
            s1,
            2,
            s2,
            mode,
        ));
        assert(merge_all(after_b, s1, 2, s2, mode) == after_b);
    }
    assert(has_slot(after_b, b2)) by {
        assert(after_b[1].same_slot(b2));
    }
    assert(!has_slot(after_b, c)) by {
        assert(!after_b[0].same_slot(c));
        assert(!after_b[1].same_slot(c));
        assert(forall|i: int|
            0 <= i < after_b.len() ==> !(#[trigger] after_b[i].same_slot(c)));
    }
    crate::models::tree::lemma_find_slot_none(after_b, c, 0);
    assert(add_or_replace(after_b, c) =~= seq![a, m, c]);
    assert(append_missing(after_b, s2, 0) == append_missing(after_b, s2, 1));
    assert(append_missing(add_or_replace(after_b, c), s2, 2) == add_or_replace(after_b, c));
    assert(merged_children(s1, s2, mode) =~= seq![a, m, c]);
}

/// Merge idempotence on identical roots: merging a root — a node carrying
/// the empty name — with any node that already has the same identifier
/// yields "nothing to merge", not a rebuilt tree.
pub proof fn lemma_merge_identical_roots(v1: NodeView, v2: NodeView, mode: Mode)
    requires
        v1.name().len() == 0,
        v1.id() == v2.id(),
    ensures
        merge_nodes(v1, v2, mode) is None,
{
}

/// Replaces `b1`'s content with the conflict-annotated combination of both
/// blobs' contents; name and id stay as they were.
pub fn merge_blob(b1: &mut Blob, b2: &Blob)
    ensures
        final(b1)@ == (BlobView {
            content: merged_content(diff_of(old(b1)@.content, b2@.content)),
            ..old(b1)@
        }),
{
    let merged = merge_content(&b1.get_content(), &b2.get_content());
    b1.set_content(merged);
}

} // verus!
