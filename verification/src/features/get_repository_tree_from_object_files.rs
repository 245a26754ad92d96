use vstd::prelude::*;

use crate::error::RepTreeError;
use crate::features::transcript_repository_tree_to_object_files::{
    encode_plan, encode_plan_all, join_path, line_of, object_content, shard_dir, shard_file,
    tree_object_content,
};
use crate::ident::ID_LENGTH;
use crate::models::blob::{Blob, BlobView};
use crate::models::node::{Node, NodeView};
use crate::models::tree::{
    add_or_replace, has_slot, lemma_find_slot_none, unique_slots, Tree, TreeView,
};

verus! {

broadcast use vstd::std_specs::vec::group_vec_axioms;

/// The models of an in-memory object store: each entry an identifier and
/// the object's bytes.
pub open spec fn store_view(s: Seq<(String, String)>) -> Seq<(Seq<char>, Seq<char>)> {
    s.map_values(|p: (String, String)| (p.0@, p.1@))
}

/// The content of the first store entry, at or after `i`, whose identifier
/// is `id`.
pub open spec fn store_lookup(s: Seq<(Seq<char>, Seq<char>)>, id: Seq<char>, i: int) -> Option<
    Seq<char>,
>
    decreases s.len() - i,
{
    if i < 0 || i >= s.len() {
        None
    } else if s[i].0 == id {
        Some(s[i].1)
    } else {
        store_lookup(s, id, i + 1)
    }
}

pub proof fn lemma_store_lookup_none(s: Seq<(Seq<char>, Seq<char>)>, id: Seq<char>, i: int)
    requires
        0 <= i <= s.len(),
        forall|j: int| i <= j < s.len() ==> (#[trigger] s[j]).0 != id,
    ensures
        store_lookup(s, id, i) is None,
    decreases s.len() - i,
{
    if i < s.len() {
        lemma_store_lookup_none(s, id, i + 1);
    }
}

pub proof fn lemma_store_lookup_found(s: Seq<(Seq<char>, Seq<char>)>, id: Seq<char>, i: int, k: int)
    requires
        0 <= i <= k < s.len(),
        s[k].0 == id,
        forall|j: int| i <= j < k ==> (#[trigger] s[j]).0 != id,
    ensures
        store_lookup(s, id, i) == Some(s[k].1),
    decreases k - i,
{
    if i < k {
        lemma_store_lookup_found(s, id, i + 1, k);
    }
}

/// The position of the first newline character of `s` at or after `i`.
pub open spec fn find_newline(s: Seq<char>, i: int) -> Option<int>
    decreases s.len() - i,
{
    if i < 0 || i >= s.len() {
        None
    } else if s[i] == '\n' {
        Some(i)
    } else {
        find_newline(s, i + 1)
    }
}

pub proof fn lemma_find_newline_none(s: Seq<char>, i: int)
    requires
        0 <= i <= s.len(),
        forall|j: int| i <= j < s.len() ==> #[trigger] s[j] != '\n',
    ensures
        find_newline(s, i) is None,
    decreases s.len() - i,
{
    if i < s.len() {
        lemma_find_newline_none(s, i + 1);
    }
}

pub proof fn lemma_find_newline_found(s: Seq<char>, i: int, k: int)
    requires
        0 <= i <= k < s.len(),
        s[k] == '\n',
        forall|j: int| i <= j < k ==> #[trigger] s[j] != '\n',
    ensures
        find_newline(s, i) == Some(k),
    decreases k - i,
{
    if i < k {
        lemma_find_newline_found(s, i + 1, k);
    }
}

/// The lines of a text, split at newline characters; a trailing newline
/// yields no empty final line.
pub open spec fn lines_of(s: Seq<char>) -> Seq<Seq<char>>
    decreases s.len(),
{
    if s.len() == 0 {
        Seq::<Seq<char>>::empty()
    } else {
        match find_newline(s, 0) {
            None => seq![s],
            Some(i) => if 0 <= i < s.len() {
                seq![s.take(i)] + lines_of(s.skip(i + 1))
            } else {
                seq![s]
            },
        }
    }
}

/// The models of a sequence of lines.
pub open spec fn lines_view(s: Seq<String>) -> Seq<Seq<char>> {
    s.map_values(|l: String| l@)
}

/// Whether a line opens with the four characters of a kind token and its
/// separating space.
pub open spec fn kind_token_is(l: Seq<char>, a: char, b: char, c: char, d: char) -> bool {
    l[0] == a && l[1] == b && l[2] == c && l[3] == d && l[4] == ' '
}

/// What one tree-object line holds, when well formed: whether the child is
/// a tree, its identifier (the fixed-width field after the kind token) and
/// its name (the rest of the line after one separating space, verbatim).
/// A line too short, or one whose kind token is neither `TREE ` nor
/// `BLOB `, holds nothing.
pub open spec fn parse_line(l: Seq<char>) -> Option<(bool, Seq<char>, Seq<char>)> {
    if l.len() < 5 + ID_LENGTH + 1 {
        None
    } else if kind_token_is(l, 'T', 'R', 'E', 'E') {
        Some((true, l.subrange(5, 5 + ID_LENGTH as int), l.skip(5 + ID_LENGTH + 1)))
    } else if kind_token_is(l, 'B', 'L', 'O', 'B') {
        Some((false, l.subrange(5, 5 + ID_LENGTH as int), l.skip(5 + ID_LENGTH + 1)))
    } else {
        None
    }
}

/// The ways a decode can fail: a missing object, a malformed tree line, or
/// a store whose reference structure never bottoms out.
pub enum DecodeFault {
    NotFound,
    Malformed,
    TooDeep,
}

/// Which error a decode fault surfaces as: a missing object is an I/O
/// failure, the other two are unexpected structure.
pub open spec fn fault_matches(e: RepTreeError, k: DecodeFault) -> bool {
    match k {
        DecodeFault::NotFound => e matches RepTreeError::IoError(m)
            && m@ == "Error file not found in objects"@,
        DecodeFault::Malformed => e matches RepTreeError::UnexpectedComportment(m)
            && m@ == "Malformed line in tree object"@,
        DecodeFault::TooDeep => e matches RepTreeError::UnexpectedComportment(m)
            && m@ == "Object store references do not bottom out"@,
    }
}

/// The children a tree object's lines decode to, appended in order onto
/// `acc`: a `TREE` line decodes its child object recursively (spending one
/// unit of `fuel`), a `BLOB` line fetches the child's raw content.
pub open spec fn decode_lines(
    objects: Seq<(Seq<char>, Seq<char>)>,
    ls: Seq<Seq<char>>,
    acc: Seq<NodeView>,
    fuel: nat,
) -> Result<Seq<NodeView>, DecodeFault>
    decreases fuel, 0int, ls.len(),
{
    if ls.len() == 0 {
        Ok(acc)
    } else {
        match parse_line(ls.first()) {
            None => Err(DecodeFault::Malformed),
            Some((is_tree, id, nm)) => if is_tree {
                if fuel == 0 {
                    Err(DecodeFault::TooDeep)
                } else {
                    match decode_children(objects, id, Seq::<NodeView>::empty(), (fuel - 1) as nat) {
                        Ok(cs) => decode_lines(
                            objects,
                            ls.drop_first(),
                            add_or_replace(
                                acc,
                                NodeView::Tree(TreeView { id, name: nm, children: cs }),
                            ),
                            fuel,
                        ),
                        Err(e) => Err(e),
                    }
                }
            } else {
                match store_lookup(objects, id, 0) {
                    None => Err(DecodeFault::NotFound),
                    Some(c) => decode_lines(
                        objects,
                        ls.drop_first(),
                        add_or_replace(acc, NodeView::Blob(BlobView { id, name: nm, content: c })),
                        fuel,
                    ),
                }
            },
        }
    }
}

/// The children the object named `id` decodes to, appended onto `acc`: the
/// object's bytes are read as tree lines.
pub open spec fn decode_children(
    objects: Seq<(Seq<char>, Seq<char>)>,
    id: Seq<char>,
    acc: Seq<NodeView>,
    fuel: nat,
) -> Result<Seq<NodeView>, DecodeFault>
    decreases fuel, 1int, 0int,
{
    match store_lookup(objects, id, 0) {
        None => Err(DecodeFault::NotFound),
        Some(content) => decode_lines(objects, lines_of(content), acc, fuel),
    }
}

/// Finds the object named `id` in the store and returns a copy of its
/// content, if it is there.
fn lookup_object(objects: &Vec<(String, String)>, id: &String) -> (r: Option<String>)
    ensures
        match r {
            Some(c) => store_lookup(store_view(objects@), id@, 0) == Some(c@),
            None => store_lookup(store_view(objects@), id@, 0) is None,
        },
{
    let ghost s = store_view(objects@);
    let n = objects.len();
    let mut i: usize = 0;
    while i < n
        invariant
            i <= n,
            n == objects@.len(),
            s == store_view(objects@),
            s.len() == n,
            forall|j: int| 0 <= j < n ==> #[trigger] s[j] == (objects@[j].0@, objects@[j].1@),
            forall|j: int| 0 <= j < i ==> (#[trigger] s[j]).0 != id@,
        decreases n - i,
    {
        let entry = &objects[i];
        if entry.0.eq(id) {
            proof {
                lemma_store_lookup_found(s, id@, 0, i as int);
            }
            return Some(entry.1.clone());
        }
        i = i + 1;
    }
    proof {
        lemma_store_lookup_none(s, id@, 0);
    }
    None
}

/// Splits a text into its lines, as [`lines_of`] states.
fn split_lines(content: &String) -> (r: Vec<String>)
    ensures
        lines_view(r@) == lines_of(content@),
{
    let cs = content.as_str();
    let n = cs.unicode_len();
    let mut out: Vec<String> = Vec::new();
    let mut start: usize = 0;
    let mut i: usize = 0;
    proof {
        assert(content@.skip(0) =~= content@);
        assert(lines_view(out@) + lines_of(content@) =~= lines_of(content@));
    }
    while i < n
        invariant
            start <= i <= n,
            n == content@.len(),
            cs@ == content@,
            forall|j: int| start <= j < i ==> #[trigger] content@[j] != '\n',
            lines_view(out@) + lines_of(content@.skip(start as int)) == lines_of(content@),
        decreases n - i,
    {
        let c = cs.get_char(i);
        if c == '\n' {
            let line = String::from_str(cs.substring_char(start, i));
            let ghost pre = out@;
            out.push(line);
            proof {
                let rest = content@.skip(start as int);
                lemma_find_newline_found(rest, 0, i - start);
                assert(rest.take(i - start) =~= content@.subrange(start as int, i as int));
                assert(rest.skip(i - start + 1) =~= content@.skip(i + 1));
                assert(lines_of(rest) == seq![rest.take(i - start)] + lines_of(
                    content@.skip(i + 1),
                ));
                assert(lines_view(out@) =~= lines_view(pre) + seq![line@]);
                assert(lines_view(out@) + lines_of(content@.skip(i + 1)) =~= lines_view(pre)
                    + lines_of(content@.skip(start as int)));
            }
            start = i + 1;
        }
        i = i + 1;
    }
    if start < n {
        let line = String::from_str(cs.substring_char(start, n));
        let ghost pre = out@;
        out.push(line);
        proof {
            let rest = content@.skip(start as int);
            lemma_find_newline_none(rest, 0);
            assert(rest =~= content@.subrange(start as int, n as int));
            assert(lines_of(rest) == seq![rest]);
            assert(lines_view(out@) =~= lines_view(pre) + seq![line@]);
            assert(line@ =~= rest);
        }
    } else {
        proof {
            assert(content@.skip(start as int) =~= Seq::<char>::empty());
        }
    }
    proof {
        assert(lines_view(out@) =~= lines_of(content@));
    }
    out
}

/// Reads one tree-object line, as [`parse_line`] states: the kind token is
/// checked, the identifier field is fixed-width, and the name is the rest
/// of the line — names may contain spaces.
pub fn parse_tree_line(line: &String) -> (r: Option<(bool, String, String)>)
    ensures
        match (r, parse_line(line@)) {
            (Some(p), Some(q)) => p.0 == q.0 && p.1@ == q.1 && p.2@ == q.2,
            (None, None) => true,
            _ => false,
        },
{
    let ls = line.as_str();
    let n = ls.unicode_len();
    if n < 5 + ID_LENGTH + 1 {
        return None;
    }
    let is_tree_kind = ls.get_char(0) == 'T' && ls.get_char(1) == 'R' && ls.get_char(2) == 'E'
        && ls.get_char(3) == 'E' && ls.get_char(4) == ' ';
    let is_blob_kind = ls.get_char(0) == 'B' && ls.get_char(1) == 'L' && ls.get_char(2) == 'O'
        && ls.get_char(3) == 'B' && ls.get_char(4) == ' ';
    if !is_tree_kind && !is_blob_kind {
        return None;
    }
    let id = String::from_str(ls.substring_char(5, 5 + ID_LENGTH));
    let name = String::from_str(ls.substring_char(5 + ID_LENGTH + 1, n));
    proof {
        assert(id@ =~= line@.subrange(5, 5 + ID_LENGTH as int));
        assert(name@ =~= line@.skip(5 + ID_LENGTH + 1));
    }
    Some((is_tree_kind, id, name))
}

/// Fetches the object named `id`, reads it as a blob's raw content, and
/// adds the blob, under `file_name`, to `root`'s children.
pub fn get_blob_from_object_file(
    root: &mut Tree,
    file_name: String,
    id: String,
    objects: &Vec<(String, String)>,
) -> (r: Result<(), RepTreeError>)
    ensures
        match store_lookup(store_view(objects@), id@, 0) {
            Some(c) => r is Ok && final(root)@ == (TreeView {
                children: add_or_replace(
                    old(root)@.children,
                    NodeView::Blob(BlobView { id: id@, name: file_name@, content: c }),
                ),
                ..old(root)@
            }),
            None => (r matches Err(e) && fault_matches(e, DecodeFault::NotFound)) && final(root)@
                == old(root)@,
        },
{
    let content = match lookup_object(objects, &id) {
        Some(c) => c,
        None => {
            return Err(
                RepTreeError::IoError(String::from_str("Error file not found in objects")),
            );
        },
    };
    let mut blob = Blob::new(file_name, content);
    blob.set_id(id);
    root.add_node(Node::BlobNode(blob));
    Ok(())
}

/// Reconstructs, onto the given `root`, the subtree that the object named
/// `object_id` stores, reading objects from the in-memory store `objects`:
/// the inverse of the encoder, as [`decode_children`] states. `root`'s own
/// id and name are left as the caller set them.
pub fn get_repository_tree_from_object_files(
    root: &mut Tree,
    object_id: &String,
    objects: &Vec<(String, String)>,
) -> (r: Result<(), RepTreeError>)
    requires
        objects@.len() < usize::MAX,
    ensures
        match (r, decode_children(
            store_view(objects@),
            object_id@,
            old(root)@.children,
            (objects@.len() + 1) as nat,
        )) {
            (Ok(u), Ok(cs)) => final(root)@ == (TreeView { children: cs, ..old(root)@ }),
            (Err(e), Err(k)) => fault_matches(e, k) && final(root)@.id == old(root)@.id
                && final(root)@.name == old(root)@.name,
            _ => false,
        },
{
    let fuel = objects.len() + 1;
    decode_into(root, object_id, objects, fuel)
}

/// The recursive worker of the decoder: `fuel` bounds the depth of object
/// references it will follow.
fn decode_into(
    root: &mut Tree,
    object_id: &String,
    objects: &Vec<(String, String)>,
    fuel: usize,
) -> (r: Result<(), RepTreeError>)
    ensures
        match (r, decode_children(store_view(objects@), object_id@, old(root)@.children, fuel as nat)) {
            (Ok(u), Ok(cs)) => final(root)@ == (TreeView { children: cs, ..old(root)@ }),
            (Err(e), Err(k)) => fault_matches(e, k) && final(root)@.id == old(root)@.id
                && final(root)@.name == old(root)@.name,
            _ => false,
        },
    decreases fuel,
{
    let ghost objv = store_view(objects@);
    let content = match lookup_object(objects, object_id) {
        Some(c) => c,
        None => {
            return Err(
                RepTreeError::IoError(String::from_str("Error file not found in objects")),
            );
        },
    };
    let lines = split_lines(&content);
    let ghost lsv = lines_of(content@);
    let ghost acc0 = old(root)@.children;
    let n = lines.len();
    let mut i: usize = 0;
    proof {
        assert(lsv.skip(0) =~= lsv);
        assert(lines_view(lines@).len() == lsv.len());
        assert(root@.children == acc0);
    }
    while i < n
        invariant
            i <= n,
            n == lines@.len(),
            n == lsv.len(),
            lsv == lines_view(lines@),
            lsv == lines_of(content@),
            store_lookup(objv, object_id@, 0) == Some(content@),
            objv == store_view(objects@),
            acc0 == old(root)@.children,
            root@.id == old(root)@.id,
            root@.name == old(root)@.name,
            decode_lines(objv, lsv.skip(i as int), root@.children, fuel as nat) == decode_lines(
                objv,
                lsv,
                acc0,
                fuel as nat,
            ),
        decreases n - i,
    {
        proof {
            assert(lsv.skip(i as int).first() == lsv[i as int]);
            assert(lsv.skip(i as int).drop_first() =~= lsv.skip(i + 1));
            assert(lsv[i as int] == lines@[i as int]@);
        }
        let line = &lines[i];
        let parsed = match parse_tree_line(line) {
            Some(p) => p,
            None => {
                return Err(
                    RepTreeError::UnexpectedComportment(
                        String::from_str("Malformed line in tree object"),
                    ),
                );
            },
        };
        let (is_tree, id, name) = parsed;
        if is_tree {
            if fuel == 0 {
                return Err(
                    RepTreeError::UnexpectedComportment(
                        String::from_str("Object store references do not bottom out"),
                    ),
                );
            }
            let mut new_tree = Tree::new(name, Vec::new());
            new_tree.set_id(id.clone());
            match decode_into(&mut new_tree, &id, objects, fuel - 1) {
                Ok(()) => {},
                Err(e) => {
                    return Err(e);
                },
            }
            root.add_node(Node::TreeNode(new_tree));
        } else {
            match get_blob_from_object_file(root, name, id, objects) {
                Ok(()) => {},
                Err(e) => {
                    return Err(e);
                },
            }
        }
        i = i + 1;
    }
    proof {
        assert(lsv.skip(n as int) =~= Seq::<Seq<char>>::empty());
    }
    Ok(())
}


/// The in-memory store the encoder fills for a subtree: one entry per
/// node, in post-order, keyed by the node's identifier.
pub open spec fn store_of(n: NodeView) -> Seq<(Seq<char>, Seq<char>)>
    decreases n,
{
    (match n {
        NodeView::Blob(b) => Seq::<(Seq<char>, Seq<char>)>::empty(),
        NodeView::Tree(t) => store_of_all(t.children),
    }) + seq![(n.id(), object_content(n))]
}

/// The store entries of a sequence of nodes, concatenated in order.
pub open spec fn store_of_all(s: Seq<NodeView>) -> Seq<(Seq<char>, Seq<char>)>
    decreases s,
{
    if s.len() == 0 {
        Seq::<(Seq<char>, Seq<char>)>::empty()
    } else {
        store_of_all(s.drop_last()) + store_of(s.last())
    }
}

/// A committed, encodable subtree: every identifier has the fixed length
/// and, like every name, holds no newline; and no two children of any tree
/// share a slot.
pub open spec fn wf_node(n: NodeView) -> bool
    decreases n, 1int,
{
    &&& n.id().len() == ID_LENGTH
    &&& !n.id().contains('\n')
    &&& !n.name().contains('\n')
    &&& match n {
        NodeView::Blob(b) => true,
        NodeView::Tree(t) => unique_slots(t.children) && wf_all(t.children),
    }
}

/// `wf_node`, over a sequence of children.
pub open spec fn wf_all(s: Seq<NodeView>) -> bool
    decreases s, 0int,
{
    if s.len() == 0 {
        true
    } else {
        wf_all(s.drop_last()) && wf_node(s.last())
    }
}

/// The depth of nested tree objects below a node.
pub open spec fn height_of(n: NodeView) -> nat
    decreases n, 1int,
{
    match n {
        NodeView::Blob(b) => 0,
        NodeView::Tree(t) => 1 + heights(t.children),
    }
}

/// The greatest height among a sequence of nodes.
pub open spec fn heights(s: Seq<NodeView>) -> nat
    decreases s, 0int,
{
    if s.len() == 0 {
        0
    } else if heights(s.drop_last()) >= height_of(s.last()) {
        heights(s.drop_last())
    } else {
        height_of(s.last())
    }
}

/// The store `objects` serves a subtree faithfully: looking up any
/// descendant's identifier yields that descendant's own object bytes.
/// This is what content addressing provides when no two distinct objects
/// share an identifier.
pub open spec fn covered(objects: Seq<(Seq<char>, Seq<char>)>, n: NodeView) -> bool
    decreases n, 1int,
{
    &&& store_lookup(objects, n.id(), 0) == Some(object_content(n))
    &&& match n {
        NodeView::Blob(b) => true,
        NodeView::Tree(t) => covered_all(objects, t.children),
    }
}

/// `covered`, over a sequence of children.
pub open spec fn covered_all(objects: Seq<(Seq<char>, Seq<char>)>, s: Seq<NodeView>) -> bool
    decreases s, 0int,
{
    if s.len() == 0 {
        true
    } else {
        covered_all(objects, s.drop_last()) && covered(objects, s.last())
    }
}

/// Pointwise reading of `wf_all`, `covered_all` and `heights`.
pub proof fn lemma_all_pointwise(objects: Seq<(Seq<char>, Seq<char>)>, s: Seq<NodeView>)
    requires
        wf_all(s),
        covered_all(objects, s),
    ensures
        forall|k: int| 0 <= k < s.len() ==> wf_node(#[trigger] s[k]),
        forall|k: int| 0 <= k < s.len() ==> covered(objects, #[trigger] s[k]),
        forall|k: int| 0 <= k < s.len() ==> height_of(#[trigger] s[k]) <= heights(s),
    decreases s.len(),
{
    if s.len() > 0 {
        lemma_all_pointwise(objects, s.drop_last());
        assert forall|k: int| 0 <= k < s.len() implies wf_node(#[trigger] s[k]) && covered(
            objects,
            s[k],
        ) && height_of(s[k]) <= heights(s) by {
            if k < s.len() - 1 {
                assert(s.drop_last()[k] == s[k]);
                assert(heights(s.drop_last()) <= heights(s));
            } else {
                assert(s.last() == s[k]);
            }
        }
    }
}

/// The line a tree object holds for a child, without its final newline.
pub open spec fn line_core(n: NodeView) -> Seq<char> {
    (if n.is_tree() {
        "TREE "@
    } else {
        "BLOB "@
    }) + n.id() + " "@ + n.name()
}

/// The cores of the lines of a tree object, in child order.
pub open spec fn line_cores(s: Seq<NodeView>) -> Seq<Seq<char>>
    decreases s.len(),
{
    if s.len() == 0 {
        Seq::<Seq<char>>::empty()
    } else {
        seq![line_core(s.first())] + line_cores(s.drop_first())
    }
}

/// A line core holds no newline when the child's identifier and name hold
/// none.
pub proof fn lemma_line_core_no_newline(n: NodeView)
    requires
        !n.id().contains('\n'),
        !n.name().contains('\n'),
    ensures
        !line_core(n).contains('\n'),
        line_of(n) == line_core(n) + "\n"@,
{
    reveal_strlit("TREE ");
    reveal_strlit("BLOB ");
    reveal_strlit(" ");
    let l = line_core(n);
    assert forall|j: int| 0 <= j < l.len() implies l[j] != '\n' by {
        let kind = if n.is_tree() {
            "TREE "@
        } else {
            "BLOB "@
        };
        if j < 5 {
            assert(l[j] == kind[j]);
        } else if j < 5 + n.id().len() {
            assert(l[j] == n.id()[j - 5]);
            assert(!n.id().contains('\n'));
            if n.id()[j - 5] == '\n' {
                assert(n.id().contains('\n'));
            }
        } else if j == 5 + n.id().len() {
            assert(l[j] == ' ');
        } else {
            assert(l[j] == n.name()[j - 6 - n.id().len()]);
            if n.name()[j - 6 - n.id().len()] == '\n' {
                assert(n.name().contains('\n'));
            }
        }
    }
    if l.contains('\n') {
        let j = choose|j: int| 0 <= j < l.len() && l[j] == '\n';
        assert(false);
    }
    assert(line_of(n) =~= line_core(n) + "\n"@);
}

/// Splitting text that opens with a newline-free line: the line comes
/// first, the rest splits on its own.
pub proof fn lemma_lines_of_block(l: Seq<char>, rest: Seq<char>)
    requires
        !l.contains('\n'),
    ensures
        lines_of(l + "\n"@ + rest) == seq![l] + lines_of(rest),
{
    reveal_strlit("\n");
    let s = l + "\n"@ + rest;
    assert("\n"@.len() == 1 && "\n"@[0] == '\n');
    assert(s.len() > 0);
    assert forall|j: int| 0 <= j < l.len() implies s[j] != '\n' by {
        assert(s[j] == l[j]);
        if l[j] == '\n' {
            assert(l.contains('\n'));
        }
    }
    assert(s[l.len() as int] == '\n');
    lemma_find_newline_found(s, 0, l.len() as int);
    assert(s.take(l.len() as int) =~= l);
    assert(s.skip(l.len() as int + 1) =~= rest);
    assert(lines_of(s) == seq![l] + lines_of(rest));
}

/// A tree object's bytes split exactly into its child lines' cores.
pub proof fn lemma_lines_of_content(s: Seq<NodeView>)
    requires
        forall|k: int| 0 <= k < s.len() ==> !(#[trigger] s[k]).id().contains('\n'),
        forall|k: int| 0 <= k < s.len() ==> !(#[trigger] s[k]).name().contains('\n'),
    ensures
        lines_of(tree_object_content(s)) == line_cores(s),
    decreases s.len(),
{
    if s.len() == 0 {
        assert(tree_object_content(s).len() == 0);
        assert(lines_of(tree_object_content(s)) =~= line_cores(s));
    } else {
        lemma_toc_first(s);
        lemma_line_core_no_newline(s.first());
        assert(tree_object_content(s) =~= line_core(s.first()) + "\n"@ + tree_object_content(
            s.drop_first(),
        ));
        lemma_lines_of_block(line_core(s.first()), tree_object_content(s.drop_first()));
        assert forall|k: int| 0 <= k < s.drop_first().len() implies !(#[trigger] s.drop_first()[k]).id().contains('\n')
            && !s.drop_first()[k].name().contains('\n') by {
            assert(s.drop_first()[k] == s[k + 1]);
        }
        lemma_lines_of_content(s.drop_first());
    }
}

/// A tree object's bytes, read from the front: the first child's line,
/// then the rest.
pub proof fn lemma_toc_first(s: Seq<NodeView>)
    requires
        s.len() > 0,
    ensures
        tree_object_content(s) == line_of(s.first()) + tree_object_content(s.drop_first()),
    decreases s.len(),
{
    if s.len() == 1 {
        assert(s.drop_last().len() == 0);
        assert(s.drop_first().len() == 0);
        assert(s.first() == s.last());
        assert(tree_object_content(s.drop_last()) =~= Seq::<char>::empty());
        assert(tree_object_content(s.drop_first()) =~= Seq::<char>::empty());
        assert(tree_object_content(s) == tree_object_content(s.drop_last()) + line_of(s.last()));
        assert(tree_object_content(s) =~= line_of(s.first()) + tree_object_content(
            s.drop_first(),
        ));
    } else {
        lemma_toc_first(s.drop_last());
        assert(s.drop_last().first() == s.first());
        assert(s.drop_last().drop_first() =~= s.drop_first().drop_last());
        assert(tree_object_content(s) == tree_object_content(s.drop_last()) + line_of(s.last()));
        assert(tree_object_content(s) =~= line_of(s.first()) + (tree_object_content(
            s.drop_first().drop_last(),
        ) + line_of(s.drop_first().last())));
        assert(s.drop_first().last() == s.last());
        assert(tree_object_content(s.drop_first()) == tree_object_content(
            s.drop_first().drop_last(),
        ) + line_of(s.drop_first().last()));
    }
}

/// Reading back the line a child was written as yields the child's own
/// kind, identifier and name.
pub proof fn lemma_parse_line_core(n: NodeView)
    requires
        n.id().len() == ID_LENGTH,
    ensures
        parse_line(line_core(n)) == Some((n.is_tree(), n.id(), n.name())),
{
    reveal_strlit("TREE ");
    reveal_strlit("BLOB ");
    reveal_strlit(" ");
    let l = line_core(n);
    assert(l.len() == 5 + ID_LENGTH + 1 + n.name().len());
    if n.is_tree() {
        assert(l[0] == 'T' && l[1] == 'R' && l[2] == 'E' && l[3] == 'E' && l[4] == ' ');
        assert(kind_token_is(l, 'T', 'R', 'E', 'E'));
    } else {
        assert(l[0] == 'B' && l[1] == 'L' && l[2] == 'O' && l[3] == 'B' && l[4] == ' ');
        assert(!kind_token_is(l, 'T', 'R', 'E', 'E'));
        assert(kind_token_is(l, 'B', 'L', 'O', 'B'));
    }
    assert(l.subrange(5, 5 + ID_LENGTH as int) =~= n.id());
    assert(l.skip(5 + ID_LENGTH + 1) =~= n.name());
}

/// Decoding the lines a tree's children were written as, onto already
/// decoded earlier siblings, appends exactly those children.
pub proof fn lemma_decode_lines_of(
    objects: Seq<(Seq<char>, Seq<char>)>,
    cs: Seq<NodeView>,
    done: Seq<NodeView>,
    fuel: nat,
)
    requires
        wf_all(cs),
        covered_all(objects, cs),
        unique_slots(done + cs),
        fuel > heights(cs),
    ensures
        decode_lines(objects, line_cores(cs), done, fuel) == Ok::<Seq<NodeView>, DecodeFault>(
            done + cs,
        ),
    decreases cs, 0int,
{
    if cs.len() == 0 {
        assert(done + cs =~= done);
    } else {
        let c = cs.first();
        lemma_all_pointwise(objects, cs);
        assert(c == cs[0]);
        assert(wf_node(c) && covered(objects, c));
        assert(height_of(c) <= heights(cs));
        assert(line_cores(cs).first() == line_core(c));
        assert(line_cores(cs).drop_first() =~= line_cores(cs.drop_first()));
        lemma_parse_line_core(c);
        let rebuilt: NodeView = match c {
            NodeView::Tree(t) => NodeView::Tree(
                TreeView { id: c.id(), name: c.name(), children: c.children() },
            ),
            NodeView::Blob(b) => NodeView::Blob(
                BlobView { id: c.id(), name: c.name(), content: c.content() },
            ),
        };
        assert(rebuilt == c);
        if c.is_tree() {
            lemma_decode_node(objects, c, (fuel - 1) as nat);
            assert(decode_children(objects, c.id(), Seq::<NodeView>::empty(), (fuel - 1) as nat)
                == Ok::<Seq<NodeView>, DecodeFault>(c.children()));
        } else {
            assert(store_lookup(objects, c.id(), 0) == Some(object_content(c)));
            assert(object_content(c) == c.content());
        }
        assert(!has_slot(done, c)) by {
            if has_slot(done, c) {
                let k = choose|k: int| 0 <= k < done.len() && #[trigger] done[k].same_slot(c);
                assert((done + cs)[k] == done[k]);
                assert((done + cs)[done.len() as int] == cs[0]);
                assert((done + cs)[k].same_slot((done + cs)[done.len() as int]));
                assert(false);
            }
        }
        lemma_find_slot_none(done, c, 0);
        assert(add_or_replace(done, c) =~= done.push(c));
        assert(done.push(c) + cs.drop_first() =~= done + cs);
        assert(unique_slots(done.push(c) + cs.drop_first()));
        assert(wf_all(cs.drop_first())) by {
            lemma_all_drop_first(objects, cs);
        }
        assert(covered_all(objects, cs.drop_first())) by {
            lemma_all_drop_first(objects, cs);
        }
        assert(heights(cs.drop_first()) <= heights(cs)) by {
            lemma_all_drop_first(objects, cs);
        }
        lemma_decode_lines_of(objects, cs.drop_first(), done.push(c), fuel);
    }
}

/// `wf_all`, `covered_all` and `heights` all restrict to the tail of a
/// sequence.
pub proof fn lemma_all_drop_first(objects: Seq<(Seq<char>, Seq<char>)>, s: Seq<NodeView>)
    requires
        s.len() > 0,
        wf_all(s),
        covered_all(objects, s),
    ensures
        wf_all(s.drop_first()),
        covered_all(objects, s.drop_first()),
        heights(s.drop_first()) <= heights(s),
    decreases s.len(),
{
    if s.len() == 1 {
        assert(s.drop_first().len() == 0);
    } else {
        assert(s.drop_last().len() > 0);
        lemma_all_drop_first(objects, s.drop_last());
        assert(s.drop_first().drop_last() =~= s.drop_last().drop_first());
        assert(s.drop_first().last() == s.last());
        assert(wf_all(s.drop_first()));
        assert(covered_all(objects, s.drop_first()));
    }
}

/// Decoding the object a committed tree was written as rebuilds exactly
/// its children.
pub proof fn lemma_decode_node(objects: Seq<(Seq<char>, Seq<char>)>, n: NodeView, fuel: nat)
    requires
        wf_node(n),
        covered(objects, n),
        n.is_tree(),
        fuel >= height_of(n),
    ensures
        decode_children(objects, n.id(), Seq::<NodeView>::empty(), fuel) == Ok::<
            Seq<NodeView>,
            DecodeFault,
        >(n.children()),
    decreases n, 1int,
{
    let t = n->Tree_0;
    assert(store_lookup(objects, n.id(), 0) == Some(object_content(n)));
    assert(object_content(n) == tree_object_content(t.children));
    lemma_all_pointwise(objects, t.children);
    lemma_lines_of_content(t.children);
    assert(Seq::<NodeView>::empty() + t.children =~= t.children);
    assert(unique_slots(Seq::<NodeView>::empty() + t.children));
    lemma_decode_lines_of(objects, t.children, Seq::<NodeView>::empty(), fuel);
    assert(n.children() == t.children);
}

/// Round trip: decoding, from a store that serves every descendant's
/// identifier faithfully — as the one the encoder writes does, when no
/// two distinct objects collide on an identifier — rebuilds a committed
/// tree exactly: names, variants, contents, child order, and the
/// identifiers themselves.
pub proof fn lemma_round_trip(n: NodeView, fuel: nat)
    requires
        wf_node(n),
        n.is_tree(),
        covered(store_of(n), n),
        fuel >= height_of(n),
    ensures
        decode_children(store_of(n), n.id(), Seq::<NodeView>::empty(), fuel) == Ok::<
            Seq<NodeView>,
            DecodeFault,
        >(n.children()),
{
    lemma_decode_node(store_of(n), n, fuel);
}


/// The encoder's plan is exactly this store, sharded: entry for entry, the
/// object written under `base/<id[0:2]>/<id[2:]>` carries the bytes the
/// store holds for that identifier.
pub proof fn lemma_encode_plan_is_store(n: NodeView, base: Seq<char>)
    ensures
        encode_plan(
            n,
            base,
        ).len() == store_of(n).len(),
        forall|k: int|
            0 <= k < store_of(n).len() ==> {
                let entry = #[trigger] encode_plan(
                    n,
                    base,
                )[k];
                &&& entry.directory
                    == join_path(
                    base,
                    shard_dir(
                        store_of(n)[k].0,
                    ),
                )
                &&& entry.filename
                    == shard_file(
                    store_of(n)[k].0,
                )
                &&& entry.content == store_of(n)[k].1
            },
    decreases n, 1int,
{
    match n {
        NodeView::Blob(b) => {},
        NodeView::Tree(t) => {
            lemma_encode_plan_all_is_store(t.children, base);
        },
    }
}

/// `lemma_encode_plan_is_store`, over a sequence of children.
pub proof fn lemma_encode_plan_all_is_store(s: Seq<NodeView>, base: Seq<char>)
    ensures
        encode_plan_all(
            s,
            base,
        ).len() == store_of_all(s).len(),
        forall|k: int|
            0 <= k < store_of_all(s).len() ==> {
                let entry = #[trigger] encode_plan_all(
                    s,
                    base,
                )[k];
                &&& entry.directory
                    == join_path(
                    base,
                    shard_dir(
                        store_of_all(s)[k].0,
                    ),
                )
                &&& entry.filename
                    == shard_file(
                    store_of_all(s)[k].0,
                )
                &&& entry.content == store_of_all(s)[k].1
            },
    decreases s, 0int,
{
    if s.len() > 0 {
        lemma_encode_plan_all_is_store(s.drop_last(), base);
        lemma_encode_plan_is_store(s.last(), base);
    }
}

/// Every store the encoder writes for a subtree has at least as many
/// entries as the subtree is deep, so decoding with the store's size as
/// fuel never runs out on a faithful store.
pub proof fn lemma_height_within_store(n: NodeView)
    ensures
        height_of(n) <= store_of(n).len(),
    decreases n, 1int,
{
    match n {
        NodeView::Blob(b) => {},
        NodeView::Tree(t) => {
            lemma_heights_within_store(t.children);
        },
    }
}

/// `lemma_height_within_store`, over a sequence of children.
pub proof fn lemma_heights_within_store(s: Seq<NodeView>)
    ensures
        heights(s) <= store_of_all(s).len(),
    decreases s, 0int,
{
    if s.len() > 0 {
        lemma_heights_within_store(s.drop_last());
        lemma_height_within_store(s.last());
    }
}


/// Whether `u` is `n` itself or a descendant of it.
pub open spec fn in_subtree(u: NodeView, n: NodeView) -> bool
    decreases n, 1int,
{
    u == n || (match n {
        NodeView::Blob(b) => false,
        NodeView::Tree(t) => in_any(u, t.children),
    })
}

/// Whether `u` lies in some subtree of `s`.
pub open spec fn in_any(u: NodeView, s: Seq<NodeView>) -> bool
    decreases s, 0int,
{
    if s.len() == 0 {
        false
    } else {
        in_any(u, s.drop_last()) || in_subtree(u, s.last())
    }
}

/// No two nodes of the subtree collide: nodes that share an identifier
/// store the same object bytes.
pub open spec fn collision_free(n: NodeView) -> bool {
    forall|u: NodeView, v: NodeView|
        #[trigger] in_subtree(u, n) && #[trigger] in_subtree(v, n) && u.id() == v.id()
            ==> object_content(u) == object_content(v)
}

/// The store entry a node is written as: its identifier and its object
/// bytes.
pub open spec fn node_entry(u: NodeView) -> (Seq<char>, Seq<char>) {
    (u.id(), object_content(u))
}

/// Whether `e` is the entry of some node of the subtree `n`.
pub open spec fn entry_of_subtree(e: (Seq<char>, Seq<char>), n: NodeView) -> bool {
    exists|u: NodeView| in_subtree(u, n) && e == #[trigger] node_entry(u)
}

/// Whether `e` is the entry of some node lying under an element of `s`.
pub open spec fn entry_of_any(e: (Seq<char>, Seq<char>), s: Seq<NodeView>) -> bool {
    exists|u: NodeView| in_any(u, s) && e == #[trigger] node_entry(u)
}

/// Every entry of a subtree's store belongs to some node of the subtree,
/// and every node of the subtree has its entry in the store.
pub proof fn lemma_store_entries(n: NodeView)
    ensures
        forall|k: int|
            0 <= k < store_of(n).len() ==> entry_of_subtree(#[trigger] store_of(n)[k], n),
        forall|u: NodeView|
            #[trigger] in_subtree(u, n) ==> exists|k: int|
                0 <= k < store_of(n).len() && #[trigger] store_of(n)[k] == node_entry(u),
    decreases n, 1int,
{
    let own = node_entry(n);
    assert(in_subtree(n, n));
    match n {
        NodeView::Blob(b) => {
            assert(store_of(n) =~= seq![own]);
            assert forall|k: int| 0 <= k < store_of(n).len() implies entry_of_subtree(
                #[trigger] store_of(n)[k],
                n,
            ) by {
                assert(store_of(n)[k] == node_entry(n));
            }
            assert forall|u: NodeView| #[trigger] in_subtree(u, n) implies exists|k: int|
                0 <= k < store_of(n).len() && #[trigger] store_of(n)[k] == node_entry(u) by {
                assert(u == n);
                assert(store_of(n)[0] == node_entry(u));
            }
        },
        NodeView::Tree(t) => {
            lemma_store_entries_all(t.children);
            let pre = store_of_all(t.children);
            assert(store_of(n) == pre + seq![own]);
            assert forall|k: int| 0 <= k < store_of(n).len() implies entry_of_subtree(
                #[trigger] store_of(n)[k],
                n,
            ) by {
                if k < pre.len() {
                    assert(store_of(n)[k] == pre[k]);
                    assert(entry_of_any(pre[k], t.children));
                    let u = choose|u: NodeView|
                        in_any(u, t.children) && pre[k] == #[trigger] node_entry(u);
                    assert(in_subtree(u, n));
                    assert(store_of(n)[k] == node_entry(u));
                } else {
                    assert(store_of(n)[k] == node_entry(n));
                }
            }
            assert forall|u: NodeView| #[trigger] in_subtree(u, n) implies exists|k: int|
                0 <= k < store_of(n).len() && #[trigger] store_of(n)[k] == node_entry(u) by {
                if u == n {
                    assert(store_of(n)[pre.len() as int] == node_entry(u));
                } else {
                    assert(in_any(u, t.children));
                    let k = choose|k: int|
                        0 <= k < pre.len() && #[trigger] pre[k] == node_entry(u);
                    assert(store_of(n)[k] == node_entry(u));
                }
            }
        },
    }
}

/// `lemma_store_entries`, over a sequence of children.
pub proof fn lemma_store_entries_all(s: Seq<NodeView>)
    ensures
        forall|k: int|
            0 <= k < store_of_all(s).len() ==> entry_of_any(#[trigger] store_of_all(s)[k], s),
        forall|u: NodeView|
            #[trigger] in_any(u, s) ==> exists|k: int|
                0 <= k < store_of_all(s).len() && #[trigger] store_of_all(s)[k] == node_entry(u),
    decreases s, 0int,
{
    if s.len() > 0 {
        lemma_store_entries_all(s.drop_last());
        lemma_store_entries(s.last());
        let pre = store_of_all(s.drop_last());
        let post = store_of(s.last());
        assert(store_of_all(s) == pre + post);
        assert forall|k: int| 0 <= k < store_of_all(s).len() implies entry_of_any(
            #[trigger] store_of_all(s)[k],
            s,
        ) by {
            if k < pre.len() {
                assert(store_of_all(s)[k] == pre[k]);
                assert(entry_of_any(pre[k], s.drop_last()));
                let u = choose|u: NodeView|
                    in_any(u, s.drop_last()) && pre[k] == #[trigger] node_entry(u);
                assert(in_any(u, s));
                assert(store_of_all(s)[k] == node_entry(u));
            } else {
                assert(store_of_all(s)[k] == post[k - pre.len()]);
                assert(entry_of_subtree(post[k - pre.len()], s.last()));
                let u = choose|u: NodeView|
                    in_subtree(u, s.last()) && post[k - pre.len()] == #[trigger] node_entry(u);
                assert(in_any(u, s));
                assert(store_of_all(s)[k] == node_entry(u));
            }
        }
        assert forall|u: NodeView| #[trigger] in_any(u, s) implies exists|k: int|
            0 <= k < store_of_all(s).len() && #[trigger] store_of_all(s)[k] == node_entry(u) by {
            if in_any(u, s.drop_last()) {
                let k = choose|k: int|
                    0 <= k < pre.len() && #[trigger] pre[k] == node_entry(u);
                assert(store_of_all(s)[k] == node_entry(u));
            } else {
                assert(in_subtree(u, s.last()));
                let k = choose|k: int|
                    0 <= k < post.len() && #[trigger] post[k] == node_entry(u);
                assert(store_of_all(s)[k + pre.len()] == post[k]);
                assert(store_of_all(s)[k + pre.len()] == node_entry(u));
            }
        }
    }
}

/// Looking an identifier up in a store that holds it somewhere yields the
/// content of some entry with that very identifier.
pub proof fn lemma_lookup_hits(objects: Seq<(Seq<char>, Seq<char>)>, id: Seq<char>, i: int)
    requires
        0 <= i <= objects.len(),
        exists|k: int| i <= k < objects.len() && (#[trigger] objects[k]).0 == id,
    ensures
        exists|k: int|
            i <= k < objects.len() && (#[trigger] objects[k]).0 == id && store_lookup(
                objects,
                id,
                i,
            ) == Some(objects[k].1),
    decreases objects.len() - i,
{
    if objects[i].0 == id {
    } else {
        lemma_lookup_hits(objects, id, i + 1);
    }
}

/// In a collision-free subtree, the store the encoder writes serves every
/// descendant's identifier faithfully.
#[verifier::rlimit(50)]
pub proof fn lemma_store_of_covered(root: NodeView, m: NodeView)
    requires
        collision_free(root),
        in_subtree(m, root),
    ensures
        covered(store_of(root), m),
    decreases m, 1int,
{
    let objects = store_of(root);
    lemma_store_entries(root);
    let k0 = choose|k: int|
        0 <= k < objects.len() && #[trigger] objects[k] == node_entry(m);
    assert(exists|k: int| 0 <= k < objects.len() && (#[trigger] objects[k]).0 == m.id()) by {
        assert(objects[k0].0 == m.id());
    }
    lemma_lookup_hits(objects, m.id(), 0);
    let kh = choose|k: int|
        0 <= k < objects.len() && (#[trigger] objects[k]).0 == m.id() && store_lookup(
            objects,
            m.id(),
            0,
        ) == Some(objects[k].1);
    assert(entry_of_subtree(objects[kh], root));
    let w = choose|u: NodeView|
        in_subtree(u, root) && objects[kh] == #[trigger] node_entry(u);
    assert(in_subtree(w, root) && in_subtree(m, root) && w.id() == m.id());
    assert(object_content(w) == object_content(m));
    assert(store_lookup(objects, m.id(), 0) == Some(object_content(m)));
    match m {
        NodeView::Blob(b) => {},
        NodeView::Tree(t) => {
            lemma_covered_children(root, m, t.children);
        },
    }
}

/// `lemma_store_of_covered`, over the children of a node of the subtree.
pub proof fn lemma_covered_children(root: NodeView, m: NodeView, s: Seq<NodeView>)
    requires
        collision_free(root),
        in_subtree(m, root),
        m is Tree,
        forall|u: NodeView| in_any(u, s) ==> #[trigger] in_any(u, m->Tree_0.children),
    ensures
        covered_all(store_of(root), s),
    decreases s, 0int,
{
    if s.len() > 0 {
        lemma_covered_children(root, m, s.drop_last());
        assert(in_any(s.last(), s)) by {
            assert(in_subtree(s.last(), s.last()));
        }
        assert(in_any(s.last(), m->Tree_0.children));
        lemma_in_any_subtree(s.last(), m->Tree_0.children, root, m);
        lemma_store_of_covered(root, s.last());
    }
}

/// A node found among children that lie under `m` lies under the root
/// too.
pub proof fn lemma_in_any_subtree(u: NodeView, s: Seq<NodeView>, root: NodeView, m: NodeView)
    requires
        in_any(u, s),
        m is Tree,
        s == m->Tree_0.children,
        in_subtree(m, root),
    ensures
        in_subtree(u, root),
    decreases root, 2int,
{
    assert(in_subtree(u, m));
    lemma_in_subtree_trans(u, m, root);
}

/// `in_subtree` is transitive.
pub proof fn lemma_in_subtree_trans(u: NodeView, m: NodeView, root: NodeView)
    requires
        in_subtree(u, m),
        in_subtree(m, root),
    ensures
        in_subtree(u, root),
    decreases root, 1int,
{
    if m == root {
    } else {
        match root {
            NodeView::Blob(b) => {},
            NodeView::Tree(t) => {
                lemma_in_subtree_trans_any(u, m, t.children);
            },
        }
    }
}

/// `in_subtree` is transitive, through a sequence.
pub proof fn lemma_in_subtree_trans_any(u: NodeView, m: NodeView, s: Seq<NodeView>)
    requires
        in_subtree(u, m),
        in_any(m, s),
    ensures
        in_any(u, s),
    decreases s, 0int,
{
    if s.len() > 0 {
        if in_any(m, s.drop_last()) {
            lemma_in_subtree_trans_any(u, m, s.drop_last());
        } else {
            lemma_in_subtree_trans(u, m, s.last());
        }
    }
}


/// Round trip, from the tree alone: a committed tree — identifiers of the
/// fixed length, no newlines in identifiers or names, no two children of
/// any node in one slot, and no identifier collision between distinct
/// objects — decodes, from exactly the store the encoder writes for it and
/// with the fuel the decoder starts with, back to its own children:
/// names, variants, contents, child order and identifiers all match.
pub proof fn lemma_round_trip_encoded(n: NodeView)
    requires
        wf_node(n),
        n.is_tree(),
        collision_free(n),
    ensures
        decode_children(
            store_of(n),
            n.id(),
            Seq::<NodeView>::empty(),
            (store_of(n).len() + 1) as nat,
        ) == Ok::<Seq<NodeView>, DecodeFault>(n.children()),
{
    assert(in_subtree(n, n));
    lemma_store_of_covered(n, n);
    lemma_height_within_store(n);
    lemma_round_trip(n, (store_of(n).len() + 1) as nat);
}

} // verus!
