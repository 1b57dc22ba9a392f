//! The leaf paths of a tree: what they are, and two ways to list them.

use crate::tree::{
    acyclic, depth, descends, kids, nodes_view, tidy, Node, NodeView, Tree, TreeError, TreeView,
    ROOT_ID,
};
use vstd::prelude::*;

verus! {

/// The path of a child with the label `label` under the path `prefix`.
pub open spec fn step(prefix: Seq<char>, label: Seq<char>) -> Seq<char> {
    prefix.push('/') + label
}

/// The leaf paths through the node `id`, whose own path is `path`: that path
/// alone where the node is a leaf, else the leaf paths below it.
pub open spec fn paths_via(t: TreeView, id: int, path: Seq<char>) -> Seq<Seq<char>>
    decreases depth(t, id), kids(t, id).len() + 1,
    when acyclic(t)
{
    if kids(t, id).len() == 0 {
        seq![path]
    } else {
        paths_from(t, id, path, 0)
    }
}

/// The leaf paths through the children of `id` from the `j`-th on, child by
/// child, where `prefix` is the path of `id`.
pub open spec fn paths_from(t: TreeView, id: int, prefix: Seq<char>, j: int) -> Seq<Seq<char>>
    decreases depth(t, id), kids(t, id).len() - j,
    when acyclic(t)
{
    if 0 <= j < kids(t, id).len() {
        let child = kids(t, id)[j];
        paths_via(t, child.id, step(prefix, child.label)) + paths_from(t, id, prefix, j + 1)
    } else {
        Seq::empty()
    }
}

/// The leaf paths below `id`, where `prefix` is the path of `id`: one for each
/// leaf, internal nodes giving none of their own.
pub open spec fn leaf_paths(t: TreeView, id: int, prefix: Seq<char>) -> Seq<Seq<char>> {
    paths_from(t, id, prefix, 0)
}

/// The empty tree has no cycle and no leaf path.
pub proof fn lemma_empty_tree(id: int, prefix: Seq<char>)
    ensures
        acyclic(Map::<int, Seq<NodeView>>::empty()),
        leaf_paths(Map::<int, Seq<NodeView>>::empty(), id, prefix) == Seq::<Seq<char>>::empty(),
{
    let t = Map::<int, Seq<NodeView>>::empty();
    let rank = |p: int| 0nat;
    assert(descends(t, rank));
}

/// Every node has a leaf path through it.
pub proof fn lemma_paths_via_nonempty(t: TreeView, id: int, path: Seq<char>)
    requires
        acyclic(t),
    ensures
        paths_via(t, id, path).len() > 0,
    decreases depth(t, id),
{
    if kids(t, id).len() > 0 {
        let child = kids(t, id)[0];
        lemma_paths_via_nonempty(t, child.id, step(path, child.label));
    }
}

/// The two ways of listing agree. Where the work list gives paths, they are
/// the paths that the recursion gives from the root with an empty prefix, as
/// sets, and there is at least one. Where the work list fails for want of a
/// root, the recursion gives no path.
pub proof fn lemma_variants_agree(
    t: TreeView,
    recursive: Seq<Seq<char>>,
    iterative: Result<Seq<Seq<char>>, TreeError>,
)
    requires
        tidy(t),
        acyclic(t),
        recursive == leaf_paths(t, ROOT_ID as int, Seq::empty()),
        match iterative {
            Ok(paths) => t.contains_key(ROOT_ID as int) && paths == leaf_paths(
                t,
                ROOT_ID as int,
                Seq::empty(),
            ),
            Err(e) => e == TreeError::RootNotFound && !t.contains_key(ROOT_ID as int),
        },
    ensures
        match iterative {
            Ok(paths) => paths.to_set() == recursive.to_set() && paths.len() > 0,
            Err(_) => recursive.len() == 0,
        },
{
    if t.contains_key(ROOT_ID as int) {
        let child = kids(t, ROOT_ID as int)[0];
        lemma_paths_via_nonempty(t, child.id, step(Seq::empty(), child.label));
    }
}

/// The text of each string of a run, one for one.
pub open spec fn texts(strings: Seq<String>) -> Seq<Seq<char>> {
    Seq::new(strings.len(), |i: int| strings[i]@)
}

/// `prefix`, a slash and `label`.
fn join(prefix: &String, label: &String) -> (path: String)
    ensures
        path@ == step(prefix@, label@),
{
    let mut path = prefix.clone();
    path.append("/");
    path.append(label.as_str());
    proof {
        reveal_strlit("/");
        assert("/"@ =~= seq!['/']);
        assert(path@ =~= step(prefix@, label@));
    }
    path
}

/// Lists the leaf paths below `root_id` by recursion, each path starting with
/// `prefix`. A `root_id` without children gives no path.
pub fn compute_path_from_tree(tree: &Tree, root_id: i64, prefix: String) -> (paths: Vec<String>)
    requires
        tree.wf(),
        acyclic(tree@),
    ensures
        texts(paths@) == leaf_paths(tree@, root_id as int, prefix@),
    decreases depth(tree@, root_id as int),
{
    let mut paths: Vec<String> = Vec::new();
    match tree.get(root_id) {
        None => {
            assert(texts(paths@) =~= leaf_paths(tree@, root_id as int, prefix@));
            paths
        },
        Some(children) => {
            let mut i: usize = 0;
            assert(texts(paths@) =~= Seq::<Seq<char>>::empty());
            while i < children.len()
                invariant
                    i <= children.len(),
                    tree.wf(),
                    acyclic(tree@),
                    nodes_view(children@) == kids(tree@, root_id as int),
                    texts(paths@) + paths_from(tree@, root_id as int, prefix@, i as int)
                        =~= paths_from(tree@, root_id as int, prefix@, 0),
                decreases children.len() - i,
            {
                let child = &children[i];
                let path = join(&prefix, &child.label);
                let ghost before = texts(paths@);
                let ghost via = paths_via(tree@, child.id as int, path@);
                assert(kids(tree@, root_id as int)[i as int] == child@);
                match tree.get(child.id) {
                    None => {
                        paths.push(path);
                    },
                    Some(_) => {
                        let mut below = compute_path_from_tree(tree, child.id, path);
                        paths.append(&mut below);
                    },
                }
                assert(texts(paths@) =~= before + via);
                i += 1;
            }
            paths
        },
    }
}

/// What a work list holds, entry by entry: a node's path and its id.
spec fn entries(list: Seq<(String, i64)>) -> Seq<(Seq<char>, int)> {
    Seq::new(list.len(), |i: int| (list[i].0@, list[i].1 as int))
}

/// The leaf paths that a work list still owes, the last entry's first.
spec fn pending(t: TreeView, list: Seq<(Seq<char>, int)>) -> Seq<Seq<char>>
    decreases list.len(),
{
    if list.len() == 0 {
        Seq::empty()
    } else {
        paths_via(t, list.last().1, list.last().0) + pending(t, list.drop_last())
    }
}

/// The number of nodes at and below `id`, each counted once for every way
/// down to it.
spec fn weight_via(t: TreeView, id: int) -> nat
    decreases depth(t, id), kids(t, id).len() + 1,
    when acyclic(t)
{
    1 + weight_from(t, id, 0)
}

/// The number of nodes at and below the children of `id` from the `j`-th on.
spec fn weight_from(t: TreeView, id: int, j: int) -> nat
    decreases depth(t, id), kids(t, id).len() - j,
    when acyclic(t)
{
    if 0 <= j < kids(t, id).len() {
        weight_via(t, kids(t, id)[j].id) + weight_from(t, id, j + 1)
    } else {
        0
    }
}

/// The number of nodes that a work list still has to visit.
spec fn load(t: TreeView, list: Seq<(Seq<char>, int)>) -> nat
    decreases list.len(),
{
    if list.len() == 0 {
        0
    } else {
        weight_via(t, list.last().1) + load(t, list.drop_last())
    }
}

/// Puts the children of `id`, whose path is `path`, on the work list, the
/// first child last, so that it is the next to leave.
fn push_children(
    tree: &Tree,
    id: i64,
    children: &Vec<Node>,
    path: &String,
    list: &mut Vec<(String, i64)>,
)
    requires
        tree.wf(),
        acyclic(tree@),
        nodes_view(children@) == kids(tree@, id as int),
    ensures
        pending(tree@, entries(final(list)@)) == paths_from(tree@, id as int, path@, 0) + pending(
            tree@,
            entries(old(list)@),
        ),
        load(tree@, entries(final(list)@)) == weight_from(tree@, id as int, 0) + load(
            tree@,
            entries(old(list)@),
        ),
{
    let mut j: usize = children.len();
    let ghost rest = entries(list@);
    assert(paths_from(tree@, id as int, path@, j as int) + pending(tree@, rest) =~= pending(
        tree@,
        rest,
    ));
    while j > 0
        invariant
            j <= children.len(),
            tree.wf(),
            acyclic(tree@),
            nodes_view(children@) == kids(tree@, id as int),
            pending(tree@, entries(list@)) == paths_from(tree@, id as int, path@, j as int)
                + pending(tree@, rest),
            load(tree@, entries(list@)) == weight_from(tree@, id as int, j as int) + load(
                tree@,
                rest,
            ),
        decreases j,
    {
        j -= 1;
        let child = &children[j];
        let ghost before = entries(list@);
        assert(kids(tree@, id as int)[j as int] == child@);
        list.push((join(path, &child.label), child.id));
        proof {
            let after = entries(list@);
            assert(after.drop_last() =~= before);
            assert(after.last() == (step(path@, child@.label), child@.id));
            assert(pending(tree@, after) =~= paths_from(tree@, id as int, path@, j as int)
                + pending(tree@, rest));
        }
    }
}

/// Lists the leaf paths below the root with a work list in place of
/// recursion: the same paths as [`compute_path_from_tree`] gives from the root
/// with an empty prefix, in the same order. Fails where the root has no child.
pub fn compute_path_from_tree_iterative(tree: &Tree) -> (outcome: Result<Vec<String>, TreeError>)
    requires
        tree.wf(),
        acyclic(tree@),
    ensures
        match outcome {
            Ok(paths) => tree@.contains_key(ROOT_ID as int) && texts(paths@) == leaf_paths(
                tree@,
                ROOT_ID as int,
                Seq::empty(),
            ),
            Err(e) => e == TreeError::RootNotFound && !tree@.contains_key(ROOT_ID as int),
        },
{
    let mut paths: Vec<String> = Vec::new();
    let mut list: Vec<(String, i64)> = Vec::new();
    let ghost goal = leaf_paths(tree@, ROOT_ID as int, Seq::empty());
    match tree.get(ROOT_ID) {
        None => {
            return Err(TreeError::RootNotFound);
        },
        Some(children) => {
            let start = String::new();
            assert(entries(list@) =~= Seq::<(Seq<char>, int)>::empty());
            push_children(tree, ROOT_ID, children, &start, &mut list);
            assert(start@ =~= Seq::<char>::empty());
            assert(texts(paths@) + pending(tree@, entries(list@)) =~= goal);
        },
    }
    while list.len() > 0
        invariant
            tree.wf(),
            acyclic(tree@),
            texts(paths@) + pending(tree@, entries(list@)) == goal,
        decreases load(tree@, entries(list@)),
    {
        let ghost before = entries(list@);
        let ghost done = texts(paths@);
        let top = list.pop();
        assert(entries(list@) =~= before.drop_last());
        match top {
            None => {},
            Some(entry) => {
                let (path, id) = entry;
                assert(before.last() == (path@, id as int));
                let ghost via = paths_via(tree@, id as int, path@);
                match tree.get(id) {
                    None => {
                        paths.push(path);
                    },
                    Some(children) => {
                        push_children(tree, id, children, &path, &mut list);
                    },
                }
                assert(texts(paths@) + pending(tree@, entries(list@)) =~= done + (via + pending(
                    tree@,
                    before.drop_last(),
                )));
            },
        }
    }
    assert(texts(paths@) + pending(tree@, entries(list@)) =~= texts(paths@));
    Ok(paths)
}

} // verus!
