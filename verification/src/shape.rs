//! Forests rooted at 0, and why they have one leaf path for each childless
//! node.

use crate::paths::{leaf_paths, paths_from, paths_via, step};
use crate::tree::{acyclic, depth, descends, has_id, kids, tidy, TreeView, ROOT_ID};
use vstd::prelude::*;
use vstd::seq_lib::{lemma_no_dup_in_concat, seq_to_set_is_finite};

verus! {

/// Whether `c` is a child of `p` in `t`.
pub open spec fn is_edge(t: TreeView, p: int, c: int) -> bool {
    has_id(kids(t, p), c)
}

/// Whether `c` is a child of some node of `t`.
pub open spec fn is_child(t: TreeView, c: int) -> bool {
    exists|p: int| is_edge(t, p, c)
}

/// Whether no node of `t` has two parents.
pub open spec fn single_parent(t: TreeView) -> bool {
    forall|p: int, q: int, c: int| #[trigger] is_edge(t, p, c) && #[trigger] is_edge(t, q, c) ==> p == q
}

/// A parent of `c` in `t`, where it has one.
pub open spec fn parent_of(t: TreeView, c: int) -> int {
    choose|p: int| is_edge(t, p, c)
}

/// The node `n` steps up from `c`, parent by parent.
pub open spec fn up(t: TreeView, c: int, n: nat) -> int
    decreases n,
{
    if n == 0 {
        c
    } else {
        parent_of(t, up(t, c, (n - 1) as nat))
    }
}

/// Whether each of the first `n` steps up from `c` starts at a node that has
/// a parent.
pub open spec fn climbs(t: TreeView, c: int, n: nat) -> bool {
    forall|i: nat| i < n ==> is_child(t, #[trigger] up(t, c, i))
}

/// Whether the way up from every child of `t` ends at the root, which is
/// itself no child.
pub open spec fn rooted(t: TreeView) -> bool {
    &&& !is_child(t, ROOT_ID as int)
    &&& forall|c: int| #[trigger]
        is_child(t, c) ==> exists|n: nat| climbs(t, c, n) && #[trigger] up(t, c, n) == ROOT_ID
}

/// Whether `t` is a forest rooted at 0: without a cycle, each node with one
/// parent, and each below the root.
pub open spec fn forest(t: TreeView) -> bool {
    &&& tidy(t)
    &&& acyclic(t)
    &&& single_parent(t)
    &&& rooted(t)
}

/// The nodes of `t` that have no child.
pub open spec fn childless(t: TreeView) -> Set<int> {
    Set::new(|c: int| is_child(t, c) && !t.contains_key(c))
}

/// The leaf at the end of each leaf path through `id`, path by path.
pub open spec fn leaves_via(t: TreeView, id: int) -> Seq<int>
    decreases depth(t, id), kids(t, id).len() + 1,
    when acyclic(t)
{
    if kids(t, id).len() == 0 {
        seq![id]
    } else {
        leaves_from(t, id, 0)
    }
}

/// The leaf at the end of each leaf path through the children of `id` from
/// the `j`-th on, path by path.
pub open spec fn leaves_from(t: TreeView, id: int, j: int) -> Seq<int>
    decreases depth(t, id), kids(t, id).len() - j,
    when acyclic(t)
{
    if 0 <= j < kids(t, id).len() {
        leaves_via(t, kids(t, id)[j].id) + leaves_from(t, id, j + 1)
    } else {
        Seq::empty()
    }
}

/// There are as many leaf paths through a node as leaves at their ends.
pub proof fn lemma_count_via(t: TreeView, id: int, path: Seq<char>)
    requires
        acyclic(t),
    ensures
        paths_via(t, id, path).len() == leaves_via(t, id).len(),
    decreases depth(t, id), kids(t, id).len() + 1,
{
    if kids(t, id).len() > 0 {
        lemma_count_from(t, id, path, 0);
    }
}

/// There are as many leaf paths through a run of children as leaves at their
/// ends.
pub proof fn lemma_count_from(t: TreeView, id: int, prefix: Seq<char>, j: int)
    requires
        acyclic(t),
    ensures
        paths_from(t, id, prefix, j).len() == leaves_from(t, id, j).len(),
    decreases depth(t, id), kids(t, id).len() - j,
{
    if 0 <= j < kids(t, id).len() {
        let child = kids(t, id)[j];
        lemma_count_via(t, child.id, step(prefix, child.label));
        lemma_count_from(t, id, prefix, j + 1);
    }
}

/// One step further up from a node that a climb has reached, to its parent.
proof fn lemma_climb_on(t: TreeView, x: int, n: nat, p: int)
    requires
        single_parent(t),
        climbs(t, x, n),
        is_edge(t, p, up(t, x, n)),
    ensures
        climbs(t, x, n + 1),
        up(t, x, n + 1) == p,
{
    let c = up(t, x, n);
    assert(is_child(t, c));
    assert(is_edge(t, parent_of(t, c), c));
    assert forall|i: nat| i < n + 1 implies is_child(t, #[trigger] up(t, x, i)) by {
        if i < n {
        }
    }
}

/// A rank that falls along every edge rises along every climb.
proof fn lemma_rank_rises(t: TreeView, rank: spec_fn(int) -> nat, x: int, a: nat, b: nat)
    requires
        descends(t, rank),
        a <= b,
        climbs(t, x, b),
    ensures
        rank(up(t, x, b)) >= rank(up(t, x, a)) + (b - a),
    decreases b,
{
    if a < b {
        lemma_rank_rises(t, rank, x, a, (b - 1) as nat);
        let c = up(t, x, (b - 1) as nat);
        let p = parent_of(t, c);
        assert(is_child(t, c));
        assert(is_edge(t, p, c));
        let i = choose|i: int| 0 <= i < kids(t, p).len() && #[trigger] kids(t, p)[i].id == c;
        assert(rank(kids(t, p)[i].id) < rank(p));
    }
}

/// Two children of one parent that a node lies at or below are one child.
proof fn lemma_siblings_apart(t: TreeView, p: int, i: int, j: int, x: int, m: nat, n: nat)
    requires
        tidy(t),
        acyclic(t),
        single_parent(t),
        0 <= i < kids(t, p).len(),
        0 <= j < kids(t, p).len(),
        climbs(t, x, m),
        up(t, x, m) == kids(t, p)[i].id,
        climbs(t, x, n),
        up(t, x, n) == kids(t, p)[j].id,
    ensures
        i == j,
{
    if i != j {
        let rank = choose|rank: spec_fn(int) -> nat| descends(t, rank);
        let a = kids(t, p)[i].id;
        let b = kids(t, p)[j].id;
        assert(a != b) by {
            if i < j {
                assert(kids(t, p)[i].id != kids(t, p)[j].id);
            } else {
                assert(kids(t, p)[j].id != kids(t, p)[i].id);
            }
        }
        assert(is_edge(t, p, a));
        assert(is_edge(t, p, b));
        assert(rank(a) < rank(p));
        assert(rank(b) < rank(p));
        if m < n {
            lemma_climb_on(t, x, m, p);
            lemma_rank_rises(t, rank, x, m + 1, n);
        } else {
            lemma_climb_on(t, x, n, p);
            lemma_rank_rises(t, rank, x, n + 1, m);
        }
    }
}

/// What ends a leaf path through `c` has no child and lies at or below `c`.
proof fn lemma_member_via(t: TreeView, c: int, x: int)
    requires
        acyclic(t),
        single_parent(t),
        leaves_via(t, c).contains(x),
    ensures
        kids(t, x).len() == 0,
        exists|n: nat| climbs(t, x, n) && #[trigger] up(t, x, n) == c,
    decreases depth(t, c), kids(t, c).len() + 1,
{
    if kids(t, c).len() == 0 {
        assert(climbs(t, x, 0) && up(t, x, 0) == c);
    } else {
        lemma_member_from(t, c, 0, x);
        let (n, i) = choose|n: nat, i: int|
            0 <= i < kids(t, c).len() && climbs(t, x, n) && #[trigger] up(t, x, n) == (
            #[trigger] kids(t, c)[i]).id;
        assert(is_edge(t, c, up(t, x, n)));
        lemma_climb_on(t, x, n, c);
        assert(climbs(t, x, n + 1) && up(t, x, n + 1) == c);
    }
}

/// What ends a leaf path through the children of `id` from the `j`-th on has
/// no child and lies at or below one of them.
proof fn lemma_member_from(t: TreeView, id: int, j: int, x: int)
    requires
        acyclic(t),
        single_parent(t),
        leaves_from(t, id, j).contains(x),
    ensures
        kids(t, x).len() == 0,
        exists|n: nat, i: int|
            j <= i < kids(t, id).len() && 0 <= i && climbs(t, x, n) && #[trigger] up(t, x, n) == (
            #[trigger] kids(t, id)[i]).id,
    decreases depth(t, id), kids(t, id).len() - j,
{
    if 0 <= j < kids(t, id).len() {
        let first = leaves_via(t, kids(t, id)[j].id);
        let rest = leaves_from(t, id, j + 1);
        let at = choose|at: int| 0 <= at < (first + rest).len() && (first + rest)[at] == x;
        if at < first.len() {
            assert(first[at] == x);
            lemma_member_via(t, kids(t, id)[j].id, x);
            let n = choose|n: nat| climbs(t, x, n) && #[trigger] up(t, x, n) == kids(t, id)[j].id;
            assert(climbs(t, x, n) && up(t, x, n) == kids(t, id)[j].id);
        } else {
            assert(rest[at - first.len()] == x);
            lemma_member_from(t, id, j + 1, x);
        }
    } else {
        assert(leaves_from(t, id, j).len() == 0);
    }
}

/// No leaf ends two of the leaf paths through a node.
proof fn lemma_distinct_via(t: TreeView, c: int)
    requires
        tidy(t),
        acyclic(t),
        single_parent(t),
    ensures
        leaves_via(t, c).no_duplicates(),
    decreases depth(t, c), kids(t, c).len() + 1,
{
    if kids(t, c).len() > 0 {
        lemma_distinct_from(t, c, 0);
    }
}

/// No leaf ends two of the leaf paths through a run of children.
proof fn lemma_distinct_from(t: TreeView, id: int, j: int)
    requires
        tidy(t),
        acyclic(t),
        single_parent(t),
    ensures
        leaves_from(t, id, j).no_duplicates(),
    decreases depth(t, id), kids(t, id).len() - j,
{
    if 0 <= j < kids(t, id).len() {
        let first = leaves_via(t, kids(t, id)[j].id);
        let rest = leaves_from(t, id, j + 1);
        lemma_distinct_via(t, kids(t, id)[j].id);
        lemma_distinct_from(t, id, j + 1);
        assert forall|a: int, b: int| 0 <= a < first.len() && 0 <= b < rest.len() implies first[a]
            != rest[b] by {
            if first[a] == rest[b] {
                let x = first[a];
                assert(first.contains(x));
                assert(rest.contains(x));
                lemma_member_via(t, kids(t, id)[j].id, x);
                lemma_member_from(t, id, j + 1, x);
                let m = choose|m: nat| climbs(t, x, m) && #[trigger] up(t, x, m) == kids(t, id)[j].id;
                let (n, i) = choose|n: nat, i: int|
                    j + 1 <= i < kids(t, id).len() && 0 <= i && climbs(t, x, n) && #[trigger] up(
                        t,
                        x,
                        n,
                    ) == (#[trigger] kids(t, id)[i]).id;
                lemma_siblings_apart(t, id, j, i, x, m, n);
            }
        }
        lemma_no_dup_in_concat(first, rest);
    }
}

/// What ends a leaf path through a child ends one through the run of
/// children that the child is in.
proof fn lemma_covered(t: TreeView, id: int, j: int, i: int, x: int)
    requires
        acyclic(t),
        0 <= j <= i < kids(t, id).len(),
        leaves_via(t, kids(t, id)[i].id).contains(x),
    ensures
        leaves_from(t, id, j).contains(x),
    decreases i - j,
{
    let first = leaves_via(t, kids(t, id)[j].id);
    let rest = leaves_from(t, id, j + 1);
    if j == i {
        let at = choose|at: int| 0 <= at < first.len() && first[at] == x;
        assert((first + rest)[at] == x);
    } else {
        lemma_covered(t, id, j + 1, i, x);
        let at = choose|at: int| 0 <= at < rest.len() && rest[at] == x;
        assert((first + rest)[first.len() + at] == x);
    }
}

/// A childless node at or below `c` ends a leaf path through `c`.
proof fn lemma_reached(t: TreeView, x: int, n: nat)
    requires
        acyclic(t),
        single_parent(t),
        kids(t, x).len() == 0,
        climbs(t, x, n),
    ensures
        leaves_via(t, up(t, x, n)).contains(x),
    decreases n,
{
    if n == 0 {
        assert(seq![x][0] == x);
    } else {
        let k = up(t, x, (n - 1) as nat);
        let c = up(t, x, n);
        lemma_reached(t, x, (n - 1) as nat);
        assert(is_child(t, k));
        assert(is_edge(t, c, k));
        let i = choose|i: int| 0 <= i < kids(t, c).len() && #[trigger] kids(t, c)[i].id == k;
        lemma_covered(t, c, 0, i, x);
    }
}

/// In a forest rooted at 0 there are as many leaf paths from the root as
/// nodes without a child.
pub proof fn lemma_one_path_per_leaf(t: TreeView, prefix: Seq<char>)
    requires
        forest(t),
    ensures
        childless(t).finite(),
        leaf_paths(t, ROOT_ID as int, prefix).len() == childless(t).len(),
{
    let root = ROOT_ID as int;
    let ends = leaves_from(t, root, 0);
    lemma_count_from(t, root, prefix, 0);
    lemma_distinct_from(t, root, 0);
    ends.unique_seq_to_set();
    seq_to_set_is_finite(ends);
    assert forall|x: int| ends.contains(x) implies childless(t).contains(x) by {
        lemma_member_from(t, root, 0, x);
        let (n, i) = choose|n: nat, i: int|
            0 <= i < kids(t, root).len() && climbs(t, x, n) && #[trigger] up(t, x, n) == (
            #[trigger] kids(t, root)[i]).id;
        assert(is_edge(t, root, up(t, x, n)));
        lemma_climb_on(t, x, n, root);
        assert(is_child(t, up(t, x, 0)));
    }
    assert forall|x: int| childless(t).contains(x) implies ends.contains(x) by {
        let n = choose|n: nat| climbs(t, x, n) && #[trigger] up(t, x, n) == ROOT_ID;
        assert(kids(t, x).len() == 0);
        lemma_reached(t, x, n);
        if kids(t, root).len() == 0 {
            assert(leaves_via(t, root)[0] == root);
        }
    }
    assert(ends.to_set() =~= childless(t));
}

} // verus!
