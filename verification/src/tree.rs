//! The data model: nodes, and the tree that maps a parent id to its children.

use vstd::prelude::*;
use vstd::set_lib::{lemma_int_range, lemma_subset_equality, set_int_range};

verus! {

/// The conventional parent id of the nodes that have no parent.
pub const ROOT_ID: i64 = 0;

/// What can go wrong while a tree is built or walked.
#[derive(Debug, Clone, Copy, PartialEq, Eq, Structural)]
pub enum TreeError {
    /// The record source could not be opened or read.
    SourceUnavailable,
    /// A record's id field is absent or is not an integer.
    MalformedRecord,
    /// No record names a child of the root.
    RootNotFound,
}

/// A node of the forest: an id, unique over the whole forest, and a label to
/// display. Among the children of one parent a node is told apart by its id
/// alone.
#[derive(Debug, Clone)]
pub struct Node {
    pub id: i64,
    pub label: String,
}

impl PartialEq for Node {
    /// Two nodes are equal where their ids are, whatever their labels.
    fn eq(&self, other: &Node) -> (same: bool) {
        self.id == other.id
    }
}

impl Eq for Node {

}

impl vstd::std_specs::cmp::PartialEqSpecImpl for Node {
    open spec fn obeys_eq_spec() -> bool {
        true
    }

    open spec fn eq_spec(&self, other: &Node) -> bool {
        self.id == other.id
    }
}

/// The mathematical value of a [`Node`].
pub struct NodeView {
    pub id: int,
    pub label: Seq<char>,
}

impl View for Node {
    type V = NodeView;

    open spec fn view(&self) -> NodeView {
        NodeView { id: self.id as int, label: self.label@ }
    }
}

/// The model of a tree: each parent id that has children, with its children in
/// the order in which they were first inserted.
pub type TreeView = Map<int, Seq<NodeView>>;

/// The views of a run of nodes, one for one.
pub open spec fn nodes_view(nodes: Seq<Node>) -> Seq<NodeView> {
    Seq::new(nodes.len(), |i: int| nodes[i]@)
}

/// The children of `id` in `t`; none where `id` is no key of `t`.
pub open spec fn kids(t: TreeView, id: int) -> Seq<NodeView> {
    if t.contains_key(id) {
        t[id]
    } else {
        Seq::empty()
    }
}

/// Whether one of `nodes` has the id `id`.
pub open spec fn has_id(nodes: Seq<NodeView>, id: int) -> bool {
    exists|i: int| 0 <= i < nodes.len() && #[trigger] nodes[i].id == id
}

/// Whether no id occurs twice among `nodes`.
pub open spec fn distinct_ids(nodes: Seq<NodeView>) -> bool {
    forall|i: int, j: int|
        0 <= i < j < nodes.len() ==> (#[trigger] nodes[i]).id != (#[trigger] nodes[j]).id
}

/// `t` with `node` added to the children of `parent`. Where `parent` already
/// has a child with that id, `t` itself: the child that came first stays, with
/// its label.
pub open spec fn with_child(t: TreeView, parent: int, node: NodeView) -> TreeView {
    if has_id(kids(t, parent), node.id) {
        t
    } else {
        t.insert(parent, kids(t, parent).push(node))
    }
}

/// Adding a child puts it among its parent's children and takes no child
/// away from any parent.
pub proof fn lemma_with_child_has(t: TreeView, parent: int, node: NodeView, p: int, id: int)
    ensures
        has_id(kids(with_child(t, parent, node), parent), node.id),
        has_id(kids(t, p), id) ==> has_id(kids(with_child(t, parent, node), p), id),
{
    let after = with_child(t, parent, node);
    if !has_id(kids(t, parent), node.id) {
        let grown = kids(t, parent).push(node);
        assert(kids(after, parent) == grown);
        assert(grown[grown.len() - 1].id == node.id);
        if has_id(kids(t, p), id) && p == parent {
            let i = choose|i: int| 0 <= i < kids(t, p).len() && #[trigger] kids(t, p)[i].id == id;
            assert(grown[i].id == id);
        }
    }
}

/// Adding a child keeps a model tidy.
pub proof fn lemma_with_child_tidy(t: TreeView, parent: int, node: NodeView)
    requires
        tidy(t),
    ensures
        tidy(with_child(t, parent, node)),
{
    if !has_id(kids(t, parent), node.id) {
        let before = kids(t, parent);
        let grown = before.push(node);
        assert forall|i: int, j: int| 0 <= i < j < grown.len() implies (#[trigger] grown[i]).id != (
        #[trigger] grown[j]).id by {
            if j < before.len() {
                assert(before[i].id != before[j].id);
            } else {
                assert(before[i].id != node.id);
            }
        }
    }
}

/// A second record for the same child of the same parent changes nothing,
/// whatever its label: the parent keeps exactly one child with that id, the
/// one it had before the second record came.
pub proof fn lemma_duplicate_absorbed(t: TreeView, parent: int, first: NodeView, second: NodeView)
    requires
        tidy(t),
        first.id == second.id,
    ensures
        with_child(with_child(t, parent, first), parent, second) == with_child(t, parent, first),
        has_id(kids(with_child(t, parent, first), parent), first.id),
        distinct_ids(kids(with_child(t, parent, first), parent)),
{
    lemma_with_child_tidy(t, parent, first);
    if !has_id(kids(t, parent), first.id) {
        let grown = kids(t, parent).push(first);
        assert(grown[grown.len() - 1].id == first.id);
        assert(kids(with_child(t, parent, first), parent) == grown);
    } else {
        assert(t.contains_key(parent));
    }
}

/// What every tree's model satisfies: a key has at least one child, and no
/// child id twice.
pub open spec fn tidy(t: TreeView) -> bool {
    forall|p: int| #[trigger]
        t.contains_key(p) ==> t[p].len() > 0 && distinct_ids(t[p])
}

/// Whether `rank` falls along every edge of `t`, from parent to child.
pub open spec fn descends(t: TreeView, rank: spec_fn(int) -> nat) -> bool {
    forall|p: int, i: int|
        0 <= i < kids(t, p).len() ==> rank((#[trigger] kids(t, p)[i]).id) < rank(p)
}

/// Whether `t` has no cycle: some rank falls along every edge.
pub open spec fn acyclic(t: TreeView) -> bool {
    exists|rank: spec_fn(int) -> nat| descends(t, rank)
}

/// A rank of the node `id` that falls along every edge of an acyclic `t`.
pub open spec fn depth(t: TreeView, id: int) -> nat {
    (choose|rank: spec_fn(int) -> nat| descends(t, rank))(id)
}

/// One parent with its children.
#[derive(Debug, Clone)]
struct Family {
    parent: i64,
    children: Vec<Node>,
}

/// A mapping from parent id to the set of its children. Built once, by
/// [`Tree::new`] and [`Tree::insert`], and only read afterwards.
#[derive(Debug, Clone)]
pub struct Tree {
    families: Vec<Family>,
}

impl View for Tree {
    type V = TreeView;

    closed spec fn view(&self) -> TreeView {
        Map::new(
            |p: int| self.has_family(p),
            |p: int| nodes_view(self.families[self.family_of(p)].children@),
        )
    }
}

impl Tree {
    spec fn has_family(&self, p: int) -> bool {
        exists|k: int| 0 <= k < self.families.len() && #[trigger] self.families[k].parent == p
    }

    spec fn family_of(&self, p: int) -> int {
        choose|k: int| 0 <= k < self.families.len() && #[trigger] self.families[k].parent == p
    }

    /// The invariant of the representation: one family per parent, none of
    /// them empty, no child id twice in a family.
    pub closed spec fn wf(&self) -> bool {
        &&& forall|i: int, j: int|
            0 <= i < j < self.families.len() ==> (#[trigger] self.families[i]).parent != (
            #[trigger] self.families[j]).parent
        &&& forall|k: int|
            0 <= k < self.families.len() ==> {
                &&& (#[trigger] self.families[k]).children.len() > 0
                &&& distinct_ids(nodes_view(self.families[k].children@))
            }
    }

    /// Every well-formed tree has a tidy model.
    pub proof fn lemma_tidy(&self)
        requires
            self.wf(),
        ensures
            tidy(self@),
    {
        assert forall|p: int| #[trigger] self@.contains_key(p) implies self@[p].len() > 0
            && distinct_ids(self@[p]) by {
            let k = self.family_of(p);
            assert(self.families[k].children.len() > 0);
        }
    }

    proof fn lemma_family(&self, k: int)
        requires
            self.wf(),
            0 <= k < self.families.len(),
        ensures
            self@.contains_key(self.families[k].parent as int),
            self@[self.families[k].parent as int] == nodes_view(self.families[k].children@),
    {
        let p = self.families[k].parent as int;
        assert(self.has_family(p));
        let c = self.family_of(p);
        assert(self.families[c].parent == p);
        assert(c == k);
    }

    /// `after` is `self` with one more child in family `k`.
    proof fn lemma_grown(&self, after: Tree, k: int, node: NodeView)
        requires
            self.wf(),
            0 <= k < self.families.len(),
            !has_id(nodes_view(self.families[k].children@), node.id),
            after.families.len() == self.families.len(),
            forall|j: int|
                0 <= j < self.families.len() ==> (#[trigger] after.families[j]).parent
                    == self.families[j].parent,
            forall|j: int|
                0 <= j < self.families.len() && j != k ==> (#[trigger] after.families[j]).children
                    == self.families[j].children,
            nodes_view(after.families[k].children@) == nodes_view(
                self.families[k].children@,
            ).push(node),
        ensures
            after.wf(),
            after@ == with_child(self@, self.families[k].parent as int, node),
    {
        let parent = self.families[k].parent as int;
        let old_kids = nodes_view(self.families[k].children@);
        let new_kids = nodes_view(after.families[k].children@);
        self.lemma_family(k);
        assert(new_kids.len() == old_kids.len() + 1);
        assert(distinct_ids(new_kids)) by {
            assert(distinct_ids(old_kids));
            assert forall|i: int, j: int| 0 <= i < j < new_kids.len() implies (
            #[trigger] new_kids[i]).id != (#[trigger] new_kids[j]).id by {
                if j < old_kids.len() {
                    assert(old_kids[i].id != old_kids[j].id);
                } else {
                    assert(old_kids[i].id != node.id);
                }
            }
        }
        assert(after.wf()) by {
            assert forall|j: int| 0 <= j < after.families.len() implies {
                &&& (#[trigger] after.families[j]).children.len() > 0
                &&& distinct_ids(nodes_view(after.families[j].children@))
            } by {
                if j != k {
                    assert(self.families[j].children.len() > 0);
                }
            }
            assert forall|i: int, j: int| 0 <= i < j < after.families.len() implies (
            #[trigger] after.families[i]).parent != (#[trigger] after.families[j]).parent by {
                assert(self.families[i].parent != self.families[j].parent);
            }
        }
        let goal = self@.insert(parent, old_kids.push(node));
        assert forall|p: int| after@.contains_key(p) <==> goal.contains_key(p) by {
            if after.has_family(p) {
                let j = after.family_of(p);
                assert(self.families[j].parent == p);
            }
            if self.has_family(p) {
                let j = self.family_of(p);
                assert(after.families[j].parent == p);
            }
            assert(after.families[k].parent == parent);
        }
        assert forall|p: int| after@.contains_key(p) implies after@[p] == goal[p] by {
            let j = after.family_of(p);
            assert(self.families[j].parent == p);
            after.lemma_family(j);
            self.lemma_family(j);
        }
        assert(after@ =~= goal);
    }

    /// `after` is `self` with one more family, of the single child `node`.
    proof fn lemma_founded(&self, after: Tree, node: NodeView)
        requires
            self.wf(),
            after.families.len() == self.families.len() + 1,
            forall|j: int|
                0 <= j < self.families.len() ==> (#[trigger] after.families[j])
                    == self.families[j],
            !self.has_family(after.families[self.families.len() as int].parent as int),
            nodes_view(after.families[self.families.len() as int].children@) == seq![node],
        ensures
            after.wf(),
            after@ == with_child(
                self@,
                after.families[self.families.len() as int].parent as int,
                node,
            ),
    {
        let n = self.families.len() as int;
        let parent = after.families[n].parent as int;
        assert(after.wf()) by {
            assert forall|j: int| 0 <= j < after.families.len() implies {
                &&& (#[trigger] after.families[j]).children.len() > 0
                &&& distinct_ids(nodes_view(after.families[j].children@))
            } by {
                if j < n {
                    assert(self.families[j].children.len() > 0);
                } else {
                    assert(nodes_view(after.families[j].children@).len() == 1);
                }
            }
            assert forall|i: int, j: int| 0 <= i < j < after.families.len() implies (
            #[trigger] after.families[i]).parent != (#[trigger] after.families[j]).parent by {
                if j < n {
                    assert(self.families[i].parent != self.families[j].parent);
                } else {
                    assert(self.families[i].parent != parent);
                }
            }
        }
        assert(!self@.contains_key(parent));
        assert(kids(self@, parent) =~= Seq::<NodeView>::empty());
        assert(!has_id(kids(self@, parent), node.id));
        assert(Seq::<NodeView>::empty().push(node) =~= seq![node]);
        let goal = self@.insert(parent, seq![node]);
        assert forall|p: int| after@.contains_key(p) <==> goal.contains_key(p) by {
            if after.has_family(p) {
                let j = after.family_of(p);
                if j < n {
                    assert(self.families[j].parent == p);
                }
            }
            if self.has_family(p) {
                let j = self.family_of(p);
                assert(after.families[j].parent == p);
            }
            assert(after.families[n].parent == parent);
        }
        assert forall|p: int| after@.contains_key(p) implies after@[p] == goal[p] by {
            let j = after.family_of(p);
            after.lemma_family(j);
            if j < n {
                assert(self.families[j].parent == p);
                self.lemma_family(j);
            }
        }
        assert(after@ =~= goal);
    }

    /// The empty tree.
    pub fn new() -> (tree: Tree)
        ensures
            tree.wf(),
            tree@ == Map::<int, Seq<NodeView>>::empty(),
    {
        let tree = Tree { families: Vec::new() };
        assert(tree@ =~= Map::<int, Seq<NodeView>>::empty());
        tree
    }

    fn find_family(&self, id: i64) -> (found: Option<usize>)
        ensures
            match found {
                Some(k) => k < self.families.len() && self.families[k as int].parent == id,
                None => !self.has_family(id as int),
            },
    {
        let mut k: usize = 0;
        while k < self.families.len()
            invariant
                k <= self.families.len(),
                forall|j: int| 0 <= j < k ==> (#[trigger] self.families[j]).parent != id,
            decreases self.families.len() - k,
        {
            if self.families[k].parent == id {
                return Some(k);
            }
            k += 1;
        }
        None
    }

    /// The children of `id`, in the order of their first insertion; `None`
    /// where `id` has none.
    pub fn get(&self, id: i64) -> (children: Option<&Vec<Node>>)
        requires
            self.wf(),
        ensures
            match children {
                Some(v) => self@.contains_key(id as int) && nodes_view(v@) == self@[id as int] && v.len() > 0,
                None => !self@.contains_key(id as int),
            },
    {
        match self.find_family(id) {
            Some(k) => {
                proof {
                    self.lemma_family(k as int);
                }
                Some(&self.families[k].children)
            },
            None => None,
        }
    }

    /// Adds `node` to the children of `parent_id`. Where that parent already
    /// has a child with the node's id, nothing changes: the first one stays,
    /// label included.
    pub fn insert(&mut self, parent_id: i64, node: Node)
        requires
            old(self).wf(),
        ensures
            final(self).wf(),
            final(self)@ == with_child(old(self)@, parent_id as int, node@),
    {
        let ghost before = *self;
        let ghost nv = node@;
        match self.find_family(parent_id) {
            Some(k) => {
                proof {
                    self.lemma_family(k as int);
                }
                if !contains_id(&self.families[k].children, node.id) {
                    let mut family = self.families.remove(k);
                    family.children.push(node);
                    self.families.insert(k, family);
                    proof {
                        assert(nodes_view(self.families[k as int].children@) =~= nodes_view(
                            before.families[k as int].children@,
                        ).push(nv));
                        before.lemma_grown(*self, k as int, nv);
                    }
                }
            },
            None => {
                let mut children: Vec<Node> = Vec::new();
                children.push(node);
                self.families.push(Family { parent: parent_id, children });
                proof {
                    assert(nodes_view(
                        self.families[before.families.len() as int].children@,
                    ) =~= seq![nv]);
                    before.lemma_founded(*self, nv);
                }
            },
        }
    }

    /// Whether the levels are sound: a family with a level has every child
    /// that is itself a parent at a lower level, above 0.
    spec fn layered(&self, level: Seq<usize>) -> bool {
        forall|k: int, i: int, j: int|
            0 <= k < self.families.len() && level[k] > 0 && 0 <= i
                < self.families[k].children.len() && 0 <= j < self.families.len() && (
            #[trigger] self.families[j]).parent == (#[trigger] self.families[k].children[i]).id
                ==> 0 < level[j] < level[k]
    }

    /// Whether family `k` has a child that is a parent without a level.
    spec fn held_back(&self, level: Seq<usize>, k: int) -> bool {
        exists|i: int, j: int|
            0 <= i < self.families[k].children.len() && 0 <= j < self.families.len() && (
            #[trigger] self.families[j]).parent == (#[trigger] self.families[k].children[i]).id
                && level[j] == 0
    }

    /// Whether every family without a level is held back.
    spec fn stuck(&self, level: Seq<usize>) -> bool {
        forall|k: int|
            0 <= k < self.families.len() && level[k] == 0 ==> #[trigger] self.held_back(level, k)
    }

    /// Where the families without a level hold one another back, no rank
    /// that falls along every edge can be bounded at any of their parents.
    proof fn lemma_stuck(&self, level: Seq<usize>, rank: spec_fn(int) -> nat, m: nat)
        requires
            self.wf(),
            level.len() == self.families.len(),
            self.stuck(level),
            descends(self@, rank),
        ensures
            forall|k: int|
                0 <= k < self.families.len() && level[k] == 0 ==> rank(
                    (#[trigger] self.families[k]).parent as int,
                ) >= m,
        decreases m,
    {
        if m > 0 {
            self.lemma_stuck(level, rank, (m - 1) as nat);
            assert forall|k: int| 0 <= k < self.families.len() && level[k] == 0 implies rank(
                (#[trigger] self.families[k]).parent as int,
            ) >= m by {
                assert(self.held_back(level, k));
                let (i, j) = choose|i: int, j: int|
                    0 <= i < self.families[k].children.len() && 0 <= j < self.families.len() && (
                    #[trigger] self.families[j]).parent == (
                    #[trigger] self.families[k].children[i]).id && level[j] == 0;
                self.lemma_family(k);
                let p = self.families[k].parent as int;
                assert(kids(self@, p)[i].id == self.families[k].children[i].id);
                assert(rank(self.families[j].parent as int) >= m - 1);
            }
        }
    }

    /// Where every family has a sound level, the levels are a rank.
    proof fn lemma_layers_rank(&self, level: Seq<usize>)
        requires
            self.wf(),
            level.len() == self.families.len(),
            self.layered(level),
            forall|k: int| 0 <= k < level.len() ==> level[k] > 0,
        ensures
            acyclic(self@),
    {
        let rank = |p: int|
            if self.has_family(p) {
                level[self.family_of(p)] as nat
            } else {
                0nat
            };
        assert forall|p: int, i: int| 0 <= i < kids(self@, p).len() implies rank(
            (#[trigger] kids(self@, p)[i]).id,
        ) < rank(p) by {
            let k = self.family_of(p);
            self.lemma_family(k);
            let c = self.families[k].children[i].id as int;
            assert(kids(self@, p)[i].id == c);
            if self.has_family(c) {
                let j = self.family_of(c);
                assert(self.families[j].parent == self.families[k].children[i].id);
            }
        }
        assert(descends(self@, rank));
    }

    /// Whether no child of family `k` is a parent without a level.
    fn family_ready(&self, k: usize, level: &Vec<usize>) -> (ready: bool)
        requires
            self.wf(),
            k < self.families.len(),
            level.len() == self.families.len(),
        ensures
            ready == !self.held_back(level@, k as int),
    {
        let children = &self.families[k].children;
        let mut i: usize = 0;
        while i < children.len()
            invariant
                i <= children.len(),
                self.wf(),
                k < self.families.len(),
                level.len() == self.families.len(),
                children == &self.families[k as int].children,
                forall|a: int, j: int|
                    0 <= a < i && 0 <= j < self.families.len() && (
                    #[trigger] self.families[j]).parent == (
                    #[trigger] self.families[k as int].children[a]).id ==> level[j] != 0,
            decreases children.len() - i,
        {
            match self.find_family(children[i].id) {
                Some(j) => {
                    if level[j] == 0 {
                        assert(self.families[j as int].parent
                            == self.families[k as int].children[i as int].id);
                        return false;
                    }
                },
                None => {},
            }
            i += 1;
        }
        true
    }

    /// A family without a level that nothing holds back, if there is one.
    fn next_ready(&self, level: &Vec<usize>) -> (found: Option<usize>)
        requires
            self.wf(),
            level.len() == self.families.len(),
        ensures
            match found {
                Some(k) => k < self.families.len() && level[k as int] == 0 && !self.held_back(
                    level@,
                    k as int,
                ),
                None => self.stuck(level@),
            },
    {
        let mut k: usize = 0;
        while k < self.families.len()
            invariant
                k <= self.families.len(),
                self.wf(),
                level.len() == self.families.len(),
                forall|a: int| 0 <= a < k && level[a] == 0 ==> #[trigger] self.held_back(level@, a),
            decreases self.families.len() - k,
        {
            if level[k] == 0 && self.family_ready(k, level) {
                return Some(k);
            }
            k += 1;
        }
        None
    }

    /// Decides whether the tree is free of cycles. It gives the families
    /// levels from the leaves upwards, one family a round: each family gets
    /// its level once all of its children that are parents have theirs.
    pub fn is_acyclic(&self) -> (ok: bool)
        requires
            self.wf(),
        ensures
            ok == acyclic(self@),
    {
        let n: usize = self.families.len();
        let mut level: Vec<usize> = Vec::new();
        while level.len() < n
            invariant
                level.len() <= n,
                forall|k: int| 0 <= k < level.len() ==> level[k] == 0,
            decreases n - level.len(),
        {
            level.push(0);
        }
        let mut round: usize = 0;
        let ghost mut settled: Set<int> = Set::empty();
        while round < n
            invariant
                self.wf(),
                n == self.families.len(),
                level.len() == n,
                round <= n,
                self.layered(level@),
                forall|k: int| 0 <= k < n ==> level[k] <= round,
                forall|k: int| settled.contains(k) <==> 0 <= k < n && level[k] > 0,
                settled.finite(),
                settled.len() == round,
            decreases n - round,
        {
            match self.next_ready(&level) {
                None => {
                    proof {
                        if forall|k: int| 0 <= k < n ==> level[k] > 0 {
                            lemma_int_range(0, n as int);
                            assert(settled =~= set_int_range(0, n as int));
                        }
                        let k0 = choose|k: int| 0 <= k < n && level[k] == 0;
                        if acyclic(self@) {
                            let rank = choose|rank: spec_fn(int) -> nat| descends(self@, rank);
                            let m = rank(self.families[k0].parent as int) + 1;
                            self.lemma_stuck(level@, rank, m);
                            assert(rank(self.families[k0].parent as int) >= m);
                        }
                    }
                    return false;
                },
                Some(k) => {
                    let ghost before = level@;
                    level.set(k, round + 1);
                    proof {
                        settled = settled.insert(k as int);
                        assert forall|a: int, i: int, j: int|
                            0 <= a < self.families.len() && level[a] > 0 && 0 <= i
                                < self.families[a].children.len() && 0 <= j
                                < self.families.len() && (#[trigger] self.families[j]).parent == (
                            #[trigger] self.families[a].children[i]).id implies 0 < level[j]
                            < level[a] by {
                            if a == k {
                                assert(before[j] != 0);
                            } else {
                                assert(0 < before[j] < before[a]);
                            }
                        }
                    }
                    round += 1;
                },
            }
        }
        proof {
            lemma_int_range(0, n as int);
            lemma_subset_equality(settled, set_int_range(0, n as int));
            assert forall|k: int| 0 <= k < level.len() implies level[k] > 0 by {
                assert(set_int_range(0, n as int).contains(k));
            }
            self.lemma_layers_rank(level@);
        }
        true
    }

    /// Whether the tree has no entry at all.
    pub fn is_empty(&self) -> (empty: bool)
        requires
            self.wf(),
        ensures
            empty <==> self@ == Map::<int, Seq<NodeView>>::empty(),
    {
        let empty = self.families.len() == 0;
        proof {
            if empty {
                assert(self@ =~= Map::<int, Seq<NodeView>>::empty());
            } else {
                self.lemma_family(0);
            }
        }
        empty
    }
}

fn contains_id(nodes: &Vec<Node>, id: i64) -> (found: bool)
    ensures
        found == has_id(nodes_view(nodes@), id as int),
{
    let mut i: usize = 0;
    while i < nodes.len()
        invariant
            i <= nodes.len(),
            forall|j: int| 0 <= j < i ==> (#[trigger] nodes_view(nodes@)[j]).id != id,
        decreases nodes.len() - i,
    {
        if nodes[i].id == id {
            assert(nodes_view(nodes@)[i as int].id == id);
            return true;
        }
        i += 1;
    }
    false
}

} // verus!
