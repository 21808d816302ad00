//! From paths to nodes and back. A path is read from the root of a branch.

use crate::arena::{law_child_lists_fit, ContainerArena};
use crate::axis::NodeKey;
use crate::tile::{InsertParentInfo, Slot, WindowId};
use crate::tree::{depth, lemma_branch, lemma_branch_step, lemma_depth, room, Pick, Tree};
use crate::walk::lemma_slot;
use vstd::prelude::*;

verus! {

impl Tree {
    /// The node a path leads to from `k`.
    pub open spec fn at_path(self, k: NodeKey, path: Seq<usize>) -> Option<NodeKey>
        decreases path.len(),
    {
        if path.len() == 0 {
            Some(k)
        } else if path[0] < self.kids(k).len() {
            self.at_path(self.kids(k)[path[0] as int], path.drop_first())
        } else {
            None
        }
    }

    /// The path of a node from the root of its branch.
    pub open spec fn address(self, k: NodeKey) -> Seq<usize>
        decreases depth(self.parents, k),
        when self.wf()
    {
        proof {
            if self.parents.contains_key(k) {
                lemma_depth(self.parents, k);
            }
        }
        if !self.parents.contains_key(k) || self.is_floating(k) {
            Seq::empty()
        } else {
            self.address(self.parents[k]).push(
                self.kids(self.parents[k]).index_of(k) as usize,
            )
        }
    }

    /// The path of a node from the workspace, for the nodes of the tiled side.
    pub open spec fn tiled_address(self, k: NodeKey) -> Option<Seq<usize>> {
        if self.has(k) && self.branch(k) == self.root {
            Some(self.address(k))
        } else {
            None
        }
    }

    /// The paths of the windows at or below `k`, depth first, where `k` has path `path`.
    pub open spec fn leaf_paths(self, k: NodeKey, path: Seq<usize>) -> Seq<Seq<usize>>
        decreases room(self.parents, k), self.kids(k).len() + 2,
        when self.wf()
    {
        if self.is_view(k) {
            seq![path]
        } else {
            self.leaf_paths_from(k, path, 0)
        }
    }

    pub open spec fn leaf_paths_from(self, k: NodeKey, path: Seq<usize>, i: int) -> Seq<Seq<usize>>
        decreases room(self.parents, k), self.kids(k).len() - i + 1,
        when self.wf()
    {
        proof {
            if 0 <= i < self.kids(k).len() {
                assert(self.parents.contains_key(self.nodes[k].children[i]));
                lemma_depth(self.parents, self.kids(k)[i]);
            }
        }
        if 0 <= i < self.kids(k).len() {
            self.leaf_paths(self.kids(k)[i], path.push(i as usize)) + self.leaf_paths_from(
                k,
                path,
                i + 1,
            )
        } else {
            Seq::empty()
        }
    }

    /// The slot a path names: the parent's path, the place inside it and the parent's layout.
    pub open spec fn slot_at(self, branch: NodeKey, path: Seq<usize>) -> Option<Slot> {
        if path.len() == 0 {
            None
        } else {
            match self.at_path(branch, path.drop_last()) {
                Some(p) if self.is_parent(p) => Some(
                    Slot {
                        parent_path: path.drop_last(),
                        insert_idx: path.last(),
                        layout: self.nodes[p].layout,
                    },
                ),
                _ => None,
            }
        }
    }
}

/// Reading a path one step further.
pub proof fn lemma_at_path_push(t: Tree, k: NodeKey, path: Seq<usize>, last: usize)
    ensures
        t.at_path(k, path.push(last)) == match t.at_path(k, path) {
            Some(n) => if last < t.kids(n).len() {
                Some(t.kids(n)[last as int])
            } else {
                None
            },
            None => None,
        },
    decreases path.len(),
{
    let longer = path.push(last);
    if path.len() == 0 {
        assert(longer.drop_first() =~= Seq::empty());
        if last < t.kids(k).len() {
            assert(t.at_path(t.kids(k)[last as int], longer.drop_first()) == Some(
                t.kids(k)[last as int],
            ));
        }
    } else {
        assert(longer.drop_first() =~= path.drop_first().push(last));
        if path[0] < t.kids(k).len() {
            lemma_at_path_push(t, t.kids(k)[path[0] as int], path.drop_first(), last);
        }
    }
}

/// The address of a node leads back to it from the root of its branch. A child list is never
/// longer than an index can count.
pub proof fn law_address_leads_back(t: Tree, k: NodeKey)
    requires
        t.wf(),
        t.has(k),
        forall|p: NodeKey| #[trigger] t.nodes.contains_key(p) ==> t.nodes[p].children.len()
            <= usize::MAX,
    ensures
        t.at_path(t.branch(k), t.address(k)) == Some(k),
    decreases depth(t.parents, k),
{
    if t.parents.contains_key(k) && !t.is_floating(k) {
        let p = t.parents[k];
        lemma_depth(t.parents, k);
        lemma_branch_step(t, k);
        law_address_leads_back(t, p);
        let kids = t.nodes[p].children;
        assert(kids.contains(k));
        assert(t.is_parent(p)) by {
            assert(kids.len() > 0);
        }
        let w = choose|i: int| 0 <= i < kids.len() && kids[i] == k;
        lemma_slot(t, p, k, w);
        lemma_at_path_push(t, t.branch(k), t.address(p), kids.index_of(k) as usize);
    } else if t.is_floating(k) {
        lemma_branch_step_float(t, k);
    }
}

proof fn lemma_branch_step_float(t: Tree, k: NodeKey)
    requires
        t.wf(),
        t.is_floating(k),
    ensures
        t.branch(k) == k,
{
    let i = choose|i: int| 0 <= i < t.floating.len() && #[trigger] t.floating[i].key == k;
    assert(t.parents.contains_key(t.floating[i].key));
    lemma_branch_step(t, k);
}

/// Two nodes of one branch with the same address are the same node.
pub proof fn law_addresses_are_distinct(t: Tree, a: NodeKey, b: NodeKey)
    requires
        t.wf(),
        t.has(a),
        t.has(b),
        t.branch(a) == t.branch(b),
        t.address(a) == t.address(b),
        forall|p: NodeKey| #[trigger] t.nodes.contains_key(p) ==> t.nodes[p].children.len()
            <= usize::MAX,
    ensures
        a == b,
{
    law_address_leads_back(t, a);
    law_address_leads_back(t, b);
}

/// In an arena the path of a node leads back to it from the root of its branch, and is empty
/// exactly for such a root.
pub proof fn law_path_leads_back(arena: ContainerArena, k: NodeKey)
    requires
        arena.wf(),
        arena@.has(k),
    ensures
        arena@.at_path(arena@.branch(k), arena@.address(k)) == Some(k),
        arena@.address(k).len() == 0 <==> arena@.branch(k) == k,
{
    law_child_lists_fit(arena);
    law_address_leads_back(arena@, k);
    lemma_branch(arena@, k);
    if arena@.is_floating(k) {
        lemma_branch_step_float(arena@, k);
    }
}

pub(crate) fn copy_path(path: &Vec<usize>) -> (r: Vec<usize>)
    ensures
        r@ == path@,
{
    let mut out: Vec<usize> = Vec::new();
    let mut i: usize = 0;
    while i < path.len()
        invariant
            i <= path.len(),
            out@ == path@.take(i as int),
        decreases path.len() - i,
    {
        out.push(path[i]);
        assert(path@.take(i as int).push(path@[i as int]) =~= path@.take(i as int + 1));
        i = i + 1;
    }
    assert(path@.take(path.len() as int) =~= path@);
    out
}

impl ContainerArena {
    /// The node a path leads to from the root of a branch.
    pub fn node_at_branch_path(&self, branch_root: NodeKey, path: &Vec<usize>) -> (r: Option<
        NodeKey,
    >)
        ensures
            r == self@.at_path(branch_root, path@),
    {
        let mut current = branch_root;
        let mut i: usize = 0;
        assert(path@.skip(0) =~= path@);
        while i < path.len()
            invariant
                i <= path.len(),
                self@.at_path(branch_root, path@) == self@.at_path(current, path@.skip(i as int)),
            decreases path.len() - i,
        {
            proof {
                assert(path@.skip(i as int).drop_first() =~= path@.skip(i as int + 1));
            }
            match self.get_container(current) {
                Some(container) => match container.child_key(path[i]) {
                    Some(child) => {
                        current = child;
                    },
                    None => {
                        return None;
                    },
                },
                None => {
                    return None;
                },
            }
            i = i + 1;
        }
        Some(current)
    }

    /// The node a path leads to from the workspace.
    pub fn get_node_key_at_path(&self, path: &Vec<usize>) -> (r: Option<NodeKey>)
        ensures
            r == self@.at_path(self@.root, path@),
    {
        self.node_at_branch_path(self.workspace_root(), path)
    }

    /// The path of a node from the root of its branch.
    pub fn branch_relative_path(&self, target_key: NodeKey) -> (r: Option<Vec<usize>>)
        requires
            self.wf(),
        ensures
            r is Some <==> self@.has(target_key),
            r matches Some(path) ==> path@ == self@.address(target_key) && self@.at_path(
                self@.branch(target_key),
                path@,
            ) == Some(target_key) && (path@.len() == 0 <==> self@.branch(target_key) == target_key),
        decreases depth(self@.parents, target_key),
    {
        if !self.holds_node(target_key) {
            return None;
        }
        proof {
            law_path_leads_back(*self, target_key);
        }
        match self.parent_of(target_key) {
            Some(parent) => {
                if self.is_floating_root(target_key) {
                    return Some(Vec::new());
                }
                proof {
                    lemma_depth(self@.parents, target_key);
                    assert(self@.nodes[parent].children.contains(target_key));
                    assert(self@.nodes[parent].children.len() > 0);
                }
                match self.branch_relative_path(parent) {
                    Some(path) => {
                        let mut path = path;
                        match self.child_index(parent, target_key) {
                            Some(idx) => {
                                proof {
                                    lemma_slot(self@, parent, target_key, idx as int);
                                }
                                path.push(idx);
                                Some(path)
                            },
                            None => None,
                        }
                    },
                    None => None,
                }
            },
            None => Some(Vec::new()),
        }
    }

    /// The path of a node from the workspace; a node of a floating group has none.
    pub fn find_node_path(&self, target_key: NodeKey) -> (r: Option<Vec<usize>>)
        requires
            self.wf(),
        ensures
            r is Some <==> self@.tiled_address(target_key) is Some,
            r matches Some(path) ==> Some(path@) == self@.tiled_address(target_key),
    {
        if self.branch_root(target_key) == self.workspace_root() {
            self.branch_relative_path(target_key)
        } else {
            None
        }
    }

    /// The path of the focused window, empty when it has none.
    pub fn focus_path(&self) -> (r: Vec<usize>)
        requires
            self.wf(),
        ensures
            r@ == match self@.effective_focus() {
                Some(k) => match self@.tiled_address(k) {
                    Some(path) => path,
                    None => Seq::empty(),
                },
                None => Seq::empty(),
            },
    {
        match self.effective_focused_key() {
            Some(key) => match self.find_node_path(key) {
                Some(path) => path,
                None => Vec::new(),
            },
            None => Vec::new(),
        }
    }

    /// The path of the selection, else of the focused window.
    pub fn selected_path(&self) -> (r: Vec<usize>)
        requires
            self.wf(),
        ensures
            r@ == match self@.seat.selected {
                Some(k) if self@.tiled_address(k) is Some => self@.tiled_address(k)->0,
                _ => match self@.effective_focus() {
                    Some(k) => match self@.tiled_address(k) {
                        Some(path) => path,
                        None => Seq::empty(),
                    },
                    None => Seq::empty(),
                },
            },
    {
        if let Some(key) = self.selected_key() {
            if let Some(path) = self.find_node_path(key) {
                return path;
            }
        }
        self.focus_path()
    }

    fn collect_leaf_paths(
        &self,
        key: NodeKey,
        path: &mut Vec<usize>,
        results: &mut Vec<Vec<usize>>,
    )
        requires
            self.wf(),
        ensures
            final(path)@ == old(path)@,
            final(results)@.len() == old(results)@.len() + self@.leaf_paths(
                key,
                old(path)@,
            ).len(),
            forall|i: int|
                0 <= i < old(results)@.len() ==> #[trigger] final(results)@[i]
                    == old(results)@[i],
            forall|i: int|
                old(results)@.len() <= i < final(results)@.len() ==> (
                #[trigger] final(results)@[i])@ == self@.leaf_paths(key, old(path)@)[i - old(results)@.len()],
        decreases room(self@.parents, key),
    {
        match self.get_node(key) {
            Some(node) => {
                if node.is_view() {
                    results.push(copy_path(path));
                } else {
                    let children = &node.common().children;
                    let ghost start = path@;
                    let ghost base = results@.len();
                    let ghost all = self@.leaf_paths(key, start);
                    let mut i: usize = 0;
                    assert(all == self@.leaf_paths_from(key, start, 0));
                    while i < children.len()
                        invariant
                            self.wf(),
                            i <= children.len(),
                            self@.has(key),
                            !self@.is_view(key),
                            children@ == self@.kids(key),
                            path@ == start,
                            base == old(results)@.len(),
                            all == self@.leaf_paths_from(key, start, 0),
                            base <= results@.len(),
                            results@.len() - base + self@.leaf_paths_from(
                                key,
                                start,
                                i as int,
                            ).len() == all.len(),
                            all.skip(results@.len() - base) == self@.leaf_paths_from(
                                key,
                                start,
                                i as int,
                            ),
                            forall|j: int|
                                0 <= j < base ==> #[trigger] results@[j] == old(results)@[j],
                            forall|j: int|
                                base <= j < results@.len() ==> (#[trigger] results@[j])@
                                    == all[j - base],
                        decreases children.len() - i,
                    {
                        proof {
                            assert(self@.parents.contains_key(
                                self@.nodes[key].children[i as int],
                            ));
                            lemma_depth(self@.parents, children@[i as int]);
                        }
                        let ghost before = results@;
                        let ghost rest = self@.leaf_paths_from(key, start, i as int);
                        path.push(i);
                        self.collect_leaf_paths(children[i], path, results);
                        path.pop();
                        proof {
                            let sub = self@.leaf_paths(children@[i as int], start.push(i));
                            assert(path@ =~= start);
                            assert(rest == sub + self@.leaf_paths_from(key, start, i + 1));
                            assert forall|j: int| base <= j < results@.len() implies (#[trigger]
                            results@[j])@ == all[j - base] by {
                                if j < before.len() {
                                    assert(results@[j] == before[j]);
                                } else {
                                    assert(results@[j]@ == sub[j - before.len()]);
                                    assert(all.skip(before.len() - base)[j - before.len()]
                                        == all[j - base]);
                                }
                            }
                            assert forall|j: int| 0 <= j < base implies #[trigger] results@[j]
                                == old(results)@[j] by {
                                assert(results@[j] == before[j]);
                            }
                            assert(all.skip(results@.len() - base) =~= rest.skip(
                                sub.len() as int,
                            ));
                            assert(rest.skip(sub.len() as int) =~= self@.leaf_paths_from(
                                key,
                                start,
                                i + 1,
                            ));
                        }
                        i = i + 1;
                    }
                }
            },
            None => {},
        }
    }

    /// The paths of the windows below the node at `prefix`, depth first.
    pub fn leaf_paths_under(&self, prefix: &Vec<usize>) -> (r: Vec<Vec<usize>>)
        requires
            self.wf(),
        ensures
            self@.at_path(self@.root, prefix@) is None ==> r@.len() == 0,
            self@.at_path(self@.root, prefix@) matches Some(k) ==> r@.len() == self@.leaf_paths(
                k,
                prefix@,
            ).len() && forall|i: int|
                0 <= i < r@.len() ==> (#[trigger] r@[i])@ == self@.leaf_paths(k, prefix@)[i],
    {
        let mut results: Vec<Vec<usize>> = Vec::new();
        let mut path = copy_path(prefix);
        if let Some(key) = self.get_node_key_at_path(prefix) {
            self.collect_leaf_paths(key, &mut path, &mut results);
        }
        results
    }

    /// The slot a path names in a branch, so that a node can be put back there.
    pub fn insert_parent_info_for_path(
        &self,
        branch_root: NodeKey,
        path: &Vec<usize>,
    ) -> (r: Option<InsertParentInfo>)
        ensures
            crate::tile::slot_state(r) == self@.slot_at(branch_root, path@),
    {
        let mut parent_path = copy_path(path);
        match parent_path.pop() {
            Some(insert_idx) => {
                assert(parent_path@ =~= path@.drop_last());
                match self.node_at_branch_path(branch_root, &parent_path) {
                    Some(parent_key) => match self.get_container(parent_key) {
                        Some(parent) => Some(
                            InsertParentInfo { parent_path, insert_idx, layout: parent.layout() },
                        ),
                        None => None,
                    },
                    None => None,
                }
            },
            None => None,
        }
    }

    /// The slot a node has in its branch.
    pub fn insert_parent_info_for_node(&self, key: NodeKey) -> (r: Option<InsertParentInfo>)
        requires
            self.wf(),
        ensures
            crate::tile::slot_state(r) == if self@.has(key) {
                self@.slot_at(self@.branch(key), self@.address(key))
            } else {
                None
            },
    {
        match self.branch_relative_path(key) {
            Some(path) => self.insert_parent_info_for_path(self.branch_root(key), &path),
            None => None,
        }
    }

    /// The slot a window has in its branch.
    pub fn insert_parent_info_for_window(&self, window_id: WindowId) -> (r: Option<
        InsertParentInfo,
    >)
        requires
            self.wf(),
        ensures
            crate::tile::slot_state(r) == match self@.recent(Pick::Window(window_id)) {
                Some(k) => self@.slot_at(self@.branch(k), self@.address(k)),
                None => None,
            },
    {
        proof {
            crate::tree::lemma_first_of(self@, self@.seat.order, Pick::Window(window_id));
        }
        match self.window_key(window_id) {
            Some(key) => self.insert_parent_info_for_node(key),
            None => None,
        }
    }
}

} // verus!
