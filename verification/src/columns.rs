//! The children of the workspace addressed by index.

use crate::arena::ContainerArena;
use crate::axis::NodeKey;
use crate::movement::lemma_reordered;
use crate::node::{DetachedNode, WorkspaceData};
use crate::subtree::{lemma_keys, lemma_planted};
use crate::tree::{acyclic, depth, lemma_depth, lemma_unlinked, Tree};
use crate::walk::lemma_slot;
use vstd::prelude::*;

verus! {

impl Tree {
    /// The index of the child of the workspace a node is in; a node of no such child has none.
    pub open spec fn column_of(self, k: NodeKey) -> Option<int>
        decreases depth(self.parents, k),
        when acyclic(self.parents)
    {
        proof {
            if self.parents.contains_key(k) {
                lemma_depth(self.parents, k);
            }
        }
        if !self.parents.contains_key(k) {
            None
        } else if self.parents[k] == self.root {
            if self.kids(self.root).contains(k) {
                Some(self.kids(self.root).index_of(k))
            } else {
                None
            }
        } else {
            self.column_of(self.parents[k])
        }
    }

    /// Whether a node is below the workspace.
    pub open spec fn below_root(self, k: NodeKey) -> bool {
        self.under(k, self.root) && k != self.root
    }

    /// The index of the active child of a node.
    pub open spec fn active_index(self, p: NodeKey) -> Option<int> {
        match self.active(p) {
            Some(c) => if self.kids(p).contains(c) {
                Some(self.kids(p).index_of(c))
            } else {
                None
            },
            None => None,
        }
    }

    /// The index of the child of the workspace that holds the focus.
    pub open spec fn focused_column(self) -> Option<int> {
        match self.seat.leaf {
            Some(k) => if k == self.root {
                Some(0)
            } else {
                self.column_of(k)
            },
            None => match self.effective_focus() {
                Some(k) if self.below_root(k) => self.column_of(k),
                _ => self.active_index(self.root),
            },
        }
    }

    /// The child of the workspace at one index moved to another.
    pub open spec fn column_moved(self, from: int, to: int) -> Tree {
        let kids = self.nodes[self.root].children;
        self.with_children(self.root, kids.remove(from).insert(to, kids[from]))
    }

    /// The first `n` children of `k` moved to the end of the workspace, one by one.
    pub open spec fn poured(self, k: NodeKey, n: nat) -> Tree
        decreases n,
    {
        if n == 0 || self.kids(k).len() == 0 {
            self
        } else {
            let c = self.kids(k)[0];
            self.unlinked(c).linked_at(c, self.root, self.kids(self.root).len() as int).poured(
                k,
                (n - 1) as nat,
            )
        }
    }

    /// Whether a loose node becomes the workspace on arrival: a container with children coming
    /// to an empty one.
    pub open spec fn unwraps(self, k: NodeKey) -> bool {
        self.kids(self.root).len() == 0 && self.is_split(k) && self.kids(k).len() > 0
    }

    /// A loose container become the workspace: its layout and its children go over, and the
    /// container is gone.
    pub open spec fn unwrapped(self, k: NodeKey, focus: bool) -> Tree {
        let first = self.kids(k)[0];
        self.with_node(
            self.root,
            self.nodes[self.root].with_layout(self.nodes[k].layout),
        ).poured(k, self.kids(k).len()).dropped(k).pruned().settled_on(first, focus)
    }

    /// A subtree arrived among the children of the workspace.
    pub open spec fn arrived(self, idx: int, k: NodeKey, focus: bool) -> Tree {
        if self.unwraps(k) {
            self.unwrapped(k, focus)
        } else {
            self.joined_to(self.root, idx, k, focus)
        }
    }
}

/// Moving one entry of a list keeps its members.
pub proof fn lemma_moved_entry(kids: Seq<NodeKey>, from: int, to: int)
    requires
        kids.no_duplicates(),
        0 <= from < kids.len(),
        0 <= to < kids.len(),
    ensures
        kids.remove(from).insert(to, kids[from]).no_duplicates(),
        kids.remove(from).insert(to, kids[from]).len() == kids.len(),
        forall|x: NodeKey| #[trigger]
            kids.remove(from).insert(to, kids[from]).contains(x) <==> kids.contains(x),
{
    let out = kids.remove(from).insert(to, kids[from]);
    let back = |n: int|
        if n == to {
            from
        } else {
            let m = if n < to {
                n
            } else {
                n - 1
            };
            if m < from {
                m
            } else {
                m + 1
            }
        };
    let ahead = |n: int|
        if n == from {
            to
        } else {
            let m = if n < from {
                n
            } else {
                n - 1
            };
            if m < to {
                m
            } else {
                m + 1
            }
        };
    assert forall|n: int| 0 <= n < out.len() implies out[n] == #[trigger] kids[back(n)] by {}
    assert forall|a: int, b: int| 0 <= a < out.len() && 0 <= b < out.len() && a != b implies out[a]
        != out[b] by {
        assert(out[a] == kids[back(a)]);
        assert(out[b] == kids[back(b)]);
    }
    assert forall|x: NodeKey| #[trigger] out.contains(x) <==> kids.contains(x) by {
        if out.contains(x) {
            let n = choose|n: int| 0 <= n < out.len() && out[n] == x;
            assert(kids[back(n)] == x);
        }
        if kids.contains(x) {
            let n = choose|n: int| 0 <= n < kids.len() && kids[n] == x;
            assert(out[ahead(n)] == kids[n]);
        }
    }
}

impl ContainerArena {
    /// How many children the workspace has.
    pub fn root_children_len(&self) -> (r: usize)
        ensures
            r == self@.kids(self@.root).len(),
    {
        self.child_count_of(self.workspace_root())
    }

    /// The workspace.
    pub fn root_container(&self) -> (r: Option<&WorkspaceData>)
        requires
            self.wf(),
        ensures
            r is Some,
            r->0@ == self@.nodes[self@.root],
    {
        self.get_workspace()
    }

    fn column_of(&self, key: NodeKey) -> (r: Option<usize>)
        requires
            self.wf(),
        ensures
            r is Some <==> self@.column_of(key) is Some,
            r matches Some(i) ==> self@.column_of(key) == Some(i as int),
    {
        let root = self.workspace_root();
        let mut child = key;
        loop
            invariant
                self.wf(),
                root == self@.root,
                self@.column_of(key) == self@.column_of(child),
            decreases depth(self@.parents, child),
        {
            let parent = match self.parent_of(child) {
                Some(parent) => parent,
                None => {
                    return None;
                },
            };
            if parent == root {
                let found = self.child_index(root, child);
                proof {
                    if found is Some {
                        lemma_slot(self@, root, child, found->0 as int);
                    }
                }
                return found;
            }
            proof {
                lemma_depth(self@.parents, child);
            }
            child = parent;
        }
    }

    /// The index of the child of the workspace that holds the focus.
    pub fn focused_root_index(&self) -> (r: Option<usize>)
        requires
            self.wf(),
        ensures
            r is Some <==> self@.focused_column() is Some,
            r matches Some(i) ==> self@.focused_column() == Some(i as int),
    {
        let root = self.workspace_root();
        if let Some(key) = self.focused_key() {
            if key == root {
                return Some(0);
            }
            return self.column_of(key);
        }
        match self.effective_focused_key() {
            Some(key) => if key != root && self.is_descendant(key, root) {
                self.column_of(key)
            } else {
                self.active_index(root)
            },
            None => self.active_index(root),
        }
    }

    fn active_index(&self, parent: NodeKey) -> (r: Option<usize>)
        requires
            self.wf(),
        ensures
            r is Some <==> self@.active_index(parent) is Some,
            r matches Some(i) ==> self@.active_index(parent) == Some(i as int),
    {
        match self.active_child(parent) {
            Some(child) => {
                let found = self.child_index(parent, child);
                proof {
                    if found is Some {
                        lemma_slot(self@, parent, child, found->0 as int);
                    }
                }
                found
            },
            None => None,
        }
    }

    /// Focuses the child of the workspace at an index.
    pub fn focus_root_child(&mut self, idx: usize) -> (r: bool)
        requires
            old(self).wf(),
        ensures
            final(self).wf(),
            r == (idx < old(self)@.kids(old(self)@.root).len()),
            final(self)@ == if r {
                old(self)@.focused(old(self)@.kids(old(self)@.root)[idx as int])
            } else {
                old(self)@
            },
            final(self)@.windows() == old(self)@.windows(),
            forall|k: NodeKey| #[trigger] final(self)@.loose(k) ==> old(self)@.loose(k),
            old(self)@.mentions_live() ==> final(self)@.mentions_live(),
    {
        let child_key = match self.get_container(self.workspace_root()) {
            Some(container) => container.child_key(idx),
            None => None,
        };
        match child_key {
            Some(child_key) => {
                self.focus_node_key(child_key);
                true
            },
            None => false,
        }
    }

    /// Moves a child of the workspace from one index to another.
    pub fn move_root_child(&mut self, from: usize, to: usize) -> (r: bool)
        requires
            old(self).wf(),
        ensures
            final(self).wf(),
            r == (from < old(self)@.kids(old(self)@.root).len() && to < old(self)@.kids(
                old(self)@.root,
            ).len()),
            final(self)@ == if r {
                old(self)@.column_moved(from as int, to as int).resynced()
            } else {
                old(self)@
            },
            final(self)@.windows() == old(self)@.windows(),
            forall|k: NodeKey| #[trigger] final(self)@.loose(k) ==> old(self)@.loose(k),
            old(self)@.mentions_live() ==> final(self)@.mentions_live(),
    {
        let ghost t = self@;
        let root = self.workspace_root();
        let mut kids = self.child_keys_of(root);
        if from >= kids.len() || to >= kids.len() {
            return false;
        }
        let node_key = kids.remove(from);
        kids.insert(to, node_key);
        proof {
            assert(t.nodes[root].children.no_duplicates());
            lemma_moved_entry(t.kids(root), from as int, to as int);
            lemma_reordered(t, root, kids@);
        }
        self.set_children(root, kids);
        self.resync_focus();
        true
    }

    /// Focuses the `leaf_idx`-th window, counted from one, of the child of the workspace at an
    /// index.
    pub fn focus_leaf_in_root_child(&mut self, child_idx: usize, leaf_idx: usize) -> (r: bool)
        requires
            old(self).wf(),
        ensures
            final(self).wf(),
            ({
                let t = old(self)@;
                let leaves = if child_idx < t.kids(t.root).len() {
                    t.leaves(t.kids(t.root)[child_idx as int])
                } else {
                    Seq::empty()
                };
                &&& r == (0 < leaf_idx <= leaves.len())
                &&& final(self)@ == if r {
                    t.focused(leaves[leaf_idx - 1])
                } else {
                    t
                }
            }),
            final(self)@.windows() == old(self)@.windows(),
            forall|k: NodeKey| #[trigger] final(self)@.loose(k) ==> old(self)@.loose(k),
            old(self)@.mentions_live() ==> final(self)@.mentions_live(),
    {
        if leaf_idx == 0 {
            return false;
        }
        let child_key = match self.get_container(self.workspace_root()) {
            Some(container) => container.child_key(child_idx),
            None => None,
        };
        match child_key {
            Some(child_key) => {
                let leaves = self.leaf_keys_under(child_key);
                if leaf_idx > leaves.len() {
                    return false;
                }
                self.focus_node_key(leaves[leaf_idx - 1]);
                true
            },
            None => false,
        }
    }

    /// Focuses the first window of the child of the workspace that holds the focus.
    pub fn focus_first_leaf_in_focused_root_child(&mut self) -> (r: bool)
        requires
            old(self).wf(),
        ensures
            final(self).wf(),
            ({
                let t = old(self)@;
                let leaves = match t.focused_column() {
                    Some(i) if i < t.kids(t.root).len() => t.leaves(t.kids(t.root)[i]),
                    _ => Seq::empty(),
                };
                &&& r == (leaves.len() > 0)
                &&& final(self)@ == if r {
                    t.focused(leaves[0])
                } else {
                    t
                }
            }),
            final(self)@.windows() == old(self)@.windows(),
            forall|k: NodeKey| #[trigger] final(self)@.loose(k) ==> old(self)@.loose(k),
            old(self)@.mentions_live() ==> final(self)@.mentions_live(),
    {
        match self.focused_root_index() {
            Some(idx) => self.focus_leaf_in_root_child(idx, 1),
            None => false,
        }
    }

    /// Focuses the last window of the child of the workspace that holds the focus.
    pub fn focus_last_leaf_in_focused_root_child(&mut self) -> (r: bool)
        requires
            old(self).wf(),
        ensures
            final(self).wf(),
            ({
                let t = old(self)@;
                let leaves = match t.focused_column() {
                    Some(i) if i < t.kids(t.root).len() => t.leaves(t.kids(t.root)[i]),
                    _ => Seq::empty(),
                };
                &&& r == (leaves.len() > 0)
                &&& final(self)@ == if r {
                    t.focused(leaves.last())
                } else {
                    t
                }
            }),
            final(self)@.windows() == old(self)@.windows(),
            forall|k: NodeKey| #[trigger] final(self)@.loose(k) ==> old(self)@.loose(k),
            old(self)@.mentions_live() ==> final(self)@.mentions_live(),
    {
        let idx: usize = match self.focused_root_index() {
            Some(idx) => idx,
            None => {
                return false;
            },
        };
        let child_key = match self.get_container(self.workspace_root()) {
            Some(container) => container.child_key(idx),
            None => None,
        };
        match child_key {
            Some(child_key) => {
                let leaves = self.leaf_keys_under(child_key);
                let count: usize = leaves.len();
                if count == 0 {
                    return false;
                }
                self.focus_node_key(leaves[count - 1]);
                true
            },
            None => false,
        }
    }

    /// Moves the children of a loose split to the end of the workspace.
    fn pour_into_workspace(&mut self, node_key: NodeKey)
        requires
            old(self).wf(),
            old(self)@.is_split(node_key),
            !old(self)@.parents.contains_key(node_key),
        ensures
            final(self).wf(),
            final(self)@ == old(self)@.poured(node_key, old(self)@.kids(node_key).len()),
            final(self)@.has(node_key),
            final(self)@.is_split(node_key),
            !final(self)@.parents.contains_key(node_key),
            final(self)@.nodes[node_key].children.len() == 0,
            final(self)@.root == old(self)@.root,
            final(self)@.windows() == old(self)@.windows(),
            forall|k: NodeKey| #[trigger] final(self)@.loose(k) ==> old(self)@.loose(k),
            old(self)@.mentions_live() ==> final(self)@.mentions_live(),
    {
        let root = self.workspace_root();
        let mut left: usize = self.child_count_of(node_key);
        let ghost t = self@;
        while left > 0
            invariant
                self.wf(),
                forall|k: NodeKey| #[trigger] self@.loose(k) ==> old(self)@.loose(k),
                old(self)@.mentions_live() ==> self@.mentions_live(),
                self@.windows() == old(self)@.windows(),
                root == self@.root,
                root == t.root,
                self@.is_split(node_key),
                !self@.parents.contains_key(node_key),
                self@.kids(node_key).len() == left,
                self@.poured(node_key, left as nat) == t.poured(node_key, t.kids(node_key).len()),
            decreases left,
        {
            let ghost before = self@;
            let child = match self.get_container(node_key) {
                Some(container) => match container.child_key(0) {
                    Some(child) => child,
                    None => {
                        return;
                    },
                },
                None => {
                    return;
                },
            };
            proof {
                lemma_slot(before, node_key, child, 0);
                assert(!before.is_floating(child)) by {
                    if before.is_floating(child) {
                        let i = choose|i: int|
                            0 <= i < before.floating.len() && #[trigger] before.floating[i].key
                                == child;
                        assert(before.parents[before.floating[i].key] == before.root);
                    }
                }
                lemma_unlinked(before, child);
                assert(node_key != root);
                assert(child != root);
                assert(child != node_key) by {
                    lemma_depth(before.parents, child);
                }
            }
            let end: usize = self.child_count_of(root);
            self.detach_child(child);
            let ghost mid = self@;
            assert(!mid.under(root, child));
            self.attach_child(child, root, end);
            proof {
                let kids = before.nodes[node_key].children;
                assert(mid.nodes[node_key].children.len() == kids.len() - 1);
            }
            left = left - 1;
        }
    }

    /// Lets a loose container become the workspace when that is empty and the container is not.
    fn unwrap_into_empty_workspace(&mut self, node_key: NodeKey, focus: bool) -> (r: bool)
        requires
            old(self).wf(),
            !old(self)@.parents.contains_key(node_key),
        ensures
            final(self).wf(),
            r == old(self)@.unwraps(node_key),
            final(self)@ == if r {
                old(self)@.unwrapped(node_key, focus)
            } else {
                old(self)@
            },
            final(self)@.windows() == old(self)@.windows(),
            forall|k: NodeKey| #[trigger]
                final(self)@.loose(k) ==> old(self)@.loose(k) && (r ==> k != node_key),
            old(self)@.mentions_live() ==> final(self)@.mentions_live(),
    {
        let root = self.workspace_root();
        if self.child_count_of(root) != 0 {
            return false;
        }
        let (layout, first) = match self.get_real_container(node_key) {
            Some(container) => match container.common.child_key(0) {
                Some(first) => (container.common.layout(), first),
                None => {
                    return false;
                },
            },
            None => {
                return false;
            },
        };
        self.set_layout_of(root, layout);
        assert(self@.kids(node_key) == old(self)@.kids(node_key));
        self.pour_into_workspace(node_key);
        self.remove_node_from_store(node_key);
        self.prune_focus_order();
        self.settle_focus_after_insert(first, focus);
        true
    }

    /// Puts a detached subtree among the children of the workspace. A container coming to an
    /// empty workspace becomes the workspace.
    pub fn insert_subtree_at_root(&mut self, index: usize, subtree: DetachedNode, focus: bool)
        requires
            old(self).wf(),
            old(self)@.admits(subtree@),
        ensures
            final(self).wf(),
            final(self)@ == old(self)@.superseded().planted(subtree@).arrived(
                index as int,
                subtree@.key,
                focus,
            ),
            forall|k: NodeKey| #[trigger] final(self)@.loose(k) ==> old(self)@.loose(k),
            old(self)@.mentions_live() ==> final(self)@.mentions_live(),
    {
        self.discard_layout_superseded_by_transfer();
        let ghost t = self@;
        proof {
            assert(t.admits(subtree@)) by {
                assert forall|k: NodeKey| #[trigger] subtree@.keys().contains(k) implies !t.has(k)
                    && k.id < u64::MAX by {
                    assert(!old(self)@.has(k));
                }
            }
            lemma_planted(t, subtree@);
            lemma_keys(subtree@);
        }
        let node_key = self.insert_subtree(subtree);
        proof {
            assert(self@.has(node_key));
            assert(!t.has(node_key));
        }
        if self.unwrap_into_empty_workspace(node_key, focus) {
            return;
        }
        self.insert_key_at_root(index, node_key, focus);
    }
}

/// Moving a child of the workspace and moving it back leaves the tree as it was.
pub proof fn law_column_moves_back(t: Tree, from: int, to: int)
    requires
        t.wf(),
        0 <= from < t.kids(t.root).len(),
        0 <= to < t.kids(t.root).len(),
    ensures
        t.column_moved(from, to).column_moved(to, from) == t,
{
    let kids = t.nodes[t.root].children;
    let once = kids.remove(from).insert(to, kids[from]);
    assert(once.remove(to) =~= kids.remove(from));
    assert(once.remove(to).insert(from, once[to]) =~= kids);
    let u = t.column_moved(from, to).column_moved(to, from);
    assert(u.nodes =~= t.nodes);
}

} // verus!
