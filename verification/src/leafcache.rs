//! Keeping the layout cache in step with the tree: which cached windows the focus shows, and
//! where they are addressed.

use crate::arena::ContainerArena;
use crate::axis::NodeKey;
use crate::cache::{
    entry_of, leaves_state, pending_state, requested, ArrangeScope, Arrangement, Caches, LayoutCache,
    LeafInfo, LeafLayoutInfo, Pending, PendingLayout,
};
use crate::measure::Rect;
use crate::node::Node;
use crate::tree::{acyclic, depth, lemma_depth, lemma_same_shape, Tree};
use vstd::prelude::*;

verus! {

impl Tree {
    /// Whether no tabbed or stacked container between `k` and the root of its branch shows
    /// another child than the one leading to `k`.
    pub open spec fn shown(self, k: NodeKey, branch: NodeKey) -> bool
        decreases depth(self.parents, k),
        when acyclic(self.parents)
    {
        proof {
            if self.parents.contains_key(k) {
                lemma_depth(self.parents, k);
            }
        }
        if k == branch {
            true
        } else if !self.parents.contains_key(k) {
            false
        } else {
            let p = self.parents[k];
            if self.is_parent(p) && !self.nodes[p].layout.is_split() && self.active(p) != Some(
                k,
            ) {
                false
            } else {
                self.shown(p, branch)
            }
        }
    }

    /// Whether the focus makes a window visible: nothing fullscreen hides it, and every
    /// switcher above it shows it.
    pub open spec fn focus_shows(self, k: NodeKey) -> bool {
        &&& (self.fullscreen matches Some(f) ==> self.under(k, f))
        &&& self.shown(k, self.branch(k))
    }

    pub open spec fn refreshed_leaf(self, info: LeafInfo) -> LeafInfo {
        if self.is_view(info.key) {
            LeafInfo { visible: self.focus_shows(info.key), ..info }
        } else {
            info
        }
    }

    pub open spec fn refreshed_leaves(self, leaves: Seq<LeafInfo>) -> Seq<LeafInfo> {
        Seq::new(leaves.len(), |i: int| self.refreshed_leaf(leaves[i]))
    }

    pub open spec fn refreshed_pending(self, pending: Seq<Pending>) -> Seq<Pending> {
        Seq::new(
            pending.len(),
            |i: int|
                Pending {
                    data: Arrangement {
                        leaves: self.refreshed_leaves(pending[i].data.leaves),
                        ..pending[i].data
                    },
                    ..pending[i]
                },
        )
    }

    /// The tree with the visibility of every cached window read anew off the focus.
    pub open spec fn refreshed(self) -> Tree {
        self.with_caches(
            Caches {
                leaves: self.refreshed_leaves(self.caches.leaves),
                pending: self.refreshed_pending(self.caches.pending),
                ..self.caches
            },
        )
    }

    /// The cached entries of windows still in the tree, each at the address it has now.
    pub open spec fn readdressed_leaves(self, leaves: Seq<LeafInfo>) -> Seq<LeafInfo>
        decreases leaves.len(),
    {
        if leaves.len() == 0 {
            Seq::empty()
        } else {
            let info = leaves.last();
            let rest = self.readdressed_leaves(leaves.drop_last());
            if self.is_view(info.key) {
                rest.push(
                    LeafInfo {
                        path: self.address(info.key),
                        branch: self.branch(info.key),
                        ..info
                    },
                )
            } else {
                rest
            }
        }
    }

    /// The same for a pending arrange, whose branches are provenance and stay: only the
    /// windows still in their branch get a new path.
    pub open spec fn readdressed_snapshot(self, leaves: Seq<LeafInfo>) -> Seq<LeafInfo>
        decreases leaves.len(),
    {
        if leaves.len() == 0 {
            Seq::empty()
        } else {
            let info = leaves.last();
            let rest = self.readdressed_snapshot(leaves.drop_last());
            if !self.is_view(info.key) {
                rest
            } else if self.branch(info.key) == info.branch {
                rest.push(LeafInfo { path: self.address(info.key), ..info })
            } else {
                rest.push(info)
            }
        }
    }

    pub open spec fn readdressed_pending(self, pending: Seq<Pending>) -> Seq<Pending> {
        Seq::new(
            pending.len(),
            |i: int|
                Pending {
                    data: Arrangement {
                        leaves: self.readdressed_snapshot(pending[i].data.leaves),
                        ..pending[i].data
                    },
                    ..pending[i]
                },
        )
    }

    /// The tree with every cached window at the address it has now.
    pub open spec fn readdressed(self) -> Tree {
        self.with_caches(
            Caches {
                leaves: self.readdressed_leaves(self.caches.leaves),
                pending: self.readdressed_pending(self.caches.pending),
                ..self.caches
            },
        )
    }

    /// The box a node holds: a view's from the cache, everything else's its own.
    pub open spec fn box_of(self, k: NodeKey) -> Option<Rect> {
        if !self.has(k) {
            None
        } else if self.is_view(k) {
            match self.caches.entry(k) {
                Some(info) => Some(info.node_rect),
                None => Some(Rect::spec_zero()),
            }
        } else {
            Some(self.nodes[k].geometry)
        }
    }

    /// The tree with the box of a node replaced, where it keeps one.
    pub open spec fn with_box(self, k: NodeKey, rect: Rect) -> Tree {
        if self.is_view(k) {
            self.with_caches(
                Caches { leaves: boxed(self.caches.leaves, k, rect), ..self.caches },
            )
        } else if self.has(k) {
            self.with_node(k, Node { geometry: rect, ..self.nodes[k] })
        } else {
            self
        }
    }

    /// The tree with an arrange of the workspace asked for.
    pub open spec fn arranging(self, scope: ArrangeScope) -> Tree {
        self.with_caches(
            Caches { arrange: requested(self.caches.arrange, scope), ..self.caches },
        )
    }

    /// The tree with every pending arrange given up.
    pub open spec fn superseded(self) -> Tree {
        self.with_caches(Caches { pending: Seq::empty(), relayout: false, ..self.caches })
    }
}

/// `leaves` with both boxes of the first entry of `key` replaced.
pub open spec fn boxed(leaves: Seq<LeafInfo>, key: NodeKey, rect: Rect) -> Seq<LeafInfo>
    decreases leaves.len(),
{
    if leaves.len() == 0 {
        leaves
    } else if leaves[0].key == key {
        seq![LeafInfo { rect, node_rect: rect, ..leaves[0] }] + leaves.drop_first()
    } else {
        seq![leaves[0]] + boxed(leaves.drop_first(), key, rect)
    }
}

/// `leaves` with the first entry of `key` undecorated: its tile takes the box of its node.
pub open spec fn undecorated(leaves: Seq<LeafInfo>, key: NodeKey) -> Seq<LeafInfo>
    decreases leaves.len(),
{
    if leaves.len() == 0 {
        leaves
    } else if leaves[0].key == key {
        seq![LeafInfo { rect: leaves[0].node_rect, ..leaves[0] }] + leaves.drop_first()
    } else {
        seq![leaves[0]] + undecorated(leaves.drop_first(), key)
    }
}

pub open spec fn undecorated_pending(pending: Seq<Pending>, key: NodeKey) -> Seq<Pending> {
    Seq::new(
        pending.len(),
        |i: int|
            Pending {
                data: Arrangement {
                    leaves: undecorated(pending[i].data.leaves, key),
                    ..pending[i].data
                },
                ..pending[i]
            },
    )
}

/// The index of the first entry of `key`, or the length of the list.
pub fn entry_index(leaves: &Vec<LeafLayoutInfo>, key: NodeKey) -> (r: usize)
    ensures
        r <= leaves@.len(),
        r < leaves@.len() ==> leaves@[r as int].key == key,
        forall|j: int| 0 <= j < r ==> (#[trigger] leaves@[j]).key != key,
{
    let mut i: usize = 0;
    while i < leaves.len()
        invariant
            i <= leaves.len(),
            forall|j: int| 0 <= j < i ==> (#[trigger] leaves@[j]).key != key,
        decreases leaves.len() - i,
    {
        if leaves[i].key == key {
            return i;
        }
        i = i + 1;
    }
    i
}

proof fn lemma_undecorated_at(leaves: Seq<LeafInfo>, key: NodeKey, n: int)
    requires
        0 <= n <= leaves.len(),
        n < leaves.len() ==> leaves[n].key == key,
        forall|j: int| 0 <= j < n ==> (#[trigger] leaves[j]).key != key,
    ensures
        undecorated(leaves, key) == if n < leaves.len() {
            leaves.update(n, LeafInfo { rect: leaves[n].node_rect, ..leaves[n] })
        } else {
            leaves
        },
    decreases leaves.len(),
{
    if leaves.len() > 0 {
        if n == 0 {
            assert(undecorated(leaves, key) =~= leaves.update(
                0,
                LeafInfo { rect: leaves[0].node_rect, ..leaves[0] },
            ));
        } else {
            let rest = leaves.drop_first();
            assert forall|j: int| 0 <= j < n - 1 implies (#[trigger] rest[j]).key != key by {
                assert(leaves[j + 1].key != key);
            }
            assert(leaves[0].key != key);
            lemma_undecorated_at(rest, key, n - 1);
            if n < leaves.len() {
                assert(undecorated(leaves, key) =~= leaves.update(
                    n,
                    LeafInfo { rect: leaves[n].node_rect, ..leaves[n] },
                ));
            } else {
                assert(undecorated(leaves, key) =~= leaves);
            }
        }
    }
}

proof fn lemma_boxed_at(leaves: Seq<LeafInfo>, key: NodeKey, rect: Rect, n: int)
    requires
        0 <= n <= leaves.len(),
        n < leaves.len() ==> leaves[n].key == key,
        forall|j: int| 0 <= j < n ==> (#[trigger] leaves[j]).key != key,
    ensures
        boxed(leaves, key, rect) == if n < leaves.len() {
            leaves.update(n, LeafInfo { rect, node_rect: rect, ..leaves[n] })
        } else {
            leaves
        },
    decreases leaves.len(),
{
    if leaves.len() > 0 {
        if n == 0 {
            assert(boxed(leaves, key, rect) =~= leaves.update(
                0,
                LeafInfo { rect, node_rect: rect, ..leaves[0] },
            ));
        } else {
            let rest = leaves.drop_first();
            assert forall|j: int| 0 <= j < n - 1 implies (#[trigger] rest[j]).key != key by {
                assert(leaves[j + 1].key != key);
            }
            assert(leaves[0].key != key);
            lemma_boxed_at(rest, key, rect, n - 1);
            if n < leaves.len() {
                assert(boxed(leaves, key, rect) =~= leaves.update(
                    n,
                    LeafInfo { rect, node_rect: rect, ..leaves[n] },
                ));
            } else {
                assert(boxed(leaves, key, rect) =~= leaves);
            }
        }
    }
}

fn undecorate(leaves: &mut Vec<LeafLayoutInfo>, key: NodeKey)
    ensures
        leaves_state(final(leaves)@) == undecorated(leaves_state(old(leaves)@), key),
{
    let n: usize = entry_index(leaves, key);
    proof {
        lemma_undecorated_at(leaves_state(leaves@), key, n as int);
    }
    if n < leaves.len() {
        leaves[n].rect = leaves[n].node_rect;
    }
    assert(leaves_state(leaves@) =~= undecorated(leaves_state(old(leaves)@), key));
}

fn rebox(leaves: &mut Vec<LeafLayoutInfo>, key: NodeKey, rect: Rect)
    ensures
        leaves_state(final(leaves)@) == boxed(leaves_state(old(leaves)@), key, rect),
{
    let n: usize = entry_index(leaves, key);
    proof {
        lemma_boxed_at(leaves_state(leaves@), key, rect, n as int);
    }
    if n < leaves.len() {
        leaves[n].rect = rect;
        leaves[n].node_rect = rect;
    }
    assert(leaves_state(leaves@) =~= boxed(leaves_state(old(leaves)@), key, rect));
}

/// The cache does not matter to the shape of the tree.
pub proof fn lemma_with_caches(t: Tree, caches: Caches)
    ensures
        t.wf() ==> t.with_caches(caches).wf(),
{
    if t.wf() {
        lemma_same_shape(t, t.with_caches(caches));
    }
}

/// Where a cached window is to be addressed from now on.
struct Readdress {
    keep: bool,
    path: Vec<usize>,
    branch: NodeKey,
}

impl ContainerArena {
    fn is_shown(&self, key: NodeKey, branch: NodeKey) -> (r: bool)
        requires
            self.wf(),
        ensures
            r == self@.shown(key, branch),
    {
        let mut child = key;
        while child != branch
            invariant
                self.wf(),
                self@.shown(child, branch) == self@.shown(key, branch),
            decreases depth(self@.parents, child),
        {
            match self.parent_of(child) {
                Some(parent) => {
                    proof {
                        lemma_depth(self@.parents, child);
                    }
                    if let Some(container) = self.get_container(parent) {
                        if !container.layout().is_split_layout() && self.active_child(parent)
                            != Some(child) {
                            return false;
                        }
                    }
                    child = parent;
                },
                None => {
                    return false;
                },
            }
        }
        true
    }

    /// Whether the focus makes a window visible.
    pub fn focus_makes_leaf_visible(&self, key: NodeKey) -> (r: bool)
        requires
            self.wf(),
        ensures
            r == self@.focus_shows(key),
    {
        if let Some(fullscreen) = self.fullscreen_key() {
            if !self.is_descendant(key, fullscreen) {
                return false;
            }
        }
        self.is_shown(key, self.branch_root(key))
    }

    fn visibilities(&self, leaves: &Vec<LeafLayoutInfo>) -> (r: Vec<bool>)
        requires
            self.wf(),
        ensures
            r@.len() == leaves@.len(),
            forall|i: int|
                0 <= i < r@.len() ==> #[trigger] r@[i] == self@.refreshed_leaf(leaves@[i]@).visible,
    {
        let mut out: Vec<bool> = Vec::new();
        let mut i: usize = 0;
        while i < leaves.len()
            invariant
                self.wf(),
                i <= leaves.len(),
                out@.len() == i,
                forall|j: int|
                    0 <= j < i ==> #[trigger] out@[j] == self@.refreshed_leaf(
                        leaves@[j]@,
                    ).visible,
            decreases leaves.len() - i,
        {
            let visible = if self.is_leaf(leaves[i].key) {
                self.focus_makes_leaf_visible(leaves[i].key)
            } else {
                leaves[i].visible
            };
            out.push(visible);
            i = i + 1;
        }
        out
    }

    /// Reads the visibility of every cached window anew off the focus.
    pub fn refresh_focus_visibility(&mut self)
        requires
            old(self).wf(),
        ensures
            final(self)@ == old(self)@.refreshed(),
            final(self).wf(),
            final(self)@.windows() == old(self)@.windows(),
            forall|k: NodeKey| #[trigger] final(self)@.loose(k) ==> old(self)@.loose(k),
            old(self)@.mentions_live() ==> final(self)@.mentions_live(),
    {
        let ghost t = self@;
        let shown = self.visibilities(&self.cache().leaf_layouts);
        let mut waiting: Vec<Vec<bool>> = Vec::new();
        let mut i: usize = 0;
        while i < self.cache().pending_layouts.len()
            invariant
                self.wf(),
                self@ == t,
                self.cache_state() == old(self).cache_state(),
                i <= self.cache_state().pending_layouts@.len(),
                waiting@.len() == i,
                forall|j: int|
                    0 <= j < i ==> (#[trigger] waiting@[j])@.len()
                        == self.cache_state().pending_layouts@[j].data.leaf_layouts@.len(),
                forall|j: int, n: int|
                    0 <= j < i && 0 <= n < waiting@[j]@.len() ==> #[trigger] waiting@[j]@[n]
                        == t.refreshed_leaf(
                        self.cache_state().pending_layouts@[j].data.leaf_layouts@[n]@,
                    ).visible,
            decreases self.cache_state().pending_layouts@.len() - i,
        {
            let next = self.visibilities(&self.cache().pending_layouts[i].data.leaf_layouts);
            waiting.push(next);
            i = i + 1;
        }
        let mut cache = self.take_cache();
        let ghost before = cache;
        apply_visibilities(&mut cache.leaf_layouts, &shown);
        let mut i: usize = 0;
        while i < cache.pending_layouts.len()
            invariant
                i <= cache.pending_layouts@.len(),
                cache.pending_layouts@.len() == before.pending_layouts@.len(),
                waiting@.len() == cache.pending_layouts@.len(),
                cache.pending_relayout == before.pending_relayout,
                cache.arrange == before.arrange,
                leaves_state(cache.leaf_layouts@) == t.refreshed_leaves(before@.leaves),
                forall|j: int|
                    0 <= j < waiting@.len() ==> (#[trigger] waiting@[j])@.len()
                        == before.pending_layouts@[j].data.leaf_layouts@.len(),
                forall|j: int, n: int|
                    0 <= j < waiting@.len() && 0 <= n < waiting@[j]@.len() ==> #[trigger]
                    waiting@[j]@[n] == t.refreshed_leaf(
                        before.pending_layouts@[j].data.leaf_layouts@[n]@,
                    ).visible,
                forall|j: int|
                    i <= j < cache.pending_layouts@.len() ==> #[trigger]
                    cache.pending_layouts@[j] == before.pending_layouts@[j],
                forall|j: int|
                    0 <= j < i ==> (#[trigger] cache.pending_layouts@[j])@
                        == t.refreshed_pending(before@.pending)[j],
            decreases cache.pending_layouts@.len() - i,
        {
            let ghost prev = cache.pending_layouts@;
            assert(prev[i as int] == before.pending_layouts@[i as int]);
            assert(waiting@[i as int]@.len() == prev[i as int].data.leaf_layouts@.len());
            apply_visibilities(&mut cache.pending_layouts[i].data.leaf_layouts, &waiting[i]);
            proof {
                let was = prev[i as int].data.leaf_layouts@;
                let now = cache.pending_layouts@[i as int].data.leaf_layouts@;
                assert forall|n: int| 0 <= n < was.len() implies waiting@[i as int]@[n]
                    == t.refreshed_leaf(#[trigger] was[n]@).visible by {}
                assert(leaves_state(now) =~= t.refreshed_leaves(leaves_state(was)));
                assert(cache.pending_layouts@[i as int]@ == t.refreshed_pending(
                    before@.pending,
                )[i as int]);
            }
            i = i + 1;
        }
        assert(pending_state(cache.pending_layouts@) =~= t.refreshed_pending(before@.pending));
        self.put_cache(cache);
        proof {
            lemma_with_caches(t, self@.caches);
        }
    }
}

fn apply_visibilities(leaves: &mut Vec<LeafLayoutInfo>, shown: &Vec<bool>)
    requires
        shown@.len() == old(leaves)@.len(),
    ensures
        final(leaves)@.len() == old(leaves)@.len(),
        forall|i: int|
            0 <= i < final(leaves)@.len() ==> (#[trigger] final(leaves)@[i])@ == (LeafInfo {
                visible: shown@[i],
                ..old(leaves)@[i]@
            }),
{
    let mut i: usize = 0;
    while i < leaves.len()
        invariant
            i <= leaves@.len(),
            leaves@.len() == old(leaves)@.len(),
            shown@.len() == leaves@.len(),
            forall|j: int| i <= j < leaves@.len() ==> #[trigger] leaves@[j] == old(leaves)@[j],
            forall|j: int|
                0 <= j < i ==> (#[trigger] leaves@[j])@ == (LeafInfo {
                    visible: shown@[j],
                    ..old(leaves)@[j]@
                }),
        decreases leaves@.len() - i,
    {
        assert(leaves@[i as int] == old(leaves)@[i as int]);
        leaves[i].visible = shown[i];
        i = i + 1;
    }
}

/// The addresses decided for `leaves`, entry by entry.
spec fn addressed(t: Tree, leaves: Seq<LeafLayoutInfo>, plan: Seq<Readdress>) -> bool {
    &&& plan.len() == leaves.len()
    &&& forall|i: int|
        0 <= i < plan.len() ==> (#[trigger] plan[i]).keep == t.is_view(leaves[i].key) && (
        plan[i].keep ==> plan[i].path@ == t.address(leaves[i].key) && plan[i].branch == t.branch(
            leaves[i].key,
        ))
}

/// Follows a plan for the committed cache: entries without a window go, the others take their
/// new address.
fn follow_plan(
    t: Ghost<Tree>,
    leaves: Vec<LeafLayoutInfo>,
    plan: Vec<Readdress>,
    snapshot: bool,
) -> (r: Vec<LeafLayoutInfo>)
    requires
        addressed(t@, leaves@, plan@),
    ensures
        leaves_state(r@) == if snapshot {
            t@.readdressed_snapshot(leaves_state(leaves@))
        } else {
            t@.readdressed_leaves(leaves_state(leaves@))
        },
{
    let ghost all = leaves@;
    let ghost decided = plan@;
    let ghost states = leaves_state(all);
    let mut leaves = leaves;
    let mut plan = plan;
    let mut kept: Vec<LeafLayoutInfo> = Vec::new();
    let ghost tail: Seq<LeafInfo> = Seq::empty();
    assert(states.take(all.len() as int) =~= states);
    assert(leaves@ =~= all.take(all.len() as int));
    assert(plan@ =~= decided.take(all.len() as int));
    let ghost goal = if snapshot {
        t@.readdressed_snapshot(states)
    } else {
        t@.readdressed_leaves(states)
    };
    assert(goal + tail =~= goal);
    assert(leaves_state(kept@).reverse() =~= tail);
    while leaves.len() > 0
        invariant
            leaves@.len() == plan@.len(),
            leaves@.len() <= all.len(),
            all.len() == decided.len(),
            leaves@ == all.take(leaves@.len() as int),
            plan@ == decided.take(leaves@.len() as int),
            states == leaves_state(all),
            addressed(t@, all, decided),
            goal == (if snapshot {
                t@.readdressed_snapshot(states.take(leaves@.len() as int))
            } else {
                t@.readdressed_leaves(states.take(leaves@.len() as int))
            }) + leaves_state(kept@).reverse(),
        decreases leaves@.len(),
    {
        let ghost n = leaves@.len() - 1;
        let info = leaves.pop().unwrap();
        let step = plan.pop().unwrap();
        proof {
            assert(info == all[n]);
            assert(step == decided[n]);
            assert(states.take(n + 1).drop_last() =~= states.take(n));
            assert(states.take(n + 1).last() == all[n]@);
        }
        let ghost before = leaves_state(kept@);
        if step.keep {
            let mut info = info;
            if !snapshot {
                info.path = step.path;
                info.branch = step.branch;
            } else if info.branch == step.branch {
                info.path = step.path;
            }
            kept.push(info);
            proof {
                assert(leaves_state(kept@) =~= before.push(info@));
                assert(before.push(info@).reverse() =~= seq![info@] + before.reverse());
                if snapshot {
                    let head = t@.readdressed_snapshot(states.take(n));
                    assert(head.push(info@) + before.reverse() =~= head + (seq![info@]
                        + before.reverse()));
                } else {
                    let head = t@.readdressed_leaves(states.take(n));
                    assert(head.push(info@) + before.reverse() =~= head + (seq![info@]
                        + before.reverse()));
                }
            }
        }
        assert(leaves@ =~= all.take(n));
        assert(plan@ =~= decided.take(n));
    }
    let mut out: Vec<LeafLayoutInfo> = Vec::new();
    let ghost reversed = leaves_state(kept@).reverse();
    assert(goal =~= reversed);
    assert(leaves_state(out@) + reversed =~= reversed);
    while kept.len() > 0
        invariant
            leaves_state(out@) + leaves_state(kept@).reverse() == reversed,
        decreases kept@.len(),
    {
        let ghost was = leaves_state(kept@);
        let ghost done = leaves_state(out@);
        let info = kept.pop().unwrap();
        out.push(info);
        proof {
            assert(leaves_state(kept@) =~= was.drop_last());
            assert(leaves_state(out@) =~= done.push(info@));
            assert(was.reverse() =~= seq![info@] + was.drop_last().reverse());
            assert(done + (seq![info@] + was.drop_last().reverse()) =~= done.push(info@)
                + was.drop_last().reverse());
        }
    }
    assert(leaves_state(out@) =~= reversed);
    out
}

impl ContainerArena {
    fn address_plan(&self, leaves: &Vec<LeafLayoutInfo>) -> (r: Vec<Readdress>)
        requires
            self.wf(),
        ensures
            addressed(self@, leaves@, r@),
    {
        let mut plan: Vec<Readdress> = Vec::new();
        let mut i: usize = 0;
        while i < leaves.len()
            invariant
                self.wf(),
                i <= leaves@.len(),
                plan@.len() == i,
                forall|j: int|
                    0 <= j < plan@.len() ==> (#[trigger] plan@[j]).keep == self@.is_view(
                        leaves@[j].key,
                    ) && (plan@[j].keep ==> plan@[j].path@ == self@.address(leaves@[j].key)
                        && plan@[j].branch == self@.branch(leaves@[j].key)),
            decreases leaves@.len() - i,
        {
            let key = leaves[i].key;
            let step = if self.is_leaf(key) {
                match self.branch_relative_path(key) {
                    Some(path) => Readdress { keep: true, path, branch: self.branch_root(key) },
                    None => Readdress { keep: false, path: Vec::new(), branch: key },
                }
            } else {
                Readdress { keep: false, path: Vec::new(), branch: key }
            };
            plan.push(step);
            i = i + 1;
        }
        plan
    }

    /// Points the cached layout at where its windows are now and drops the entries of windows
    /// that left.
    pub fn readdress_leaf_layouts(&mut self)
        requires
            old(self).wf(),
        ensures
            final(self)@ == old(self)@.readdressed(),
            final(self).wf(),
            final(self)@.windows() == old(self)@.windows(),
            forall|k: NodeKey| #[trigger] final(self)@.loose(k) ==> old(self)@.loose(k),
            old(self)@.mentions_live() ==> final(self)@.mentions_live(),
    {
        let ghost t = self@;
        let plan = self.address_plan(&self.cache().leaf_layouts);
        let mut plans: Vec<Vec<Readdress>> = Vec::new();
        let mut i: usize = 0;
        while i < self.cache().pending_layouts.len()
            invariant
                self.wf(),
                self@ == t,
                self.cache_state() == old(self).cache_state(),
                i <= self.cache_state().pending_layouts@.len(),
                plans@.len() == i,
                forall|j: int|
                    0 <= j < i ==> addressed(
                        t,
                        self.cache_state().pending_layouts@[j].data.leaf_layouts@,
                        #[trigger] plans@[j]@,
                    ),
            decreases self.cache_state().pending_layouts@.len() - i,
        {
            let next = self.address_plan(&self.cache().pending_layouts[i].data.leaf_layouts);
            plans.push(next);
            i = i + 1;
        }
        let cache = self.take_cache();
        let ghost before = cache;
        let leaf_layouts = follow_plan(Ghost(t), cache.leaf_layouts, plan, false);
        let mut old_pending = cache.pending_layouts;
        let mut pending: Vec<PendingLayout> = Vec::new();
        let ghost n = old_pending@.len() as int;
        while old_pending.len() > 0
            invariant
                plans@.len() == old_pending@.len(),
                old_pending@.len() <= n,
                n == before.pending_layouts@.len(),
                forall|j: int|
                    0 <= j < old_pending@.len() ==> #[trigger] old_pending@[j]
                        == before.pending_layouts@[j],
                forall|j: int|
                    0 <= j < plans@.len() ==> addressed(
                        t,
                        before.pending_layouts@[j].data.leaf_layouts@,
                        #[trigger] plans@[j]@,
                    ),
                pending@.len() == n - old_pending@.len(),
                forall|j: int|
                    0 <= j < pending@.len() ==> (#[trigger] pending@[j])@
                        == t.readdressed_pending(before@.pending)[n - 1 - j],
            decreases old_pending@.len(),
        {
            let ghost at = old_pending@.len() - 1;
            let entry = old_pending.pop().unwrap();
            assert(entry == before.pending_layouts@[at]);
            let step = plans.pop().unwrap();
            let data = entry.data;
            let ghost was = data@.leaves;
            let leaves = follow_plan(Ghost(t), data.leaf_layouts, step, true);
            let next = PendingLayout {
                branch: entry.branch,
                data: crate::cache::LayoutData {
                    leaf_layouts: leaves,
                    container_geometries: data.container_geometries,
                    decors: data.decors,
                },
                released: entry.released,
            };
            assert(next@ == t.readdressed_pending(before@.pending)[at]);
            pending.push(next);
        }
        let mut pending_layouts: Vec<PendingLayout> = Vec::new();
        while pending.len() > 0
            invariant
                pending@.len() + pending_layouts@.len() == n,
                n == before@.pending.len(),
                forall|j: int|
                    0 <= j < pending@.len() ==> (#[trigger] pending@[j])@
                        == t.readdressed_pending(before@.pending)[n - 1 - j],
                forall|j: int|
                    0 <= j < pending_layouts@.len() ==> (#[trigger] pending_layouts@[j])@
                        == t.readdressed_pending(before@.pending)[j],
            decreases pending@.len(),
        {
            let entry = pending.pop().unwrap();
            pending_layouts.push(entry);
        }
        assert(pending_state(pending_layouts@) =~= t.readdressed_pending(before@.pending));
        self.put_cache(
            LayoutCache {
                leaf_layouts,
                pending_layouts,
                pending_relayout: cache.pending_relayout,
                arrange: cache.arrange,
            },
        );
        proof {
            lemma_with_caches(t, self@.caches);
        }
    }

    /// Keeps the box of a window's node when its parent stops decorating it: the tile takes
    /// the whole box.
    pub fn preserve_leaf_node_geometry(&mut self, key: NodeKey)
        ensures
            final(self)@ == old(self)@.with_caches(
                (Caches {
                    leaves: undecorated(old(self)@.caches.leaves, key),
                    pending: undecorated_pending(old(self)@.caches.pending, key),
                    ..old(self)@.caches
                }),
            ),
            old(self).wf() ==> final(self).wf(),
            final(self)@.windows() == old(self)@.windows(),
            forall|k: NodeKey| #[trigger] final(self)@.loose(k) ==> old(self)@.loose(k),
            old(self)@.mentions_live() ==> final(self)@.mentions_live(),
    {
        let ghost t = self@;
        let mut cache = self.take_cache();
        let ghost before = cache;
        undecorate(&mut cache.leaf_layouts, key);
        let mut i: usize = 0;
        while i < cache.pending_layouts.len()
            invariant
                i <= cache.pending_layouts@.len(),
                cache.pending_layouts@.len() == before.pending_layouts@.len(),
                cache.pending_relayout == before.pending_relayout,
                cache.arrange == before.arrange,
                leaves_state(cache.leaf_layouts@) == undecorated(before@.leaves, key),
                forall|j: int|
                    i <= j < cache.pending_layouts@.len() ==> #[trigger]
                    cache.pending_layouts@[j] == before.pending_layouts@[j],
                forall|j: int|
                    0 <= j < i ==> (#[trigger] cache.pending_layouts@[j])@ == undecorated_pending(
                        before@.pending,
                        key,
                    )[j],
            decreases cache.pending_layouts@.len() - i,
        {
            assert(cache.pending_layouts@[i as int] == before.pending_layouts@[i as int]);
            undecorate(&mut cache.pending_layouts[i].data.leaf_layouts, key);
            assert(cache.pending_layouts@[i as int]@ == undecorated_pending(
                before@.pending,
                key,
            )[i as int]);
            i = i + 1;
        }
        assert(pending_state(cache.pending_layouts@) =~= undecorated_pending(
            before@.pending,
            key,
        ));
        self.put_cache(cache);
        proof {
            lemma_with_caches(t, self@.caches);
        }
    }

    /// The box a node holds.
    pub fn node_geometry(&self, key: NodeKey) -> (r: Option<Rect>)
        ensures
            r == self@.box_of(key),
    {
        match self.get_node(key) {
            Some(node) => {
                if node.is_view() {
                    match self.cache().node_rect_of(key) {
                        Some(rect) => Some(rect),
                        None => Some(Rect::zero()),
                    }
                } else {
                    Some(node.common().geometry())
                }
            },
            None => None,
        }
    }

    /// Replaces the box a node holds.
    pub fn set_node_geometry(&mut self, key: NodeKey, rect: Rect)
        requires
            old(self).wf(),
        ensures
            final(self)@ == old(self)@.with_box(key, rect),
            final(self).wf(),
            final(self)@.windows() == old(self)@.windows(),
            forall|k: NodeKey| #[trigger] final(self)@.loose(k) ==> old(self)@.loose(k),
            old(self)@.mentions_live() ==> final(self)@.mentions_live(),
    {
        if self.is_leaf(key) {
            let ghost t = self@;
            let mut cache = self.take_cache();
            rebox(&mut cache.leaf_layouts, key, rect);
            self.put_cache(cache);
            proof {
                lemma_with_caches(t, self@.caches);
            }
        } else if self.holds_node(key) {
            self.set_geometry_of(key, rect);
        }
    }

    /// Asks for an arrange of the workspace.
    pub fn layout(&mut self)
        ensures
            final(self)@ == old(self)@.arranging(ArrangeScope::Workspace),
            old(self).wf() ==> final(self).wf(),
            final(self)@.windows() == old(self)@.windows(),
            forall|k: NodeKey| #[trigger] final(self)@.loose(k) ==> old(self)@.loose(k),
            old(self)@.mentions_live() ==> final(self)@.mentions_live(),
    {
        let ghost t = self@;
        let mut cache = self.take_cache();
        cache.request(ArrangeScope::Workspace);
        self.put_cache(cache);
        proof {
            lemma_with_caches(t, self@.caches);
        }
    }

    /// Asks for an arrange of a node in the box it holds.
    pub(crate) fn arrange_subtree(&mut self, key: NodeKey)
        ensures
            final(self)@ == old(self)@.arranging(ArrangeScope::Subtree(key)),
            old(self).wf() ==> final(self).wf(),
            final(self)@.windows() == old(self)@.windows(),
            forall|k: NodeKey| #[trigger] final(self)@.loose(k) ==> old(self)@.loose(k),
            old(self)@.mentions_live() ==> final(self)@.mentions_live(),
    {
        let mut cache = self.take_cache();
        cache.request(ArrangeScope::Subtree(key));
        self.put_cache(cache);
        proof {
            if old(self).wf() {
                lemma_with_caches(old(self)@, self@.caches);
            }
        }
    }

    /// Asks for an arrange of one container's subtree in the box it holds.
    pub fn layout_container_subtree(&mut self, key: NodeKey)
        ensures
            final(self)@ == if old(self)@.is_parent(key) {
                old(self)@.arranging(ArrangeScope::Subtree(key))
            } else {
                old(self)@
            },
            old(self).wf() ==> final(self).wf(),
            final(self)@.windows() == old(self)@.windows(),
            forall|k: NodeKey| #[trigger] final(self)@.loose(k) ==> old(self)@.loose(k),
            old(self)@.mentions_live() ==> final(self)@.mentions_live(),
    {
        if self.get_container(key).is_none() {
            return;
        }
        let ghost t = self@;
        let mut cache = self.take_cache();
        cache.request(ArrangeScope::Subtree(key));
        self.put_cache(cache);
        proof {
            lemma_with_caches(t, self@.caches);
        }
    }

    /// Hands out the oldest of the arranges that were asked for.
    pub fn take_arrange(&mut self) -> (r: Option<ArrangeScope>)
        ensures
            r == if old(self)@.caches.arrange.len() > 0 {
                Some(old(self)@.caches.arrange[0])
            } else {
                None
            },
            final(self)@ == if r is Some {
                old(self)@.with_caches(
                    (Caches {
                        arrange: old(self)@.caches.arrange.drop_first(),
                        ..old(self)@.caches
                    }),
                )
            } else {
                old(self)@
            },
            old(self).wf() ==> final(self).wf(),
            final(self)@.windows() == old(self)@.windows(),
            forall|k: NodeKey| #[trigger] final(self)@.loose(k) ==> old(self)@.loose(k),
            old(self)@.mentions_live() ==> final(self)@.mentions_live(),
    {
        let ghost t = self@;
        let mut cache = self.take_cache();
        let scope = if cache.arrange.len() > 0 {
            let first = cache.arrange.remove(0);
            assert(cache.arrange@ =~= t.caches.arrange.drop_first());
            Some(first)
        } else {
            None
        };
        self.put_cache(cache);
        proof {
            lemma_with_caches(t, self@.caches);
        }
        scope
    }

    /// Gives up every pending arrange, superseded by a transfer between branches.
    pub fn discard_layout_superseded_by_transfer(&mut self)
        ensures
            final(self)@ == old(self)@.superseded(),
            old(self).wf() ==> final(self).wf(),
            final(self)@.windows() == old(self)@.windows(),
            forall|k: NodeKey| #[trigger] final(self)@.loose(k) ==> old(self)@.loose(k),
            old(self)@.mentions_live() ==> final(self)@.mentions_live(),
    {
        let ghost t = self@;
        let mut cache = self.take_cache();
        cache.pending_layouts = Vec::new();
        cache.pending_relayout = false;
        assert(pending_state(cache.pending_layouts@) =~= Seq::empty());
        self.put_cache(cache);
        proof {
            lemma_with_caches(t, self@.caches);
        }
    }

    pub fn has_pending_layouts(&self) -> (r: bool)
        ensures
            r == (self@.caches.pending.len() > 0),
    {
        self.cache().pending_layouts.len() > 0
    }

    /// Whether another arrange was wanted while one was pending; reading it clears it.
    pub fn take_pending_relayout(&mut self) -> (r: bool)
        ensures
            r == old(self)@.caches.relayout,
            final(self)@ == old(self)@.with_caches(
                (Caches { relayout: false, ..old(self)@.caches }),
            ),
            old(self).wf() ==> final(self).wf(),
            final(self)@.windows() == old(self)@.windows(),
            forall|k: NodeKey| #[trigger] final(self)@.loose(k) ==> old(self)@.loose(k),
            old(self)@.mentions_live() ==> final(self)@.mentions_live(),
    {
        let ghost t = self@;
        let mut cache = self.take_cache();
        let wanted = cache.pending_relayout;
        cache.pending_relayout = false;
        self.put_cache(cache);
        proof {
            lemma_with_caches(t, self@.caches);
        }
        wanted
    }
}

/// A box reads back as it was set, for a container always and for a window with an entry.
pub proof fn law_box_reads_back(t: Tree, k: NodeKey, rect: Rect)
    requires
        t.has(k),
        t.is_view(k) ==> t.caches.entry(k) is Some,
    ensures
        t.with_box(k, rect).box_of(k) == Some(rect),
{
    if t.is_view(k) {
        lemma_boxed_entry(t.caches.leaves, k, rect);
    }
}

proof fn lemma_boxed_entry(leaves: Seq<LeafInfo>, k: NodeKey, rect: Rect)
    requires
        entry_of(leaves, k) is Some,
    ensures
        entry_of(boxed(leaves, k, rect), k) matches Some(info) && info.node_rect == rect,
    decreases leaves.len(),
{
    if leaves[0].key != k {
        lemma_boxed_entry(leaves.drop_first(), k, rect);
        assert(boxed(leaves, k, rect).drop_first() =~= boxed(leaves.drop_first(), k, rect));
    }
}

} // verus!
