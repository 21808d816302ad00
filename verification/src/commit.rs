//! Committing arranges. The outcome of a pass over a branch is applied at once when no window
//! has to change size; otherwise it waits until the windows have answered, and the branch is
//! left alone until then.

use crate::arena::ContainerArena;
use crate::axis::NodeKey;
use crate::cache::{
    leaves_state, pending_state, ArrangeScope, Arrangement, Caches, LayoutCache, LayoutData,
    LeafDecor, LeafInfo, LeafLayoutInfo, Pending, PendingLayout,
};
use crate::leafcache::lemma_with_caches;
use crate::measure::{IntSize, Real, Rect};
use crate::node::Node;
use crate::tile::{SizingMode, Tile, TileRequest, TileState, WindowId};
use crate::tree::Tree;
use vstd::prelude::*;

verus! {

/// What a window is asked for in one arrange: to fill the output, or a size.
#[derive(Debug, Clone, Copy, PartialEq, Eq, Structural)]
pub struct LayoutRequest {
    pub fullscreen: bool,
    pub size: IntSize,
}

/// The box a pass starts from.
#[derive(Debug, Clone, Copy, PartialEq, Eq, Structural)]
pub enum ArrangeArea {
    /// The whole output.
    Output,
    /// The area tiled windows may use.
    Tiling,
    /// A box of its own.
    Own(Rect),
}

/// What an arrange is going to do.
#[derive(Debug)]
pub struct LayoutPlan {
    /// The branch roots whose shares are to be resolved first.
    pub resolve: Vec<NodeKey>,
    /// The nodes to arrange, and in what box.
    pub passes: Vec<(NodeKey, ArrangeArea)>,
}

/// The outcome of the pass over one branch, ready to be committed.
#[derive(Debug)]
pub struct BranchLayout {
    pub branch: NodeKey,
    pub data: LayoutData,
    /// The span each split divided among its children.
    pub totals: Vec<(NodeKey, Real)>,
    /// The requests the cached entries of the windows stand for.
    pub current: Vec<(NodeKey, LayoutRequest)>,
    /// The requests the pass comes to.
    pub next: Vec<(NodeKey, LayoutRequest)>,
    /// Whether every window has answered already.
    pub released: bool,
}

/// [`BranchLayout`] as a value.
pub struct BranchPass {
    pub branch: NodeKey,
    pub data: Arrangement,
    pub totals: Seq<(NodeKey, Real)>,
    pub current: Seq<(NodeKey, LayoutRequest)>,
    pub next: Seq<(NodeKey, LayoutRequest)>,
    pub released: bool,
}

impl View for BranchLayout {
    type V = BranchPass;

    open spec fn view(&self) -> BranchPass {
        BranchPass {
            branch: self.branch,
            data: self.data@,
            totals: self.totals@,
            current: self.current@,
            next: self.next@,
            released: self.released,
        }
    }
}

pub open spec fn passes_state(passes: Seq<BranchLayout>) -> Seq<BranchPass> {
    Seq::new(passes.len(), |i: int| passes[i]@)
}

/// The entries of one branch, in their sequence.
pub open spec fn of_branch(leaves: Seq<LeafInfo>, branch: NodeKey) -> Seq<LeafInfo>
    decreases leaves.len(),
{
    if leaves.len() == 0 {
        leaves
    } else if leaves.last().branch == branch {
        of_branch(leaves.drop_last(), branch).push(leaves.last())
    } else {
        of_branch(leaves.drop_last(), branch)
    }
}

/// The entries of the other branches, in their sequence.
pub open spec fn off_branch(leaves: Seq<LeafInfo>, branch: NodeKey) -> Seq<LeafInfo>
    decreases leaves.len(),
{
    if leaves.len() == 0 {
        leaves
    } else if leaves.last().branch != branch {
        off_branch(leaves.drop_last(), branch).push(leaves.last())
    } else {
        off_branch(leaves.drop_last(), branch)
    }
}

/// The entries grouped by branch in the order of `branches`, those of no such branch last.
pub open spec fn by_branch(leaves: Seq<LeafInfo>, branches: Seq<NodeKey>) -> Seq<LeafInfo>
    decreases branches.len(),
{
    if branches.len() == 0 {
        leaves
    } else {
        of_branch(leaves, branches[0]) + by_branch(
            off_branch(leaves, branches[0]),
            branches.drop_first(),
        )
    }
}

/// The arranges whose windows have answered.
pub open spec fn ready(pending: Seq<Pending>) -> Seq<Pending>
    decreases pending.len(),
{
    if pending.len() == 0 {
        pending
    } else if pending.last().released {
        ready(pending.drop_last()).push(pending.last())
    } else {
        ready(pending.drop_last())
    }
}

/// The arranges still waiting.
pub open spec fn waiting(pending: Seq<Pending>) -> Seq<Pending>
    decreases pending.len(),
{
    if pending.len() == 0 {
        pending
    } else if !pending.last().released {
        waiting(pending.drop_last()).push(pending.last())
    } else {
        waiting(pending.drop_last())
    }
}

/// Whether some arrange of a branch is pending.
pub open spec fn awaits(pending: Seq<Pending>, branch: NodeKey) -> bool {
    exists|i: int| 0 <= i < pending.len() && (#[trigger] pending[i]).branch == branch
}

impl Tree {
    // -----------------------------------------------------------------------------------------
    // Whether a snapshot still fits
    // -----------------------------------------------------------------------------------------

    /// Whether an entry names a window of the workspace in the branch it is in.
    pub open spec fn names_live(self, info: LeafInfo) -> bool {
        self.all_leaves().contains(info.key) && self.branch(info.key) == info.branch
    }

    /// Whether a snapshot covers exactly the windows of its branch.
    pub open spec fn covers(self, pending: Pending) -> bool {
        &&& forall|i: int|
            0 <= i < pending.data.leaves.len() ==> self.names_live(
                #[trigger] pending.data.leaves[i],
            ) && pending.data.leaves[i].branch == pending.branch
        &&& forall|j: int|
            #![trigger self.all_leaves()[j]]
            0 <= j < self.all_leaves().len() && self.branch(self.all_leaves()[j]) == pending.branch
                ==> described_in(pending.data.leaves, self.all_leaves()[j], pending.branch)
    }

    /// Whether a snapshot still addresses the branches it describes: it names exactly their
    /// windows, each in its branch and at its path.
    pub open spec fn addresses(self, leaves: Seq<LeafInfo>) -> bool {
        &&& forall|i: int|
            0 <= i < leaves.len() ==> self.names_live(#[trigger] leaves[i]) && self.address(
                leaves[i].key,
            ) == leaves[i].path
        &&& forall|j: int|
            #![trigger self.all_leaves()[j]]
            0 <= j < self.all_leaves().len() && describes_branch(
                leaves,
                self.branch(self.all_leaves()[j]),
            ) ==> described_in(
                leaves,
                self.all_leaves()[j],
                self.branch(self.all_leaves()[j]),
            )
    }

    // -----------------------------------------------------------------------------------------
    // Committing
    // -----------------------------------------------------------------------------------------

    /// The tree with the boxes of containers replaced, in turn.
    pub open spec fn with_geometries(self, boxes: Seq<(NodeKey, Rect)>) -> Tree
        decreases boxes.len(),
    {
        if boxes.len() == 0 {
            self
        } else {
            let t = self.with_geometries(boxes.drop_last());
            let (k, geometry) = boxes.last();
            if t.is_parent(k) {
                t.with_node(k, Node { geometry, ..t.nodes[k] })
            } else {
                t
            }
        }
    }

    /// The tree with the decorations of windows replaced, in turn.
    pub open spec fn with_decors(self, decors: Seq<(NodeKey, LeafDecor)>) -> Tree
        decreases decors.len(),
    {
        if decors.len() == 0 {
            self
        } else {
            let t = self.with_decors(decors.drop_last());
            let (k, decor) = decors.last();
            if t.is_view(k) {
                t.with_node(
                    k,
                    Node {
                        tile: Some(TileState { decor, ..t.nodes[k].tile->0 }),
                        ..t.nodes[k]
                    },
                )
            } else {
                t
            }
        }
    }

    /// The cached entries a commit leaves: those of other branches, of windows still in the
    /// tree that the commit does not describe.
    pub open spec fn outlasting(
        self,
        leaves: Seq<LeafInfo>,
        branch: NodeKey,
        incoming: Seq<LeafInfo>,
    ) -> Seq<LeafInfo>
        decreases leaves.len(),
    {
        if leaves.len() == 0 {
            leaves
        } else {
            let rest = self.outlasting(leaves.drop_last(), branch, incoming);
            let info = leaves.last();
            if info.branch != branch && !crate::arrange::listed(incoming, info.key) && self.has(
                info.key,
            ) {
                rest.push(info)
            } else {
                rest
            }
        }
    }

    /// The branches of the workspace: the tiled side, then the floating groups.
    pub open spec fn branches(self) -> Seq<NodeKey> {
        seq![self.root] + Seq::new(self.floating.len(), |i: int| self.floating[i].key)
    }

    /// The outcome of one pass committed.
    pub open spec fn applied(self, branch: NodeKey, data: Arrangement) -> Tree {
        let t = self.with_geometries(data.boxes).with_decors(data.decors);
        let leaves = t.outlasting(t.caches.leaves, branch, data.leaves) + data.leaves;
        t.with_caches(Caches { leaves: by_branch(leaves, t.branches()), ..t.caches })
    }

    pub open spec fn wanting_relayout(self) -> Tree {
        self.with_caches(Caches { relayout: true, ..self.caches })
    }

    /// Answered arranges committed in turn; one whose branch has moved on is dropped for
    /// another arrange.
    pub open spec fn settled(self, done: Seq<Pending>) -> Tree
        decreases done.len(),
    {
        if done.len() == 0 {
            self
        } else {
            let t = self.settled(done.drop_last());
            if t.addresses(done.last().data.leaves) {
                t.applied(done.last().branch, done.last().data)
            } else {
                t.wanting_relayout()
            }
        }
    }

    /// Every answered arrange committed.
    pub open spec fn pending_settled(self) -> Tree {
        self.with_caches(
            Caches { pending: waiting(self.caches.pending), ..self.caches },
        ).settled(ready(self.caches.pending))
    }

    /// Every answered arrange committed, and another one asked for if there was any and one was
    /// wanted.
    pub open spec fn caught_up(self) -> Tree {
        let t = self.pending_settled();
        if ready(self.caches.pending).len() == 0 {
            t
        } else {
            let u = t.with_caches(Caches { relayout: false, ..t.caches });
            if t.caches.relayout {
                u.arranging(ArrangeScope::Workspace)
            } else {
                u
            }
        }
    }

    /// The tree with the span of each split of a branch recorded on its children, in turn.
    pub open spec fn with_totals(self, totals: Seq<(NodeKey, Real)>, branch: NodeKey) -> Tree
        decreases totals.len(),
    {
        if totals.len() == 0 {
            self
        } else {
            let t = self.with_totals(totals.drop_last(), branch);
            let (p, total) = totals.last();
            if t.is_parent(p) && t.nodes[p].layout.is_split() && t.branch(p) == branch {
                t.with_total_of(t.kids(p), t.nodes[p].layout, total)
            } else {
                t
            }
        }
    }

    pub open spec fn with_total_of(
        self,
        keys: Seq<NodeKey>,
        layout: crate::axis::Layout,
        total: Real,
    ) -> Tree
        decreases keys.len(),
    {
        if keys.len() == 0 {
            self
        } else {
            let t = self.with_total_of(keys.drop_last(), layout, total);
            match t.sizing_of(keys.last()) {
                Some(sizing) => t.with_sizing(keys.last(), sizing.with_total(layout, total)),
                None => t,
            }
        }
    }

    /// Every window of a pass asked for the size it comes to.
    pub open spec fn sized(self, leaves: Seq<LeafInfo>, animate: bool) -> Tree
        decreases leaves.len(),
    {
        if leaves.len() == 0 {
            self
        } else {
            let t = self.sized(leaves.drop_last(), animate);
            let info = leaves.last();
            if !t.is_view(info.key) {
                t
            } else if t.nodes[info.key].tile->0.window.sizing_mode is Fullscreen {
                t.asked(info.key, TileRequest::Fullscreen { animate })
            } else {
                t.asked(info.key, TileRequest::TileSize { tile_size: info.rect.size, animate })
            }
        }
    }

    /// The outcome of a pass committed or held back. A branch among `held` still waits for an
    /// earlier arrange and is not touched.
    pub open spec fn committed_pass(
        self,
        pass: BranchPass,
        held: Seq<Pending>,
        animate: bool,
    ) -> Tree {
        if awaits(held, pass.branch) {
            self.wanting_relayout()
        } else {
            self.with_totals(pass.totals, pass.branch).committed_unheld(pass, animate)
        }
    }

    /// The outcome of a pass applied at once when no window has to change, else held back
    /// until the windows have answered.
    pub open spec fn committed_unheld(self, pass: BranchPass, animate: bool) -> Tree {
        if self.changed_keys(pass.data.leaves, pass.current, pass.next).len() == 0 {
            self.applied(pass.branch, pass.data)
        } else {
            let u = self.sized(pass.data.leaves, animate);
            let v = u.with_caches(
                Caches {
                    pending: u.caches.pending.push(
                        Pending {
                            branch: pass.branch,
                            data: pass.data,
                            released: pass.released,
                        },
                    ),
                    ..u.caches
                },
            );
            if pass.released {
                v.pending_settled()
            } else {
                v
            }
        }
    }

    pub open spec fn committed_passes(
        self,
        passes: Seq<BranchPass>,
        held: Seq<Pending>,
        animate: bool,
    ) -> Tree
        decreases passes.len(),
    {
        if passes.len() == 0 {
            self
        } else {
            self.committed_passes(passes.drop_last(), held, animate).committed_pass(
                passes.last(),
                held,
                animate,
            )
        }
    }

    // -----------------------------------------------------------------------------------------
    // Planning
    // -----------------------------------------------------------------------------------------

    /// The tree at the start of an arrange: answered arranges committed, and another one wanted
    /// while some still wait. Nothing at all is cached for an empty workspace.
    pub open spec fn arrange_begun(self) -> Tree {
        let t = self.pending_settled();
        if t.vacated() {
            t.with_caches(
                Caches {
                    leaves: Seq::empty(),
                    pending: Seq::empty(),
                    relayout: false,
                    ..t.caches
                },
            )
        } else {
            t.with_caches(Caches { relayout: t.caches.pending.len() > 0, ..t.caches })
        }
    }

    /// Whether there is nothing to arrange.
    pub open spec fn vacated(self) -> bool {
        self.leaf_under(self.root) is None && self.floating.len() == 0
    }

    /// The branch roots of `keys` that wait for no earlier arrange.
    pub open spec fn unheld(self, keys: Seq<NodeKey>) -> Seq<NodeKey>
        decreases keys.len(),
    {
        if keys.len() == 0 {
            keys
        } else if awaits(self.caches.pending, self.branch(keys.last())) {
            self.unheld(keys.drop_last())
        } else {
            self.unheld(keys.drop_last()).push(keys.last())
        }
    }

    /// The nodes an arrange starts from.
    pub open spec fn resolve_roots(self, scope: ArrangeScope) -> Seq<NodeKey> {
        match scope {
            ArrangeScope::Workspace => self.branches(),
            ArrangeScope::Subtree(k) => seq![k],
        }
    }

    /// The passes of an arrange. With a node fullscreen only that is arranged: a container in
    /// the output's box, a window in the tiling area. Otherwise the tiled side is arranged, and
    /// each floating group in its own box.
    pub open spec fn arrange_passes(self, scope: ArrangeScope) -> Seq<(NodeKey, ArrangeArea)> {
        match scope {
            ArrangeScope::Subtree(k) => match self.box_of(k) {
                Some(rect) => seq![(k, ArrangeArea::Own(rect))],
                None => Seq::empty(),
            },
            ArrangeScope::Workspace => match self.fullscreen {
                Some(f) if self.has(f) => seq![
                    (
                        f,
                        if self.is_view(f) {
                            ArrangeArea::Tiling
                        } else {
                            ArrangeArea::Output
                        },
                    ),
                ],
                _ => seq![(self.root, ArrangeArea::Tiling)] + Seq::new(
                    self.floating.len(),
                    |i: int|
                        (
                            self.floating[i].key,
                            ArrangeArea::Own(self.floating[i].geometry.target),
                        ),
                ),
            },
        }
    }
}

/// Whether an entry describes a window in a branch.
pub open spec fn described_in(leaves: Seq<LeafInfo>, k: NodeKey, branch: NodeKey) -> bool {
    exists|i: int|
        0 <= i < leaves.len() && (#[trigger] leaves[i]).key == k && leaves[i].branch == branch
}

/// Whether an entry describes a branch.
pub open spec fn describes_branch(leaves: Seq<LeafInfo>, branch: NodeKey) -> bool {
    exists|i: int| 0 <= i < leaves.len() && (#[trigger] leaves[i]).branch == branch
}

fn is_described_in(leaves: &Vec<LeafLayoutInfo>, key: NodeKey, branch: NodeKey) -> (r: bool)
    ensures
        r == described_in(leaves_state(leaves@), key, branch),
{
    let mut i: usize = 0;
    while i < leaves.len()
        invariant
            i <= leaves@.len(),
            forall|j: int|
                0 <= j < i ==> (#[trigger] leaves@[j]).key != key || leaves@[j].branch != branch,
        decreases leaves@.len() - i,
    {
        if leaves[i].key == key && leaves[i].branch == branch {
            let ghost info = leaves_state(leaves@)[i as int];
            assert(info.key == key && info.branch == branch);
            return true;
        }
        i = i + 1;
    }
    assert forall|j: int| 0 <= j < leaves@.len() implies (#[trigger] leaves_state(leaves@)[j]).key
        != key || leaves_state(leaves@)[j].branch != branch by {
        assert(leaves@[j].key != key || leaves@[j].branch != branch);
    }
    false
}

fn is_branch_described(leaves: &Vec<LeafLayoutInfo>, branch: NodeKey) -> (r: bool)
    ensures
        r == describes_branch(leaves_state(leaves@), branch),
{
    let mut i: usize = 0;
    while i < leaves.len()
        invariant
            i <= leaves@.len(),
            forall|j: int| 0 <= j < i ==> (#[trigger] leaves@[j]).branch != branch,
        decreases leaves@.len() - i,
    {
        if leaves[i].branch == branch {
            let ghost info = leaves_state(leaves@)[i as int];
            assert(info.branch == branch);
            return true;
        }
        i = i + 1;
    }
    assert forall|j: int| 0 <= j < leaves@.len() implies (#[trigger] leaves_state(
        leaves@,
    )[j]).branch != branch by {
        assert(leaves@[j].branch != branch);
    }
    false
}

fn is_awaited(pending: &Vec<PendingLayout>, branch: NodeKey) -> (r: bool)
    ensures
        r == awaits(pending_state(pending@), branch),
{
    let mut i: usize = 0;
    while i < pending.len()
        invariant
            i <= pending@.len(),
            forall|j: int| 0 <= j < i ==> (#[trigger] pending@[j]).branch != branch,
        decreases pending@.len() - i,
    {
        if pending[i].branch == branch {
            let ghost p = pending_state(pending@)[i as int];
            assert(p.branch == branch);
            return true;
        }
        i = i + 1;
    }
    assert forall|j: int| 0 <= j < pending@.len() implies (#[trigger] pending_state(
        pending@,
    )[j]).branch != branch by {
        assert(pending@[j].branch != branch);
    }
    false
}

fn contains_key(keys: &Vec<NodeKey>, key: NodeKey) -> (r: bool)
    ensures
        r == keys@.contains(key),
{
    crate::seat::position_of(keys, key).is_some()
}

pub(crate) fn same_path(a: &Vec<usize>, b: &Vec<usize>) -> (r: bool)
    ensures
        r == (a@ == b@),
{
    if a.len() != b.len() {
        return false;
    }
    let mut i: usize = 0;
    while i < a.len()
        invariant
            i <= a@.len(),
            a@.len() == b@.len(),
            forall|j: int| 0 <= j < i ==> a@[j] == b@[j],
        decreases a@.len() - i,
    {
        if a[i] != b[i] {
            assert(a@[i as int] != b@[i as int]);
            return false;
        }
        i = i + 1;
    }
    assert(a@ =~= b@);
    true
}

impl ContainerArena {
    /// Whether some pending snapshot no longer covers exactly the windows of its branch.
    pub fn pending_layout_is_stale(&self) -> (r: bool)
        requires
            self.wf(),
        ensures
            r == exists|i: int|
                0 <= i < self@.caches.pending.len() && !self@.covers(
                    #[trigger] self@.caches.pending[i],
                ),
    {
        let keys = self.dfs_leaf_keys();
        let pending = &self.cache().pending_layouts;
        let ghost all = pending_state(pending@);
        let mut i: usize = 0;
        while i < pending.len()
            invariant
                self.wf(),
                i <= pending@.len(),
                keys@ == self@.all_leaves(),
                all == pending_state(pending@),
                all == self@.caches.pending,
                forall|j: int| 0 <= j < i ==> self@.covers(#[trigger] all[j]),
            decreases pending@.len() - i,
        {
            assert(all[i as int] == pending@[i as int]@);
            if !self.snapshot_covers(&pending[i], &keys) {
                return true;
            }
            i = i + 1;
        }
        false
    }

    fn snapshot_covers(&self, pending: &PendingLayout, keys: &Vec<NodeKey>) -> (r: bool)
        requires
            self.wf(),
            keys@ == self@.all_leaves(),
        ensures
            r == self@.covers(pending@),
    {
        let leaves = &pending.data.leaf_layouts;
        let ghost all = leaves_state(leaves@);
        let mut i: usize = 0;
        while i < leaves.len()
            invariant
                self.wf(),
                i <= leaves@.len(),
                keys@ == self@.all_leaves(),
                all == leaves_state(leaves@),
                all == pending@.data.leaves,
                forall|j: int|
                    0 <= j < i ==> self@.names_live(#[trigger] all[j]) && all[j].branch
                        == pending.branch,
            decreases leaves@.len() - i,
        {
            let info = &leaves[i];
            assert(all[i as int] == info@);
            if !contains_key(keys, info.key) || self.branch_root(info.key) != info.branch
                || info.branch != pending.branch {
                return false;
            }
            i = i + 1;
        }
        let mut j: usize = 0;
        while j < keys.len()
            invariant
                self.wf(),
                j <= keys@.len(),
                keys@ == self@.all_leaves(),
                all == leaves_state(leaves@),
                all == pending@.data.leaves,
                forall|n: int|
                    #![trigger self@.all_leaves()[n]]
                    0 <= n < j && self@.branch(self@.all_leaves()[n]) == pending.branch
                        ==> described_in(all, self@.all_leaves()[n], pending.branch),
            decreases keys@.len() - j,
        {
            let key = keys[j];
            assert(self@.all_leaves()[j as int] == key);
            if self.branch_root(key) == pending.branch && !is_described_in(
                leaves,
                key,
                pending.branch,
            ) {
                return false;
            }
            j = j + 1;
        }
        true
    }

    /// Whether a snapshot still addresses the branches it describes.
    fn pending_layout_addresses_are_current(&self, leaves: &Vec<LeafLayoutInfo>) -> (r: bool)
        requires
            self.wf(),
        ensures
            r == self@.addresses(leaves_state(leaves@)),
    {
        let keys = self.dfs_leaf_keys();
        let ghost all = leaves_state(leaves@);
        let mut i: usize = 0;
        while i < leaves.len()
            invariant
                self.wf(),
                i <= leaves@.len(),
                keys@ == self@.all_leaves(),
                all == leaves_state(leaves@),
                forall|j: int|
                    0 <= j < i ==> self@.names_live(#[trigger] all[j]) && self@.address(
                        all[j].key,
                    ) == all[j].path,
            decreases leaves@.len() - i,
        {
            let info = &leaves[i];
            assert(all[i as int] == info@);
            if !contains_key(&keys, info.key) || self.branch_root(info.key) != info.branch {
                return false;
            }
            match self.branch_relative_path(info.key) {
                Some(path) => {
                    if !same_path(&path, &info.path) {
                        return false;
                    }
                },
                None => {
                    proof {
                        let n = choose|n: int| 0 <= n < keys@.len() && keys@[n] == info.key;
                        crate::arrange::lemma_all_leaves_live(self@, n);
                    }
                    return false;
                },
            }
            i = i + 1;
        }
        let mut j: usize = 0;
        while j < keys.len()
            invariant
                self.wf(),
                j <= keys@.len(),
                keys@ == self@.all_leaves(),
                all == leaves_state(leaves@),
                forall|n: int|
                    #![trigger self@.all_leaves()[n]]
                    0 <= n < j && describes_branch(all, self@.branch(self@.all_leaves()[n]))
                        ==> described_in(
                        all,
                        self@.all_leaves()[n],
                        self@.branch(self@.all_leaves()[n]),
                    ),
            decreases keys@.len() - j,
        {
            let key = keys[j];
            assert(self@.all_leaves()[j as int] == key);
            let branch = self.branch_root(key);
            if is_branch_described(leaves, branch) && !is_described_in(leaves, key, branch) {
                return false;
            }
            j = j + 1;
        }
        true
    }
}

/// The entries of one branch and the others, each in their sequence.
fn part_branch(leaves: Vec<LeafLayoutInfo>, branch: NodeKey) -> (r: (
    Vec<LeafLayoutInfo>,
    Vec<LeafLayoutInfo>,
))
    ensures
        leaves_state(r.0@) == of_branch(leaves_state(leaves@), branch),
        leaves_state(r.1@) == off_branch(leaves_state(leaves@), branch),
{
    let ghost all = leaves_state(leaves@);
    let mut rest = leaves;
    let mut mine: Vec<LeafLayoutInfo> = Vec::new();
    let mut others: Vec<LeafLayoutInfo> = Vec::new();
    let ghost mut i: int = 0;
    assert(all.take(0) =~= Seq::empty());
    assert(leaves_state(mine@) =~= Seq::empty());
    assert(leaves_state(others@) =~= Seq::empty());
    assert(leaves_state(rest@) =~= all.skip(0));
    while rest.len() > 0
        invariant
            0 <= i <= all.len(),
            leaves_state(rest@) == all.skip(i),
            leaves_state(mine@) == of_branch(all.take(i), branch),
            leaves_state(others@) == off_branch(all.take(i), branch),
        decreases rest@.len(),
    {
        let ghost before = rest@;
        let info = rest.remove(0);
        proof {
            assert(leaves_state(before).len() == all.skip(i).len());
            assert(leaves_state(before)[0] == info@);
            assert(all.skip(i)[0] == all[i]);
            assert(all.take(i + 1).drop_last() =~= all.take(i));
            assert(leaves_state(rest@) =~= all.skip(i + 1)) by {
                assert forall|j: int| 0 <= j < rest@.len() implies leaves_state(rest@)[j]
                    == all.skip(i + 1)[j] by {
                    assert(leaves_state(before)[j + 1] == all.skip(i)[j + 1]);
                }
            }
            assert(leaves_state(mine@.push(info)) =~= leaves_state(mine@).push(info@));
            assert(leaves_state(others@.push(info)) =~= leaves_state(others@).push(info@));
        }
        if info.branch == branch {
            mine.push(info);
        } else {
            others.push(info);
        }
        proof {
            i = i + 1;
        }
    }
    proof {
        assert(all.skip(i).len() == 0);
        assert(all.take(i) =~= all);
    }
    (mine, others)
}

/// Groups entries by branch in the order of `branches`.
fn sort_by_branch(leaves: Vec<LeafLayoutInfo>, branches: &Vec<NodeKey>) -> (r: Vec<LeafLayoutInfo>)
    ensures
        leaves_state(r@) == by_branch(leaves_state(leaves@), branches@),
{
    let ghost all = leaves_state(leaves@);
    let mut rest = leaves;
    let mut out: Vec<LeafLayoutInfo> = Vec::new();
    let mut i: usize = 0;
    assert(branches@.skip(0) =~= branches@);
    assert(leaves_state(out@) + by_branch(all, branches@) =~= by_branch(all, branches@));
    while i < branches.len()
        invariant
            i <= branches@.len(),
            by_branch(all, branches@) == leaves_state(out@) + by_branch(
                leaves_state(rest@),
                branches@.skip(i as int),
            ),
        decreases branches@.len() - i,
    {
        let ghost before = leaves_state(rest@);
        let ghost first = leaves_state(out@);
        let ghost old_out = out@;
        assert(branches@.skip(i as int).drop_first() =~= branches@.skip(i as int + 1));
        let (mine, others) = part_branch(rest, branches[i]);
        let mut mine = mine;
        let ghost mine_seq = mine@;
        out.append(&mut mine);
        rest = others;
        proof {
            assert(leaves_state(out@) =~= first + leaves_state(mine_seq));
            assert(first + (of_branch(before, branches@[i as int]) + by_branch(
                leaves_state(rest@),
                branches@.skip(i as int + 1),
            )) =~= (first + of_branch(before, branches@[i as int])) + by_branch(
                leaves_state(rest@),
                branches@.skip(i as int + 1),
            ));
        }
        i = i + 1;
    }
    let ghost front = out@;
    let ghost back = rest@;
    assert(branches@.skip(i as int).len() == 0);
    out.append(&mut rest);
    assert(leaves_state(out@) =~= leaves_state(front) + leaves_state(back));
    out
}

impl ContainerArena {
    /// The branches of the workspace: the tiled side, then the floating groups.
    fn branches(&self) -> (r: Vec<NodeKey>)
        ensures
            r@ == self@.branches(),
    {
        let mut out: Vec<NodeKey> = Vec::new();
        out.push(self.workspace_root());
        let mut roots = self.floating_roots();
        let ghost keys = roots@;
        out.append(&mut roots);
        assert(out@ =~= self@.branches());
        out
    }

    fn set_geometries(&mut self, boxes: &Vec<(NodeKey, Rect)>)
        requires
            old(self).wf(),
        ensures
            final(self).wf(),
            final(self)@ == old(self)@.with_geometries(boxes@),
            final(self)@.windows() == old(self)@.windows(),
            forall|k: NodeKey| #[trigger] final(self)@.loose(k) ==> old(self)@.loose(k),
            old(self)@.mentions_live() ==> final(self)@.mentions_live(),
    {
        let ghost t = self@;
        let mut i: usize = 0;
        assert(boxes@.take(0) =~= Seq::empty());
        while i < boxes.len()
            invariant
                self.wf(),
                forall|k: NodeKey| #[trigger] self@.loose(k) ==> old(self)@.loose(k),
                old(self)@.mentions_live() ==> self@.mentions_live(),
                self@.windows() == old(self)@.windows(),
                i <= boxes@.len(),
                self@ == t.with_geometries(boxes@.take(i as int)),
            decreases boxes@.len() - i,
        {
            assert(boxes@.take(i as int + 1).drop_last() =~= boxes@.take(i as int));
            let (key, rect) = boxes[i];
            if self.get_container(key).is_some() {
                self.set_geometry_of(key, rect);
            }
            i = i + 1;
        }
        assert(boxes@.take(i as int) =~= boxes@);
    }

    fn set_decors(&mut self, decors: &Vec<(NodeKey, LeafDecor)>)
        requires
            old(self).wf(),
        ensures
            final(self).wf(),
            final(self)@ == old(self)@.with_decors(decors@),
            final(self)@.windows() == old(self)@.windows(),
            forall|k: NodeKey| #[trigger] final(self)@.loose(k) ==> old(self)@.loose(k),
            old(self)@.mentions_live() ==> final(self)@.mentions_live(),
    {
        let ghost t = self@;
        let mut i: usize = 0;
        assert(decors@.take(0) =~= Seq::empty());
        while i < decors.len()
            invariant
                self.wf(),
                forall|k: NodeKey| #[trigger] self@.loose(k) ==> old(self)@.loose(k),
                old(self)@.mentions_live() ==> self@.mentions_live(),
                self@.windows() == old(self)@.windows(),
                i <= decors@.len(),
                self@ == t.with_decors(decors@.take(i as int)),
            decreases decors@.len() - i,
        {
            assert(decors@.take(i as int + 1).drop_last() =~= decors@.take(i as int));
            let (key, decor) = decors[i];
            if self.is_leaf(key) {
                self.set_decor_of(key, decor);
            }
            i = i + 1;
        }
        assert(decors@.take(i as int) =~= decors@);
    }

    fn outlasting(&self, leaves: Vec<LeafLayoutInfo>, branch: NodeKey, incoming: &Vec<
        LeafLayoutInfo,
    >) -> (r: Vec<LeafLayoutInfo>)
        ensures
            leaves_state(r@) == self@.outlasting(
                leaves_state(leaves@),
                branch,
                leaves_state(incoming@),
            ),
    {
        let ghost all = leaves_state(leaves@);
        let mut rest = leaves;
        let mut out: Vec<LeafLayoutInfo> = Vec::new();
        let ghost mut i: int = 0;
        assert(all.take(0) =~= Seq::empty());
        assert(leaves_state(out@) =~= Seq::empty());
        assert(leaves_state(rest@) =~= all.skip(0));
        while rest.len() > 0
            invariant
                0 <= i <= all.len(),
                leaves_state(rest@) == all.skip(i),
                leaves_state(out@) == self@.outlasting(
                    all.take(i),
                    branch,
                    leaves_state(incoming@),
                ),
            decreases rest@.len(),
        {
            let ghost before = rest@;
            let info = rest.remove(0);
            proof {
                assert(leaves_state(before).len() == all.skip(i).len());
            assert(leaves_state(before)[0] == info@);
                assert(all.skip(i)[0] == all[i]);
                assert(all.take(i + 1).drop_last() =~= all.take(i));
                assert(leaves_state(rest@) =~= all.skip(i + 1)) by {
                    assert forall|j: int| 0 <= j < rest@.len() implies leaves_state(rest@)[j]
                        == all.skip(i + 1)[j] by {
                        assert(leaves_state(before)[j + 1] == all.skip(i)[j + 1]);
                    }
                }
                assert(leaves_state(out@.push(info)) =~= leaves_state(out@).push(info@));
            }
            if info.branch != branch && !crate::arrange::describes(incoming, info.key)
                && self.holds_node(info.key) {
                out.push(info);
            }
            proof {
                i = i + 1;
            }
        }
        proof {
            assert(all.skip(i).len() == 0);
            assert(all.take(i) =~= all);
        }
        out
    }

    /// Commits the outcome of one pass: boxes and decorations are taken over, and the cached
    /// entries of the branch are replaced, kept in the order of the branches.
    pub fn apply_layout_data(&mut self, branch: NodeKey, data: LayoutData)
        requires
            old(self).wf(),
        ensures
            final(self).wf(),
            final(self)@ == old(self)@.applied(branch, data@),
            final(self)@.windows() == old(self)@.windows(),
            forall|k: NodeKey| #[trigger] final(self)@.loose(k) ==> old(self)@.loose(k),
            old(self)@.mentions_live() ==> final(self)@.mentions_live(),
    {
        self.set_geometries(&data.container_geometries);
        self.set_decors(&data.decors);
        let ghost t = self@;
        let branches = self.branches();
        let cache = self.take_cache();
        let ghost held = cache@;
        let kept = self.outlasting(cache.leaf_layouts, branch, &data.leaf_layouts);
        let mut leaves = kept;
        let ghost first = leaves@;
        let mut incoming = data.leaf_layouts;
        let ghost second = incoming@;
        leaves.append(&mut incoming);
        proof {
            assert(leaves_state(leaves@) =~= leaves_state(first) + leaves_state(second));
            lemma_outlasting_same(t, self@, held.leaves, branch, leaves_state(second));
        }
        let sorted = sort_by_branch(leaves, &branches);
        self.put_cache(
            LayoutCache {
                leaf_layouts: sorted,
                pending_layouts: cache.pending_layouts,
                pending_relayout: cache.pending_relayout,
                arrange: cache.arrange,
            },
        );
        proof {
            lemma_with_caches(t, self@.caches);
        }
    }

    fn want_relayout(&mut self)
        requires
            old(self).wf(),
        ensures
            final(self).wf(),
            final(self)@ == old(self)@.wanting_relayout(),
            final(self)@.windows() == old(self)@.windows(),
            forall|k: NodeKey| #[trigger] final(self)@.loose(k) ==> old(self)@.loose(k),
            old(self)@.mentions_live() ==> final(self)@.mentions_live(),
    {
        let ghost t = self@;
        let mut cache = self.take_cache();
        cache.pending_relayout = true;
        self.put_cache(cache);
        proof {
            lemma_with_caches(t, self@.caches);
        }
    }

    /// Commits every branch whose windows have answered. A branch still waiting keeps its
    /// place. Answers whether there was any.
    pub fn apply_pending_layouts_if_ready(&mut self) -> (r: bool)
        requires
            old(self).wf(),
        ensures
            final(self).wf(),
            r == (ready(old(self)@.caches.pending).len() > 0),
            final(self)@ == old(self)@.pending_settled(),
            final(self)@.windows() == old(self)@.windows(),
            forall|k: NodeKey| #[trigger] final(self)@.loose(k) ==> old(self)@.loose(k),
            old(self)@.mentions_live() ==> final(self)@.mentions_live(),
    {
        let ghost t = self@;
        let cache = self.take_cache();
        let ghost held = cache@;
        let (done, left) = part_pending(cache.pending_layouts);
        self.put_cache(
            LayoutCache {
                leaf_layouts: cache.leaf_layouts,
                pending_layouts: left,
                pending_relayout: cache.pending_relayout,
                arrange: cache.arrange,
            },
        );
        let ghost u = self@;
        proof {
            assert(u == t.with_caches(Caches { pending: waiting(t.caches.pending), ..t.caches }));
            lemma_with_caches(t, u.caches);
        }
        let any = done.len() > 0;
        let ghost all = pending_state(done@);
        let mut rest = done;
        let ghost mut i: int = 0;
        assert(all.take(0) =~= Seq::empty());
        assert(pending_state(rest@) =~= all.skip(0));
        while rest.len() > 0
            invariant
                self.wf(),
                forall|k: NodeKey| #[trigger] self@.loose(k) ==> old(self)@.loose(k),
                old(self)@.mentions_live() ==> self@.mentions_live(),
                self@.windows() == old(self)@.windows(),
                0 <= i <= all.len(),
                pending_state(rest@) == all.skip(i),
                self@ == u.settled(all.take(i)),
            decreases rest@.len(),
        {
            let ghost before = rest@;
            let pending = rest.remove(0);
            proof {
                assert(pending_state(before).len() == all.skip(i).len());
                assert(pending_state(before)[0] == pending@);
                assert(all.skip(i)[0] == all[i]);
                assert(all.take(i + 1).drop_last() =~= all.take(i));
                assert(pending_state(rest@) =~= all.skip(i + 1)) by {
                    assert forall|j: int| 0 <= j < rest@.len() implies pending_state(rest@)[j]
                        == all.skip(i + 1)[j] by {
                        assert(pending_state(before)[j + 1] == all.skip(i)[j + 1]);
                    }
                }
            }
            if self.pending_layout_addresses_are_current(&pending.data.leaf_layouts) {
                self.apply_layout_data(pending.branch, pending.data);
            } else {
                self.want_relayout();
            }
            proof {
                i = i + 1;
            }
        }
        proof {
            assert(all.skip(i).len() == 0);
            assert(all.take(i) =~= all);
        }
        any
    }

    /// Commits every branch whose windows have answered, and if there was any, asks for the
    /// arrange that was wanted meanwhile. Answers whether there was any.
    pub fn catch_up(&mut self) -> (r: bool)
        requires
            old(self).wf(),
        ensures
            final(self).wf(),
            r == (ready(old(self)@.caches.pending).len() > 0),
            final(self)@ == old(self)@.caught_up(),
            final(self)@.windows() == old(self)@.windows(),
            forall|k: NodeKey| #[trigger] final(self)@.loose(k) ==> old(self)@.loose(k),
            old(self)@.mentions_live() ==> final(self)@.mentions_live(),
    {
        let any = self.apply_pending_layouts_if_ready();
        if any && self.take_pending_relayout() {
            self.layout();
        }
        any
    }

    /// Takes note that the windows of a branch have answered.
    pub fn release_pending(&mut self, branch: NodeKey)
        requires
            old(self).wf(),
        ensures
            final(self).wf(),
            final(self)@ == old(self)@.with_caches(
                (Caches {
                    pending: released(old(self)@.caches.pending, branch),
                    ..old(self)@.caches
                }),
            ),
            final(self)@.windows() == old(self)@.windows(),
            forall|k: NodeKey| #[trigger] final(self)@.loose(k) ==> old(self)@.loose(k),
            old(self)@.mentions_live() ==> final(self)@.mentions_live(),
    {
        let ghost t = self@;
        let mut cache = self.take_cache();
        let ghost before = cache;
        let mut i: usize = 0;
        while i < cache.pending_layouts.len()
            invariant
                i <= cache.pending_layouts@.len(),
                cache.pending_layouts@.len() == before.pending_layouts@.len(),
                cache.leaf_layouts == before.leaf_layouts,
                cache.pending_relayout == before.pending_relayout,
                cache.arrange == before.arrange,
                forall|j: int|
                    i <= j < cache.pending_layouts@.len() ==> #[trigger]
                    cache.pending_layouts@[j] == before.pending_layouts@[j],
                forall|j: int|
                    0 <= j < i ==> (#[trigger] cache.pending_layouts@[j])@ == released(
                        before@.pending,
                        branch,
                    )[j],
            decreases cache.pending_layouts@.len() - i,
        {
            assert(cache.pending_layouts@[i as int] == before.pending_layouts@[i as int]);
            if cache.pending_layouts[i].branch == branch {
                cache.pending_layouts[i].released = true;
            }
            i = i + 1;
        }
        assert(pending_state(cache.pending_layouts@) =~= released(before@.pending, branch));
        self.put_cache(cache);
        proof {
            lemma_with_caches(t, self@.caches);
        }
    }
}

/// The pending arranges with those of a branch answered.
pub open spec fn released(pending: Seq<Pending>, branch: NodeKey) -> Seq<Pending> {
    Seq::new(
        pending.len(),
        |i: int|
            if pending[i].branch == branch {
                Pending { released: true, ..pending[i] }
            } else {
                pending[i]
            },
    )
}

/// The answered arranges and the waiting ones, each in their sequence.
fn part_pending(pending: Vec<PendingLayout>) -> (r: (Vec<PendingLayout>, Vec<PendingLayout>))
    ensures
        pending_state(r.0@) == ready(pending_state(pending@)),
        pending_state(r.1@) == waiting(pending_state(pending@)),
{
    let ghost all = pending_state(pending@);
    let mut rest = pending;
    let mut done: Vec<PendingLayout> = Vec::new();
    let mut left: Vec<PendingLayout> = Vec::new();
    let ghost mut i: int = 0;
    assert(all.take(0) =~= Seq::empty());
    assert(pending_state(done@) =~= Seq::empty());
    assert(pending_state(left@) =~= Seq::empty());
    assert(pending_state(rest@) =~= all.skip(0));
    while rest.len() > 0
        invariant
            0 <= i <= all.len(),
            pending_state(rest@) == all.skip(i),
            pending_state(done@) == ready(all.take(i)),
            pending_state(left@) == waiting(all.take(i)),
        decreases rest@.len(),
    {
        let ghost before = rest@;
        let entry = rest.remove(0);
        proof {
            assert(pending_state(before).len() == all.skip(i).len());
            assert(pending_state(before)[0] == entry@);
            assert(all.skip(i)[0] == all[i]);
            assert(all.take(i + 1).drop_last() =~= all.take(i));
            assert(pending_state(rest@) =~= all.skip(i + 1)) by {
                assert forall|j: int| 0 <= j < rest@.len() implies pending_state(rest@)[j]
                    == all.skip(i + 1)[j] by {
                    assert(pending_state(before)[j + 1] == all.skip(i)[j + 1]);
                }
            }
            assert(pending_state(done@.push(entry)) =~= pending_state(done@).push(entry@));
            assert(pending_state(left@.push(entry)) =~= pending_state(left@).push(entry@));
        }
        if entry.released {
            done.push(entry);
        } else {
            left.push(entry);
        }
        proof {
            i = i + 1;
        }
    }
    proof {
        assert(all.skip(i).len() == 0);
        assert(all.take(i) =~= all);
    }
    (done, left)
}

/// Which entries outlast a commit depends on the nodes alone.
proof fn lemma_outlasting_same(
    t: Tree,
    u: Tree,
    leaves: Seq<LeafInfo>,
    branch: NodeKey,
    incoming: Seq<LeafInfo>,
)
    requires
        t.nodes == u.nodes,
    ensures
        t.outlasting(leaves, branch, incoming) == u.outlasting(leaves, branch, incoming),
    decreases leaves.len(),
{
    if leaves.len() > 0 {
        lemma_outlasting_same(t, u, leaves.drop_last(), branch, incoming);
    }
}

/// The request of a window, from the first entry of it.
pub open spec fn request_in(requests: Seq<(NodeKey, LayoutRequest)>, k: NodeKey) -> Option<
    LayoutRequest,
>
    decreases requests.len(),
{
    if requests.len() == 0 {
        None
    } else if requests[0].0 == k {
        Some(requests[0].1)
    } else {
        request_in(requests.drop_first(), k)
    }
}

fn find_request(requests: &Vec<(NodeKey, LayoutRequest)>, key: NodeKey) -> (r: Option<
    LayoutRequest,
>)
    ensures
        r == request_in(requests@, key),
{
    let mut i: usize = 0;
    assert(requests@.skip(0) =~= requests@);
    while i < requests.len()
        invariant
            i <= requests@.len(),
            request_in(requests@, key) == request_in(requests@.skip(i as int), key),
        decreases requests@.len() - i,
    {
        assert(requests@.skip(i as int).drop_first() =~= requests@.skip(i as int + 1));
        if requests[i].0 == key {
            return Some(requests[i].1);
        }
        i = i + 1;
    }
    None
}

impl Tree {
    /// The windows of a pass that have to change: those not in the tree, and those whose
    /// request is not the one their cached entry stands for.
    pub open spec fn changed_keys(
        self,
        leaves: Seq<LeafInfo>,
        current: Seq<(NodeKey, LayoutRequest)>,
        next: Seq<(NodeKey, LayoutRequest)>,
    ) -> Seq<NodeKey>
        decreases leaves.len(),
    {
        if leaves.len() == 0 {
            Seq::empty()
        } else {
            let rest = self.changed_keys(leaves.drop_last(), current, next);
            let k = leaves.last().key;
            let same = self.is_view(k) && crate::arrange::listed(self.caches.leaves, k)
                && request_in(current, k) is Some && request_in(current, k) == request_in(next, k);
            if same {
                rest
            } else {
                rest.push(k)
            }
        }
    }

    /// The parents below a node, each before its children.
    pub open spec fn layout_parents(self, k: NodeKey) -> Seq<NodeKey>
        decreases crate::tree::room(self.parents, k), self.kids(k).len() + 2,
        when self.wf()
    {
        if self.is_parent(k) {
            seq![k] + self.layout_parents_from(k, 0)
        } else {
            Seq::empty()
        }
    }

    pub open spec fn layout_parents_from(self, k: NodeKey, i: int) -> Seq<NodeKey>
        decreases crate::tree::room(self.parents, k), self.kids(k).len() - i + 1,
        when self.wf()
    {
        proof {
            if 0 <= i < self.kids(k).len() {
                assert(self.parents.contains_key(self.nodes[k].children[i]));
                crate::tree::lemma_depth(self.parents, self.kids(k)[i]);
            }
        }
        if 0 <= i < self.kids(k).len() {
            self.layout_parents(self.kids(k)[i]) + self.layout_parents_from(k, i + 1)
        } else {
            Seq::empty()
        }
    }
}

impl ContainerArena {
    /// What a window is asked for: to fill the output when it is fullscreen, else the size its
    /// tile comes to.
    pub fn layout_request_for(tile: &Tile, window_size: IntSize, output_size: IntSize) -> (r:
        LayoutRequest)
        ensures
            r == if tile@.window.sizing_mode is Fullscreen {
                LayoutRequest { fullscreen: true, size: output_size }
            } else {
                LayoutRequest { fullscreen: false, size: window_size }
            },
    {
        if tile.window.sizing_mode == SizingMode::Fullscreen {
            LayoutRequest { fullscreen: true, size: output_size }
        } else {
            LayoutRequest { fullscreen: false, size: window_size }
        }
    }

    /// The windows of a pass that have to change. `current` holds the requests the cached
    /// entries stand for, `next` those of the pass.
    pub fn changed_layout_keys(
        &self,
        data: &LayoutData,
        current: &Vec<(NodeKey, LayoutRequest)>,
        next: &Vec<(NodeKey, LayoutRequest)>,
    ) -> (r: Vec<NodeKey>)
        ensures
            r@ == self@.changed_keys(data@.leaves, current@, next@),
    {
        let leaves = &data.leaf_layouts;
        let ghost all = leaves_state(leaves@);
        let mut out: Vec<NodeKey> = Vec::new();
        let mut i: usize = 0;
        assert(all.take(0) =~= Seq::empty());
        while i < leaves.len()
            invariant
                i <= leaves@.len(),
                all == leaves_state(leaves@),
                out@ == self@.changed_keys(all.take(i as int), current@, next@),
            decreases leaves@.len() - i,
        {
            assert(all.take(i as int + 1).drop_last() =~= all.take(i as int));
            assert(all.take(i as int + 1).last() == leaves@[i as int]@);
            let key = leaves[i].key;
            let before = find_request(current, key);
            let same = self.is_leaf(key) && crate::arrange::describes(
                &self.cache().leaf_layouts,
                key,
            ) && before.is_some() && before == find_request(next, key);
            if !same {
                out.push(key);
            }
            i = i + 1;
        }
        assert(all.take(i as int) =~= all);
        out
    }

    /// The parents below a node, each before its children: the order shares are resolved in.
    pub fn layout_parents_under(&self, key: NodeKey) -> (r: Vec<NodeKey>)
        requires
            self.wf(),
        ensures
            r@ == self@.layout_parents(key),
    {
        let mut out: Vec<NodeKey> = Vec::new();
        self.collect_layout_parents(key, &mut out);
        assert(out@ =~= self@.layout_parents(key));
        out
    }

    fn collect_layout_parents(&self, key: NodeKey, out: &mut Vec<NodeKey>)
        requires
            self.wf(),
        ensures
            final(out)@ == old(out)@ + self@.layout_parents(key),
        decreases crate::tree::room(self@.parents, key),
    {
        let ghost before = out@;
        let count: usize = match self.get_container(key) {
            Some(container) => container.child_count(),
            None => {
                assert(before + Seq::<NodeKey>::empty() =~= before);
                return;
            },
        };
        out.push(key);
        let mut i: usize = 0;
        assert(out@ + self@.layout_parents_from(key, 0) =~= before + self@.layout_parents(key));
        while i < count
            invariant
                self.wf(),
                i <= count,
                count == self@.kids(key).len(),
                out@ + self@.layout_parents_from(key, i as int) == before + self@.layout_parents(
                    key,
                ),
            decreases count - i,
        {
            let child = match self.get_container(key) {
                Some(container) => match container.child_key(i) {
                    Some(child) => child,
                    None => {
                        return;
                    },
                },
                None => {
                    return;
                },
            };
            proof {
                assert(self@.parents.contains_key(self@.nodes[key].children[i as int]));
                crate::tree::lemma_depth(self@.parents, child);
            }
            let ghost sofar = out@;
            self.collect_layout_parents(child, out);
            assert(sofar + (self@.layout_parents(child) + self@.layout_parents_from(
                key,
                i as int + 1,
            )) =~= (sofar + self@.layout_parents(child)) + self@.layout_parents_from(
                key,
                i as int + 1,
            ));
            i = i + 1;
        }
        assert(out@ + Seq::<NodeKey>::empty() =~= out@);
    }

    fn set_total_of(&mut self, keys: &Vec<NodeKey>, layout: crate::axis::Layout, total: Real)
        requires
            old(self).wf(),
        ensures
            final(self).wf(),
            final(self)@ == old(self)@.with_total_of(keys@, layout, total),
            final(self)@.windows() == old(self)@.windows(),
            forall|k: NodeKey| #[trigger] final(self)@.loose(k) ==> old(self)@.loose(k),
            old(self)@.mentions_live() ==> final(self)@.mentions_live(),
    {
        let ghost t = self@;
        let mut i: usize = 0;
        assert(keys@.take(0) =~= Seq::empty());
        while i < keys.len()
            invariant
                self.wf(),
                forall|k: NodeKey| #[trigger] self@.loose(k) ==> old(self)@.loose(k),
                old(self)@.mentions_live() ==> self@.mentions_live(),
                self@.windows() == old(self)@.windows(),
                i <= keys@.len(),
                self@ == t.with_total_of(keys@.take(i as int), layout, total),
            decreases keys@.len() - i,
        {
            assert(keys@.take(i as int + 1).drop_last() =~= keys@.take(i as int));
            self.set_node_child_total(keys[i], layout, total);
            i = i + 1;
        }
        assert(keys@.take(i as int) =~= keys@);
    }

    /// Records the span each split divided among its children on the children.
    pub fn record_child_totals(&mut self, totals: &Vec<(NodeKey, Real)>, branch: NodeKey)
        requires
            old(self).wf(),
        ensures
            final(self).wf(),
            final(self)@ == old(self)@.with_totals(totals@, branch),
            final(self)@.windows() == old(self)@.windows(),
            forall|k: NodeKey| #[trigger] final(self)@.loose(k) ==> old(self)@.loose(k),
            old(self)@.mentions_live() ==> final(self)@.mentions_live(),
    {
        let ghost t = self@;
        let mut i: usize = 0;
        assert(totals@.take(0) =~= Seq::empty());
        while i < totals.len()
            invariant
                self.wf(),
                forall|k: NodeKey| #[trigger] self@.loose(k) ==> old(self)@.loose(k),
                old(self)@.mentions_live() ==> self@.mentions_live(),
                self@.windows() == old(self)@.windows(),
                i <= totals@.len(),
                self@ == t.with_totals(totals@.take(i as int), branch),
            decreases totals@.len() - i,
        {
            assert(totals@.take(i as int + 1).drop_last() =~= totals@.take(i as int));
            let (parent, total) = totals[i];
            let layout = match self.get_container(parent) {
                Some(container) => if container.layout().is_split_layout() && self.branch_root(
                    parent,
                ) == branch {
                    Some(container.layout())
                } else {
                    None
                },
                None => None,
            };
            if let Some(layout) = layout {
                let kids = self.child_keys_of(parent);
                self.set_total_of(&kids, layout, total);
            }
            i = i + 1;
        }
        assert(totals@.take(i as int) =~= totals@);
    }

    fn request_sizes_for_layout(&mut self, leaves: &Vec<LeafLayoutInfo>, animate: bool)
        requires
            old(self).wf(),
        ensures
            final(self).wf(),
            final(self)@ == old(self)@.sized(leaves_state(leaves@), animate),
            final(self)@.windows() == old(self)@.windows(),
            forall|k: NodeKey| #[trigger] final(self)@.loose(k) ==> old(self)@.loose(k),
            old(self)@.mentions_live() ==> final(self)@.mentions_live(),
    {
        let ghost t = self@;
        let ghost all = leaves_state(leaves@);
        let mut i: usize = 0;
        assert(all.take(0) =~= Seq::empty());
        while i < leaves.len()
            invariant
                self.wf(),
                forall|k: NodeKey| #[trigger] self@.loose(k) ==> old(self)@.loose(k),
                old(self)@.mentions_live() ==> self@.mentions_live(),
                self@.windows() == old(self)@.windows(),
                i <= leaves@.len(),
                all == leaves_state(leaves@),
                self@ == t.sized(all.take(i as int), animate),
            decreases leaves@.len() - i,
        {
            assert(all.take(i as int + 1).drop_last() =~= all.take(i as int));
            assert(all.take(i as int + 1).last() == leaves@[i as int]@);
            let key = leaves[i].key;
            let fullscreen = match self.get_tile(key) {
                Some(tile) => Some(tile.window.sizing_mode == SizingMode::Fullscreen),
                None => None,
            };
            if let Some(fullscreen) = fullscreen {
                if fullscreen {
                    self.ask(key, TileRequest::Fullscreen { animate });
                } else {
                    self.ask(
                        key,
                        TileRequest::TileSize { tile_size: leaves[i].rect.size, animate },
                    );
                }
            }
            i = i + 1;
        }
        assert(all.take(i as int) =~= all);
    }

    fn commit_pass(&mut self, pass: BranchLayout, animate: bool)
        requires
            old(self).wf(),
        ensures
            final(self).wf(),
            final(self)@ == old(self)@.with_totals(pass@.totals, pass@.branch).committed_unheld(
                pass@,
                animate,
            ),
            final(self)@.windows() == old(self)@.windows(),
            forall|k: NodeKey| #[trigger] final(self)@.loose(k) ==> old(self)@.loose(k),
            old(self)@.mentions_live() ==> final(self)@.mentions_live(),
    {
        self.record_child_totals(&pass.totals, pass.branch);
        let changed = self.changed_layout_keys(&pass.data, &pass.current, &pass.next);
        if changed.len() == 0 {
            self.apply_layout_data(pass.branch, pass.data);
            return;
        }
        self.request_sizes_for_layout(&pass.data.leaf_layouts, animate);
        let ghost u = self@;
        let mut cache = self.take_cache();
        let released = pass.released;
        let ghost before = cache.pending_layouts@;
        let entry = PendingLayout { branch: pass.branch, data: pass.data, released };
        cache.pending_layouts.push(entry);
        assert(pending_state(before.push(entry)) =~= pending_state(before).push(entry@));
        self.put_cache(cache);
        proof {
            lemma_with_caches(u, self@.caches);
        }
        if released {
            self.apply_pending_layouts_if_ready();
        }
    }

    /// Commits the passes of an arrange, or holds back those whose windows have yet to answer.
    /// Every cached window then gets the address it has now.
    pub fn commit_layout(&mut self, passes: Vec<BranchLayout>, animate: bool)
        requires
            old(self).wf(),
        ensures
            final(self).wf(),
            final(self)@ == old(self)@.committed_passes(
                passes_state(passes@),
                old(self)@.caches.pending,
                animate,
            ).readdressed(),
            final(self)@.windows() == old(self)@.windows(),
            forall|k: NodeKey| #[trigger] final(self)@.loose(k) ==> old(self)@.loose(k),
            old(self)@.mentions_live() ==> final(self)@.mentions_live(),
    {
        let ghost t = self@;
        let ghost all = passes_state(passes@);
        let held = self.pending_branches();
        let mut rest = passes;
        let ghost mut i: int = 0;
        assert(all.take(0) =~= Seq::empty());
        assert(passes_state(rest@) =~= all.skip(0));
        while rest.len() > 0
            invariant
                self.wf(),
                forall|k: NodeKey| #[trigger] self@.loose(k) ==> old(self)@.loose(k),
                old(self)@.mentions_live() ==> self@.mentions_live(),
                self@.windows() == old(self)@.windows(),
                0 <= i <= all.len(),
                passes_state(rest@) == all.skip(i),
                forall|b: NodeKey| #[trigger] held@.contains(b) <==> awaits(t.caches.pending, b),
                self@ == t.committed_passes(all.take(i), t.caches.pending, animate),
            decreases rest@.len(),
        {
            let ghost before = rest@;
            let pass = rest.remove(0);
            proof {
                assert(passes_state(before).len() == all.skip(i).len());
                assert(passes_state(before)[0] == pass@);
                assert(all.skip(i)[0] == all[i]);
                assert(all.take(i + 1).drop_last() =~= all.take(i));
                assert(passes_state(rest@) =~= all.skip(i + 1)) by {
                    assert forall|j: int| 0 <= j < rest@.len() implies passes_state(rest@)[j]
                        == all.skip(i + 1)[j] by {
                        assert(passes_state(before)[j + 1] == all.skip(i)[j + 1]);
                    }
                }
            }
            if contains_key(&held, pass.branch) {
                self.want_relayout();
            } else {
                self.commit_pass(pass, animate);
            }
            proof {
                i = i + 1;
            }
        }
        proof {
            assert(all.skip(i).len() == 0);
            assert(all.take(i) =~= all);
        }
        self.readdress_leaf_layouts();
    }

    /// The branches that wait for their windows.
    pub fn pending_branches(&self) -> (r: Vec<NodeKey>)
        ensures
            forall|b: NodeKey| #[trigger] r@.contains(b) <==> awaits(self@.caches.pending, b),
    {
        let pending = &self.cache().pending_layouts;
        let ghost all = pending_state(pending@);
        let mut out: Vec<NodeKey> = Vec::new();
        let mut i: usize = 0;
        while i < pending.len()
            invariant
                i <= pending@.len(),
                all == pending_state(pending@),
                out@.len() == i,
                forall|j: int| 0 <= j < i ==> #[trigger] out@[j] == all[j].branch,
            decreases pending@.len() - i,
        {
            assert(all[i as int] == pending@[i as int]@);
            out.push(pending[i].branch);
            i = i + 1;
        }
        assert forall|b: NodeKey| #[trigger] out@.contains(b) <==> awaits(all, b) by {
            if out@.contains(b) {
                let j = choose|j: int| 0 <= j < out@.len() && out@[j] == b;
                assert(all[j].branch == b);
            }
            if awaits(all, b) {
                let j = choose|j: int| 0 <= j < all.len() && (#[trigger] all[j]).branch == b;
                assert(out@[j] == b);
            }
        }
        out
    }

    /// Starts an arrange and answers with what it is to do, or with nothing when the workspace
    /// is empty.
    pub fn begin_layout(&mut self, scope: ArrangeScope) -> (r: Option<LayoutPlan>)
        requires
            old(self).wf(),
        ensures
            final(self).wf(),
            final(self)@ == old(self)@.arrange_begun(),
            r is None <==> old(self)@.pending_settled().vacated(),
            r matches Some(plan) ==> plan.resolve@ == final(self)@.unheld(
                final(self)@.resolve_roots(scope),
            ) && plan.passes@ == final(self)@.arrange_passes(scope),
            final(self)@.windows() == old(self)@.windows(),
            forall|k: NodeKey| #[trigger] final(self)@.loose(k) ==> old(self)@.loose(k),
            old(self)@.mentions_live() ==> final(self)@.mentions_live(),
    {
        self.apply_pending_layouts_if_ready();
        let ghost t = self@;
        let empty = self.is_empty() && self.floating_root_count() == 0;
        let mut cache = self.take_cache();
        if empty {
            cache.leaf_layouts = Vec::new();
            cache.pending_layouts = Vec::new();
            cache.pending_relayout = false;
            assert(leaves_state(cache.leaf_layouts@) =~= Seq::empty());
            assert(pending_state(cache.pending_layouts@) =~= Seq::empty());
        } else {
            cache.pending_relayout = cache.pending_layouts.len() > 0;
        }
        self.put_cache(cache);
        proof {
            lemma_with_caches(t, self@.caches);
        }
        if empty {
            return None;
        }
        let roots = match scope {
            ArrangeScope::Workspace => self.branches(),
            ArrangeScope::Subtree(key) => {
                let mut one: Vec<NodeKey> = Vec::new();
                one.push(key);
                assert(one@ =~= seq![key]);
                one
            },
        };
        let resolve = self.unheld(&roots);
        let passes = self.plan_passes(scope);
        Some(LayoutPlan { resolve, passes })
    }

    fn unheld(&self, keys: &Vec<NodeKey>) -> (r: Vec<NodeKey>)
        requires
            self.wf(),
        ensures
            r@ == self@.unheld(keys@),
    {
        let mut out: Vec<NodeKey> = Vec::new();
        let mut i: usize = 0;
        assert(keys@.take(0) =~= Seq::empty());
        while i < keys.len()
            invariant
                self.wf(),
                i <= keys@.len(),
                out@ == self@.unheld(keys@.take(i as int)),
            decreases keys@.len() - i,
        {
            assert(keys@.take(i as int + 1).drop_last() =~= keys@.take(i as int));
            let key = keys[i];
            if !is_awaited(&self.cache().pending_layouts, self.branch_root(key)) {
                out.push(key);
            }
            i = i + 1;
        }
        assert(keys@.take(i as int) =~= keys@);
        out
    }

    fn plan_passes(&self, scope: ArrangeScope) -> (r: Vec<(NodeKey, ArrangeArea)>)
        requires
            self.wf(),
        ensures
            r@ == self@.arrange_passes(scope),
    {
        let mut out: Vec<(NodeKey, ArrangeArea)> = Vec::new();
        if let ArrangeScope::Subtree(key) = scope {
            if let Some(rect) = self.node_geometry(key) {
                out.push((key, ArrangeArea::Own(rect)));
            }
            assert(out@ =~= self@.arrange_passes(scope));
            return out;
        }
        if let Some(key) = self.fullscreen_key() {
            if self.holds_node(key) {
                let area = if self.is_leaf(key) {
                    ArrangeArea::Tiling
                } else {
                    ArrangeArea::Output
                };
                out.push((key, area));
                assert(out@ =~= self@.arrange_passes(scope));
                return out;
            }
        }
        out.push((self.workspace_root(), ArrangeArea::Tiling));
        let floating = self.floating();
        let mut i: usize = 0;
        while i < floating.len()
            invariant
                i <= floating@.len(),
                floating@ == self@.floating,
                out@.len() == i + 1,
                out@[0] == (self@.root, ArrangeArea::Tiling),
                forall|j: int|
                    0 < j <= i ==> #[trigger] out@[j] == (
                        floating@[j - 1].key,
                        ArrangeArea::Own(floating@[j - 1].geometry.target),
                    ),
            decreases floating@.len() - i,
        {
            out.push((floating[i].key, ArrangeArea::Own(floating[i].geometry.target)));
            i = i + 1;
        }
        assert(out@ =~= self@.arrange_passes(scope));
        out
    }

    // -----------------------------------------------------------------------------------------
    // Fullscreen and cached entries
    // -----------------------------------------------------------------------------------------

    /// The window that owns fullscreen itself; a fullscreen container has none.
    pub fn fullscreen_leaf_window_id(&self) -> (r: Option<WindowId>)
        ensures
            r == match self@.fullscreen {
                Some(f) => if self@.is_view(f) {
                    Some(self@.nodes[f].tile->0.window.id)
                } else {
                    None
                },
                None => None,
            },
    {
        match self.fullscreen_key() {
            Some(key) => match self.get_tile(key) {
                Some(tile) => Some(tile.window.id),
                None => None,
            },
            None => None,
        }
    }

    pub fn window_owns_fullscreen(&self, id: WindowId) -> (r: bool)
        ensures
            r == (self@.fullscreen matches Some(f) && self@.is_view(f)
                && self@.nodes[f].tile->0.window.id == id),
    {
        match self.fullscreen_leaf_window_id() {
            Some(current) => current == id,
            None => false,
        }
    }

    /// A window standing for whatever owns fullscreen: the one most recently focused in it.
    pub fn fullscreen_representative_window_id(&self) -> (r: Option<WindowId>)
        requires
            self.wf(),
        ensures
            r == match self@.fullscreen {
                Some(f) => match self@.inactive_view(f) {
                    Some(k) => if self@.is_view(k) {
                        Some(self@.nodes[k].tile->0.window.id)
                    } else {
                        None
                    },
                    None => None,
                },
                None => None,
            },
    {
        match self.fullscreen_key() {
            Some(key) => match self.focus_inactive_view(key) {
                Some(leaf) => match self.get_tile(leaf) {
                    Some(tile) => Some(tile.window.id),
                    None => None,
                },
                None => None,
            },
            None => None,
        }
    }

    /// The cached entries of the last committed arranges.
    pub fn leaf_layouts(&self) -> (r: &Vec<LeafLayoutInfo>)
        ensures
            leaves_state(r@) == self@.caches.leaves,
    {
        &self.cache().leaf_layouts
    }
}

} // verus!
