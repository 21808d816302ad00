//! The layout cache: where the last arrange put each window, and the arranges that still wait
//! for their windows to answer.

use crate::axis::NodeKey;
use crate::measure::{Real, Rect};
use vstd::prelude::*;

verus! {

/// Where a window was last arranged.
#[derive(Debug)]
pub struct LeafLayoutInfo {
    pub key: NodeKey,
    /// The root of the branch the window lives in: the workspace or a floating group.
    pub branch: NodeKey,
    /// The path of the window from the root of its branch.
    pub path: Vec<usize>,
    /// The box of the tile, decoration applied.
    pub rect: Rect,
    /// The box of the node itself.
    pub node_rect: Rect,
    pub visible: bool,
    /// Whether the box comes from the fullscreen branch of the arrange.
    pub workspace_fullscreen: bool,
}

/// The decoration a window is given by the containers around it.
#[derive(Debug, Clone, Copy, PartialEq, Eq, Structural)]
pub struct LeafDecor {
    pub tab_bar_offset: Real,
    pub draw_titlebar: bool,
    pub in_tabbed_context: bool,
}

/// The outcome of arranging one branch.
#[derive(Debug)]
pub struct LayoutData {
    pub leaf_layouts: Vec<LeafLayoutInfo>,
    pub container_geometries: Vec<(NodeKey, Rect)>,
    pub decors: Vec<(NodeKey, LeafDecor)>,
}

/// The arrange of one branch, held back until the windows it asked to resize have answered.
#[derive(Debug)]
pub struct PendingLayout {
    pub branch: NodeKey,
    pub data: LayoutData,
    pub released: bool,
}

/// What an arrange was asked to cover.
#[derive(Debug, Clone, Copy, PartialEq, Eq, Structural)]
pub enum ArrangeScope {
    /// The workspace with its floating groups.
    Workspace,
    /// The subtree of one container, in the box it holds.
    Subtree(NodeKey),
}

/// The cached arrange of a workspace and the arranges it waits for.
#[derive(Debug)]
pub struct LayoutCache {
    pub leaf_layouts: Vec<LeafLayoutInfo>,
    pub pending_layouts: Vec<PendingLayout>,
    /// Whether another arrange is wanted once the pending ones are done.
    pub pending_relayout: bool,
    /// The arranges that were asked for and not yet run, the oldest first.
    pub arrange: Vec<ArrangeScope>,
}

/// [`LeafLayoutInfo`] as a value.
pub struct LeafInfo {
    pub key: NodeKey,
    pub branch: NodeKey,
    pub path: Seq<usize>,
    pub rect: Rect,
    pub node_rect: Rect,
    pub visible: bool,
    pub workspace_fullscreen: bool,
}

/// [`LayoutData`] as a value.
pub struct Arrangement {
    pub leaves: Seq<LeafInfo>,
    pub boxes: Seq<(NodeKey, Rect)>,
    pub decors: Seq<(NodeKey, LeafDecor)>,
}

/// [`PendingLayout`] as a value.
pub struct Pending {
    pub branch: NodeKey,
    pub data: Arrangement,
    pub released: bool,
}

/// [`LayoutCache`] as a value.
pub struct Caches {
    pub leaves: Seq<LeafInfo>,
    pub pending: Seq<Pending>,
    pub relayout: bool,
    pub arrange: Seq<ArrangeScope>,
}

impl View for LeafLayoutInfo {
    type V = LeafInfo;

    open spec fn view(&self) -> LeafInfo {
        LeafInfo {
            key: self.key,
            branch: self.branch,
            path: self.path@,
            rect: self.rect,
            node_rect: self.node_rect,
            visible: self.visible,
            workspace_fullscreen: self.workspace_fullscreen,
        }
    }
}

pub open spec fn leaves_state(leaves: Seq<LeafLayoutInfo>) -> Seq<LeafInfo> {
    Seq::new(leaves.len(), |i: int| leaves[i]@)
}

impl View for LayoutData {
    type V = Arrangement;

    open spec fn view(&self) -> Arrangement {
        Arrangement {
            leaves: leaves_state(self.leaf_layouts@),
            boxes: self.container_geometries@,
            decors: self.decors@,
        }
    }
}

impl View for PendingLayout {
    type V = Pending;

    open spec fn view(&self) -> Pending {
        Pending { branch: self.branch, data: self.data@, released: self.released }
    }
}

pub open spec fn pending_state(pending: Seq<PendingLayout>) -> Seq<Pending> {
    Seq::new(pending.len(), |i: int| pending[i]@)
}

impl View for LayoutCache {
    type V = Caches;

    open spec fn view(&self) -> Caches {
        Caches {
            leaves: leaves_state(self.leaf_layouts@),
            pending: pending_state(self.pending_layouts@),
            relayout: self.pending_relayout,
            arrange: self.arrange@,
        }
    }
}

impl Caches {
    pub open spec fn empty() -> Caches {
        Caches {
            leaves: Seq::empty(),
            pending: Seq::empty(),
            relayout: false,
            arrange: Seq::empty(),
        }
    }

    /// The first cached entry of a window.
    pub open spec fn entry(self, key: NodeKey) -> Option<LeafInfo> {
        entry_of(self.leaves, key)
    }
}

/// The arranges asked for once `scope` is too. One asked for twice in a row is run once.
pub open spec fn requested(before: Seq<ArrangeScope>, scope: ArrangeScope) -> Seq<ArrangeScope> {
    if before.len() > 0 && before.last() == scope {
        before
    } else {
        before.push(scope)
    }
}

/// The first entry of `key` in `leaves`.
pub open spec fn entry_of(leaves: Seq<LeafInfo>, key: NodeKey) -> Option<LeafInfo>
    decreases leaves.len(),
{
    if leaves.len() == 0 {
        None
    } else if leaves[0].key == key {
        Some(leaves[0])
    } else {
        entry_of(leaves.drop_first(), key)
    }
}

impl LayoutCache {
    pub fn new() -> (r: Self)
        ensures
            r@ == Caches::empty(),
    {
        let r = LayoutCache {
            leaf_layouts: Vec::new(),
            pending_layouts: Vec::new(),
            pending_relayout: false,
            arrange: Vec::new(),
        };
        assert(r@.leaves =~= Seq::empty());
        assert(r@.pending =~= Seq::empty());
        assert(r@.arrange =~= Seq::empty());
        r
    }

    /// Takes note of an arrange that is asked for.
    pub fn request(&mut self, scope: ArrangeScope)
        ensures
            final(self)@ == (Caches { arrange: requested(old(self)@.arrange, scope), ..old(self)@ }),
    {
        let n: usize = self.arrange.len();
        if n > 0 && self.arrange[n - 1] == scope {
            return;
        }
        self.arrange.push(scope);
    }

    /// The box of the node itself, from the first cached entry of a window.
    pub fn node_rect_of(&self, key: NodeKey) -> (r: Option<Rect>)
        ensures
            r == match self@.entry(key) {
                Some(info) => Some(info.node_rect),
                None => None,
            },
    {
        let mut i: usize = 0;
        assert(self@.leaves.skip(0) =~= self@.leaves);
        while i < self.leaf_layouts.len()
            invariant
                i <= self.leaf_layouts.len(),
                self@.entry(key) == entry_of(self@.leaves.skip(i as int), key),
            decreases self.leaf_layouts.len() - i,
        {
            proof {
                assert(self@.leaves.skip(i as int).drop_first() =~= self@.leaves.skip(
                    i as int + 1,
                ));
                assert(self@.leaves.skip(i as int)[0] == self.leaf_layouts@[i as int]@);
            }
            if self.leaf_layouts[i].key == key {
                return Some(self.leaf_layouts[i].node_rect);
            }
            i = i + 1;
        }
        None
    }
}

} // verus!
