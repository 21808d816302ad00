//! Which windows a tree holds.
//!
//! The commands on a tree state that the windows stay: only what brings a window in or takes one
//! out changes [`Tree::windows`], and by that window alone. They state as well that they leave no
//! node loose that was not, and that what is focused, selected and
//! fullscreen stays in the tree.

use crate::axis::NodeKey;
use crate::tile::WindowId;
use crate::tree::Tree;
use vstd::prelude::*;

verus! {

impl Tree {
    /// Whether a node hangs nowhere: neither in a child list nor on the floating stack.
    pub open spec fn loose(self, k: NodeKey) -> bool {
        self.has(k) && k != self.root && !self.parents.contains_key(k)
    }

    /// The window a node is, if it is one.
    pub open spec fn holding(self, k: NodeKey) -> Option<WindowId> {
        if self.is_view(k) {
            Some(self.nodes[k].tile->0.window.id)
        } else {
            None
        }
    }

    /// The focus names a window and the selection a node.
    pub open spec fn focus_live(self) -> bool {
        &&& (self.seat.leaf matches Some(k) ==> self.is_view(k))
        &&& (self.seat.selected matches Some(k) ==> self.has(k))
    }

    /// Fullscreen is owned by a node below the workspace.
    pub open spec fn fullscreen_live(self) -> bool {
        self.fullscreen matches Some(k) ==> self.has(k) && k != self.root
    }

    /// What the workspace names is in it: the focus, the selection, and what is fullscreen.
    #[verifier::opaque]
    pub open spec fn mentions_live(self) -> bool {
        self.focus_live() && self.fullscreen_live()
    }

    /// The windows the tree holds, each under its identity.
    #[verifier::opaque]
    pub open spec fn windows(self) -> Map<NodeKey, WindowId> {
        Map::new(|k: NodeKey| self.is_view(k), |k: NodeKey| self.nodes[k].tile->0.window.id)
    }
}

/// What [`Tree::windows`] says of a node.
pub proof fn lemma_windows(t: Tree, k: NodeKey)
    ensures
        t.windows().contains_key(k) <==> t.is_view(k),
        t.is_view(k) ==> t.windows()[k] == t.nodes[k].tile->0.window.id,
{
    reveal(Tree::windows);
}

/// Trees whose nodes hold the same windows hold the same windows.
pub proof fn lemma_same_windows(t: Tree, u: Tree)
    requires
        forall|k: NodeKey| #[trigger] u.holding(k) == t.holding(k),
    ensures
        u.windows() == t.windows(),
{
    reveal(Tree::windows);
    assert forall|k: NodeKey| u.is_view(k) == t.is_view(k) && (t.is_view(k)
        ==> u.nodes[k].tile->0.window.id == t.nodes[k].tile->0.window.id) by {
        assert(u.holding(k) == t.holding(k));
    }
    assert(u.windows() =~= t.windows());
}

/// A node that goes takes its window along.
pub proof fn lemma_window_removed(t: Tree, u: Tree, gone: NodeKey)
    requires
        !u.is_view(gone),
        forall|k: NodeKey| k != gone ==> #[trigger] u.holding(k) == t.holding(k),
    ensures
        u.windows() == t.windows().remove(gone),
{
    reveal(Tree::windows);
    assert forall|k: NodeKey| k != gone implies u.is_view(k) == t.is_view(k) && (t.is_view(k)
        ==> u.nodes[k].tile->0.window.id == t.nodes[k].tile->0.window.id) by {
        assert(u.holding(k) == t.holding(k));
    }
    assert(u.windows() =~= t.windows().remove(gone));
}

/// A node that comes brings its window along.
pub proof fn lemma_window_added(t: Tree, u: Tree, new: NodeKey)
    requires
        u.is_view(new),
        forall|k: NodeKey| k != new ==> #[trigger] u.holding(k) == t.holding(k),
    ensures
        u.windows() == t.windows().insert(new, u.nodes[new].tile->0.window.id),
{
    reveal(Tree::windows);
    assert forall|k: NodeKey| k != new implies u.is_view(k) == t.is_view(k) && (t.is_view(k)
        ==> u.nodes[k].tile->0.window.id == t.nodes[k].tile->0.window.id) by {
        assert(u.holding(k) == t.holding(k));
    }
    assert(u.windows() =~= t.windows().insert(new, u.nodes[new].tile->0.window.id));
}

} // verus!
