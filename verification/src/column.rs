//! Top-level tiling containers under their older name.

use crate::axis::{Layout, NodeKey};
use crate::node::DetachedNode;
use crate::tile::{Tile, TileState, WindowId};
use vstd::prelude::*;

verus! {

/// A subtree on its way to the top level of a workspace.
#[derive(Debug)]
pub struct Column {
    subtree: DetachedNode,
}

/// The tiles of a list, as values.
pub open spec fn tiles_state(tiles: Seq<Tile>) -> Seq<TileState> {
    Seq::new(tiles.len(), |i: int| tiles[i]@)
}

impl View for Column {
    type V = DetachedNode;

    closed spec fn view(&self) -> DetachedNode {
        self.subtree
    }
}

/// The tiles of a container whose children are windows are the tiles of those windows.
proof fn lemma_row_of_views(node: DetachedNode, tiles: Seq<TileState>, i: int)
    requires
        node.children@.len() == tiles.len(),
        0 <= i <= tiles.len(),
        forall|j: int|
            0 <= j < tiles.len() ==> (#[trigger] node.children@[j]).tile_states() == seq![tiles[j]],
    ensures
        node.tile_states_from(i) == tiles.skip(i),
    decreases tiles.len() - i,
{
    if i < tiles.len() {
        lemma_row_of_views(node, tiles, i + 1);
        assert(node.children@[i].tile_states() == seq![tiles[i]]);
        assert(seq![tiles[i]] + tiles.skip(i + 1) =~= tiles.skip(i));
    } else {
        assert(tiles.skip(i) =~= Seq::empty());
    }
}

impl Column {
    /// A column of one window.
    pub fn new(tile: Tile) -> (r: Self)
        ensures
            r@.key == tile@.key,
            r@.tile matches Some(held) && held@ == tile@,
            r@.children@.len() == 0,
            r@.tile_states() == seq![tile@],
    {
        Column { subtree: DetachedNode::new_view(tile) }
    }

    /// A column of windows one below the other; a window alone needs no container around it.
    /// `key` is the identity of that container.
    pub fn from_tiles(key: NodeKey, tiles: Vec<Tile>) -> (r: Self)
        ensures
            r@.tile_states() == tiles_state(tiles@),
            tiles@.len() == 1 ==> r@.key == tiles@[0]@.key && r@.children@.len() == 0,
            tiles@.len() != 1 ==> r@.key == key && r@.tile is None && r@.layout == Layout::SplitV
                && r@.children@.len() == tiles@.len() && (forall|i: int|
                0 <= i < tiles@.len() ==> (#[trigger] r@.children@[i]).key == tiles@[i]@.key),
    {
        let ghost states = tiles_state(tiles@);
        let mut rest = tiles;
        if rest.len() == 1 {
            let tile = rest.pop().unwrap();
            assert(seq![tile@] =~= states);
            return Column::new(tile);
        }
        let mut nodes: Vec<DetachedNode> = Vec::new();
        let ghost all = rest@;
        while rest.len() > 0
            invariant
                rest@.len() + nodes@.len() == all.len(),
                states == tiles_state(all),
                rest@ == all.take(rest@.len() as int),
                forall|j: int|
                    0 <= j < nodes@.len() ==> (#[trigger] nodes@[j]).tile_states() == seq![
                        states[all.len() - 1 - j],
                    ] && nodes@[j].key == all[all.len() - 1 - j]@.key,
            decreases rest@.len(),
        {
            let ghost last = rest@.len() - 1;
            let tile = rest.pop().unwrap();
            assert(tile == all[last]);
            assert(rest@ =~= all.take(last));
            nodes.push(DetachedNode::new_view(tile));
        }
        let ghost backwards = nodes@;
        let mut children: Vec<DetachedNode> = Vec::new();
        while nodes.len() > 0
            invariant
                nodes@.len() + children@.len() == all.len(),
                backwards.len() == all.len(),
                nodes@ == backwards.take(nodes@.len() as int),
                forall|j: int|
                    0 <= j < children@.len() ==> #[trigger] children@[j] == backwards[all.len() - 1
                        - j],
            decreases nodes@.len(),
        {
            let ghost last = nodes@.len() - 1;
            let node = nodes.pop().unwrap();
            assert(node == backwards[last]);
            assert(nodes@ =~= backwards.take(last));
            children.push(node);
        }
        let ghost inner = children@;
        let subtree = DetachedNode::new_container(key, Layout::SplitV, children);
        proof {
            assert forall|j: int| 0 <= j < states.len() implies (
            #[trigger] subtree.children@[j]).tile_states() == seq![states[j]]
                && subtree.children@[j].key == all[j]@.key by {
                assert(inner[j] == backwards[all.len() - 1 - j]);
            }
            lemma_row_of_views(subtree, states, 0);
            assert(states.skip(0) =~= states);
        }
        Column { subtree }
    }

    /// The windows of the column, depth first.
    pub fn tiles(&self) -> (r: Vec<&Tile>)
        ensures
            r@.len() == self@.tile_states().len(),
            forall|i: int| 0 <= i < r@.len() ==> #[trigger] r@[i]@ == self@.tile_states()[i],
    {
        self.subtree.tiles()
    }

    /// Whether a window is in the column.
    pub fn contains(&self, window_id: WindowId) -> (r: bool)
        ensures
            r == exists|i: int|
                0 <= i < self@.tile_states().len() && #[trigger] self@.tile_states()[i].window.id
                    == window_id,
    {
        self.subtree.contains_window(window_id)
    }

    pub fn from_subtree(subtree: DetachedNode) -> (r: Self)
        ensures
            r@ == subtree,
    {
        Column { subtree }
    }

    pub fn into_subtree(self) -> (r: DetachedNode)
        ensures
            r == self@,
    {
        self.subtree
    }

    /// Takes the column apart into its windows, depth first.
    pub fn into_tiles(self) -> (r: Vec<Tile>)
        ensures
            tiles_state(r@) == self@.tile_states(),
    {
        let ghost whole = self@.tile_states();
        let tiles = self.subtree.into_tiles();
        assert(tiles_state(tiles@) =~= whole);
        tiles
    }
}

} // verus!
