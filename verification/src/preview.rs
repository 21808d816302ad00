//! Where the next window would go, for showing a preview of it.

use crate::arena::ContainerArena;
use crate::axis::{Layout, NodeKey};
use crate::tree::Tree;
use vstd::prelude::*;

verus! {

/// One container on the way to the place of a new window.
#[derive(Debug, Clone, Copy, PartialEq, Eq, Structural)]
pub struct PreviewStep {
    pub parent: NodeKey,
    pub layout: Layout,
    pub child_count: usize,
    /// The child the way goes on through.
    pub child_idx: usize,
}

/// The place a new window would take: the way down to its parent and the slot there.
#[derive(Debug)]
pub struct PreviewSlot {
    pub steps: Vec<PreviewStep>,
    pub parent: NodeKey,
    pub layout: Layout,
    /// How many children the parent has before the window arrives.
    pub child_count: usize,
    pub insert_idx: usize,
}

/// [`PreviewSlot`] as a value.
pub struct Preview {
    pub steps: Seq<PreviewStep>,
    pub parent: NodeKey,
    pub layout: Layout,
    pub child_count: usize,
    pub insert_idx: usize,
}

impl View for PreviewSlot {
    type V = Preview;

    open spec fn view(&self) -> Preview {
        Preview {
            steps: self.steps@,
            parent: self.parent,
            layout: self.layout,
            child_count: self.child_count,
            insert_idx: self.insert_idx,
        }
    }
}

impl Tree {
    /// The address of the selection, else of the focused window, on the tiled side.
    pub open spec fn selected_address(self) -> Seq<usize> {
        match self.seat.selected {
            Some(k) if self.tiled_address(k) is Some => self.tiled_address(k)->0,
            _ => match self.effective_focus() {
                Some(k) => match self.tiled_address(k) {
                    Some(path) => path,
                    None => Seq::empty(),
                },
                None => Seq::empty(),
            },
        }
    }

    /// The containers along a path, if it leads through containers to one.
    pub open spec fn preview_steps(self, k: NodeKey, path: Seq<usize>) -> Option<
        (Seq<PreviewStep>, NodeKey),
    >
        decreases path.len(),
    {
        if path.len() == 0 {
            Some((Seq::empty(), k))
        } else if path[0] < self.kids(k).len() && !self.is_view(self.kids(k)[path[0] as int]) {
            match self.preview_steps(self.kids(k)[path[0] as int], path.drop_first()) {
                Some((rest, end)) => Some(
                    (
                        seq![
                            PreviewStep {
                                parent: k,
                                layout: self.nodes[k].layout,
                                child_count: self.kids(k).len() as usize,
                                child_idx: path[0],
                            },
                        ] + rest,
                        end,
                    ),
                ),
                None => None,
            }
        } else {
            None
        }
    }

    /// Where the next window would go: after the selection, among its siblings; at the end of
    /// the workspace when nothing tiled is selected; into the workspace when it is empty.
    pub open spec fn preview(self) -> Option<Preview> {
        let path = self.selected_address();
        if self.leaf_under(self.root) is None {
            Some(
                Preview {
                    steps: Seq::empty(),
                    parent: self.root,
                    layout: self.nodes[self.root].layout,
                    child_count: 0,
                    insert_idx: 0,
                },
            )
        } else {
            let (above, after) = if path.len() == 0 {
                (path, self.kids(self.root).len() as int)
            } else {
                (path.drop_last(), path.last() + 1)
            };
            match self.preview_steps(self.root, above) {
                Some((steps, p)) => if self.is_parent(p) {
                    let count = self.kids(p).len();
                    Some(
                        Preview {
                            steps,
                            parent: p,
                            layout: self.nodes[p].layout,
                            child_count: count as usize,
                            insert_idx: if after <= count {
                                after as usize
                            } else {
                                count as usize
                            },
                        },
                    )
                } else {
                    None
                },
                None => None,
            }
        }
    }
}

impl ContainerArena {
    fn preview_steps(&self, path: &Vec<usize>, count: usize) -> (r: Option<
        (Vec<PreviewStep>, NodeKey),
    >)
        requires
            self.wf(),
            count <= path@.len(),
        ensures
            r is Some <==> self@.preview_steps(self@.root, path@.take(count as int)) is Some,
            r matches Some((steps, end)) ==> self@.preview_steps(
                self@.root,
                path@.take(count as int),
            ) == Some((steps@, end)),
    {
        let ghost all = path@.take(count as int);
        let mut steps: Vec<PreviewStep> = Vec::new();
        let mut current = self.workspace_root();
        let mut i: usize = 0;
        proof {
            assert(all.skip(0) =~= all);
            if let Some((rest, end)) = self@.preview_steps(current, all) {
                assert(steps@ + rest =~= rest);
            }
        }
        while i < count
            invariant
                i <= count,
                count <= path@.len(),
                all == path@.take(count as int),
                match self@.preview_steps(current, all.skip(i as int)) {
                    Some((rest, end)) => self@.preview_steps(self@.root, all) == Some(
                        (steps@ + rest, end),
                    ),
                    None => self@.preview_steps(self@.root, all) is None,
                },
            decreases count - i,
        {
            proof {
                assert(all.skip(i as int)[0] == path@[i as int]);
                assert(all.skip(i as int).drop_first() =~= all.skip(i as int + 1));
            }
            let (layout, child_count, child) = match self.get_container(current) {
                Some(container) => match container.child_key(path[i]) {
                    Some(child) => (container.layout(), container.child_count(), child),
                    None => {
                        return None;
                    },
                },
                None => {
                    return None;
                },
            };
            if self.is_leaf(child) {
                return None;
            }
            let step = PreviewStep { parent: current, layout, child_count, child_idx: path[i] };
            let ghost before = steps@;
            steps.push(step);
            proof {
                if let Some((rest, end)) = self@.preview_steps(child, all.skip(i as int + 1)) {
                    assert(steps@ + rest =~= before + (seq![step] + rest));
                }
            }
            current = child;
            i = i + 1;
        }
        proof {
            assert(all.skip(i as int).len() == 0);
            assert(steps@ + Seq::<PreviewStep>::empty() =~= steps@);
        }
        Some((steps, current))
    }

    /// Where the next window would go.
    pub fn preview_new_leaf_slot(&self) -> (r: Option<PreviewSlot>)
        requires
            self.wf(),
        ensures
            r is Some <==> self@.preview() is Some,
            r matches Some(slot) ==> self@.preview() == Some(slot@),
    {
        if self.is_empty() {
            let slot = PreviewSlot {
                steps: Vec::new(),
                parent: self.workspace_root(),
                layout: self.root_container_layout(),
                child_count: 0,
                insert_idx: 0,
            };
            assert(slot@.steps =~= Seq::empty());
            return Some(slot);
        }
        let path = self.selected_path();
        let above: usize = if path.len() == 0 {
            0
        } else {
            path.len() - 1
        };
        proof {
            if path@.len() == 0 {
                assert(path@.take(0) =~= path@);
            } else {
                assert(path@.take(above as int) =~= path@.drop_last());
            }
        }
        let (steps, parent) = match self.preview_steps(&path, above) {
            Some(found) => found,
            None => {
                return None;
            },
        };
        match self.get_container(parent) {
            Some(container) => {
                let child_count: usize = container.child_count();
                let insert_idx: usize = if path.len() == 0 {
                    child_count
                } else {
                    let last: usize = path[path.len() - 1];
                    if last < child_count {
                        last + 1
                    } else {
                        child_count
                    }
                };
                Some(
                    PreviewSlot {
                        steps,
                        parent,
                        layout: container.layout(),
                        child_count,
                        insert_idx,
                    },
                )
            },
            None => None,
        }
    }
}

} // verus!
