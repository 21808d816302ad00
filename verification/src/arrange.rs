//! Arranging the workspace: which branches a pass covers, what it says of each window and
//! container in them, and how its outcome is committed or held back.
//!
//! How a container's box is divided among its children is arithmetic on reals and is done
//! outside; the boxes it comes to are handed in, one for each node of the branch.

use crate::arena::ContainerArena;
use crate::axis::NodeKey;
use crate::cache::{leaves_state, Arrangement, LayoutData, LeafDecor, LeafInfo, LeafLayoutInfo};
use crate::measure::{Real, Rect};
use crate::paths::copy_path;
use crate::tile::SizingMode;
use crate::tree::{lemma_depth, room, Tree};
use vstd::prelude::*;

verus! {

/// The box of a node, from the first entry of it.
pub open spec fn box_in(boxes: Seq<(NodeKey, Rect)>, k: NodeKey) -> Rect
    decreases boxes.len(),
{
    if boxes.len() == 0 {
        Rect::spec_zero()
    } else if boxes[0].0 == k {
        boxes[0].1
    } else {
        box_in(boxes.drop_first(), k)
    }
}

/// What a pass over one branch is given: the branch, the boxes of its nodes and the height of
/// the title bar of windows in splits.
pub struct Given {
    pub branch: NodeKey,
    pub boxes: Seq<(NodeKey, Rect)>,
    pub bar: Real,
}

impl Arrangement {
    pub open spec fn nothing() -> Arrangement {
        Arrangement { leaves: Seq::empty(), boxes: Seq::empty(), decors: Seq::empty() }
    }

    pub open spec fn then_also(self, more: Arrangement) -> Arrangement {
        Arrangement {
            leaves: self.leaves + more.leaves,
            boxes: self.boxes + more.boxes,
            decors: self.decors + more.decors,
        }
    }
}

impl LeafDecor {
    pub open spec fn plain() -> LeafDecor {
        LeafDecor {
            tab_bar_offset: Real::spec_zero(),
            draw_titlebar: false,
            in_tabbed_context: false,
        }
    }
}

impl Tree {
    /// The index of the child a switcher shows.
    pub open spec fn shown_index(self, k: NodeKey) -> int {
        match self.active_index(k) {
            Some(i) => i,
            None => 0,
        }
    }

    /// The decoration the parent gives a child: in a split, a window gets a title bar if there
    /// are any; in a switcher the bar is the switcher's.
    pub open spec fn child_decor(self, p: NodeKey, c: NodeKey, ctx: LeafDecor, bar: Real) -> LeafDecor {
        if !self.nodes[p].layout.is_split() {
            LeafDecor { in_tabbed_context: true, ..LeafDecor::plain() }
        } else if self.is_view(c) && !bar.at_most_zero() {
            LeafDecor {
                tab_bar_offset: bar,
                draw_titlebar: true,
                in_tabbed_context: ctx.in_tabbed_context,
            }
        } else {
            LeafDecor { in_tabbed_context: ctx.in_tabbed_context, ..LeafDecor::plain() }
        }
    }

    /// The decoration of a window: none of the bars while it fills the output.
    pub open spec fn own_decor(self, k: NodeKey, ctx: LeafDecor) -> LeafDecor {
        if self.nodes[k].tile->0.window.sizing_mode is Fullscreen {
            LeafDecor { in_tabbed_context: ctx.in_tabbed_context, ..LeafDecor::plain() }
        } else {
            ctx
        }
    }

    /// What a pass says of a node and everything below it. `rect` is the box the node is given
    /// and `node_rect` the one it holds itself.
    pub open spec fn arranged(
        self,
        k: NodeKey,
        rect: Rect,
        node_rect: Rect,
        visible: bool,
        ctx: LeafDecor,
        path: Seq<usize>,
        given: Given,
    ) -> Arrangement
        decreases room(self.parents, k), self.kids(k).len() + 2,
        when self.wf()
    {
        if self.is_view(k) {
            Arrangement {
                leaves: seq![
                    LeafInfo {
                        key: k,
                        branch: given.branch,
                        path,
                        rect,
                        node_rect,
                        visible,
                        workspace_fullscreen: false,
                    },
                ],
                boxes: Seq::empty(),
                decors: seq![(k, self.own_decor(k, ctx))],
            }
        } else if self.is_parent(k) {
            Arrangement {
                leaves: Seq::empty(),
                boxes: seq![(k, rect)],
                decors: Seq::empty(),
            }.then_also(self.arranged_from(k, rect, visible, ctx, path, 0, given))
        } else {
            Arrangement::nothing()
        }
    }

    /// The same of the children of `k` from index `i` on.
    pub open spec fn arranged_from(
        self,
        k: NodeKey,
        rect: Rect,
        visible: bool,
        ctx: LeafDecor,
        path: Seq<usize>,
        i: int,
        given: Given,
    ) -> Arrangement
        decreases room(self.parents, k), self.kids(k).len() - i + 1,
        when self.wf()
    {
        proof {
            if 0 <= i < self.kids(k).len() {
                assert(self.parents.contains_key(self.nodes[k].children[i]));
                lemma_depth(self.parents, self.kids(k)[i]);
            }
        }
        if 0 <= i < self.kids(k).len() {
            let c = self.kids(k)[i];
            let own = box_in(given.boxes, c);
            let split = self.nodes[k].layout.is_split();
            self.arranged(
                c,
                own,
                if !split && self.is_view(c) {
                    rect
                } else {
                    own
                },
                visible && (split || i == self.shown_index(k)),
                self.child_decor(k, c, ctx, given.bar),
                path.push(i as usize),
                given,
            ).then_also(self.arranged_from(k, rect, visible, ctx, path, i + 1, given))
        } else {
            Arrangement::nothing()
        }
    }

    /// The cached entries of windows of a branch a pass did not reach, at their addresses.
    pub open spec fn held(self, leaves: Seq<LeafInfo>, reached: Seq<LeafInfo>, branch: NodeKey) -> Seq<
        LeafInfo,
    >
        decreases leaves.len(),
    {
        if leaves.len() == 0 {
            Seq::empty()
        } else {
            let info = leaves.last();
            let rest = self.held(leaves.drop_last(), reached, branch);
            if !listed(reached, info.key) && self.has(info.key) && self.branch(info.key)
                == branch {
                rest.push(LeafInfo { path: self.address(info.key), ..info })
            } else {
                rest
            }
        }
    }

    /// Entries for windows of a branch that no entry describes: hidden, without extent.
    pub open spec fn undescribed(
        self,
        keys: Seq<NodeKey>,
        described: Seq<LeafInfo>,
        branch: NodeKey,
    ) -> Seq<LeafInfo>
        decreases keys.len(),
    {
        if keys.len() == 0 {
            Seq::empty()
        } else {
            let k = keys.last();
            let rest = self.undescribed(keys.drop_last(), described, branch);
            if !listed(described, k) && self.branch(k) == branch {
                rest.push(
                    LeafInfo {
                        key: k,
                        branch,
                        path: self.address(k),
                        rect: Rect::spec_zero(),
                        node_rect: Rect::spec_zero(),
                        visible: false,
                        workspace_fullscreen: false,
                    },
                )
            } else {
                rest
            }
        }
    }

    /// What a pass over the subtree of one node says of its branch: the windows it reaches are
    /// arranged, the others keep their boxes, and new ones have none yet.
    pub open spec fn branch_arranged(
        self,
        k: NodeKey,
        area: Rect,
        boxes: Seq<(NodeKey, Rect)>,
        bar: Real,
    ) -> Arrangement {
        let branch = self.branch(k);
        let pass = self.arranged(
            k,
            area,
            area,
            true,
            LeafDecor::plain(),
            self.address(k),
            Given { branch, boxes, bar },
        );
        let kept = pass.leaves + self.held(self.caches.leaves, pass.leaves, branch);
        Arrangement { leaves: kept + self.undescribed(self.all_leaves(), kept, branch), ..pass }
    }
}

/// Whether an entry describes a window.
pub open spec fn listed(leaves: Seq<LeafInfo>, k: NodeKey) -> bool {
    exists|i: int| 0 <= i < leaves.len() && (#[trigger] leaves[i]).key == k
}

/// `leaves` with the first entry of a window marked as coming from the fullscreen pass.
pub open spec fn fullscreen_marked(leaves: Seq<LeafInfo>, k: NodeKey) -> Seq<LeafInfo>
    decreases leaves.len(),
{
    if leaves.len() == 0 {
        leaves
    } else if leaves[0].key == k {
        leaves.update(0, LeafInfo { workspace_fullscreen: true, ..leaves[0] })
    } else {
        seq![leaves[0]] + fullscreen_marked(leaves.drop_first(), k)
    }
}

fn find_box(boxes: &Vec<(NodeKey, Rect)>, key: NodeKey) -> (r: Rect)
    ensures
        r == box_in(boxes@, key),
{
    let mut i: usize = 0;
    assert(boxes@.skip(0) =~= boxes@);
    while i < boxes.len()
        invariant
            i <= boxes@.len(),
            box_in(boxes@, key) == box_in(boxes@.skip(i as int), key),
        decreases boxes@.len() - i,
    {
        assert(boxes@.skip(i as int).drop_first() =~= boxes@.skip(i as int + 1));
        if boxes[i].0 == key {
            return boxes[i].1;
        }
        i = i + 1;
    }
    Rect::zero()
}

pub(crate) fn describes(leaves: &Vec<LeafLayoutInfo>, key: NodeKey) -> (r: bool)
    ensures
        r == listed(leaves_state(leaves@), key),
{
    let mut i: usize = 0;
    while i < leaves.len()
        invariant
            i <= leaves@.len(),
            forall|j: int| 0 <= j < i ==> (#[trigger] leaves@[j]).key != key,
        decreases leaves@.len() - i,
    {
        if leaves[i].key == key {
            assert(leaves_state(leaves@)[i as int].key == key);
            return true;
        }
        i = i + 1;
    }
    assert forall|j: int| 0 <= j < leaves@.len() implies (#[trigger] leaves_state(leaves@)[j]).key
        != key by {
        assert(leaves@[j].key != key);
    }
    false
}

/// Entries one by one and all at once.
proof fn lemma_leaves_push(leaves: Seq<LeafLayoutInfo>, info: LeafLayoutInfo)
    ensures
        leaves_state(leaves.push(info)) == leaves_state(leaves).push(info@),
{
    assert(leaves_state(leaves.push(info)) =~= leaves_state(leaves).push(info@));
}

/// A pass over one branch, on its way down.
struct LayoutWalk<'a> {
    branch: NodeKey,
    boxes: &'a Vec<(NodeKey, Rect)>,
    bar: Real,
}

impl<'a> LayoutWalk<'a> {
    spec fn given(self) -> Given {
        Given { branch: self.branch, boxes: self.boxes@, bar: self.bar }
    }
}

impl ContainerArena {
    fn split_child_titlebar(&self, child_key: NodeKey, bar: Real) -> (r: (Real, bool))
        ensures
            r == if self@.is_view(child_key) && !bar.at_most_zero() {
                (bar, true)
            } else {
                (Real::spec_zero(), false)
            },
    {
        if !bar.is_at_most_zero() && self.is_leaf(child_key) {
            (bar, true)
        } else {
            (Real::zero(), false)
        }
    }

    fn collect_layout_node(
        &self,
        node_key: NodeKey,
        rect: Rect,
        node_rect: Rect,
        visible: bool,
        ctx: LeafDecor,
        path: &mut Vec<usize>,
        walk: &LayoutWalk,
        data: &mut LayoutData,
    )
        requires
            self.wf(),
        ensures
            final(path)@ == old(path)@,
            final(data)@ == old(data)@.then_also(
                self@.arranged(
                    node_key,
                    rect,
                    node_rect,
                    visible,
                    ctx,
                    old(path)@,
                    walk.given(),
                ),
            ),
        decreases room(self@.parents, node_key),
    {
        let ghost given = walk.given();
        let ghost start = path@;
        let ghost before = data@;
        if let Some(tile) = self.get_tile(node_key) {
            let decor = if tile.window.sizing_mode == SizingMode::Fullscreen {
                LeafDecor {
                    tab_bar_offset: Real::zero(),
                    draw_titlebar: false,
                    in_tabbed_context: ctx.in_tabbed_context,
                }
            } else {
                ctx
            };
            let info = LeafLayoutInfo {
                key: node_key,
                branch: walk.branch,
                path: copy_path(path),
                rect,
                node_rect,
                visible,
                workspace_fullscreen: false,
            };
            proof {
                lemma_leaves_push(data.leaf_layouts@, info);
            }
            data.leaf_layouts.push(info);
            data.decors.push((node_key, decor));
            proof {
                let one = self@.arranged(node_key, rect, node_rect, visible, ctx, start, given);
                assert(data@.leaves =~= before.leaves + one.leaves);
                assert(data@.decors =~= before.decors + one.decors);
                assert(data@.boxes =~= before.boxes + one.boxes);
            }
            return;
        }
        let (layout, count) = match self.get_container(node_key) {
            Some(container) => (container.layout(), container.child_count()),
            None => {
                proof {
                    let none = Arrangement::nothing();
                    assert(before.leaves + none.leaves =~= before.leaves);
                    assert(before.decors + none.decors =~= before.decors);
                    assert(before.boxes + none.boxes =~= before.boxes);
                }
                return;
            },
        };
        data.container_geometries.push((node_key, rect));
        let shown: usize = match self.active_child_index(node_key) {
            Some(idx) => {
                proof {
                    crate::walk::lemma_slot(
                        self@,
                        node_key,
                        self@.kids(node_key)[idx as int],
                        idx as int,
                    );
                }
                idx
            },
            None => 0,
        };
        proof {
            crate::tree::lemma_active(self@, node_key);
            if self@.active(node_key) is Some {
                crate::walk::lemma_active_listed(self@, node_key);
            }
            assert(shown == self@.shown_index(node_key));
        }
        let split = layout.is_split_layout();
        let ghost head = Arrangement {
            leaves: Seq::empty(),
            boxes: seq![(node_key, rect)],
            decors: Seq::empty(),
        };
        let ghost whole = self@.arranged_from(node_key, rect, visible, ctx, start, 0, given);
        proof {
            let sofar = before.then_also(head);
            assert(data@.leaves =~= sofar.leaves);
            assert(data@.boxes =~= sofar.boxes);
            assert(data@.decors =~= sofar.decors);
            lemma_then_also_split(before, head, whole);
        }
        let mut idx: usize = 0;
        while idx < count
            invariant
                self.wf(),
                idx <= count,
                count == self@.kids(node_key).len(),
                self@.is_parent(node_key),
                layout == self@.nodes[node_key].layout,
                split == layout.is_split(),
                shown == self@.shown_index(node_key),
                given == walk.given(),
                path@ == start,
                data@.then_also(
                    self@.arranged_from(
                        node_key,
                        rect,
                        visible,
                        ctx,
                        start,
                        idx as int,
                        given,
                    ),
                ) == before.then_also(head.then_also(whole)),
            decreases count - idx,
        {
            let child_key = match self.get_container(node_key) {
                Some(container) => match container.child_key(idx) {
                    Some(child_key) => child_key,
                    None => {
                        return;
                    },
                },
                None => {
                    return;
                },
            };
            proof {
                assert(self@.parents.contains_key(self@.nodes[node_key].children[idx as int]));
                lemma_depth(self@.parents, child_key);
            }
            let child_rect = find_box(walk.boxes, child_key);
            let is_view = self.is_leaf(child_key);
            let child_ctx = if split {
                let (offset, titlebar) = self.split_child_titlebar(child_key, walk.bar);
                LeafDecor {
                    tab_bar_offset: offset,
                    draw_titlebar: titlebar,
                    in_tabbed_context: ctx.in_tabbed_context,
                }
            } else {
                LeafDecor {
                    tab_bar_offset: Real::zero(),
                    draw_titlebar: false,
                    in_tabbed_context: true,
                }
            };
            let child_node_rect = if !split && is_view {
                rect
            } else {
                child_rect
            };
            let child_visible = visible && (split || idx == shown);
            let ghost sofar = data@;
            path.push(idx);
            self.collect_layout_node(
                child_key,
                child_rect,
                child_node_rect,
                child_visible,
                child_ctx,
                path,
                walk,
                data,
            );
            path.pop();
            proof {
                assert(path@ =~= start);
                let one = self@.arranged(
                    child_key,
                    child_rect,
                    child_node_rect,
                    child_visible,
                    child_ctx,
                    start.push(idx),
                    given,
                );
                let rest = self@.arranged_from(
                    node_key,
                    rect,
                    visible,
                    ctx,
                    start,
                    idx as int + 1,
                    given,
                );
                lemma_then_also_split(sofar, one, rest);
                assert(self@.arranged_from(
                    node_key,
                    rect,
                    visible,
                    ctx,
                    start,
                    idx as int,
                    given,
                ) == one.then_also(rest));
            }
            idx = idx + 1;
        }
        proof {
            let none = Arrangement::nothing();
            assert(data@.leaves + none.leaves =~= data@.leaves);
            assert(data@.decors + none.decors =~= data@.decors);
            assert(data@.boxes + none.boxes =~= data@.boxes);
            assert(data@.then_also(none) == data@);
        }
    }

    /// Collects what a pass over the subtree of one node says of its branch: the windows it
    /// reaches are arranged, the others keep their boxes, and new ones have none yet.
    pub fn collect_branch_layout_data(
        &self,
        branch_root: NodeKey,
        area: Rect,
        boxes: &Vec<(NodeKey, Rect)>,
        bar: Real,
    ) -> (r: LayoutData)
        requires
            self.wf(),
            self@.has(branch_root),
        ensures
            r@ == self@.branch_arranged(branch_root, area, boxes@, bar),
    {
        let branch = self.branch_root(branch_root);
        let mut data = LayoutData {
            leaf_layouts: Vec::new(),
            container_geometries: Vec::new(),
            decors: Vec::new(),
        };
        let mut path = match self.branch_relative_path(branch_root) {
            Some(path) => path,
            None => Vec::new(),
        };
        let ghost start = path@;
        assert(start == self@.address(branch_root));
        let plain = LeafDecor {
            tab_bar_offset: Real::zero(),
            draw_titlebar: false,
            in_tabbed_context: false,
        };
        let walk = LayoutWalk { branch, boxes, bar };
        let ghost empty = data@;
        self.collect_layout_node(
            branch_root,
            area,
            area,
            true,
            plain,
            &mut path,
            &walk,
            &mut data,
        );
        let ghost pass = self@.arranged(
            branch_root,
            area,
            area,
            true,
            LeafDecor::plain(),
            self@.address(branch_root),
            (Given { branch, boxes: boxes@, bar }),
        );
        proof {
            assert(empty.leaves =~= Seq::empty());
            assert(empty.leaves + pass.leaves =~= pass.leaves);
            assert(empty.boxes + pass.boxes =~= pass.boxes);
            assert(empty.decors + pass.decors =~= pass.decors);
            assert(data@ == pass);
        }
        self.keep_held_leaves(branch, &mut data);
        self.add_undescribed_leaves(branch, &mut data);
        data
    }

    fn keep_held_leaves(&self, branch: NodeKey, data: &mut LayoutData)
        requires
            self.wf(),
        ensures
            final(data)@ == (Arrangement {
                leaves: old(data)@.leaves + self@.held(
                    self@.caches.leaves,
                    old(data)@.leaves,
                    branch,
                ),
                ..old(data)@
            }),
    {
        let cached = &self.cache().leaf_layouts;
        let ghost all = leaves_state(cached@);
        let ghost reached = data@.leaves;
        let mut held: Vec<LeafLayoutInfo> = Vec::new();
        let mut i: usize = 0;
        assert(all.take(0) =~= Seq::empty());
        assert(leaves_state(held@) =~= Seq::empty());
        while i < cached.len()
            invariant
                self.wf(),
                i <= cached@.len(),
                all == leaves_state(cached@),
                reached == data@.leaves,
                leaves_state(held@) == self@.held(all.take(i as int), reached, branch),
            decreases cached@.len() - i,
        {
            proof {
                assert(all.take(i as int + 1).drop_last() =~= all.take(i as int));
                assert(all.take(i as int + 1).last() == cached@[i as int]@);
            }
            let key = cached[i].key;
            if !describes(&data.leaf_layouts, key) && self.holds_node(key) && self.branch_root(
                key,
            ) == branch {
                if let Some(path) = self.branch_relative_path(key) {
                    let info = LeafLayoutInfo {
                        key,
                        branch: cached[i].branch,
                        path,
                        rect: cached[i].rect,
                        node_rect: cached[i].node_rect,
                        visible: cached[i].visible,
                        workspace_fullscreen: cached[i].workspace_fullscreen,
                    };
                    proof {
                        lemma_leaves_push(held@, info);
                    }
                    held.push(info);
                }
            }
            i = i + 1;
        }
        assert(all.take(i as int) =~= all);
        let ghost kept = held@;
        let ghost first = data.leaf_layouts@;
        data.leaf_layouts.append(&mut held);
        assert(leaves_state(data.leaf_layouts@) =~= leaves_state(first) + leaves_state(kept));
    }

    fn add_undescribed_leaves(&self, branch: NodeKey, data: &mut LayoutData)
        requires
            self.wf(),
        ensures
            final(data)@ == (Arrangement {
                leaves: old(data)@.leaves + self@.undescribed(
                    self@.all_leaves(),
                    old(data)@.leaves,
                    branch,
                ),
                ..old(data)@
            }),
    {
        let keys = self.dfs_leaf_keys();
        let ghost described = data@.leaves;
        let mut fresh: Vec<LeafLayoutInfo> = Vec::new();
        let mut i: usize = 0;
        assert(keys@.take(0) =~= Seq::empty());
        assert(leaves_state(fresh@) =~= Seq::empty());
        while i < keys.len()
            invariant
                self.wf(),
                i <= keys@.len(),
                keys@ == self@.all_leaves(),
                described == data@.leaves,
                leaves_state(fresh@) == self@.undescribed(keys@.take(i as int), described, branch),
            decreases keys@.len() - i,
        {
            proof {
                assert(keys@.take(i as int + 1).drop_last() =~= keys@.take(i as int));
                lemma_all_leaves_live(self@, i as int);
            }
            let key = keys[i];
            if !describes(&data.leaf_layouts, key) && self.branch_root(key) == branch {
                if let Some(path) = self.branch_relative_path(key) {
                    let info = LeafLayoutInfo {
                        key,
                        branch,
                        path,
                        rect: Rect::zero(),
                        node_rect: Rect::zero(),
                        visible: false,
                        workspace_fullscreen: false,
                    };
                    proof {
                        lemma_leaves_push(fresh@, info);
                    }
                    fresh.push(info);
                }
            }
            i = i + 1;
        }
        assert(keys@.take(i as int) =~= keys@);
        let ghost kept = fresh@;
        let ghost first = data.leaf_layouts@;
        data.leaf_layouts.append(&mut fresh);
        assert(leaves_state(data.leaf_layouts@) =~= leaves_state(first) + leaves_state(kept));
    }

    /// Collects the fullscreen pass: only the subtree of the node owning fullscreen is
    /// arranged, in the output's box for a container and in the tiling area for a window.
    pub fn collect_fullscreen_layout_data(
        &self,
        fullscreen_key: NodeKey,
        output: Rect,
        tiling: Rect,
        boxes: &Vec<(NodeKey, Rect)>,
        bar: Real,
    ) -> (r: LayoutData)
        requires
            self.wf(),
            self@.has(fullscreen_key),
        ensures
            r@ == ({
                let view = self@.is_view(fullscreen_key);
                let pass = self@.branch_arranged(
                    fullscreen_key,
                    if view {
                        tiling
                    } else {
                        output
                    },
                    boxes@,
                    bar,
                );
                if view {
                    Arrangement { leaves: fullscreen_marked(pass.leaves, fullscreen_key), ..pass }
                } else {
                    pass
                }
            }),
    {
        let view = self.is_leaf(fullscreen_key);
        let area = if view {
            tiling
        } else {
            output
        };
        let mut data = self.collect_branch_layout_data(fullscreen_key, area, boxes, bar);
        if view {
            mark_fullscreen(&mut data.leaf_layouts, fullscreen_key);
        }
        data
    }
}

fn mark_fullscreen(leaves: &mut Vec<LeafLayoutInfo>, key: NodeKey)
    ensures
        leaves_state(final(leaves)@) == fullscreen_marked(leaves_state(old(leaves)@), key),
{
    let ghost all = leaves_state(leaves@);
    let mut i: usize = 0;
    assert(all.skip(0) =~= all);
    assert(all.take(0) + fullscreen_marked(all, key) =~= fullscreen_marked(all, key));
    while i < leaves.len()
        invariant
            i <= leaves@.len(),
            leaves@ == old(leaves)@,
            all == leaves_state(leaves@),
            fullscreen_marked(all, key) == all.take(i as int) + fullscreen_marked(
                all.skip(i as int),
                key,
            ),
        decreases leaves@.len() - i,
    {
        let ghost rest = all.skip(i as int);
        assert(rest[0] == leaves@[i as int]@);
        assert(rest.drop_first() =~= all.skip(i as int + 1));
        if leaves[i].key == key {
            leaves[i].workspace_fullscreen = true;
            proof {
                let marked = rest.update(0, LeafInfo { workspace_fullscreen: true, ..rest[0] });
                assert(leaves_state(leaves@) =~= all.take(i as int) + marked);
            }
            return;
        }
        assert(all.take(i as int) + (seq![rest[0]] + fullscreen_marked(rest.drop_first(), key))
            =~= all.take(i as int + 1) + fullscreen_marked(all.skip(i as int + 1), key));
        i = i + 1;
    }
    assert(all.skip(i as int) =~= Seq::empty());
    assert(all.take(i as int) + Seq::<LeafInfo>::empty() =~= all);
}

/// Arrangements in a row, grouped either way.
proof fn lemma_then_also_split(a: Arrangement, b: Arrangement, c: Arrangement)
    ensures
        a.then_also(b.then_also(c)) == a.then_also(b).then_also(c),
{
    let l = a.then_also(b.then_also(c));
    let r = a.then_also(b).then_also(c);
    assert(l.leaves =~= r.leaves);
    assert(l.boxes =~= r.boxes);
    assert(l.decors =~= r.decors);
}

/// Every window listed for the workspace is in the tree.
pub proof fn lemma_all_leaves_live(t: Tree, i: int)
    requires
        t.wf(),
        0 <= i < t.all_leaves().len(),
    ensures
        t.is_view(t.all_leaves()[i]),
{
    let tiled = t.leaves(t.root);
    if i < tiled.len() {
        crate::walk::lemma_leaves_are_views(t, t.root);
        assert(tiled.contains(tiled[i]));
    } else {
        lemma_floating_leaves_live(t, 0, i - tiled.len());
    }
}

proof fn lemma_floating_leaves_live(t: Tree, from: int, i: int)
    requires
        t.wf(),
        0 <= from,
        0 <= i < t.floating_leaves_from(from).len(),
    ensures
        t.is_view(t.floating_leaves_from(from)[i]),
    decreases t.floating.len() - from,
{
    if from < t.floating.len() {
        let first = t.leaves(t.floating[from].key);
        if i < first.len() {
            crate::walk::lemma_leaves_are_views(t, t.floating[from].key);
            assert(first.contains(first[i]));
        } else {
            lemma_floating_leaves_live(t, from + 1, i - first.len());
        }
    }
}

} // verus!
