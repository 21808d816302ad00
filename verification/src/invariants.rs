//! What holds of a workspace between commands, and a check of it.

use crate::arena::ContainerArena;
use crate::axis::NodeKey;
use crate::cache::{leaves_state, pending_state, LeafInfo, LeafLayoutInfo};
use crate::measure::{NodeSizing, Real, Rect, Size, INFINITE_BITS, SIGN_BIT};
use crate::tree::{FloatingGeometry, Tree};
use vstd::prelude::*;

verus! {

impl Real {
    pub open spec fn finite(self) -> bool {
        self.magnitude() < INFINITE_BITS
    }

    /// A number, and not below zero.
    pub open spec fn at_least_zero(self) -> bool {
        !self.is_nan() && self.rank() >= 0
    }

    pub fn is_finite(self) -> (r: bool)
        ensures
            r == self.finite(),
    {
        if self.bits < SIGN_BIT {
            self.bits < INFINITE_BITS
        } else {
            self.bits - SIGN_BIT < INFINITE_BITS
        }
    }

    pub fn is_at_least_zero(self) -> (r: bool)
        ensures
            r == self.at_least_zero(),
    {
        let zero = Real::zero();
        zero.is_less(self) || zero.is_same(self)
    }
}

impl Size {
    pub open spec fn at_least_zero(self) -> bool {
        self.w.at_least_zero() && self.h.at_least_zero()
    }

    pub open spec fn sound(self) -> bool {
        self.w.finite() && self.h.finite() && self.at_least_zero()
    }

    fn is_sound(self) -> (r: bool)
        ensures
            r == self.sound(),
    {
        self.w.is_finite() && self.h.is_finite() && self.w.is_at_least_zero()
            && self.h.is_at_least_zero()
    }
}

impl Rect {
    /// Everything finite and the size not negative.
    pub open spec fn sound(self) -> bool {
        self.loc.x.finite() && self.loc.y.finite() && self.size.sound()
    }

    fn is_sound(self) -> (r: bool)
        ensures
            r == self.sound(),
    {
        self.loc.x.is_finite() && self.loc.y.is_finite() && self.size.is_sound()
    }
}

impl NodeSizing {
    /// Shares and spans are finite and not negative.
    pub open spec fn sound(self) -> bool {
        &&& self.fractions.width.finite() && self.fractions.width.at_least_zero()
        &&& self.fractions.height.finite() && self.fractions.height.at_least_zero()
        &&& self.child_total_width.finite() && self.child_total_width.at_least_zero()
        &&& self.child_total_height.finite() && self.child_total_height.at_least_zero()
    }

    fn is_sound(self) -> (r: bool)
        ensures
            r == self.sound(),
    {
        self.fractions.width.is_finite() && self.fractions.width.is_at_least_zero()
            && self.fractions.height.is_finite() && self.fractions.height.is_at_least_zero()
            && self.child_total_width.is_finite() && self.child_total_width.is_at_least_zero()
            && self.child_total_height.is_finite() && self.child_total_height.is_at_least_zero()
    }
}

impl FloatingGeometry {
    pub open spec fn sound(self) -> bool {
        &&& self.target.sound()
        &&& self.resize_base_size.sound()
        &&& self.pos.x.finite() && self.pos.y.finite()
        &&& self.working_area.sound()
    }

    fn is_sound(self) -> (r: bool)
        ensures
            r == self.sound(),
    {
        self.target.is_sound() && self.resize_base_size.is_sound() && self.pos.x.is_finite()
            && self.pos.y.is_finite() && self.working_area.is_sound()
    }
}

impl Tree {
    /// Every node hangs below the workspace.
    pub open spec fn reachable(self) -> bool {
        forall|k: NodeKey| #[trigger] self.nodes.contains_key(k) ==> self.under(k, self.root)
    }

    /// No container is empty but the workspace.
    pub open spec fn occupied(self) -> bool {
        forall|k: NodeKey| #[trigger]
            self.is_split(k) ==> self.nodes[k].children.len() > 0
    }

    /// Every size state is sound.
    pub open spec fn sizes_sound(self) -> bool {
        forall|k: NodeKey| #[trigger]
            self.is_container(k) ==> self.nodes[k].own_sizing().sound()
    }

    pub open spec fn stack_sound(self) -> bool {
        forall|i: int|
            0 <= i < self.floating.len() ==> (#[trigger] self.floating[i]).geometry.sound()
    }

    /// No window on either side.
    pub open spec fn windowless(self) -> bool {
        forall|k: NodeKey| !#[trigger] self.is_view(k)
    }

    /// Each entry describes another window, under its present address.
    pub open spec fn entries_sound(self, leaves: Seq<LeafInfo>) -> bool {
        &&& forall|i: int|
            0 <= i < leaves.len() ==> self.entry_sound(#[trigger] leaves[i])
        &&& forall|i: int, j: int|
            0 <= i < j < leaves.len() ==> (#[trigger] leaves[i]).key != (#[trigger] leaves[j]).key
    }

    pub open spec fn entry_sound(self, info: LeafInfo) -> bool {
        &&& self.is_view(info.key)
        &&& info.path == self.address(info.key)
        &&& info.rect.size.at_least_zero()
    }

    /// What holds of a workspace that holds something.
    pub open spec fn inhabited_soundly(self) -> bool {
        &&& self.reachable()
        &&& self.occupied()
        &&& self.sizes_sound()
        &&& (self.seat.leaf is None ==> self.windowless())
        &&& self.entries_sound(self.caches.leaves)
        &&& forall|i: int|
            0 <= i < self.caches.pending.len() ==> self.entries_sound(
                (#[trigger] self.caches.pending[i]).data.leaves,
            )
    }

    /// What holds of a workspace that holds nothing: only the workspace is left, nothing is
    /// focused or selected below it, and nothing is cached.
    pub open spec fn empty_soundly(self) -> bool {
        &&& forall|k: NodeKey| #[trigger] self.nodes.contains_key(k) ==> k == self.root
        &&& self.seat.leaf is None
        &&& (self.seat.selected matches Some(k) ==> k == self.root)
        &&& self.caches.leaves.len() == 0
    }

    /// What holds between commands.
    pub open spec fn sound(self) -> bool {
        &&& self.fullscreen_live()
        &&& self.stack_sound()
        &&& self.focus_live()
        &&& if self.leaf_under(self.root) is None && self.floating.len() == 0 {
            self.empty_soundly()
        } else {
            self.inhabited_soundly()
        }
    }
}

/// The bit pattern of a millionth: how far the shares of a split may be from a whole.
pub const SHARE_TOLERANCE_BITS: u64 = 0x3EB0_C6F7_A0B5_ED8D;

/// How far the shares of the children of a node are from a whole, by the first entry it has.
pub open spec fn deviation_in(deviations: Seq<(NodeKey, Real)>, k: NodeKey) -> Option<Real>
    decreases deviations.len(),
{
    if deviations.len() == 0 {
        None
    } else if deviations[0].0 == k {
        Some(deviations[0].1)
    } else {
        deviation_in(deviations.drop_first(), k)
    }
}

fn find_deviation(deviations: &Vec<(NodeKey, Real)>, key: NodeKey) -> (r: Option<Real>)
    ensures
        r == deviation_in(deviations@, key),
{
    let mut i: usize = 0;
    assert(deviations@.skip(0) =~= deviations@);
    while i < deviations.len()
        invariant
            i <= deviations@.len(),
            deviation_in(deviations@, key) == deviation_in(deviations@.skip(i as int), key),
        decreases deviations@.len() - i,
    {
        assert(deviations@.skip(i as int).drop_first() =~= deviations@.skip(i as int + 1));
        if deviations[i].0 == key {
            return Some(deviations[i].1);
        }
        i = i + 1;
    }
    None
}

impl Real {
    /// A number that is at most a millionth.
    pub open spec fn tolerable(self) -> bool {
        !self.is_nan() && self.rank() <= SHARE_TOLERANCE_BITS
    }

    fn is_tolerable(self) -> (r: bool)
        ensures
            r == self.tolerable(),
    {
        let most = Real { bits: SHARE_TOLERANCE_BITS };
        self.is_less(most) || self.is_same(most)
    }
}

impl Tree {
    /// Whether a node divides its box among children side by side or one above the other.
    pub open spec fn divides(self, k: NodeKey) -> bool {
        self.is_parent(k) && self.nodes[k].children.len() > 0 && self.nodes[k].layout.is_split()
    }

    /// The shares of the children of every split make up a whole: `deviations` says how far
    /// each is from it.
    pub open spec fn shares_whole(self, deviations: Seq<(NodeKey, Real)>) -> bool {
        forall|k: NodeKey| #[trigger]
            self.divides(k) ==> (deviation_in(deviations, k) matches Some(d) && d.tolerable())
    }
}

impl ContainerArena {
    /// Whether everything holds that holds between commands. `deviations` says of each split
    /// how far the sum of its children's shares is from one.
    pub fn verify_invariants(&self, deviations: &Vec<(NodeKey, Real)>) -> (r: bool)
        requires
            self.wf(),
        ensures
            r == (self@.sound() && self@.shares_whole(deviations@)),
    {
        self.verify_structure() && self.verify_shares(deviations)
    }

    /// Whether the shares of the children of every split make up a whole.
    fn verify_shares(&self, deviations: &Vec<(NodeKey, Real)>) -> (r: bool)
        requires
            self.wf(),
        ensures
            r == self@.shares_whole(deviations@),
    {
        let order = self.seat().order();
        let mut i: usize = 0;
        while i < order.len()
            invariant
                self.wf(),
                i <= order@.len(),
                order@ == self@.seat.order,
                forall|j: int|
                    0 <= j < i ==> (self@.divides(#[trigger] order@[j]) ==> (deviation_in(
                        deviations@,
                        order@[j],
                    ) matches Some(d) && d.tolerable())),
            decreases order@.len() - i,
        {
            let key = order[i];
            let divides = match self.get_container(key) {
                Some(container) => container.child_count() > 0
                    && container.layout().is_split_layout(),
                None => false,
            };
            assert(divides == self@.divides(key));
            if divides {
                match find_deviation(deviations, key) {
                    Some(deviation) => {
                        if !deviation.is_tolerable() {
                            return false;
                        }
                    },
                    None => {
                        return false;
                    },
                }
            }
            i = i + 1;
        }
        proof {
            assert forall|k: NodeKey| #[trigger] self@.divides(k) implies (deviation_in(
                deviations@,
                k,
            ) matches Some(d) && d.tolerable()) by {
                assert(order@.contains(k));
                let j = choose|j: int| 0 <= j < order@.len() && order@[j] == k;
                assert(self@.divides(order@[j]));
            }
        }
        true
    }

    /// Whether everything holds of the nodes, the focus and the caches.
    fn verify_structure(&self) -> (r: bool)
        requires
            self.wf(),
        ensures
            r == self@.sound(),
    {
        if let Some(key) = self.fullscreen_key() {
            if key == self.workspace_root() || !self.holds_node(key) {
                return false;
            }
        }
        if !self.verify_floating_region() || !self.verify_seat_order() {
            return false;
        }
        if self.is_empty() && self.floating_root_count() == 0 {
            return self.verify_empty();
        }
        if !self.verify_nodes() {
            return false;
        }
        if self.focused_key().is_none() && self.first_in_order(crate::tree::Pick::View).is_some() {
            proof {
                crate::tree::lemma_first_of(self@, self@.seat.order, crate::tree::Pick::View);
            }
            return false;
        }
        proof {
            crate::tree::lemma_first_of(self@, self@.seat.order, crate::tree::Pick::View);
            if self@.recent(crate::tree::Pick::View) is None {
                assert forall|k: NodeKey| !#[trigger] self@.is_view(k) by {
                    if self@.is_view(k) {
                        assert(self@.seat.order.contains(k));
                        assert(self@.meets(crate::tree::Pick::View, k));
                    }
                }
            }
        }
        if !self.verify_leaf_layout_cache(&self.cache().leaf_layouts) {
            return false;
        }
        let pending = &self.cache().pending_layouts;
        let ghost all = self@.caches.pending;
        let mut i: usize = 0;
        while i < pending.len()
            invariant
                self.wf(),
                i <= pending@.len(),
                !(self@.leaf_under(self@.root) is None && self@.floating.len() == 0),
                all == self@.caches.pending,
                all == pending_state(pending@),
                forall|j: int| 0 <= j < i ==> self@.entries_sound((#[trigger] all[j]).data.leaves),
            decreases pending@.len() - i,
        {
            assert(all[i as int] == pending@[i as int]@);
            if !self.verify_leaf_layout_cache(&pending[i].data.leaf_layouts) {
                assert(!self@.entries_sound(all[i as int].data.leaves));
                return false;
            }
            i = i + 1;
        }
        true
    }

    fn verify_empty(&self) -> (r: bool)
        requires
            self.wf(),
        ensures
            r == self@.empty_soundly(),
    {
        let order = self.seat().order();
        if order.len() != 1 {
            proof {
                assert(order@.contains(self@.root));
                if order@.len() > 1 {
                    assert(order@.contains(order@[0]));
                    assert(order@.contains(order@[1]));
                    assert(self@.nodes.contains_key(order@[0]));
                    assert(self@.nodes.contains_key(order@[1]));
                }
            }
            return false;
        }
        proof {
            assert(order@.contains(self@.root));
            assert forall|k: NodeKey| #[trigger] self@.nodes.contains_key(k) implies k
                == self@.root by {
                assert(order@.contains(k));
            }
        }
        if self.focused_key().is_some() {
            return false;
        }
        if let Some(key) = self.selected_key() {
            if key != self.workspace_root() {
                return false;
            }
        }
        self.cache().leaf_layouts.len() == 0
    }

    /// Whether every node hangs below the workspace, no container is empty and every size
    /// state is sound.
    fn verify_nodes(&self) -> (r: bool)
        requires
            self.wf(),
        ensures
            r == (self@.reachable() && self@.occupied() && self@.sizes_sound()),
    {
        let order = self.seat().order();
        let mut i: usize = 0;
        while i < order.len()
            invariant
                self.wf(),
                i <= order@.len(),
                order@ == self@.seat.order,
                forall|j: int|
                    0 <= j < i ==> self@.under(#[trigger] order@[j], self@.root) && (
                    self@.is_split(order@[j]) ==> self@.nodes[order@[j]].children.len() > 0) && (
                    self@.is_container(order@[j])
                        ==> self@.nodes[order@[j]].own_sizing().sound()),
            decreases order@.len() - i,
        {
            let key = order[i];
            assert(order@.contains(key));
            if !self.verify_node(key) {
                assert(self@.nodes.contains_key(key));
                return false;
            }
            i = i + 1;
        }
        proof {
            assert forall|k: NodeKey| #[trigger] self@.nodes.contains_key(k) implies self@.under(
                k,
                self@.root,
            ) && (self@.is_split(k) ==> self@.nodes[k].children.len() > 0) && (self@.is_container(
                k,
            ) ==> self@.nodes[k].own_sizing().sound()) by {
                assert(order@.contains(k));
                let j = choose|j: int| 0 <= j < order@.len() && order@[j] == k;
                assert(self@.under(order@[j], self@.root));
            }
        }
        true
    }

    fn verify_node(&self, key: NodeKey) -> (r: bool)
        requires
            self.wf(),
        ensures
            r == (self@.under(key, self@.root) && (self@.is_split(key)
                ==> self@.nodes[key].children.len() > 0) && (self@.is_container(key)
                ==> self@.nodes[key].own_sizing().sound())),
    {
        if !self.is_descendant(key, self.workspace_root()) {
            return false;
        }
        if let Some(sizing) = self.node_sizing(key) {
            if !sizing.is_sound() {
                return false;
            }
        }
        match self.get_real_container(key) {
            Some(container) => container.common.child_count() > 0,
            None => true,
        }
    }

    /// Whether each entry describes another window, under its present address, in a box that
    /// is not negative.
    fn verify_leaf_layout_cache(&self, layouts: &Vec<LeafLayoutInfo>) -> (r: bool)
        requires
            self.wf(),
        ensures
            r == self@.entries_sound(leaves_state(layouts@)),
    {
        let ghost all = leaves_state(layouts@);
        let mut i: usize = 0;
        while i < layouts.len()
            invariant
                self.wf(),
                i <= layouts@.len(),
                all == leaves_state(layouts@),
                forall|j: int| 0 <= j < i ==> self@.entry_sound(#[trigger] all[j]),
                forall|j: int, n: int|
                    0 <= j < n < i ==> (#[trigger] all[j]).key != (#[trigger] all[n]).key,
            decreases layouts@.len() - i,
        {
            assert(all[i as int] == layouts@[i as int]@);
            if !self.verify_entry(&layouts[i]) {
                assert(!self@.entry_sound(all[i as int]));
                return false;
            }
            let first: usize = crate::leafcache::entry_index(layouts, layouts[i].key);
            if first < i {
                assert(all[first as int] == layouts@[first as int]@);
                assert(all[first as int].key == all[i as int].key);
                return false;
            }
            assert forall|j: int| 0 <= j < i implies (#[trigger] all[j]).key
                != all[i as int].key by {
                assert(all[j] == layouts@[j]@);
                if layouts@[j].key == layouts@[i as int].key {
                    assert(j < first);
                }
            }
            i = i + 1;
        }
        true
    }

    fn verify_entry(&self, info: &LeafLayoutInfo) -> (r: bool)
        requires
            self.wf(),
        ensures
            r == self@.entry_sound(info@),
    {
        if !self.is_leaf(info.key) {
            return false;
        }
        match self.branch_relative_path(info.key) {
            Some(path) => {
                if !crate::commit::same_path(&path, &info.path) {
                    return false;
                }
            },
            None => {
                return false;
            },
        }
        info.rect.size.w.is_at_least_zero() && info.rect.size.h.is_at_least_zero()
    }

    /// Whether the focus names a window and the selection a node.
    fn verify_seat_order(&self) -> (r: bool)
        ensures
            r == self@.focus_live(),
    {
        if let Some(leaf) = self.focused_key() {
            if !self.is_leaf(leaf) {
                return false;
            }
        }
        if let Some(selected) = self.selected_key() {
            if !self.holds_node(selected) {
                return false;
            }
        }
        true
    }

    /// Whether the geometry of every floating group is sound.
    fn verify_floating_region(&self) -> (r: bool)
        ensures
            r == self@.stack_sound(),
    {
        let floating = self.floating();
        let mut i: usize = 0;
        while i < floating.len()
            invariant
                i <= floating@.len(),
                floating@ == self@.floating,
                forall|j: int| 0 <= j < i ==> (#[trigger] floating@[j]).geometry.sound(),
            decreases floating@.len() - i,
        {
            if !floating[i].geometry.is_sound() {
                return false;
            }
            i = i + 1;
        }
        true
    }
}

/// A tree hangs together if and only if no node is loose: then every node is below the workspace.
pub proof fn law_nothing_loose_is_lost(t: Tree)
    requires
        t.wf(),
    ensures
        t.reachable() <==> forall|k: NodeKey| !#[trigger] t.loose(k),
{
    if t.reachable() {
        assert forall|k: NodeKey| !#[trigger] t.loose(k) by {
            if t.loose(k) {
                assert(t.nodes.contains_key(k));
                assert(t.under(k, t.root));
            }
        }
    }
    if forall|k: NodeKey| !#[trigger] t.loose(k) {
        assert forall|k: NodeKey| #[trigger] t.nodes.contains_key(k) implies t.under(k, t.root) by {
            lemma_hangs(t, k);
        }
    }
}

proof fn lemma_hangs(t: Tree, k: NodeKey)
    requires
        t.wf(),
        t.has(k),
        forall|x: NodeKey| !#[trigger] t.loose(x),
    ensures
        t.under(k, t.root),
    decreases crate::tree::depth(t.parents, k),
{
    if k != t.root {
        assert(!t.loose(k));
        crate::tree::lemma_depth(t.parents, k);
        lemma_hangs(t, t.parents[k]);
    }
}

} // verus!
