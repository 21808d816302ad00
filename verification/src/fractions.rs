//! Size shares of the children of a container.
//!
//! The shares themselves are worked out by whoever measures; the tree decides whose shares may
//! change, who pays for a resize, and writes them.

use crate::arena::ContainerArena;
use crate::axis::{Layout, NodeKey, ResizeReach};
use crate::measure::Real;
use crate::tree::Tree;
use vstd::prelude::*;

verus! {

/// The whole as a share.
pub const WHOLE_BITS: u64 = 0x3ff0_0000_0000_0000;

/// What a resize needs to know besides the settled spans: the siblings that pay, and the span
/// each child's share was last taken of.
#[derive(Debug)]
pub struct ResizePlan {
    pub payers: Vec<usize>,
    pub totals: Vec<Real>,
}

/// The places from 0 up to `count`, leaving out `idx`.
pub open spec fn places_but(count: int, idx: int) -> Seq<usize>
    decreases count,
{
    if count <= 0 {
        Seq::empty()
    } else if count - 1 == idx {
        places_but(count - 1, idx)
    } else {
        places_but(count - 1, idx).push((count - 1) as usize)
    }
}

/// The places a resize of the child at `idx` takes its space from.
pub open spec fn payers(count: int, idx: int, reach: ResizeReach) -> Seq<usize> {
    match reach {
        ResizeReach::Siblings => places_but(count, idx),
        ResizeReach::Before => if idx > 0 {
            seq![(idx - 1) as usize]
        } else {
            Seq::empty()
        },
        ResizeReach::After => if idx + 1 < count {
            seq![(idx + 1) as usize]
        } else {
            Seq::empty()
        },
    }
}

impl Real {
    pub open spec fn spec_whole() -> Real {
        Real { bits: WHOLE_BITS }
    }

    /// One.
    pub fn whole() -> (r: Real)
        ensures
            r == Real::spec_whole(),
    {
        Real { bits: WHOLE_BITS }
    }
}

impl Tree {
    /// The share of a node along the axis of `layout`; a node without one has none of it.
    pub open spec fn share_of(self, k: NodeKey, layout: Layout) -> Real {
        match self.sizing_of(k) {
            Some(sizing) => sizing.share(layout),
            None => Real::spec_zero(),
        }
    }

    pub open spec fn with_share(self, k: NodeKey, layout: Layout, share: Real) -> Tree {
        match self.sizing_of(k) {
            Some(sizing) => self.with_sizing(k, sizing.with_share(layout, share)),
            None => self,
        }
    }

    /// The shares of the children of a node, along its own axis.
    pub open spec fn child_shares(self, p: NodeKey) -> Seq<Real> {
        Seq::new(
            self.kids(p).len(),
            |i: int| self.share_of(self.kids(p)[i], self.nodes[p].layout),
        )
    }

    /// The tree with a share for each of `kids`, as far as there are shares.
    pub open spec fn with_shares(self, kids: Seq<NodeKey>, layout: Layout, shares: Seq<Real>) -> Tree
        decreases kids.len(),
    {
        if kids.len() == 0 {
            self
        } else {
            let t = self.with_shares(kids.drop_last(), layout, shares);
            if kids.len() <= shares.len() {
                t.with_share(kids.last(), layout, shares[kids.len() - 1])
            } else {
                t
            }
        }
    }

    /// The tree with the same share for each of `kids`.
    pub open spec fn with_even_shares(self, kids: Seq<NodeKey>, layout: Layout, share: Real) -> Tree {
        self.with_shares(kids, layout, Seq::new(kids.len(), |i: int| share))
    }

    /// The spans the children's shares were last taken of.
    pub open spec fn child_totals(self, p: NodeKey, layout: Layout) -> Seq<Real> {
        Seq::new(
            self.kids(p).len(),
            |i: int|
                match self.sizing_of(self.kids(p)[i]) {
                    Some(sizing) => sizing.total(layout),
                    None => Real::spec_zero(),
                },
        )
    }

    /// Whether a child can be resized in `layout`: its parent runs that way, some sibling
    /// pays, and every child has a span its share was taken of.
    pub open spec fn resizable(self, p: NodeKey, idx: int, layout: Layout, reach: ResizeReach) -> bool {
        &&& self.is_parent(p)
        &&& self.nodes[p].layout == layout
        &&& 0 <= idx < self.kids(p).len()
        &&& payers(self.kids(p).len() as int, idx, reach).len() > 0
        &&& forall|i: int|
            0 <= i < self.kids(p).len() ==> !(#[trigger] self.child_totals(
                p,
                layout,
            )[i]).at_most_zero()
    }
}

/// A share written for a node leaves every node what it was but for its size state.
proof fn lemma_with_share(t: Tree, k: NodeKey, layout: Layout, share: Real)
    ensures
        t.with_share(k, layout, share) == (Tree {
            nodes: t.with_share(k, layout, share).nodes,
            ..t
        }),
        t.with_share(k, layout, share).nodes.dom() =~= t.nodes.dom(),
        forall|x: NodeKey|
            x != k && t.has(x) ==> #[trigger] t.with_share(k, layout, share).nodes[x]
                == t.nodes[x],
        forall|x: NodeKey|
            t.has(x) ==> (#[trigger] t.with_share(k, layout, share).nodes[x]).workspace
                == t.nodes[x].workspace && t.with_share(k, layout, share).nodes[x].children
                == t.nodes[x].children && t.with_share(k, layout, share).nodes[x].layout
                == t.nodes[x].layout && (t.with_share(k, layout, share).nodes[x].tile is Some
                <==> t.nodes[x].tile is Some),
        t.is_container(k) ==> t.with_share(k, layout, share).share_of(k, layout) == share,
        forall|x: NodeKey|
            x != k ==> #[trigger] t.with_share(k, layout, share).sizing_of(x) == t.sizing_of(x),
{
    let u = t.with_share(k, layout, share);
    assert forall|x: NodeKey| x != k implies #[trigger] u.sizing_of(x) == t.sizing_of(x) by {
        if t.has(x) {
            assert(u.nodes[x] == t.nodes[x]);
        }
    }
}

proof fn lemma_with_shares(t: Tree, kids: Seq<NodeKey>, layout: Layout, shares: Seq<Real>)
    requires
        kids.no_duplicates(),
    ensures
        t.with_shares(kids, layout, shares) == (Tree {
            nodes: t.with_shares(kids, layout, shares).nodes,
            ..t
        }),
        t.with_shares(kids, layout, shares).nodes.dom() =~= t.nodes.dom(),
        forall|x: NodeKey|
            t.has(x) ==> (#[trigger] t.with_shares(kids, layout, shares).nodes[x]).workspace
                == t.nodes[x].workspace && t.with_shares(kids, layout, shares).nodes[x].children
                == t.nodes[x].children && t.with_shares(kids, layout, shares).nodes[x].layout
                == t.nodes[x].layout && (t.with_shares(kids, layout, shares).nodes[x].tile is Some
                <==> t.nodes[x].tile is Some),
        forall|x: NodeKey|
            !kids.contains(x) ==> #[trigger] t.with_shares(kids, layout, shares).sizing_of(x)
                == t.sizing_of(x),
        forall|i: int|
            0 <= i < kids.len() && i < shares.len() && t.is_container(kids[i])
                ==> t.with_shares(kids, layout, shares).share_of(
                #[trigger] kids[i],
                layout,
            ) == shares[i],
    decreases kids.len(),
{
    if kids.len() > 0 {
        let front = kids.drop_last();
        let mid = t.with_shares(front, layout, shares);
        lemma_with_shares(t, front, layout, shares);
        let end = t.with_shares(kids, layout, shares);
        if kids.len() <= shares.len() {
            lemma_with_share(mid, kids.last(), layout, shares[kids.len() - 1]);
        }
        assert forall|x: NodeKey| !kids.contains(x) implies #[trigger] end.sizing_of(x)
            == t.sizing_of(x) by {
            assert(kids[kids.len() - 1] != x);
            if front.contains(x) {
                let i = choose|i: int| 0 <= i < front.len() && front[i] == x;
                assert(kids[i] == x);
            }
            assert(mid.sizing_of(x) == t.sizing_of(x));
            assert(end.sizing_of(x) == mid.sizing_of(x));
        }
        assert forall|i: int|
            0 <= i < kids.len() && i < shares.len() && t.is_container(kids[i]) implies
            end.share_of(#[trigger] kids[i], layout) == shares[i] by {
            assert(mid.nodes.dom().contains(kids[i]));
            assert(mid.nodes[kids[i]].workspace == t.nodes[kids[i]].workspace);
            if i < front.len() {
                assert(front[i] == kids[i]);
                assert(mid.share_of(front[i], layout) == shares[i]);
                assert(end.sizing_of(kids[i]) == mid.sizing_of(kids[i]));
            }
        }
    }
}

/// The shares written for the children of a node read back from them, and no other node's
/// share changes.
pub proof fn law_shares_read_back(t: Tree, p: NodeKey, shares: Seq<Real>, other: NodeKey)
    requires
        t.wf(),
        t.is_parent(p),
        shares.len() == t.kids(p).len(),
    ensures
        t.with_shares(t.kids(p), t.nodes[p].layout, shares).child_shares(p) == shares,
        !t.kids(p).contains(other) ==> t.with_shares(
            t.kids(p),
            t.nodes[p].layout,
            shares,
        ).sizing_of(other) == t.sizing_of(other),
{
    let kids = t.kids(p);
    let layout = t.nodes[p].layout;
    let u = t.with_shares(kids, layout, shares);
    assert(t.nodes[p].children.no_duplicates());
    lemma_with_shares(t, kids, layout, shares);
    assert(u.nodes[p].children == t.nodes[p].children);
    assert(u.kids(p) == kids);
    assert forall|i: int| 0 <= i < kids.len() implies u.child_shares(p)[i] == shares[i] by {
        assert(t.parents.contains_key(t.nodes[p].children[i]));
        assert(kids[i] != t.root);
        assert(t.is_container(kids[i]));
        assert(u.share_of(kids[i], layout) == shares[i]);
    }
    assert(u.child_shares(p) =~= shares);
}

impl ContainerArena {
    /// The shares of a parent's children along its axis.
    pub fn child_percents(&self, parent: NodeKey) -> (r: Vec<Real>)
        ensures
            r@ == self@.child_shares(parent),
    {
        let container = match self.get_container(parent) {
            Some(container) => container,
            None => {
                let none: Vec<Real> = Vec::new();
                assert(none@ =~= self@.child_shares(parent));
                return none;
            },
        };
        let layout = container.layout();
        let children = container.children();
        let mut out: Vec<Real> = Vec::new();
        let mut i: usize = 0;
        while i < children.len()
            invariant
                i <= children@.len(),
                self@.is_parent(parent),
                children@ == self@.kids(parent),
                layout == self@.nodes[parent].layout,
                out@.len() == i,
                forall|j: int|
                    0 <= j < i ==> #[trigger] out@[j] == self@.share_of(children@[j], layout),
            decreases children@.len() - i,
        {
            let share = match self.node_fraction(children[i], layout) {
                Some(share) => share,
                None => Real::zero(),
            };
            out.push(share);
            i = i + 1;
        }
        assert(out@ =~= self@.child_shares(parent));
        out
    }

    /// The share of the child at `child_idx`.
    pub fn child_percent(&self, parent: NodeKey, child_idx: usize) -> (r: Option<Real>)
        requires
            self.wf(),
        ensures
            r == if child_idx < self@.kids(parent).len() {
                Some(self@.child_shares(parent)[child_idx as int])
            } else {
                None
            },
    {
        match self.get_container(parent) {
            Some(container) => match container.child_key(child_idx) {
                Some(child) => {
                    proof {
                        crate::walk::lemma_slot(self@, parent, child, child_idx as int);
                    }
                    self.node_fraction(child, container.layout())
                },
                None => None,
            },
            None => None,
        }
    }

    fn set_shares(&mut self, kids: &Vec<NodeKey>, layout: Layout, shares: &Vec<Real>)
        requires
            old(self).wf(),
        ensures
            final(self).wf(),
            final(self)@ == old(self)@.with_shares(kids@, layout, shares@),
            final(self)@.windows() == old(self)@.windows(),
            forall|k: NodeKey| #[trigger] final(self)@.loose(k) ==> old(self)@.loose(k),
            old(self)@.mentions_live() ==> final(self)@.mentions_live(),
    {
        let ghost t = self@;
        let mut i: usize = 0;
        assert(kids@.take(0) =~= Seq::empty());
        while i < kids.len()
            invariant
                self.wf(),
                forall|k: NodeKey| #[trigger] self@.loose(k) ==> old(self)@.loose(k),
                old(self)@.mentions_live() ==> self@.mentions_live(),
                self@.windows() == old(self)@.windows(),
                i <= kids@.len(),
                self@ == t.with_shares(kids@.take(i as int), layout, shares@),
            decreases kids@.len() - i,
        {
            assert(kids@.take(i as int + 1).drop_last() =~= kids@.take(i as int));
            if i < shares.len() {
                self.set_node_fraction(kids[i], layout, shares[i]);
            }
            i = i + 1;
        }
        assert(kids@.take(i as int) =~= kids@);
    }

    /// Writes the shares an arrange resolved for the children of a split.
    pub fn resolve_child_percents(&mut self, parent: NodeKey, resolved: &Vec<Real>)
        requires
            old(self).wf(),
        ensures
            final(self).wf(),
            final(self)@ == if old(self)@.is_parent(parent) && old(
                self,
            )@.nodes[parent].layout.is_split() {
                old(self)@.with_shares(
                    old(self)@.kids(parent),
                    old(self)@.nodes[parent].layout,
                    resolved@,
                )
            } else {
                old(self)@
            },
            final(self)@.windows() == old(self)@.windows(),
            forall|k: NodeKey| #[trigger] final(self)@.loose(k) ==> old(self)@.loose(k),
            old(self)@.mentions_live() ==> final(self)@.mentions_live(),
    {
        let layout = match self.get_container(parent) {
            Some(container) => container.layout(),
            None => {
                return;
            },
        };
        if !layout.is_split_layout() {
            return;
        }
        let kids = self.child_keys_of(parent);
        self.set_shares(&kids, layout, resolved);
    }

    /// Gives every child the same share; false if there is no such parent.
    pub fn recalculate_child_percents(&mut self, parent: NodeKey, share: Real) -> (r: bool)
        requires
            old(self).wf(),
        ensures
            final(self).wf(),
            r == old(self)@.is_parent(parent),
            final(self)@ == if old(self)@.is_parent(parent) {
                old(self)@.with_even_shares(
                    old(self)@.kids(parent),
                    old(self)@.nodes[parent].layout,
                    share,
                )
            } else {
                old(self)@
            },
            final(self)@.windows() == old(self)@.windows(),
            forall|k: NodeKey| #[trigger] final(self)@.loose(k) ==> old(self)@.loose(k),
            old(self)@.mentions_live() ==> final(self)@.mentions_live(),
    {
        let layout = match self.get_container(parent) {
            Some(container) => container.layout(),
            None => {
                return false;
            },
        };
        let kids = self.child_keys_of(parent);
        let mut shares: Vec<Real> = Vec::new();
        let mut i: usize = 0;
        while i < kids.len()
            invariant
                i <= kids@.len(),
                shares@ == Seq::new(i as nat, |j: int| share),
            decreases kids@.len() - i,
        {
            let ghost before = shares@;
            shares.push(share);
            assert(shares@ =~= Seq::new((i + 1) as nat, |j: int| share));
            i = i + 1;
        }
        assert(shares@ =~= Seq::new(kids@.len(), |j: int| share));
        self.set_shares(&kids, layout, &shares);
        true
    }

    /// Gives the children of a parent the shares worked out for a request to size the child at
    /// `child_idx`. An only child takes everything. Nothing changes when the parent runs
    /// another way, has no such child, or the shares are not one for each child.
    pub fn set_child_percent(
        &mut self,
        parent: NodeKey,
        child_idx: usize,
        layout: Layout,
        shares: &Vec<Real>,
    ) -> (r: bool)
        requires
            old(self).wf(),
        ensures
            final(self).wf(),
            r == (old(self)@.is_parent(parent) && old(self)@.nodes[parent].layout == layout
                && child_idx < old(self)@.kids(parent).len() && (old(self)@.kids(parent).len() == 1
                || shares@.len() == old(self)@.kids(parent).len())),
            final(self)@ == if !r {
                old(self)@
            } else if old(self)@.kids(parent).len() == 1 {
                old(self)@.with_share(old(self)@.kids(parent)[0], layout, Real::spec_whole())
            } else {
                old(self)@.with_shares(old(self)@.kids(parent), layout, shares@)
            },
            final(self)@.windows() == old(self)@.windows(),
            forall|k: NodeKey| #[trigger] final(self)@.loose(k) ==> old(self)@.loose(k),
            old(self)@.mentions_live() ==> final(self)@.mentions_live(),
    {
        match self.get_container(parent) {
            Some(container) => {
                if container.layout() != layout || child_idx >= container.child_count() {
                    return false;
                }
            },
            None => {
                return false;
            },
        }
        let kids = self.child_keys_of(parent);
        if kids.len() == 1 {
            proof {
                crate::walk::lemma_slot(self@, parent, kids@[0], 0);
            }
            self.set_node_fraction(kids[0], layout, Real::whole());
            return true;
        }
        if shares.len() != kids.len() {
            return false;
        }
        self.set_shares(&kids, layout, shares);
        true
    }

    /// Who pays for a resize and what the shares were taken of, if the child can be resized.
    pub fn resize_plan(
        &self,
        parent: NodeKey,
        child_idx: usize,
        layout: Layout,
        reach: ResizeReach,
    ) -> (r: Option<ResizePlan>)
        ensures
            r is Some <==> self@.resizable(parent, child_idx as int, layout, reach),
            r matches Some(plan) ==> plan.payers@ == payers(
                self@.kids(parent).len() as int,
                child_idx as int,
                reach,
            ) && plan.totals@ == self@.child_totals(parent, layout),
    {
        let container = match self.get_container(parent) {
            Some(container) => container,
            None => {
                return None;
            },
        };
        let count: usize = container.child_count();
        if container.layout() != layout || child_idx >= count {
            return None;
        }
        let payers = payers_of(count, child_idx, reach);
        if payers.len() == 0 {
            return None;
        }
        let children = container.children();
        let mut totals: Vec<Real> = Vec::new();
        let mut i: usize = 0;
        while i < children.len()
            invariant
                i <= children@.len(),
                children@ == self@.kids(parent),
                totals@.len() == i,
                forall|j: int|
                    0 <= j < i ==> #[trigger] totals@[j] == self@.child_totals(parent, layout)[j]
                        && !totals@[j].at_most_zero(),
            decreases children@.len() - i,
        {
            let total = match self.node_child_total(children[i], layout) {
                Some(total) => total,
                None => Real::zero(),
            };
            assert(total == self@.child_totals(parent, layout)[i as int]);
            if total.is_at_most_zero() {
                return None;
            }
            totals.push(total);
            i = i + 1;
        }
        proof {
            assert(totals@ =~= self@.child_totals(parent, layout));
            assert forall|j: int| 0 <= j < self@.kids(parent).len() implies !(
            #[trigger] self@.child_totals(parent, layout)[j]).at_most_zero() by {
                assert(totals@[j] == self@.child_totals(parent, layout)[j]);
            }
        }
        Some(ResizePlan { payers, totals })
    }

    /// Writes the shares of a resize, if the child can be resized and there is one for each.
    pub fn resize_child(
        &mut self,
        parent: NodeKey,
        child_idx: usize,
        layout: Layout,
        reach: ResizeReach,
        shares: &Vec<Real>,
    ) -> (r: bool)
        requires
            old(self).wf(),
        ensures
            final(self).wf(),
            r == (old(self)@.resizable(parent, child_idx as int, layout, reach) && shares@.len()
                == old(self)@.kids(parent).len()),
            final(self)@ == if r {
                old(self)@.with_shares(old(self)@.kids(parent), layout, shares@)
            } else {
                old(self)@
            },
            final(self)@.windows() == old(self)@.windows(),
            forall|k: NodeKey| #[trigger] final(self)@.loose(k) ==> old(self)@.loose(k),
            old(self)@.mentions_live() ==> final(self)@.mentions_live(),
    {
        if self.resize_plan(parent, child_idx, layout, reach).is_none() {
            return false;
        }
        let kids = self.child_keys_of(parent);
        if shares.len() != kids.len() {
            return false;
        }
        self.set_shares(&kids, layout, shares);
        true
    }

    /// Writes the shares of two children of one parent.
    pub fn set_child_percent_pair(
        &mut self,
        parent: NodeKey,
        idx: usize,
        neighbor_idx: usize,
        share: Real,
        neighbor_share: Real,
    ) -> (r: bool)
        requires
            old(self).wf(),
        ensures
            final(self).wf(),
            r == (idx < old(self)@.kids(parent).len() && neighbor_idx < old(self)@.kids(
                parent,
            ).len() && idx != neighbor_idx),
            final(self)@ == if r {
                old(self)@.with_share(
                    old(self)@.kids(parent)[idx as int],
                    old(self)@.nodes[parent].layout,
                    share,
                ).with_share(
                    old(self)@.kids(parent)[neighbor_idx as int],
                    old(self)@.nodes[parent].layout,
                    neighbor_share,
                )
            } else {
                old(self)@
            },
            final(self)@.windows() == old(self)@.windows(),
            forall|k: NodeKey| #[trigger] final(self)@.loose(k) ==> old(self)@.loose(k),
            old(self)@.mentions_live() ==> final(self)@.mentions_live(),
    {
        let (layout, child, neighbor) = match self.get_container(parent) {
            Some(container) => {
                if idx == neighbor_idx {
                    return false;
                }
                match (container.child_key(idx), container.child_key(neighbor_idx)) {
                    (Some(child), Some(neighbor)) => (container.layout(), child, neighbor),
                    _ => {
                        return false;
                    },
                }
            },
            None => {
                return false;
            },
        };
        self.set_node_fraction(child, layout, share);
        self.set_node_fraction(neighbor, layout, neighbor_share);
        true
    }
}

fn payers_of(count: usize, idx: usize, reach: ResizeReach) -> (r: Vec<usize>)
    requires
        idx < count,
    ensures
        r@ == payers(count as int, idx as int, reach),
{
    let mut out: Vec<usize> = Vec::new();
    match reach {
        ResizeReach::Siblings => {
            let mut i: usize = 0;
            while i < count
                invariant
                    i <= count,
                    out@ == places_but(i as int, idx as int),
                decreases count - i,
            {
                if i != idx {
                    out.push(i);
                }
                i = i + 1;
            }
        },
        ResizeReach::Before => {
            if idx > 0 {
                out.push(idx - 1);
            }
            assert(out@ =~= payers(count as int, idx as int, reach));
        },
        ResizeReach::After => {
            if idx + 1 < count {
                out.push(idx + 1);
            }
            assert(out@ =~= payers(count as int, idx as int, reach));
        },
    }
    out
}

} // verus!
