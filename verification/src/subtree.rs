//! Subtrees leaving a tree and arriving in another, with the identities they have.

use crate::arena::ContainerArena;
use crate::axis::{Layout, NodeKey};
use crate::measure::NodeSizing;
use crate::node::{tile_state, ContainerData, DetachedNode, Node, NodeData};
use crate::seat::{
    kept_in, lemma_resequenced, lemma_within, lemma_within_agree, lemma_within_twice, position_of,
    within, Seat,
};
use crate::tile::{marks_state, TileState};
use crate::tree::{
    acyclic, depth, lemma_added, lemma_depth, lemma_linked_at, lemma_parent_not_under_child,
    lemma_ranks_fit, lemma_under_chain, lemma_under_trans, lemma_unlinked, ranked, ranks, room,
    under, Tree,
};
use crate::walk::lemma_step_down;
use vstd::prelude::*;

verus! {

/// A subtree on its own: what travels with a node, and with each node below it.
pub struct Branch {
    pub key: NodeKey,
    pub sizing: NodeSizing,
    pub layout: Layout,
    pub tile: Option<TileState>,
    pub children: Seq<Branch>,
    /// The children, most recently focused first.
    pub focus_stack: Seq<NodeKey>,
    pub user_created: bool,
    pub prev_split_layout: Option<Layout>,
    pub marks: Seq<Seq<char>>,
}

impl DetachedNode {
    /// The subtree as a value.
    pub open spec fn branch(self) -> Branch
        decreases self, self.children.len() + 2,
    {
        Branch {
            key: self.key,
            sizing: self.sizing,
            layout: self.layout,
            tile: tile_state(self.tile),
            children: self.branches_from(0),
            focus_stack: self.focus_stack@,
            user_created: self.user_created,
            prev_split_layout: self.prev_split_layout,
            marks: marks_state(self.marks@),
        }
    }

    /// The children from index `i` on.
    pub open spec fn branches_from(self, i: int) -> Seq<Branch>
        decreases self, self.children.len() - i + 1,
    {
        if 0 <= i < self.children.len() {
            seq![self.children@[i].branch()] + self.branches_from(i + 1)
        } else {
            Seq::empty()
        }
    }
}

impl View for DetachedNode {
    type V = Branch;

    open spec fn view(&self) -> Branch {
        self.branch()
    }
}

impl Tree {
    /// Everything at or below a node.
    pub open spec fn below(self, k: NodeKey) -> Set<NodeKey> {
        Set::new(|x: NodeKey| self.under(x, k))
    }

    /// The tree without some of its nodes, and without anything naming them.
    pub open spec fn cut(self, gone: Set<NodeKey>) -> Tree {
        let stay = gone.complement();
        Tree {
            nodes: self.nodes.remove_keys(gone),
            parents: self.parents.remove_keys(gone),
            seat: Seat {
                order: within(self.seat.order, stay),
                leaf: kept_in(self.seat.leaf, stay),
                selected: kept_in(self.seat.selected, stay),
            },
            fullscreen: kept_in(self.fullscreen, stay),
            ..self
        }
    }

    /// The subtree at a node, with its children in their focus order.
    pub open spec fn branch_at(self, k: NodeKey) -> Branch
        decreases room(self.parents, k), self.kids(k).len() + 2,
        when self.wf()
    {
        let node = self.nodes[k];
        Branch {
            key: k,
            sizing: node.sizing,
            layout: node.layout,
            tile: node.tile,
            children: self.branches_at(k, 0),
            focus_stack: within(self.seat.order, self.kids(k).to_set()),
            user_created: node.user_created,
            prev_split_layout: node.prev_split_layout,
            marks: node.marks,
        }
    }

    /// The subtrees at the children of `k` from index `i` on.
    pub open spec fn branches_at(self, k: NodeKey, i: int) -> Seq<Branch>
        decreases room(self.parents, k), self.kids(k).len() - i + 1,
        when self.wf()
    {
        proof {
            if 0 <= i < self.kids(k).len() {
                assert(self.parents.contains_key(self.nodes[k].children[i]));
                lemma_depth(self.parents, self.kids(k)[i]);
            }
        }
        if 0 <= i < self.kids(k).len() {
            seq![self.branch_at(self.kids(k)[i])] + self.branches_at(k, i + 1)
        } else {
            Seq::empty()
        }
    }
}

/// The children of a subtree value, one by one.
pub proof fn lemma_branches_from(d: DetachedNode, i: int)
    requires
        0 <= i <= d.children.len(),
    ensures
        d.branches_from(i).len() == d.children.len() - i,
        forall|j: int|
            0 <= j < d.children.len() - i ==> #[trigger] d.branches_from(i)[j]
                == d.children@[i + j].branch(),
    decreases d.children.len() - i,
{
    if i < d.children.len() {
        lemma_branches_from(d, i + 1);
        let rest = d.branches_from(i + 1);
        assert forall|j: int| 0 <= j < d.children.len() - i implies #[trigger] d.branches_from(
            i,
        )[j] == d.children@[i + j].branch() by {
            if j > 0 {
                assert(rest[j - 1] == d.children@[i + 1 + (j - 1)].branch());
            }
        }
    }
}

/// The subtrees at the children of a node, one by one.
pub proof fn lemma_branches_at(t: Tree, k: NodeKey, i: int)
    requires
        t.wf(),
        0 <= i <= t.kids(k).len(),
    ensures
        t.branches_at(k, i).len() == t.kids(k).len() - i,
        forall|j: int|
            0 <= j < t.kids(k).len() - i ==> #[trigger] t.branches_at(k, i)[j] == t.branch_at(
                t.kids(k)[i + j],
            ),
    decreases t.kids(k).len() - i,
{
    if i < t.kids(k).len() {
        lemma_branches_at(t, k, i + 1);
        let rest = t.branches_at(k, i + 1);
        assert forall|j: int| 0 <= j < t.kids(k).len() - i implies #[trigger] t.branches_at(k, i)[j]
            == t.branch_at(t.kids(k)[i + j]) by {
            if j > 0 {
                assert(rest[j - 1] == t.branch_at(t.kids(k)[i + 1 + (j - 1)]));
            }
        }
    }
}

/// Two trees that agree on everything below a node hold the same subtree there.
pub proof fn lemma_branch_same(t: Tree, u: Tree, k: NodeKey)
    requires
        t.wf(),
        u.wf(),
        t.has(k),
        forall|x: NodeKey| #[trigger]
            t.under(x, k) && t.has(x) ==> u.has(x) && u.nodes[x] == t.nodes[x] && within(
                u.seat.order,
                t.kids(x).to_set(),
            ) == within(t.seat.order, t.kids(x).to_set()),
    ensures
        t.branch_at(k) == u.branch_at(k),
    decreases room(t.parents, k),
{
    assert(t.under(k, k));
    assert(t.kids(k) == u.kids(k));
    let kids = t.kids(k);
    assert forall|j: int| 0 <= j < kids.len() implies t.branch_at(#[trigger] kids[j])
        == u.branch_at(kids[j]) by {
        let c = kids[j];
        assert(t.parents.contains_key(t.nodes[k].children[j]));
        assert(t.parents[c] == k);
        lemma_depth(t.parents, c);
        assert(t.under(c, k));
        assert forall|x: NodeKey| #[trigger] t.under(x, c) && t.has(x) implies u.has(x)
            && u.nodes[x] == t.nodes[x] && within(u.seat.order, t.kids(x).to_set()) == within(
            t.seat.order,
            t.kids(x).to_set(),
        ) by {
            lemma_under_trans(t.parents, x, c, k);
            assert(t.under(x, k));
        }
        lemma_branch_same(t, u, c);
    }
    lemma_branches_at(t, k, 0);
    lemma_branches_at(u, k, 0);
    assert(t.branches_at(k, 0) =~= u.branches_at(k, 0)) by {
        assert forall|j: int| 0 <= j < kids.len() implies t.branches_at(k, 0)[j] == u.branches_at(
            k,
            0,
        )[j] by {
            assert(t.branches_at(k, 0)[j] == t.branch_at(t.kids(k)[0 + j]));
            assert(u.branches_at(k, 0)[j] == u.branch_at(u.kids(k)[0 + j]));
            assert(kids[j] == t.kids(k)[0 + j]);
        }
    }
}

/// With links taken away nothing new is above anything.
pub proof fn lemma_under_fewer(
    more: Map<NodeKey, NodeKey>,
    fewer: Map<NodeKey, NodeKey>,
    x: NodeKey,
    top: NodeKey,
)
    requires
        acyclic(more),
        acyclic(fewer),
        forall|y: NodeKey| #[trigger]
            fewer.contains_key(y) ==> more.contains_key(y) && more[y] == fewer[y],
        under(fewer, x, top),
    ensures
        under(more, x, top),
    decreases depth(fewer, x),
{
    if x != top {
        lemma_depth(fewer, x);
        lemma_under_fewer(more, fewer, fewer[x], top);
    }
}

/// A node stays below another while every link on the way is there.
pub proof fn lemma_under_intact(
    parents: Map<NodeKey, NodeKey>,
    other: Map<NodeKey, NodeKey>,
    x: NodeKey,
    top: NodeKey,
)
    requires
        acyclic(parents),
        acyclic(other),
        under(parents, x, top),
        forall|y: NodeKey|
            #![trigger other.contains_key(y)]
            #![trigger parents.contains_key(y)]
            under(parents, y, top) && y != top && parents.contains_key(y) ==> other.contains_key(y)
                && other[y] == parents[y],
    ensures
        under(other, x, top),
    decreases depth(parents, x),
{
    if x != top {
        assert(parents.contains_key(x));
        lemma_depth(parents, x);
        lemma_under_intact(parents, other, parents[x], top);
    }
}

/// No node is below two children of the same parent.
pub proof fn lemma_siblings_apart(t: Tree, k: NodeKey, i: int, j: int, x: NodeKey)
    requires
        t.wf(),
        t.has(k),
        0 <= i < t.nodes[k].children.len(),
        0 <= j < t.nodes[k].children.len(),
        i != j,
        t.under(x, t.nodes[k].children[i]),
    ensures
        !t.under(x, t.nodes[k].children[j]),
{
    let a = t.nodes[k].children[i];
    let b = t.nodes[k].children[j];
    assert(t.nodes[k].children.no_duplicates());
    assert(a != b);
    assert(t.parents.contains_key(a) && t.parents[a] == k);
    assert(t.parents.contains_key(b) && t.parents[b] == k);
    if t.under(x, b) {
        lemma_under_chain(t.parents, x, a, b);
        if t.under(a, b) {
            assert(t.under(k, b));
            lemma_parent_not_under_child(t.parents, b);
        } else {
            assert(t.under(k, a));
            lemma_parent_not_under_child(t.parents, a);
        }
    }
}

impl Tree {
    /// Everything at or below the first `i` children of `k`.
    pub open spec fn below_first(self, k: NodeKey, i: int) -> Set<NodeKey> {
        Set::new(
            |x: NodeKey|
                exists|j: int|
                    0 <= j < i && j < self.nodes[k].children.len() && self.under(
                        x,
                        #[trigger] self.nodes[k].children[j],
                    ),
        )
    }

    /// The tree with the first `i` children of `k` gone with everything below them.
    pub open spec fn stripped(self, k: NodeKey, i: int) -> Tree {
        self.cut(self.below_first(k, i)).with_node(
            k,
            self.nodes[k].with_children(self.nodes[k].children.skip(i)),
        )
    }
}

/// One more child gone: what is below it is what was below it in the whole tree, and the
/// subtree it takes along is the one it had there.
proof fn lemma_stripped_step(t: Tree, k: NodeKey, i: int)
    requires
        t.wf(),
        t.is_parent(k),
        !t.parents.contains_key(k),
        0 <= i < t.nodes[k].children.len(),
        t.stripped(k, i).wf(),
    ensures
        ({
            let c = t.nodes[k].children[i];
            let u = t.stripped(k, i).unlinked(c);
            &&& t.stripped(k, i).parents.contains_key(c)
            &&& !t.stripped(k, i).is_floating(c)
            &&& u.wf()
            &&& u.has(c)
            &&& c != u.root
            &&& !u.parents.contains_key(c)
            &&& u.below(c) == t.below(c)
            &&& u.branch_at(c) == t.branch_at(c)
            &&& u.cut(u.below(c)) == t.stripped(k, i + 1)
        }),
{
    let kids = t.nodes[k].children;
    let c = kids[i];
    let s = t.stripped(k, i);
    let u = s.unlinked(c);
    let gone = t.below_first(k, i);
    assert(kids.no_duplicates());
    assert(t.parents.contains_key(c) && t.parents[c] == k);
    assert(t.under(c, c));
    assert(!gone.contains(c)) by {
        if gone.contains(c) {
            let j = choose|j: int| 0 <= j < i && j < kids.len() && t.under(c, #[trigger] kids[j]);
            lemma_siblings_apart(t, k, i, j, c);
        }
    }
    assert(!gone.contains(k)) by {
        if gone.contains(k) {
            let j = choose|j: int| 0 <= j < i && j < kids.len() && t.under(k, #[trigger] kids[j]);
            assert(t.parents.contains_key(kids[j]));
            lemma_parent_not_under_child(t.parents, kids[j]);
        }
    }
    assert(s.parents.contains_key(c) && s.parents[c] == k);
    assert(!t.is_floating(c)) by {
        if t.is_floating(c) {
            let j = choose|j: int| 0 <= j < t.floating.len() && #[trigger] t.floating[j].key == c;
            assert(t.parents[t.floating[j].key] == t.root);
        }
    }
    assert(!s.is_floating(c)) by {
        if s.is_floating(c) {
            let j = choose|j: int| 0 <= j < s.floating.len() && #[trigger] s.floating[j].key == c;
            assert(t.floating[j].key == c);
        }
    }
    lemma_unlinked(s, c);
    let left = kids.skip(i);
    assert(s.nodes[k].children == left);
    assert(left[0] == c);
    assert(left.no_duplicates());
    assert(left.index_of(c) == 0) by {
        assert(left[left.index_of(c)] == left[0]);
    }
    assert(left.remove(0) =~= kids.skip(i + 1));
    assert(u.nodes[k].children == kids.skip(i + 1));
    // below
    assert forall|x: NodeKey| u.under(x, c) <==> t.under(x, c) by {
        if u.under(x, c) {
            lemma_under_fewer(t.parents, u.parents, x, c);
        }
        if t.under(x, c) {
            assert forall|y: NodeKey|
                #![trigger u.parents.contains_key(y)]
                #![trigger t.parents.contains_key(y)]
                under(t.parents, y, c) && y != c && t.parents.contains_key(
                    y,
                ) implies u.parents.contains_key(y) && u.parents[y] == t.parents[y] by {
                if gone.contains(y) {
                    let j = choose|j: int|
                        0 <= j < i && j < kids.len() && t.under(y, #[trigger] kids[j]);
                    lemma_siblings_apart(t, k, i, j, y);
                }
            }
            lemma_under_intact(t.parents, u.parents, x, c);
        }
    }
    assert(u.below(c) =~= t.below(c));
    // the subtree
    assert forall|x: NodeKey| #[trigger] t.under(x, c) && t.has(x) implies u.has(x) && u.nodes[x]
        == t.nodes[x] && within(u.seat.order, t.kids(x).to_set()) == within(
        t.seat.order,
        t.kids(x).to_set(),
    ) by {
        assert(!gone.contains(x)) by {
            if gone.contains(x) {
                let j = choose|j: int|
                    0 <= j < i && j < kids.len() && t.under(x, #[trigger] kids[j]);
                lemma_siblings_apart(t, k, i, j, x);
            }
        }
        assert(x != k) by {
            lemma_parent_not_under_child(t.parents, c);
        }
        let own = t.kids(x).to_set();
        lemma_within_twice(t.seat.order, gone.complement(), own);
        assert forall|y: NodeKey| #[trigger] t.seat.order.contains(y) implies (
        gone.complement().intersect(own).contains(y) <==> own.contains(y)) by {
            if own.contains(y) && gone.contains(y) {
                let n = choose|n: int| 0 <= n < t.kids(x).len() && t.kids(x)[n] == y;
                assert(t.parents.contains_key(t.nodes[x].children[n]));
                assert(t.parents[y] == x);
                assert(t.under(y, c));
                let j = choose|j: int|
                    0 <= j < i && j < kids.len() && t.under(y, #[trigger] kids[j]);
                lemma_siblings_apart(t, k, i, j, y);
            }
        }
        lemma_within_agree(t.seat.order, gone.complement().intersect(own), own);
    }
    lemma_branch_same(t, u, c);
    // the rest
    let v = u.cut(u.below(c));
    let w = t.stripped(k, i + 1);
    let next = t.below_first(k, i + 1);
    assert forall|x: NodeKey| next.contains(x) <==> gone.contains(x) || t.under(x, c) by {
        if next.contains(x) {
            let j = choose|j: int|
                0 <= j < i + 1 && j < kids.len() && t.under(x, #[trigger] kids[j]);
            if j < i {
                assert(t.under(x, kids[j]));
            }
        }
        if gone.contains(x) {
            let j = choose|j: int| 0 <= j < i && j < kids.len() && t.under(x, #[trigger] kids[j]);
            assert(t.under(x, kids[j]));
        }
        if t.under(x, c) {
            assert(t.under(x, kids[i]));
        }
    }
    assert(!t.under(k, c)) by {
        lemma_parent_not_under_child(t.parents, c);
    }
    assert(!next.contains(k));
    assert(gone.complement().intersect(t.below(c).complement()) =~= next.complement());
    lemma_within_twice(t.seat.order, gone.complement(), t.below(c).complement());
    assert(v.nodes =~= w.nodes);
    assert(v.parents =~= w.parents);
    assert(v == w);
}

/// All the children gone, and then the node itself.
proof fn lemma_stripped_end(t: Tree, k: NodeKey)
    requires
        t.wf(),
        t.has(k),
        k != t.root,
        !t.parents.contains_key(k),
    ensures
        t.stripped(k, t.nodes[k].children.len() as int).dropped(k) == t.cut(t.below(k)),
        t.stripped(k, t.nodes[k].children.len() as int).nodes[k].children.len() == 0,
        !t.stripped(k, t.nodes[k].children.len() as int).parents.contains_key(k),
        t.stripped(k, t.nodes[k].children.len() as int).nodes[k].tile == t.nodes[k].tile,
{
    let kids = t.nodes[k].children;
    let n = kids.len() as int;
    let gone = t.below_first(k, n);
    let s = t.stripped(k, n);
    assert(t.under(k, k));
    assert forall|x: NodeKey| t.below(k).contains(x) <==> gone.contains(x) || x == k by {
        if t.under(x, k) && x != k {
            let c = lemma_step_down(t, k, x);
            assert(t.nodes[k].children.contains(c));
            let j = choose|j: int| 0 <= j < kids.len() && kids[j] == c;
            assert(t.under(x, kids[j]));
        }
        if gone.contains(x) {
            let j = choose|j: int| 0 <= j < n && j < kids.len() && t.under(x, #[trigger] kids[j]);
            assert(t.parents.contains_key(t.nodes[k].children[j]));
            assert(t.under(kids[j], k));
            lemma_under_trans(t.parents, x, kids[j], k);
        }
    }
    let v = s.dropped(k);
    let w = t.cut(t.below(k));
    assert(gone.complement().intersect(Set::full().remove(k)) =~= t.below(k).complement());
    lemma_within_twice(t.seat.order, gone.complement(), Set::full().remove(k));
    assert(v.nodes =~= w.nodes);
    assert(v.parents =~= w.parents);
    assert(v == w);
}

/// Before any child is gone nothing is.
proof fn lemma_stripped_start(t: Tree, k: NodeKey)
    requires
        t.wf(),
        t.has(k),
    ensures
        t.stripped(k, 0) == t,
{
    let s = t.stripped(k, 0);
    let gone = t.below_first(k, 0);
    assert(gone =~= Set::empty());
    crate::seat::lemma_within_all(t.seat.order, gone.complement());
    assert(t.nodes[k].children.skip(0) =~= t.nodes[k].children);
    assert(s.nodes =~= t.nodes);
    assert(s.parents =~= t.parents);
}

impl ContainerArena {
    /// The children of a node, copied out.
    pub(crate) fn child_keys_of(&self, key: NodeKey) -> (r: Vec<NodeKey>)
        ensures
            r@ == self@.kids(key),
    {
        let mut kids: Vec<NodeKey> = Vec::new();
        if let Some(container) = self.get_container(key) {
            let list = &container.children;
            let mut i: usize = 0;
            while i < list.len()
                invariant
                    i <= list@.len(),
                    kids@ == list@.take(i as int),
                decreases list@.len() - i,
            {
                kids.push(list[i]);
                assert(list@.take(i as int).push(list@[i as int]) =~= list@.take(i as int + 1));
                i = i + 1;
            }
            assert(list@.take(i as int) =~= list@);
        }
        kids
    }

    /// The entries of the focus order among `keys`, most recent first.
    fn in_focus_order(&self, keys: &Vec<NodeKey>) -> (r: Vec<NodeKey>)
        ensures
            r@ == within(self@.seat.order, keys@.to_set()),
    {
        let order = self.seat().order();
        let mut kept: Vec<NodeKey> = Vec::new();
        let mut i: usize = 0;
        assert(order@.take(0) =~= Seq::empty());
        while i < order.len()
            invariant
                i <= order@.len(),
                kept@ == within(order@.take(i as int), keys@.to_set()),
            decreases order@.len() - i,
        {
            proof {
                crate::seat::lemma_within_step(order@, keys@.to_set(), i as int);
            }
            let key = order[i];
            if position_of(keys, key).is_some() {
                kept.push(key);
            }
            i = i + 1;
        }
        assert(order@.take(i as int) =~= order@);
        kept
    }

    /// Takes a loose subtree out of the tree, with the identities and the inner focus order it
    /// has here.
    pub fn extract_subtree(&mut self, key: NodeKey) -> (r: DetachedNode)
        requires
            old(self).wf(),
            old(self)@.has(key),
            key != old(self)@.root,
            !old(self)@.parents.contains_key(key),
        ensures
            final(self).wf(),
            r@ == old(self)@.branch_at(key),
            final(self)@ == old(self)@.cut(old(self)@.below(key)),
            final(self)@.windows() == old(self)@.windows().remove_keys(old(self)@.below(key)),
            forall|k: NodeKey| #[trigger]
                final(self)@.loose(k) ==> old(self)@.loose(k) && k != key,
            old(self)@.mentions_live() ==> final(self)@.mentions_live(),
    {
        reveal(Tree::mentions_live);
        proof {
            lemma_ranks_fit(self@.parents);
            lemma_windows_cut(self@, self@.below(key));
        }
        self.extract_ranked(
            key,
            Ghost(ranks(self@.parents).0),
            Ghost(ranks(self@.parents).1),
        )
    }

    fn extract_ranked(
        &mut self,
        key: NodeKey,
        Ghost(rank): Ghost<spec_fn(NodeKey) -> nat>,
        Ghost(bound): Ghost<nat>,
    ) -> (r: DetachedNode)
        requires
            old(self).wf(),
            old(self)@.has(key),
            key != old(self)@.root,
            !old(self)@.parents.contains_key(key),
            ranked(old(self)@.parents, rank, bound),
        ensures
            final(self).wf(),
            r@ == old(self)@.branch_at(key),
            final(self)@ == old(self)@.cut(old(self)@.below(key)),
        decreases bound + 1 - rank(key),
    {
        let ghost t = self@;
        let kids = self.child_keys_of(key);
        let focus_stack = self.in_focus_order(&kids);
        let mut children: Vec<DetachedNode> = Vec::new();
        let mut i: usize = 0;
        proof {
            lemma_stripped_start(t, key);
            assert(kids@ == t.nodes[key].children) by {
                if t.is_view(key) {
                    assert(t.nodes.contains_key(key));
                    assert(t.nodes[key].children =~= Seq::empty());
                }
            }
        }
        while i < kids.len()
            invariant
                i <= kids@.len(),
                t.wf(),
                t.has(key),
                kids@ == t.kids(key),
                kids@ == t.nodes[key].children,
                !t.parents.contains_key(key),
                ranked(t.parents, rank, bound),
                self.wf(),
                self@ == t.stripped(key, i as int),
                children@.len() == i,
                forall|j: int|
                    0 <= j < i ==> (#[trigger] children@[j])@ == t.branch_at(kids@[j]),
            decreases kids@.len() - i,
        {
            let child_key = kids[i];
            proof {
                assert(t.nodes[key].children.len() > 0);
                assert(t.nodes.contains_key(key));
                lemma_stripped_step(t, key, i as int);
                assert(t.parents.contains_key(t.nodes[key].children[i as int]));
                assert(rank(key) < rank(child_key) && rank(child_key) <= bound);
            }
            self.detach_child(child_key);
            assert(ranked(self@.parents, rank, bound)) by {
                assert forall|x: NodeKey| #[trigger] self@.parents.contains_key(x) implies rank(
                    self@.parents[x],
                ) < rank(x) && rank(x) <= bound by {
                    assert(t.parents.contains_key(x));
                }
            }
            let child = self.extract_ranked(child_key, Ghost(rank), Ghost(bound));
            children.push(child);
            i = i + 1;
        }
        proof {
            lemma_stripped_end(t, key);
        }
        let removed = self.remove_node_from_store(key);
        let node = match removed {
            Some(NodeData::Container(container)) => container,
            _ => {
                assert(false) by {
                    assert(t.nodes.contains_key(key));
                    assert(t.stripped(key, kids@.len() as int).has(key));
                }
                ContainerData::new(Layout::SplitH)
            },
        };
        let detached = DetachedNode {
            key,
            sizing: node.sizing,
            layout: node.common.layout,
            user_created: node.user_created,
            prev_split_layout: node.common.prev_split_layout,
            marks: node.marks,
            tile: node.tile,
            children,
            focus_stack,
        };
        proof {
            lemma_branches_from(detached, 0);
            lemma_branches_at(t, key, 0);
            assert(detached.branches_from(0) =~= t.branches_at(key, 0)) by {
                assert forall|j: int| 0 <= j < kids@.len() implies detached.branches_from(0)[j]
                    == t.branches_at(key, 0)[j] by {
                    assert(detached.branches_from(0)[j] == detached.children@[0 + j].branch());
                    assert(children@[j]@ == t.branch_at(kids@[j]));
                    assert(t.branches_at(key, 0)[j] == t.branch_at(t.kids(key)[0 + j]));
                }
            }
        }
        detached
    }
}

// ---------------------------------------------------------------------------------------------
// Arrivals
// ---------------------------------------------------------------------------------------------

impl Branch {
    /// Every identity in the subtree, depth first.
    pub open spec fn keys(self) -> Seq<NodeKey>
        decreases self, self.children.len() + 2,
    {
        seq![self.key] + self.keys_from(0)
    }

    /// The identities in the children from index `i` on.
    pub open spec fn keys_from(self, i: int) -> Seq<NodeKey>
        decreases self, self.children.len() - i + 1,
    {
        if 0 <= i < self.children.len() {
            self.children[i].keys() + self.keys_from(i + 1)
        } else {
            Seq::empty()
        }
    }

    pub open spec fn child_keys(self) -> Seq<NodeKey> {
        Seq::new(self.children.len(), |i: int| self.children[i].key)
    }

    /// Windows hold no children and no focus order lists a child twice, here and below.
    pub open spec fn sound(self) -> bool
        decreases self, self.children.len() + 2,
    {
        &&& self.tile is Some ==> self.children.len() == 0
        &&& self.focus_stack.no_duplicates()
        &&& self.sound_from(0)
    }

    pub open spec fn sound_from(self, i: int) -> bool
        decreases self, self.children.len() - i + 1,
    {
        0 <= i < self.children.len() ==> self.children[i].sound() && self.sound_from(i + 1)
    }

    /// Each focus order lists exactly the children, here and below.
    pub open spec fn complete(self) -> bool
        decreases self, self.children.len() + 2,
    {
        &&& forall|k: NodeKey| #[trigger]
            self.focus_stack.contains(k) <==> self.child_keys().contains(k)
        &&& self.complete_from(0)
    }

    pub open spec fn complete_from(self, i: int) -> bool
        decreases self, self.children.len() - i + 1,
    {
        0 <= i < self.children.len() ==> self.children[i].complete() && self.complete_from(i + 1)
    }

    /// The node this subtree puts into a tree. A window's is made anew around its tile.
    pub open spec fn node(self) -> Node {
        match self.tile {
            Some(tile) => Node::view_of(tile),
            None => Node {
                sizing: self.sizing,
                user_created: self.user_created,
                prev_split_layout: self.prev_split_layout,
                marks: self.marks,
                ..Node::split(self.layout)
            },
        }
    }

    /// The subtree with its windows as fresh nodes around their tiles.
    pub open spec fn renewed(self) -> Branch
        decreases self, self.children.len() + 2,
    {
        let node = self.node();
        Branch {
            sizing: node.sizing,
            layout: node.layout,
            user_created: node.user_created,
            prev_split_layout: node.prev_split_layout,
            marks: node.marks,
            children: self.renewed_from(0),
            ..self
        }
    }

    pub open spec fn renewed_from(self, i: int) -> Seq<Branch>
        decreases self, self.children.len() - i + 1,
    {
        if 0 <= i < self.children.len() {
            seq![self.children[i].renewed()] + self.renewed_from(i + 1)
        } else {
            Seq::empty()
        }
    }
}

impl Tree {
    /// Whether a subtree can arrive: its identities are distinct and none is in use here.
    pub open spec fn admits(self, b: Branch) -> bool {
        &&& b.sound()
        &&& b.keys().no_duplicates()
        &&& forall|k: NodeKey| #[trigger]
            b.keys().contains(k) ==> !self.has(k) && k.id < u64::MAX
    }

    /// The tree with a subtree arrived and linked to nothing above it. Its nodes come last in
    /// the focus order, the children of each in the sequence they carried.
    pub open spec fn planted(self, b: Branch) -> Tree
        decreases b, b.children.len() + 2,
    {
        let grown = self.added(b.key, b.node()).planted_from(b, 0);
        grown.with_seat(
            grown.seat.resequenced(within(b.focus_stack, b.child_keys().to_set())),
        )
    }

    /// The children of the subtree from index `i` on arrived under its root.
    pub open spec fn planted_from(self, b: Branch, i: int) -> Tree
        decreases b, b.children.len() - i + 1,
    {
        if 0 <= i < b.children.len() {
            self.planted(b.children[i]).linked_at(b.children[i].key, b.key, i).planted_from(
                b,
                i + 1,
            )
        } else {
            self
        }
    }
}

/// What an arrival keeps of the tree it comes into, and what it adds.
pub open spec fn grown(t: Tree, u: Tree, keys: Seq<NodeKey>) -> bool {
    &&& u.wf()
    &&& forall|x: NodeKey| #[trigger] u.has(x) <==> t.has(x) || keys.contains(x)
    &&& u.root == t.root
    &&& u.floating == t.floating
    &&& u.fullscreen == t.fullscreen
    &&& u.seat.leaf == t.seat.leaf
    &&& u.seat.selected == t.seat.selected
    &&& u.caches == t.caches
    &&& u.options == t.options
    &&& forall|live: Set<NodeKey>|
        (forall|k: NodeKey| #[trigger] keys.contains(k) ==> !live.contains(k))
            ==> #[trigger] within(u.seat.order, live) == within(t.seat.order, live)
}

/// Nodes that were there before are as they were.
pub open spec fn undisturbed(t: Tree, u: Tree) -> bool {
    forall|x: NodeKey| #[trigger]
        t.has(x) ==> u.nodes[x] == t.nodes[x] && (u.parents.contains_key(x)
            <==> t.parents.contains_key(x)) && u.parents[x] == t.parents[x]
}

/// The identities of the children, one child at a time.
proof fn lemma_keys_from(b: Branch, i: int)
    requires
        0 <= i < b.children.len(),
    ensures
        b.keys_from(i) == b.children[i].keys() + b.keys_from(i + 1),
        b.children[i].keys().contains(b.children[i].key),
        forall|k: NodeKey| #[trigger]
            b.keys_from(i).contains(k) <==> b.children[i].keys().contains(k) || b.keys_from(
                i + 1,
            ).contains(k),
        b.keys_from(i).no_duplicates() ==> b.children[i].keys().no_duplicates() && b.keys_from(
            i + 1,
        ).no_duplicates() && forall|k: NodeKey| #[trigger]
            b.children[i].keys().contains(k) ==> !b.keys_from(i + 1).contains(k),
{
    let first = b.children[i].keys();
    let rest = b.keys_from(i + 1);
    let all = b.keys_from(i);
    assert(all == first + rest);
    assert(first[0] == b.children[i].key);
    assert forall|k: NodeKey| #[trigger] all.contains(k) <==> first.contains(k) || rest.contains(
        k,
    ) by {
        if all.contains(k) {
            let n = choose|n: int| 0 <= n < all.len() && all[n] == k;
            if n < first.len() {
                assert(first[n] == k);
            } else {
                assert(rest[n - first.len()] == k);
            }
        }
        if first.contains(k) {
            let n = choose|n: int| 0 <= n < first.len() && first[n] == k;
            assert(all[n] == k);
        }
        if rest.contains(k) {
            let n = choose|n: int| 0 <= n < rest.len() && rest[n] == k;
            assert(all[first.len() + n] == k);
        }
    }
    if all.no_duplicates() {
        assert forall|x: int, y: int|
            0 <= x < first.len() && 0 <= y < first.len() && x != y implies first[x] != first[y] by {
            assert(all[x] != all[y]);
        }
        assert forall|x: int, y: int|
            0 <= x < rest.len() && 0 <= y < rest.len() && x != y implies rest[x] != rest[y] by {
            assert(all[first.len() + x] != all[first.len() + y]);
        }
        assert forall|k: NodeKey| #[trigger] first.contains(k) implies !rest.contains(k) by {
            if rest.contains(k) {
                let n = choose|n: int| 0 <= n < first.len() && first[n] == k;
                let m = choose|m: int| 0 <= m < rest.len() && rest[m] == k;
                assert(all[n] == all[first.len() + m]);
            }
        }
    }
}

/// The root of a subtree comes first and is not listed again.
pub proof fn lemma_keys(b: Branch)
    ensures
        b.keys()[0] == b.key,
        b.keys().contains(b.key),
        forall|k: NodeKey| #[trigger]
            b.keys().contains(k) <==> k == b.key || b.keys_from(0).contains(k),
        b.keys().no_duplicates() ==> b.keys_from(0).no_duplicates() && !b.keys_from(0).contains(
            b.key,
        ),
{
    let rest = b.keys_from(0);
    let all = b.keys();
    assert(all == seq![b.key] + rest);
    crate::seat::lemma_front_contains(b.key, rest);
    if all.no_duplicates() {
        assert forall|x: int, y: int|
            0 <= x < rest.len() && 0 <= y < rest.len() && x != y implies rest[x] != rest[y] by {
            assert(all[1 + x] != all[1 + y]);
        }
        if rest.contains(b.key) {
            let m = choose|m: int| 0 <= m < rest.len() && rest[m] == b.key;
            assert(all[0] == all[1 + m]);
        }
    }
}

/// The children of a subtree are among its identities.
proof fn lemma_child_keys(b: Branch, i: int, j: int)
    requires
        0 <= i <= j < b.children.len(),
    ensures
        b.keys_from(i).contains(b.children[j].key),
    decreases j - i,
{
    lemma_keys_from(b, i);
    if i < j {
        lemma_child_keys(b, i + 1, j);
    }
}

/// The children of a subtree are distinct.
proof fn lemma_child_keys_distinct(b: Branch, i: int)
    requires
        0 <= i <= b.children.len(),
        b.keys_from(i).no_duplicates(),
    ensures
        forall|x: int, y: int|
            i <= x < y < b.children.len() ==> (#[trigger] b.children[x]).key != (
            #[trigger] b.children[y]).key,
    decreases b.children.len() - i,
{
    if i < b.children.len() {
        lemma_keys_from(b, i);
        lemma_child_keys_distinct(b, i + 1);
        assert forall|x: int, y: int| i <= x < y < b.children.len() implies (
        #[trigger] b.children[x]).key != (#[trigger] b.children[y]).key by {
            if x == i {
                lemma_child_keys(b, i + 1, y);
            }
        }
    }
}

/// An arrival keeps the tree well-formed and what was in it as it was; its root is loose.
pub proof fn lemma_planted(t: Tree, b: Branch)
    requires
        t.wf(),
        t.admits(b),
    ensures
        grown(t, t.planted(b), b.keys()),
        undisturbed(t, t.planted(b)),
        !t.planted(b).parents.contains_key(b.key),
        t.planted(b).nodes[b.key] == b.node().with_children(b.child_keys()),
    decreases b, b.children.len() + 2,
{
    let a = t.added(b.key, b.node());
    lemma_keys(b);
    lemma_added(t, b.key, b.node());
    assert(a.nodes[b.key].children =~= b.child_keys().take(0));
    assert forall|k: NodeKey| #[trigger] b.keys_from(0).contains(k) implies !a.has(k) && k.id
        < u64::MAX by {
        assert(b.keys().contains(k));
    }
    lemma_planted_from(a, b, 0);
    let g = a.planted_from(b, 0);
    let stack = within(b.focus_stack, b.child_keys().to_set());
    lemma_within(b.focus_stack, b.child_keys().to_set());
    lemma_resequenced(g.seat, stack);
    let u = t.planted(b);
    assert forall|k: NodeKey| #[trigger] stack.contains(k) implies b.keys_from(0).contains(k) by {
        assert(b.child_keys().contains(k));
        let j = choose|j: int| 0 <= j < b.child_keys().len() && b.child_keys()[j] == k;
        lemma_child_keys(b, 0, j);
    }
    assert forall|k: NodeKey| #[trigger] u.seat.order.contains(k) <==> u.has(k) by {
        assert(g.seat.order.contains(k) <==> g.has(k));
        if stack.contains(k) {
            assert(g.has(k));
        }
    }
    crate::tree::lemma_with_seat(g, u.seat);
    assert forall|x: NodeKey| #[trigger] u.has(x) <==> t.has(x) || b.keys().contains(x) by {
        assert(g.has(x) <==> a.has(x) || b.keys_from(0).contains(x));
        assert(a.has(x) <==> t.has(x) || x == b.key);
    }
    assert forall|live: Set<NodeKey>|
        (forall|k: NodeKey| #[trigger] b.keys().contains(k) ==> !live.contains(k)) implies
        #[trigger] within(u.seat.order, live) == within(t.seat.order, live) by {
        assert forall|k: NodeKey| #[trigger] stack.contains(k) implies !live.contains(k) by {
            assert(b.keys().contains(k));
        }
        assert(within(u.seat.order, live) == within(g.seat.order, live));
        assert forall|k: NodeKey| #[trigger] b.keys_from(0).contains(k) implies !live.contains(
            k,
        ) by {
            assert(b.keys().contains(k));
        }
        assert(within(g.seat.order, live) == within(a.seat.order, live));
        lemma_registered(t.seat, b.key, live);
    }
    assert forall|x: NodeKey| #[trigger] t.has(x) implies u.nodes[x] == t.nodes[x] && (
    u.parents.contains_key(x) <==> t.parents.contains_key(x)) && u.parents[x]
        == t.parents[x] by {
        assert(a.has(x));
        assert(x != b.key);
    }
    assert(b.child_keys().take(b.children.len() as int) =~= b.child_keys());
    assert(a.has(b.key));
}

/// A key registered at the end changes nothing among the others.
proof fn lemma_registered(seat: Seat, key: NodeKey, live: Set<NodeKey>)
    requires
        !live.contains(key),
    ensures
        within(seat.register(key).order, live) == within(seat.order, live),
{
    if !seat.order.contains(key) {
        assert(seat.order.push(key).drop_last() =~= seat.order);
    }
}

proof fn lemma_planted_from(t: Tree, b: Branch, i: int)
    requires
        t.wf(),
        0 <= i <= b.children.len(),
        t.has(b.key),
        b.key != t.root,
        !t.parents.contains_key(b.key),
        i < b.children.len() ==> t.is_parent(b.key),
        t.nodes[b.key].children == b.child_keys().take(i),
        b.sound_from(i),
        b.keys_from(i).no_duplicates(),
        forall|k: NodeKey| #[trigger]
            b.keys_from(i).contains(k) ==> !t.has(k) && k.id < u64::MAX,
    ensures
        grown(t, t.planted_from(b, i), b.keys_from(i)),
        forall|x: NodeKey| #[trigger]
            t.has(x) ==> (x != b.key ==> t.planted_from(b, i).nodes[x] == t.nodes[x]) && (
            t.planted_from(b, i).parents.contains_key(x) <==> t.parents.contains_key(x))
                && t.planted_from(b, i).parents[x] == t.parents[x],
        t.planted_from(b, i).nodes[b.key] == t.nodes[b.key].with_children(b.child_keys()),
    decreases b, b.children.len() - i + 1,
{
    if i < b.children.len() {
        let child = b.children[i];
        lemma_keys_from(b, i);
        assert forall|k: NodeKey| #[trigger] child.keys().contains(k) implies !t.has(k) && k.id
            < u64::MAX by {
            assert(b.keys_from(i).contains(k));
        }
        lemma_planted(t, child);
        let p = t.planted(child);
        assert(b.keys_from(i).contains(child.key));
        assert(p.has(b.key) && p.has(child.key));
        assert(child.key != b.key);
        assert(!p.under(b.key, child.key));
        assert(child.key != p.root);
        lemma_linked_at(p, child.key, b.key, i);
        let q = p.linked_at(child.key, b.key, i);
        assert(q.nodes[b.key].children =~= b.child_keys().take(i + 1)) by {
            assert(p.nodes[b.key].children == b.child_keys().take(i));
            assert(b.child_keys().take(i + 1) =~= b.child_keys().take(i).push(child.key));
            assert(b.child_keys().take(i).insert(i, child.key) =~= b.child_keys().take(i).push(
                child.key,
            ));
        }
        assert forall|k: NodeKey| #[trigger] b.keys_from(i + 1).contains(k) implies !q.has(k)
            && k.id < u64::MAX by {
            assert(b.keys_from(i).contains(k));
            assert(!child.keys().contains(k));
            assert(!p.has(k));
        }
        assert(q.nodes[b.key].tile == t.nodes[b.key].tile);
        lemma_planted_from(q, b, i + 1);
        let u = t.planted_from(b, i);
        assert(u == q.planted_from(b, i + 1));
        assert forall|x: NodeKey| #[trigger] u.has(x) <==> t.has(x) || b.keys_from(i).contains(
            x,
        ) by {
            assert(u.has(x) <==> q.has(x) || b.keys_from(i + 1).contains(x));
            assert(q.has(x) <==> p.has(x));
        }
        assert forall|live: Set<NodeKey>|
            (forall|k: NodeKey| #[trigger] b.keys_from(i).contains(k) ==> !live.contains(
                k,
            )) implies #[trigger] within(u.seat.order, live) == within(t.seat.order, live) by {
            assert forall|k: NodeKey| #[trigger]
                b.keys_from(i + 1).contains(k) implies !live.contains(k) by {
                assert(b.keys_from(i).contains(k));
            }
            assert forall|k: NodeKey| #[trigger] child.keys().contains(k) implies !live.contains(
                k,
            ) by {
                assert(b.keys_from(i).contains(k));
            }
            assert(within(u.seat.order, live) == within(q.seat.order, live));
            assert(within(p.seat.order, live) == within(t.seat.order, live));
        }
        assert forall|x: NodeKey| #[trigger] t.has(x) implies (x != b.key ==> u.nodes[x]
            == t.nodes[x]) && (u.parents.contains_key(x) <==> t.parents.contains_key(x))
            && u.parents[x] == t.parents[x] by {
            assert(p.has(x));
            assert(q.has(x));
            assert(x != child.key);
        }
        assert(q.has(b.key));
        assert(u.nodes[b.key] == t.nodes[b.key].with_children(b.child_keys()));
    } else {
        assert(b.child_keys().take(i) =~= b.child_keys());
        assert forall|x: NodeKey| !(#[trigger] b.keys_from(i).contains(x)) by {}
        assert(t.nodes[b.key] == t.nodes[b.key].with_children(b.child_keys()));
    }
}

impl ContainerArena {
    /// Moves nodes to the end of the focus order in their own sequence.
    fn resequence(&mut self, keys: &Vec<NodeKey>)
        requires
            old(self).wf(),
            keys@.no_duplicates(),
            forall|k: NodeKey| #[trigger] keys@.contains(k) ==> old(self)@.has(k),
        ensures
            final(self).wf(),
            final(self)@ == old(self)@.with_seat(old(self)@.seat.resequenced(keys@)),
            forall|k: NodeKey| #[trigger] final(self)@.loose(k) ==> old(self)@.loose(k),
            old(self)@.mentions_live() ==> final(self)@.mentions_live(),
    {
        reveal(Tree::mentions_live);
        let ghost t = self@;
        self.seat_mut().resequence(keys);
        proof {
            lemma_resequenced(t.seat, keys@);
            assert forall|k: NodeKey| #[trigger] self@.seat.order.contains(k) <==> self@.has(k) by {
                assert(t.seat.order.contains(k) <==> t.has(k));
            }
            crate::tree::lemma_with_seat(t, self@.seat);
        }
    }

    /// Puts a subtree into this tree under the identities it has, linked to nothing above it.
    /// Its nodes come last in the focus order, the children of each in the sequence they
    /// carried. Answers with its root.
    pub fn insert_subtree(&mut self, subtree: DetachedNode) -> (r: NodeKey)
        requires
            old(self).wf(),
            old(self)@.admits(subtree@),
        ensures
            final(self).wf(),
            r == subtree@.key,
            final(self)@ == old(self)@.planted(subtree@),
            forall|k: NodeKey| #[trigger]
                final(self)@.loose(k) ==> old(self)@.loose(k) || k == r,
            old(self)@.mentions_live() ==> final(self)@.mentions_live(),
        decreases subtree,
    {
        let ghost whole = subtree;
        let ghost b = subtree@;
        let ghost t = self@;
        let key = subtree.key;
        let node = match subtree.tile {
            Some(tile) => ContainerData::new_view(tile),
            None => {
                let mut split = ContainerData::new(subtree.layout);
                split.sizing = subtree.sizing;
                split.user_created = subtree.user_created;
                split.common.prev_split_layout = subtree.prev_split_layout;
                split.marks = subtree.marks;
                split
            },
        };
        assert(node@ == b.node());
        proof {
            lemma_keys(b);
            lemma_added(t, key, b.node());
            lemma_branches_from(whole, 0);
            assert(b.children.len() == whole.children@.len());
            assert(b.child_keys().take(0) =~= Seq::empty());
        }
        self.insert_node_with_key(key, node);
        let ghost a = self@;
        proof {
            assert forall|k: NodeKey| #[trigger] b.keys_from(0).contains(k) implies !a.has(k)
                && k.id < u64::MAX by {
                assert(b.keys().contains(k));
            }
        }
        let mut rest = subtree.children;
        let mut child_keys: Vec<NodeKey> = Vec::new();
        let ghost mut i: int = 0;
        assert(rest@ =~= whole.children@.skip(0));
        assert(a.nodes[key].children =~= b.child_keys().take(0));
        while rest.len() > 0
            invariant
                0 <= i <= b.children.len(),
                whole == subtree,
                b == whole@,
                key == b.key,
                b.children.len() == whole.children@.len(),
                forall|j: int|
                    0 <= j < whole.children@.len() ==> #[trigger] b.children[j]
                        == whole.children@[j].branch(),
                rest@ == whole.children@.skip(i),
                child_keys@ == b.child_keys().take(i),
                self.wf(),
                self@.has(key),
                key != self@.root,
                !self@.parents.contains_key(key),
                b.children.len() > 0 ==> self@.is_parent(key),
                self@.nodes[key].children == b.child_keys().take(i),
                b.sound_from(i),
                b.keys_from(i).no_duplicates(),
                forall|k: NodeKey| #[trigger]
                    b.keys_from(i).contains(k) ==> !self@.has(k) && k.id < u64::MAX,
                self@.planted_from(b, i) == a.planted_from(b, 0),
                forall|k: NodeKey| #[trigger] self@.loose(k) ==> old(self)@.loose(k) || k == key,
                old(self)@.mentions_live() ==> self@.mentions_live(),
            decreases rest@.len(),
        {
            let ghost before = self@;
            let ghost child_value = b.children[i];
            proof {
                assert(rest@[0] == whole.children@[i]);
                assert(b.children[i] == whole.children@[i].branch());
                lemma_keys_from(b, i);
                assert(decreases_to!(whole => whole.children@[i]));
                assert forall|k: NodeKey| #[trigger]
                    child_value.keys().contains(k) implies !before.has(k) && k.id < u64::MAX by {
                    assert(b.keys_from(i).contains(k));
                }
                assert(b.keys_from(i).contains(child_value.key));
            }
            let child = rest.remove(0);
            assert(child@ == b.children[i]);
            assert(before.admits(child@));
            let child_key = self.insert_subtree(child);
            proof {
                lemma_planted(before, child_value);
                let p = self@;
                assert(p.has(key) && p.has(child_key));
                assert(child_key != key);
                assert(!p.under(key, child_key));
                assert(p.nodes[key] == before.nodes[key]);
            }
            let at: usize = child_keys.len();
            self.attach_child(child_key, key, at);
            child_keys.push(child_key);
            proof {
                let p = before.planted(child_value);
                assert(at == i);
                assert(b.child_keys().take(i + 1) =~= b.child_keys().take(i).push(child_key));
                assert(self@.nodes[key].children =~= b.child_keys().take(i + 1)) by {
                    assert(p.nodes[key].children == b.child_keys().take(i));
                    assert(b.child_keys().take(i).insert(i, child_key) =~= b.child_keys().take(
                        i,
                    ).push(child_key));
                }
                assert forall|k: NodeKey| #[trigger]
                    b.keys_from(i + 1).contains(k) implies !self@.has(k) && k.id < u64::MAX by {
                    assert(b.keys_from(i).contains(k));
                    assert(!child_value.keys().contains(k));
                    assert(!p.has(k));
                }
                assert(rest@ =~= whole.children@.skip(i + 1));
                i = i + 1;
            }
        }
        proof {
            assert(i == b.children.len());
            assert(b.child_keys().take(i) =~= b.child_keys());
        }
        let mut stack: Vec<NodeKey> = Vec::new();
        let mut j: usize = 0;
        assert(subtree.focus_stack@.take(0) =~= Seq::empty());
        while j < subtree.focus_stack.len()
            invariant
                j <= subtree.focus_stack@.len(),
                stack@ == within(subtree.focus_stack@.take(j as int), child_keys@.to_set()),
            decreases subtree.focus_stack@.len() - j,
        {
            proof {
                crate::seat::lemma_within_step(
                    subtree.focus_stack@,
                    child_keys@.to_set(),
                    j as int,
                );
            }
            let entry = subtree.focus_stack[j];
            if position_of(&child_keys, entry).is_some() {
                stack.push(entry);
            }
            j = j + 1;
        }
        proof {
            assert(subtree.focus_stack@.take(j as int) =~= b.focus_stack);
            lemma_within(b.focus_stack, child_keys@.to_set());
            assert forall|k: NodeKey| #[trigger] stack@.contains(k) implies self@.has(k) by {
                assert(child_keys@.contains(k));
                let n = choose|n: int| 0 <= n < child_keys@.len() && child_keys@[n] == k;
                assert(self@.nodes[key].children[n] == k);
                assert(self@.parents.contains_key(self@.nodes[key].children[n]));
            }
        }
        self.resequence(&stack);
        key
    }
}

// ---------------------------------------------------------------------------------------------
// What a transfer keeps
// ---------------------------------------------------------------------------------------------

/// Nothing that was in the tree before an arrival is below what arrived.
pub proof fn lemma_old_not_below(t: Tree, u: Tree, x: NodeKey, top: NodeKey)
    requires
        t.wf(),
        u.wf(),
        undisturbed(t, u),
        t.has(x),
        !t.has(top),
    ensures
        !u.under(x, top),
    decreases depth(t.parents, x),
{
    if t.parents.contains_key(x) {
        lemma_depth(t.parents, x);
        lemma_old_not_below(t, u, t.parents[x], top);
    }
}

/// The children of the renewed subtree, one by one.
proof fn lemma_renewed_from(b: Branch, i: int)
    requires
        0 <= i <= b.children.len(),
    ensures
        b.renewed_from(i).len() == b.children.len() - i,
        forall|j: int|
            0 <= j < b.children.len() - i ==> #[trigger] b.renewed_from(i)[j] == b.children[i
                + j].renewed(),
    decreases b.children.len() - i,
{
    if i < b.children.len() {
        lemma_renewed_from(b, i + 1);
        let rest = b.renewed_from(i + 1);
        assert forall|j: int| 0 <= j < b.children.len() - i implies #[trigger] b.renewed_from(i)[j]
            == b.children[i + j].renewed() by {
            if j > 0 {
                assert(rest[j - 1] == b.children[i + 1 + (j - 1)].renewed());
            }
        }
    }
}

/// A subtree read back from the tree it arrived in is the one that arrived.
proof fn lemma_planted_reads_back(t: Tree, b: Branch)
    requires
        t.wf(),
        t.admits(b),
        b.complete(),
    ensures
        t.planted(b).branch_at(b.key) == b.renewed(),
    decreases b, b.children.len() + 2,
{
    let a = t.added(b.key, b.node());
    lemma_keys(b);
    lemma_added(t, b.key, b.node());
    assert(a.nodes[b.key].children =~= b.child_keys().take(0));
    assert forall|k: NodeKey| #[trigger] b.keys_from(0).contains(k) implies !a.has(k) && k.id
        < u64::MAX by {
        assert(b.keys().contains(k));
    }
    lemma_planted_from(a, b, 0);
    lemma_planted_from_reads_back(a, b, 0);
    lemma_planted(t, b);
    lemma_child_keys_distinct(b, 0);
    let g = a.planted_from(b, 0);
    let u = t.planted(b);
    let stack = within(b.focus_stack, b.child_keys().to_set());
    lemma_within(b.focus_stack, b.child_keys().to_set());
    crate::seat::lemma_within_all(b.focus_stack, b.child_keys().to_set());
    assert(stack == b.focus_stack);
    lemma_resequenced(g.seat, stack);
    let kids = b.child_keys();
    assert(u.kids(b.key) =~= kids) by {
        if b.tile is Some {
            assert(kids =~= Seq::empty());
        }
    }
    assert forall|j: int| 0 <= j < kids.len() implies u.branch_at(#[trigger] kids[j])
        == b.children[j].renewed() by {
        let c = kids[j];
        lemma_child_keys(b, 0, j);
        assert(g.branch_at(c) == b.children[j].renewed());
        assert(g.has(c));
        assert forall|x: NodeKey| #[trigger] g.under(x, c) && g.has(x) implies u.has(x)
            && u.nodes[x] == g.nodes[x] && within(u.seat.order, g.kids(x).to_set()) == within(
            g.seat.order,
            g.kids(x).to_set(),
        ) by {
            assert forall|k: NodeKey| #[trigger] stack.contains(k) implies !g.kids(
                x,
            ).to_set().contains(k) by {
                if g.kids(x).to_set().contains(k) {
                    assert(kids.contains(k));
                    let m = choose|m: int| 0 <= m < kids.len() && kids[m] == k;
                    assert(g.nodes[b.key].children[m] == k);
                    assert(g.parents[g.nodes[b.key].children[m]] == b.key);
                    let n = choose|n: int| 0 <= n < g.kids(x).len() && g.kids(x)[n] == k;
                    assert(g.parents[g.nodes[x].children[n]] == x);
                    assert(x == b.key);
                    assert(g.nodes[b.key].children[j] == c);
                    assert(g.parents.contains_key(g.nodes[b.key].children[j]));
                    lemma_parent_not_under_child(g.parents, c);
                }
            }
        }
        lemma_branch_same(g, u, c);
    }
    lemma_branches_at(u, b.key, 0);
    lemma_renewed_from(b, 0);
    assert(u.branches_at(b.key, 0) =~= b.renewed_from(0)) by {
        assert forall|j: int| 0 <= j < kids.len() implies u.branches_at(b.key, 0)[j]
            == b.renewed_from(0)[j] by {
            assert(u.branches_at(b.key, 0)[j] == u.branch_at(u.kids(b.key)[0 + j]));
            assert(b.renewed_from(0)[j] == b.children[0 + j].renewed());
            assert(u.branch_at(kids[j]) == b.children[j].renewed());
        }
    }
    assert(within(u.seat.order, u.kids(b.key).to_set()) == stack);
    assert(u.branch_at(b.key) == b.renewed());
}

proof fn lemma_planted_from_reads_back(t: Tree, b: Branch, i: int)
    requires
        t.wf(),
        0 <= i <= b.children.len(),
        t.has(b.key),
        b.key != t.root,
        !t.parents.contains_key(b.key),
        i < b.children.len() ==> t.is_parent(b.key),
        t.nodes[b.key].children == b.child_keys().take(i),
        b.sound_from(i),
        b.complete_from(i),
        b.keys_from(i).no_duplicates(),
        forall|k: NodeKey| #[trigger]
            b.keys_from(i).contains(k) ==> !t.has(k) && k.id < u64::MAX,
    ensures
        forall|j: int|
            i <= j < b.children.len() ==> t.planted_from(b, i).branch_at(
                (#[trigger] b.children[j]).key,
            ) == b.children[j].renewed(),
    decreases b, b.children.len() - i + 1,
{
    if i < b.children.len() {
        let child = b.children[i];
        lemma_keys_from(b, i);
        assert forall|k: NodeKey| #[trigger] child.keys().contains(k) implies !t.has(k) && k.id
            < u64::MAX by {
            assert(b.keys_from(i).contains(k));
        }
        lemma_planted(t, child);
        lemma_planted_reads_back(t, child);
        let p = t.planted(child);
        assert(b.keys_from(i).contains(child.key));
        assert(p.has(b.key) && p.has(child.key));
        assert(child.key != b.key);
        assert(!p.under(b.key, child.key));
        lemma_linked_at(p, child.key, b.key, i);
        let q = p.linked_at(child.key, b.key, i);
        assert(q.nodes[b.key].children =~= b.child_keys().take(i + 1)) by {
            assert(p.nodes[b.key].children == b.child_keys().take(i));
            assert(b.child_keys().take(i + 1) =~= b.child_keys().take(i).push(child.key));
            assert(b.child_keys().take(i).insert(i, child.key) =~= b.child_keys().take(i).push(
                child.key,
            ));
        }
        assert forall|k: NodeKey| #[trigger] b.keys_from(i + 1).contains(k) implies !q.has(k)
            && k.id < u64::MAX by {
            assert(b.keys_from(i).contains(k));
            assert(!child.keys().contains(k));
            assert(!p.has(k));
        }
        assert(q.nodes[b.key].tile == t.nodes[b.key].tile);
        lemma_planted_from(q, b, i + 1);
        lemma_planted_from_reads_back(q, b, i + 1);
        let u = t.planted_from(b, i);
        assert(u == q.planted_from(b, i + 1));
        assert forall|x: NodeKey| #[trigger] p.under(x, child.key) && p.has(x) implies u.has(x)
            && u.nodes[x] == p.nodes[x] && within(u.seat.order, p.kids(x).to_set()) == within(
            p.seat.order,
            p.kids(x).to_set(),
        ) by {
            assert(!t.has(x)) by {
                if t.has(x) {
                    lemma_old_not_below(t, p, x, child.key);
                }
            }
            assert(child.keys().contains(x));
            assert(x != b.key);
            assert(q.has(x));
            assert(u.has(x));
            assert(q.nodes[x] == p.nodes[x]);
            assert(u.nodes[x] == q.nodes[x]);
            let live = p.kids(x).to_set();
            assert forall|k: NodeKey| #[trigger]
                b.keys_from(i + 1).contains(k) implies !live.contains(k) by {
                if live.contains(k) {
                    let n = choose|n: int| 0 <= n < p.kids(x).len() && p.kids(x)[n] == k;
                    assert(p.parents.contains_key(p.nodes[x].children[n]));
                    assert(p.has(k));
                    assert(q.has(k));
                }
            }
            assert(within(u.seat.order, live) == within(q.seat.order, live));
        }
        lemma_branch_same(p, u, child.key);
    }
}

/// A subtree read from a tree lists the children of each node once in its focus order, names
/// each node once, and names only live nodes below its root.
proof fn lemma_branch_at(t: Tree, k: NodeKey)
    requires
        t.wf(),
        t.has(k),
    ensures
        t.branch_at(k).key == k,
        t.branch_at(k).sound(),
        t.branch_at(k).complete(),
        t.branch_at(k).child_keys() == t.kids(k),
        t.branch_at(k).keys().no_duplicates(),
        forall|x: NodeKey| #[trigger]
            t.branch_at(k).keys().contains(x) ==> t.under(x, k) && t.has(x),
    decreases room(t.parents, k), t.kids(k).len() + 2,
{
    let b = t.branch_at(k);
    lemma_branches_at(t, k, 0);
    lemma_branch_at_from(t, k, 0);
    let kids = t.kids(k);
    assert(b.child_keys() =~= kids) by {
        assert forall|j: int| 0 <= j < kids.len() implies b.child_keys()[j] == kids[j] by {
            assert(t.branches_at(k, 0)[j] == t.branch_at(t.kids(k)[0 + j]));
        }
    }
    lemma_within(t.seat.order, kids.to_set());
    assert forall|x: NodeKey| #[trigger] b.focus_stack.contains(x) <==> b.child_keys().contains(
        x,
    ) by {
        if kids.contains(x) {
            let j = choose|j: int| 0 <= j < kids.len() && kids[j] == x;
            assert(t.parents.contains_key(t.nodes[k].children[j]));
            assert(t.has(x));
            assert(t.seat.order.contains(x));
        }
    }
    lemma_keys(b);
    assert(t.under(k, k));
    assert(b.keys() == seq![k] + b.keys_from(0));
    assert(!b.keys_from(0).contains(k)) by {
        if b.keys_from(0).contains(k) {
            assert(t.under(k, k) && exists|j: int|
                0 <= j < kids.len() && t.under(k, #[trigger] kids[j]));
            let j = choose|j: int| 0 <= j < kids.len() && t.under(k, #[trigger] kids[j]);
            assert(t.parents.contains_key(t.nodes[k].children[j]));
            lemma_parent_not_under_child(t.parents, kids[j]);
        }
    }
    let rest = b.keys_from(0);
    let all = b.keys();
    assert forall|x: int, y: int| 0 <= x < all.len() && 0 <= y < all.len() && x != y implies all[x]
        != all[y] by {
        if x > 0 {
            assert(rest.contains(rest[x - 1]));
        }
        if y > 0 {
            assert(rest.contains(rest[y - 1]));
        }
    }
    assert forall|x: NodeKey| #[trigger] b.keys().contains(x) implies t.under(x, k) && t.has(
        x,
    ) by {
        if x != k {
            assert(rest.contains(x));
            let j = choose|j: int| 0 <= j < kids.len() && t.under(x, #[trigger] kids[j]);
            assert(t.parents.contains_key(t.nodes[k].children[j]));
            assert(t.under(kids[j], k));
            lemma_under_trans(t.parents, x, kids[j], k);
        }
    }
}

proof fn lemma_branch_at_from(t: Tree, k: NodeKey, i: int)
    requires
        t.wf(),
        t.has(k),
        0 <= i <= t.kids(k).len(),
    ensures
        t.branch_at(k).sound_from(i),
        t.branch_at(k).complete_from(i),
        t.branch_at(k).keys_from(i).no_duplicates(),
        forall|x: NodeKey| #[trigger]
            t.branch_at(k).keys_from(i).contains(x) ==> t.has(x) && exists|j: int|
                i <= j < t.kids(k).len() && t.under(x, #[trigger] t.kids(k)[j]),
    decreases room(t.parents, k), t.kids(k).len() - i + 1,
{
    let b = t.branch_at(k);
    let kids = t.kids(k);
    lemma_branches_at(t, k, 0);
    assert(b.children.len() == kids.len());
    if i < kids.len() {
        let c = kids[i];
        assert(t.branches_at(k, 0)[i] == t.branch_at(t.kids(k)[0 + i]));
        assert(b.children[i] == t.branch_at(c));
        assert(t.parents.contains_key(t.nodes[k].children[i]));
        lemma_depth(t.parents, c);
        lemma_branch_at(t, c);
        lemma_branch_at_from(t, k, i + 1);
        lemma_keys_from(b, i);
        let first = b.children[i].keys();
        let rest = b.keys_from(i + 1);
        let all = b.keys_from(i);
        assert(all == first + rest);
        assert forall|x: NodeKey| #[trigger] first.contains(x) implies !rest.contains(x) by {
            if rest.contains(x) {
                let j = choose|j: int| i + 1 <= j < kids.len() && t.under(x, #[trigger] kids[j]);
                lemma_siblings_apart(t, k, i, j, x);
            }
        }
        assert forall|x: int, y: int|
            0 <= x < all.len() && 0 <= y < all.len() && x != y implies all[x] != all[y] by {
            if x < first.len() {
                assert(first.contains(first[x]));
            } else {
                assert(rest.contains(rest[x - first.len()]));
            }
            if y < first.len() {
                assert(first.contains(first[y]));
            } else {
                assert(rest.contains(rest[y - first.len()]));
            }
        }
        assert forall|x: NodeKey| #[trigger] all.contains(x) implies t.has(x) && exists|j: int|
            i <= j < kids.len() && t.under(x, #[trigger] kids[j]) by {
            if first.contains(x) {
                assert(t.under(x, kids[i]));
            } else {
                let j = choose|j: int| i + 1 <= j < kids.len() && t.under(x, #[trigger] kids[j]);
                assert(t.under(x, kids[j]));
            }
        }
    }
}

/// A subtree survives leaving one tree and arriving in another: read back there it has the same
/// identities, windows, layouts, shares and marks, and the same focus order among the children
/// of every node. Only the node around each window is made anew.
pub proof fn law_subtree_survives_transfer(from: Tree, k: NodeKey, to: Tree)
    requires
        from.wf(),
        to.wf(),
        from.has(k),
        k != from.root,
        forall|x: NodeKey| #[trigger]
            from.under(x, k) && from.has(x) ==> !to.has(x) && x.id < u64::MAX,
    ensures
        to.admits(from.branch_at(k)),
        to.planted(from.branch_at(k)).wf(),
        to.planted(from.branch_at(k)).branch_at(k) == from.branch_at(k).renewed(),
        undisturbed(to, to.planted(from.branch_at(k))),
{
    let b = from.branch_at(k);
    lemma_branch_at(from, k);
    assert forall|x: NodeKey| #[trigger] b.keys().contains(x) implies !to.has(x) && x.id
        < u64::MAX by {
        assert(from.under(x, k));
    }
    lemma_planted(to, b);
    lemma_planted_reads_back(to, b);
}

/// The windows of the nodes that go, go.
pub proof fn lemma_windows_cut(t: Tree, gone: Set<NodeKey>)
    ensures
        t.cut(gone).windows() == t.windows().remove_keys(gone),
{
    reveal(Tree::windows);
    let u = t.cut(gone);
    assert forall|k: NodeKey| #[trigger] u.is_view(k) <==> t.is_view(k) && !gone.contains(k) by {}
    assert(u.windows() =~= t.windows().remove_keys(gone));
}

/// Where a subtree reads back as it was, every node in it has the marks it had.
proof fn lemma_marks_read_back(from: Tree, to: Tree, k: NodeKey, x: NodeKey)
    requires
        from.wf(),
        to.wf(),
        from.has(x),
        k != from.root,
        from.under(x, k),
        to.branch_at(k) == from.branch_at(k).renewed(),
    ensures
        to.nodes[x].own_marks() == from.nodes[x].own_marks(),
    decreases depth(from.parents, x) - depth(from.parents, k),
{
    let b = from.branch_at(k);
    if x != k {
        let c = lemma_step_down(from, k, x);
        lemma_depth(from.parents, c);
        crate::tree::lemma_under_depth(from.parents, x, c);
        assert(!from.is_floating(c)) by {
            if from.is_floating(c) {
                let n = from.stack_index(c);
                assert(from.parents[from.floating[n].key] == from.root);
            }
        }
        let kids = from.nodes[k].children;
        assert(kids.contains(c));
        let i = choose|i: int| 0 <= i < kids.len() && kids[i] == c;
        assert(from.kids(k) == kids);
        lemma_branches_at(from, k, 0);
        lemma_branches_at(to, k, 0);
        lemma_renewed_from(b, 0);
        assert(b.renewed().children[i] == b.children[0 + i].renewed());
        assert(from.branches_at(k, 0)[i] == from.branch_at(from.kids(k)[0 + i]));
        assert(to.branches_at(k, 0)[i] == to.branch_at(to.kids(k)[0 + i]));
        assert(to.branch_at(to.kids(k)[i]).key == to.kids(k)[i]);
        assert(from.branch_at(c).renewed().key == c);
        assert(to.kids(k)[i] == c);
        assert(c != from.root);
        lemma_marks_read_back(from, to, c, x);
    }
}

/// Marks survive a transfer: every node of a subtree that left one tree has in the other the
/// marks it had.
pub proof fn law_marks_survive_transfer(from: Tree, k: NodeKey, to: Tree, x: NodeKey)
    requires
        from.wf(),
        to.wf(),
        from.has(k),
        k != from.root,
        forall|y: NodeKey| #[trigger]
            from.under(y, k) && from.has(y) ==> !to.has(y) && y.id < u64::MAX,
        from.under(x, k),
        from.has(x),
    ensures
        to.planted(from.branch_at(k)).nodes[x].own_marks() == from.nodes[x].own_marks(),
{
    law_subtree_survives_transfer(from, k, to);
    lemma_marks_read_back(from, to.planted(from.branch_at(k)), k, x);
}

} // verus!
