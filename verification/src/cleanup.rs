//! Tree normalization: destroying emptied containers, and squashing nesting that says the same
//! thing twice. Which of them runs is up to each command.

use crate::arena::ContainerArena;
use crate::axis::NodeKey;
use crate::tree::{
    acyclic, depth, lemma_acyclic_remove, lemma_depth, lemma_lineage, lemma_parent_not_under_child,
    lemma_ranks_fit, lemma_relinked, lemma_unlinked, lineage, ranked, ranks, relinked, room, under,
    Tree,
};
use crate::walk::lemma_slot;
use vstd::prelude::*;

verus! {

impl Tree {
    // -----------------------------------------------------------------------------------------
    // Emptied containers
    // -----------------------------------------------------------------------------------------

    /// Whether a node is a container to be destroyed for holding nothing: neither the workspace
    /// nor a floating root, nor a window.
    pub open spec fn is_barren(self, k: NodeKey) -> bool {
        k != self.root && !self.is_floating(k) && self.is_parent(k) && self.kids(k).len() == 0
    }

    /// Whether a node is a container that holds nothing.
    pub open spec fn hollow(self, k: NodeKey) -> bool {
        self.is_split(k) && self.nodes[k].children.len() == 0
    }

    /// Whether a selected container hands its selection up when it is destroyed: only inside
    /// the node owning fullscreen.
    pub open spec fn bequeaths(self, k: NodeKey) -> bool {
        self.seat.selected == Some(k) && (self.fullscreen matches Some(f) && self.under(k, f))
    }

    /// The tree with the barren containers at the front of `chain` destroyed, up to the first
    /// node of the chain that is not one.
    pub open spec fn reap_chain(self, chain: Seq<NodeKey>) -> Tree
        decreases chain.len(),
    {
        if chain.len() == 0 || !self.is_barren(chain[0]) {
            self
        } else {
            let k = chain[0];
            let loose = if self.parents.contains_key(k) {
                self.unlinked(k)
            } else {
                self
            };
            let next = if chain.len() == 1 {
                loose.dropped(k)
            } else if self.bequeaths(k) {
                loose.with_seat(loose.seat.with_selected(Some(chain[1]))).dropped(k)
            } else {
                loose.retired(k, chain[1])
            };
            next.reap_chain(chain.drop_first())
        }
    }

    /// The tree with a container destroyed if it is empty, and each ancestor it empties in turn.
    pub open spec fn reaped(self, k: NodeKey) -> Tree {
        self.reap_chain(lineage(self.parents, k))
    }

    // -----------------------------------------------------------------------------------------
    // Redundant nesting
    // -----------------------------------------------------------------------------------------

    /// Whether `con` and its only child are a redundant pair: two splits crossing each other
    /// inside a parent already laid out the child's way.
    pub open spec fn is_squashable(self, con: NodeKey) -> bool {
        &&& self.kids(con).len() == 1
        &&& self.is_parent(self.kids(con)[0])
        &&& self.parent(con) matches Some(p) && self.is_parent(p)
        &&& ({
            let child = self.nodes[self.kids(con)[0]].layout;
            let layout = self.nodes[con].layout;
            let outer = self.nodes[self.parents[con]].layout;
            &&& layout.is_split()
            &&& child.is_split()
            &&& layout.horizontal() != child.horizontal()
            &&& outer.horizontal() == child.horizontal()
        })
    }

    /// The structure of a squash: the children of `child`, the only child of `con`, stand in
    /// the slot of `con` in reversed order, and the pair is loose and childless.
    pub open spec fn dissolved(self, con: NodeKey, child: NodeKey) -> Tree {
        let p = self.parents[con];
        let kids = self.nodes[p].children;
        let idx = kids.index_of(con);
        let taken = self.nodes[child].children;
        Tree {
            nodes: self.nodes.insert(
                child,
                self.nodes[child].with_children(Seq::empty()),
            ).insert(con, self.nodes[con].with_children(Seq::empty())).insert(
                p,
                self.nodes[p].with_children(
                    kids.take(idx) + taken.reverse() + kids.skip(idx + 1),
                ),
            ),
            parents: relinked(self.parents.remove(child).remove(con), taken, p),
            ..self
        }
    }

    /// `slot`, or `heir` when it names one of a squashed pair.
    pub open spec fn passed_on(
        self,
        slot: Option<NodeKey>,
        con: NodeKey,
        child: NodeKey,
        heir: Option<NodeKey>,
    ) -> Option<NodeKey> {
        if slot == Some(con) || slot == Some(child) {
            heir
        } else {
            slot
        }
    }

    /// A redundant pair squashed, and how many slots more its contents take in the parent.
    pub open spec fn spliced(self, con: NodeKey) -> (Tree, int) {
        let child = self.kids(con)[0];
        let taken = self.kids(child);
        if self.slot_of(con) is None || taken.len() == 0 {
            (self, 0)
        } else {
            let p = self.parents[con];
            let heir = self.active(child);
            let open = self.dissolved(con, child);
            let seat = open.seat.with_selected(
                self.passed_on(open.seat.selected, con, child, heir),
            ).with_leaf(self.passed_on(open.seat.leaf, con, child, heir));
            (
                open.with_seat(seat).retired(child, p).retired(con, p).pruned(),
                taken.len() - 1,
            )
        }
    }

    /// The children of `k` from index `idx` on squashed, `n` of them, at most `fuel` levels
    /// deep. A squashed pair is replaced by its contents, which are not looked into.
    pub open spec fn squash_from(self, k: NodeKey, idx: int, n: nat, fuel: nat) -> Tree
        decreases fuel, n,
    {
        if n == 0 || fuel == 0 || !(0 <= idx < self.kids(k).len()) {
            self
        } else {
            let c = self.kids(k)[idx];
            if self.is_squashable(c) {
                let (t, extra) = self.spliced(c);
                t.squash_from(k, idx + extra + 1, (n - 1) as nat, fuel)
            } else {
                let t = if self.is_container(c) {
                    self.squash_from(c, 0, self.kids(c).len(), (fuel - 1) as nat)
                } else {
                    self
                };
                t.squash_from(k, idx + 1, (n - 1) as nat, fuel)
            }
        }
    }

    /// Every redundant pair of a branch squashed.
    pub open spec fn squashed(self, branch: NodeKey) -> Tree {
        self.squash_from(branch, 0, self.kids(branch).len(), room(self.parents, branch))
    }
}

/// What a squash does to the tree: it stays well-formed, the contents change level, and every
/// rank that fitted before still fits.
#[verifier::spinoff_prover]
pub proof fn lemma_dissolved(t: Tree, con: NodeKey, child: NodeKey)
    requires
        t.wf(),
        t.slot_of(con) is Some,
        t.kids(con) == seq![child],
        t.is_parent(child),
    ensures
        t.dissolved(con, child).wf(),
        con != t.root,
        child != t.root,
        con != child,
        t.has(con),
        t.has(child),
        !t.dissolved(con, child).parents.contains_key(con),
        !t.dissolved(con, child).parents.contains_key(child),
        t.dissolved(con, child).nodes[con].children.len() == 0,
        t.dissolved(con, child).nodes[child].children.len() == 0,
        forall|k: NodeKey| #[trigger] t.dissolved(con, child).has(k) == t.has(k),
        t.is_parent(t.parents[con]),
        t.parents[con] != con,
        t.parents[con] != child,
        forall|rank: spec_fn(NodeKey) -> nat, bound: nat|
            ranked(t.parents, rank, bound) ==> #[trigger] ranked(
                t.dissolved(con, child).parents,
                rank,
                bound,
            ),
{
    let u = t.dissolved(con, child);
    let p = t.parents[con];
    let kids = t.nodes[p].children;
    let taken = t.nodes[child].children;
    assert(t.kids(con).len() == 1);
    assert(t.nodes[con].children[0] == child);
    assert(t.parents.contains_key(child) && t.parents[child] == con);
    lemma_depth(t.parents, con);
    lemma_depth(t.parents, child);
    assert(kids.no_duplicates() && taken.no_duplicates());
    crate::tree::lemma_without_is_remove(kids, con);
    let idx = kids.index_of(con);
    let base = t.parents.remove(child).remove(con);
    lemma_relinked(base, taken, p);
    assert forall|i: int| 0 <= i < taken.len() implies t.parents.contains_key(
        #[trigger] taken[i],
    ) && t.parents[taken[i]] == child by {
        assert(t.parents.contains_key(t.nodes[child].children[i]));
    }
    assert(!taken.contains(con) && !taken.contains(child)) by {
        if taken.contains(con) {
            let i = choose|i: int| 0 <= i < taken.len() && taken[i] == con;
            assert(t.parents[taken[i]] == child);
        }
        if taken.contains(child) {
            let i = choose|i: int| 0 <= i < taken.len() && taken[i] == child;
            assert(t.parents[taken[i]] == child);
        }
    }
    assert(p != con && p != child);
    assert forall|rank: spec_fn(NodeKey) -> nat, bound: nat|
        ranked(t.parents, rank, bound) implies #[trigger] ranked(u.parents, rank, bound) by {
        assert forall|k: NodeKey| #[trigger] u.parents.contains_key(k) implies rank(u.parents[k])
            < rank(k) && rank(k) <= bound by {
            if taken.contains(k) {
                let i = choose|i: int| 0 <= i < taken.len() && taken[i] == k;
                assert(t.parents[taken[i]] == child);
                assert(t.parents.contains_key(k));
                assert(t.parents.contains_key(child));
                assert(t.parents.contains_key(con));
            } else {
                assert(t.parents.contains_key(k));
            }
        }
    }
    assert(acyclic(u.parents)) by {
        let (rank, bound) = ranks(t.parents);
        lemma_ranks_fit(t.parents);
        assert(ranked(u.parents, rank, bound));
    }
    let list = kids.take(idx) + taken.reverse() + kids.skip(idx + 1);
    assert(u.nodes[p].children == list);
    assert forall|x: NodeKey| #[trigger] list.contains(x) <==> taken.contains(x) || (
    kids.contains(x) && x != con) by {
        if list.contains(x) {
            let i = choose|i: int| 0 <= i < list.len() && list[i] == x;
            if i < idx {
                assert(kids[i] == x);
            } else if i < idx + taken.len() {
                assert(taken[taken.len() - 1 - (i - idx)] == x);
            } else {
                assert(kids[i - taken.len() + 1] == x);
            }
        }
        if taken.contains(x) {
            let i = choose|i: int| 0 <= i < taken.len() && taken[i] == x;
            assert(list[idx + taken.len() - 1 - i] == x);
        }
        if kids.contains(x) && x != con {
            let i = choose|i: int| 0 <= i < kids.len() && kids[i] == x;
            if i < idx {
                assert(list[i] == x);
            } else {
                assert(list[i + taken.len() - 1] == x);
            }
        }
    }
    assert(list.no_duplicates()) by {
        assert forall|i: int, j: int| 0 <= i < j < list.len() implies list[i] != list[j] by {
            let n = taken.len() as int;
            if i < idx {
                if j < idx {
                    assert(kids[i] != kids[j]);
                } else if j < idx + n {
                    assert(t.parents[taken[n - 1 - (j - idx)]] == child);
                    assert(t.parents[t.nodes[p].children[i]] == p);
                } else {
                    assert(kids[i] != kids[j - n + 1]);
                }
            } else if i < idx + n {
                if j < idx + n {
                    assert(taken[n - 1 - (i - idx)] != taken[n - 1 - (j - idx)]);
                } else {
                    assert(t.parents[taken[n - 1 - (i - idx)]] == child);
                    assert(t.parents[t.nodes[p].children[j - n + 1]] == p);
                }
            } else {
                assert(kids[i - n + 1] != kids[j - n + 1]);
            }
        }
    }
    assert forall|q: NodeKey, i: int|
        #![trigger u.nodes[q].children[i]]
        u.has(q) && 0 <= i < u.nodes[q].children.len() implies u.parents.contains_key(
        u.nodes[q].children[i],
    ) && u.parents[u.nodes[q].children[i]] == q by {
        let x = u.nodes[q].children[i];
        if q == p {
            assert(list.contains(x));
            if !taken.contains(x) {
                let j = choose|j: int| 0 <= j < kids.len() && kids[j] == x;
                assert(t.parents[t.nodes[p].children[j]] == p);
                assert(x != child);
            }
        } else {
            assert(q != con && q != child);
            assert(t.parents[t.nodes[q].children[i]] == q);
            assert(x != con && x != child);
            assert(!taken.contains(x)) by {
                if taken.contains(x) {
                    let j = choose|j: int| 0 <= j < taken.len() && taken[j] == x;
                    assert(t.parents[taken[j]] == child);
                }
            }
        }
    }
    assert forall|x: NodeKey| #[trigger] u.parents.contains_key(x) implies u.has(x) && u.has(
        u.parents[x],
    ) && (u.nodes[u.parents[x]].children.contains(x) || (u.is_floating(x) && u.parents[x]
        == u.root)) by {
        assert(t.parents.contains_key(x)) by {
            if taken.contains(x) {
                let j = choose|j: int| 0 <= j < taken.len() && taken[j] == x;
                assert(t.parents.contains_key(taken[j]));
            }
        }
        if taken.contains(x) {
            assert(list.contains(x));
        } else {
            let q = t.parents[x];
            assert(q != con) by {
                if q == con {
                    if t.is_floating(x) {
                        let i = choose|i: int|
                            0 <= i < t.floating.len() && #[trigger] t.floating[i].key == x;
                        assert(t.parents[t.floating[i].key] == t.root);
                    }
                    assert(t.nodes[con].children.contains(x));
                    assert(x == child);
                }
            }
            assert(q != child) by {
                if q == child {
                    if t.is_floating(x) {
                        let i = choose|i: int|
                            0 <= i < t.floating.len() && #[trigger] t.floating[i].key == x;
                        assert(t.parents[t.floating[i].key] == t.root);
                    }
                    assert(t.nodes[child].children.contains(x));
                }
            }
            if t.is_floating(x) {
                assert(u.is_floating(x));
            }
            if q == p && t.nodes[p].children.contains(x) {
                assert(list.contains(x));
            }
        }
    }
    assert forall|q: NodeKey|
        #![trigger u.nodes[q].children]
        u.has(q) implies u.nodes[q].children.no_duplicates() by {
        assert(t.nodes[q].children.no_duplicates());
    }
    assert forall|i: int| 0 <= i < u.floating.len() implies u.parents.contains_key(
        (#[trigger] u.floating[i]).key,
    ) && u.parents[u.floating[i].key] == u.root && !u.nodes[u.root].children.contains(
        u.floating[i].key,
    ) by {
        let f = t.floating[i].key;
        assert(t.parents[t.floating[i].key] == t.root);
        assert(t.is_floating(f));
        assert(!taken.contains(f)) by {
            if taken.contains(f) {
                let j = choose|j: int| 0 <= j < taken.len() && taken[j] == f;
                assert(t.parents[taken[j]] == child);
            }
        }
        assert(f != con) by {
            if f == con {
                assert(t.nodes[t.root].children.contains(con));
            }
        }
    }
    assert forall|k: NodeKey| #[trigger] u.has(k) == t.has(k) by {}
    assert(u.seated()) by {
        assert forall|x: NodeKey| #[trigger] u.seat.order.contains(x) <==> u.has(x) by {
            assert(t.seat.order.contains(x) <==> t.has(x));
        }
    }
}

/// Dropping a loose node, or reordering the seat, changes no link.
pub proof fn lemma_retired_links(t: Tree, k: NodeKey, surviving: NodeKey)
    requires
        !t.parents.contains_key(k),
    ensures
        t.retired(k, surviving).parents == t.parents,
        t.retired(k, surviving).nodes == t.nodes.remove(k),
        t.retired(k, surviving).root == t.root,
        t.retired(k, surviving).floating == t.floating,
{
    assert(t.parents.remove(k) =~= t.parents);
}

/// The line of a node outside the subtree of one that is unlinked stays what it was.
pub proof fn lemma_lineage_remove(parents: Map<NodeKey, NodeKey>, c: NodeKey, x: NodeKey)
    requires
        acyclic(parents),
        !under(parents, x, c),
    ensures
        acyclic(parents.remove(c)),
        lineage(parents.remove(c), x) == lineage(parents, x),
    decreases depth(parents, x),
{
    lemma_acyclic_remove(parents, c);
    lemma_lineage(parents, x);
    if parents.contains_key(x) {
        lemma_depth(parents, x);
        lemma_lineage_remove(parents, c, parents[x]);
    }
}

/// Reaping leaves nothing empty: if nothing but the first of the line is empty, then what is
/// empty afterwards is of the line, and is the root of a floating group.
pub proof fn law_reaping_leaves_nothing_empty(t: Tree, chain: Seq<NodeKey>)
    requires
        acyclic(t.parents),
        chain.len() > 0,
        chain == lineage(t.parents, chain[0]),
        forall|k: NodeKey| #[trigger] t.hollow(k) ==> k == chain[0],
        t.has(t.root),
        !t.is_split(t.root),
    ensures
        t.reap_chain(chain).floating == t.floating,
        t.reap_chain(chain).root == t.root,
        forall|k: NodeKey| #[trigger]
            t.reap_chain(chain).hollow(k) ==> chain.contains(k) && t.is_floating(k),
    decreases chain.len(),
{
    let k = chain[0];
    assert(chain.contains(k));
    if t.is_barren(k) && t.parents.contains_key(k) {
        let p = t.parents[k];
        let loose = t.unlinked(k);
        let rest = chain.drop_first();
        lemma_depth(t.parents, k);
        lemma_lineage(t.parents, p);
        lemma_lineage(t.parents, k);
        assert(rest =~= lineage(t.parents, p));
        assert(chain[1] == p);
        lemma_parent_not_under_child(t.parents, k);
        lemma_lineage_remove(t.parents, k, p);
        let next = if t.bequeaths(k) {
            loose.with_seat(loose.seat.with_selected(Some(p))).dropped(k)
        } else {
            loose.retired(k, p)
        };
        lemma_retired_links(loose, k, p);
        assert(next.parents =~= t.parents.remove(k));
        assert(next.nodes == loose.nodes.remove(k));
        assert forall|c: NodeKey| #[trigger] next.hollow(c) implies c == p by {
            if c != p {
                assert(next.nodes[c] == t.nodes[c]);
                assert(t.hollow(c));
            }
        }
        law_reaping_leaves_nothing_empty(next, rest);
        assert forall|c: NodeKey| #[trigger] t.reap_chain(chain).hollow(c) implies chain.contains(c)
            && t.is_floating(c) by {
            assert(rest.contains(c));
            let i = choose|i: int| 0 <= i < rest.len() && rest[i] == c;
            assert(chain[i + 1] == c);
        }
    } else if t.is_barren(k) {
        assert(chain.drop_first() =~= Seq::empty());
        let next = t.dropped(k);
        assert(next.reap_chain(Seq::empty()) == next);
        assert forall|c: NodeKey| #[trigger] next.hollow(c) implies false by {
            assert(next.nodes[c] == t.nodes[c]);
            assert(t.hollow(c));
        }
    }
}

/// Reaping touches nothing outside the line.
pub proof fn lemma_reaping_keeps(t: Tree, chain: Seq<NodeKey>, x: NodeKey)
    requires
        acyclic(t.parents),
        chain.len() > 0,
        chain == lineage(t.parents, chain[0]),
        !chain.contains(x),
    ensures
        t.reap_chain(chain).has(x) == t.has(x),
        t.reap_chain(chain).nodes[x] == t.nodes[x],
    decreases chain.len(),
{
    let k = chain[0];
    assert(chain.contains(k));
    if t.is_barren(k) && t.parents.contains_key(k) {
        let p = t.parents[k];
        let loose = t.unlinked(k);
        let rest = chain.drop_first();
        lemma_depth(t.parents, k);
        lemma_lineage(t.parents, p);
        lemma_lineage(t.parents, k);
        assert(rest =~= lineage(t.parents, p));
        assert(chain[1] == p);
        lemma_parent_not_under_child(t.parents, k);
        lemma_lineage_remove(t.parents, k, p);
        let next = if t.bequeaths(k) {
            loose.with_seat(loose.seat.with_selected(Some(p))).dropped(k)
        } else {
            loose.retired(k, p)
        };
        lemma_retired_links(loose, k, p);
        assert(next.parents =~= t.parents.remove(k));
        assert(chain.contains(p));
        if rest.contains(x) {
            let i = choose|i: int| 0 <= i < rest.len() && rest[i] == x;
            assert(chain[i + 1] == x);
        }
        lemma_reaping_keeps(next, rest, x);
    } else if t.is_barren(k) {
        assert(chain.drop_first() =~= Seq::empty());
        assert(t.dropped(k).reap_chain(Seq::empty()) == t.dropped(k));
    }
}

impl ContainerArena {
    /// Destroys a container if it is empty, and each ancestor it empties in turn. The workspace
    /// and the floating roots are where this stops.
    pub fn reap_empty(&mut self, key: NodeKey)
        requires
            old(self).wf(),
        ensures
            final(self)@ == old(self)@.reaped(key),
            final(self).wf(),
            final(self)@.windows() == old(self)@.windows(),
            forall|k: NodeKey| #[trigger] final(self)@.loose(k) ==> old(self)@.loose(k),
            old(self)@.mentions_live() ==> final(self)@.mentions_live(),
    {
        let chain = self.focus_chain(key);
        let mut i: usize = 0;
        assert(chain@.skip(0) =~= chain@);
        proof {
            crate::tree::lemma_lineage(self@.parents, key);
            if self@.has(key) {
                crate::tree::lemma_lineage_live(self@, key);
            }
            assert forall|j: int| 0 < j < chain@.len() implies self@.has(#[trigger] chain@[j]) by {
                if !self@.has(key) {
                    assert(!self@.parents.contains_key(key));
                }
                assert(chain@.contains(chain@[j]));
            }
        }
        while i < chain.len()
            invariant
                self.wf(),
                chain@.no_duplicates(),
                forall|j: int| i < j < chain@.len() ==> self@.has(#[trigger] chain@[j]),
                forall|k: NodeKey| #[trigger] self@.loose(k) ==> old(self)@.loose(k),
                old(self)@.mentions_live() ==> self@.mentions_live(),
                self@.windows() == old(self)@.windows(),
                i <= chain@.len(),
                old(self)@.reaped(key) == self@.reap_chain(chain@.skip(i as int)),
            decreases chain@.len() - i,
        {
            let current = chain[i];
            proof {
                assert(chain@.skip(i as int).drop_first() =~= chain@.skip(i as int + 1));
                assert(chain@.skip(i as int)[0] == current);
            }
            if current == self.workspace_root() || self.is_floating_root(current) {
                return;
            }
            match self.get_container(current) {
                Some(container) => {
                    if container.child_count() > 0 {
                        return;
                    }
                },
                None => {
                    return;
                },
            }
            let bequeaths = self.selected_key() == Some(current) && match self.fullscreen_key() {
                Some(fullscreen) => self.is_descendant(current, fullscreen),
                None => false,
            };
            proof {
                if self@.parents.contains_key(current) {
                    lemma_unlinked(self@, current);
                    lemma_depth(self@.parents, current);
                }
            }
            let ghost before = self@;
            self.detach_child(current);
            assert forall|k: NodeKey| #[trigger] self@.loose(k) implies before.loose(k) || k
                == current by {}
            if i + 1 < chain.len() {
                proof {
                    assert(chain@.skip(i as int)[1] == chain@[i as int + 1]);
                }
                if bequeaths {
                    self.redirect_selection(Some(chain[i + 1]));
                    self.remove_node_from_store(current);
                } else {
                    self.retire_node(current, chain[i + 1]);
                }
            } else {
                self.remove_node_from_store(current);
            }
            i = i + 1;
        }
    }

    #[verifier::spinoff_prover]
    fn splice_squashed_pair(&mut self, con_key: NodeKey) -> (r: usize)
        requires
            old(self).wf(),
            old(self)@.is_squashable(con_key),
        ensures
            final(self).wf(),
            (final(self)@, r as int) == old(self)@.spliced(con_key),
            old(self)@.parents.contains_key(con_key),
            ({
                let p = old(self)@.parents[con_key];
                final(self)@.kids(p).len() == old(self)@.kids(p).len() + r
            }),
            forall|rank: spec_fn(NodeKey) -> nat, bound: nat|
                ranked(old(self)@.parents, rank, bound) ==> #[trigger] ranked(
                    final(self)@.parents,
                    rank,
                    bound,
                ),
            final(self)@.windows() == old(self)@.windows(),
            forall|k: NodeKey| #[trigger] final(self)@.loose(k) ==> old(self)@.loose(k),
            old(self)@.mentions_live() ==> final(self)@.mentions_live(),
    {
        let ghost t = self@;
        let child_key = match self.get_container(con_key) {
            Some(container) => container.children[0],
            None => {
                return 0;
            },
        };
        let parent_key = match self.parent_of(con_key) {
            Some(parent) => parent,
            None => {
                return 0;
            },
        };
        assert(t.kids(con_key) =~= seq![child_key]);
        let idx: usize = match self.child_index(parent_key, con_key) {
            Some(idx) => idx,
            None => {
                return 0;
            },
        };
        proof {
            lemma_slot(t, parent_key, con_key, idx as int);
        }
        let mut taken: Vec<NodeKey> = Vec::new();
        match self.get_container(child_key) {
            Some(child) => {
                let mut i: usize = 0;
                while i < child.children.len()
                    invariant
                        i <= child.children@.len(),
                        taken@ == child.children@.take(i as int),
                    decreases child.children@.len() - i,
                {
                    taken.push(child.children[i]);
                    assert(child.children@.take(i as int).push(child.children@[i as int])
                        =~= child.children@.take(i as int + 1));
                    i = i + 1;
                }
                assert(child.children@.take(i as int) =~= child.children@);
            },
            None => {
                return 0;
            },
        }
        assert(taken@ == t.nodes[child_key].children);
        if taken.len() == 0 {
            return 0;
        }
        proof {
            lemma_dissolved(t, con_key, child_key);
        }
        let heir = self.active_child(child_key);
        proof {
            reveal(Tree::mentions_live);
            crate::tree::lemma_active(self@, child_key);
        }
        let mut list: Vec<NodeKey> = Vec::new();
        match self.get_container(parent_key) {
            Some(parent) => {
                let kids = &parent.children;
                let mut i: usize = 0;
                while i < idx
                    invariant
                        i <= idx,
                        idx < kids@.len(),
                        list@ == kids@.take(i as int),
                    decreases idx - i,
                {
                    list.push(kids[i]);
                    assert(kids@.take(i as int).push(kids@[i as int]) =~= kids@.take(
                        i as int + 1,
                    ));
                    i = i + 1;
                }
                let mut j: usize = taken.len();
                assert(taken@.skip(taken@.len() as int).reverse() =~= Seq::empty());
                assert(list@ =~= kids@.take(idx as int) + taken@.skip(j as int).reverse());
                while j > 0
                    invariant
                        j <= taken@.len(),
                        idx < kids@.len(),
                        list@ == kids@.take(idx as int) + taken@.skip(j as int).reverse(),
                    decreases j,
                {
                    j = j - 1;
                    list.push(taken[j]);
                    assert(taken@.skip(j as int).reverse() =~= taken@.skip(
                        j as int + 1,
                    ).reverse().push(taken@[j as int]));
                    assert(list@ =~= kids@.take(idx as int) + taken@.skip(j as int).reverse());
                }
                assert(taken@.skip(0) =~= taken@);
                let ghost front = kids@.take(idx as int) + taken@.reverse();
                let count: usize = kids.len();
                assert(idx < count);
                let mut m: usize = idx + 1;
                assert(list@ =~= front + kids@.skip(idx as int + 1).take(0));
                while m < kids.len()
                    invariant
                        idx < m <= kids@.len(),
                        list@ == front + kids@.skip(idx as int + 1).take(m - idx - 1),
                    decreases kids@.len() - m,
                {
                    list.push(kids[m]);
                    assert(kids@.skip(idx as int + 1).take(m - idx - 1).push(kids@[m as int])
                        =~= kids@.skip(idx as int + 1).take(m - idx));
                    assert(list@ =~= front + kids@.skip(idx as int + 1).take(m - idx));
                    m = m + 1;
                }
                assert(kids@.skip(idx as int + 1).take(m - idx - 1) =~= kids@.skip(
                    idx as int + 1,
                ));
            },
            None => {},
        }
        self.set_children(child_key, Vec::new());
        self.set_children(con_key, Vec::new());
        self.set_children(parent_key, list);
        self.clear_parent_link(child_key);
        self.clear_parent_link(con_key);
        self.relink_all(&taken, parent_key);
        assert(self@.nodes =~= t.dissolved(con_key, child_key).nodes);
        assert(self@ == t.dissolved(con_key, child_key));
        if self.selected_key() == Some(con_key) || self.selected_key() == Some(child_key) {
            self.redirect_selection(heir);
        }
        if self.focused_key() == Some(con_key) || self.focused_key() == Some(child_key) {
            self.redirect_focused_leaf(heir);
        }
        let ghost open = self@;
        proof {
            lemma_relinked(t.parents.remove(child_key).remove(con_key), taken@, parent_key);
            assert forall|k: NodeKey| #[trigger] open.loose(k) implies t.loose(k) || k == con_key
                || k == child_key by {}
            lemma_retired_links(open, child_key, parent_key);
            lemma_retired_links(open.retired(child_key, parent_key), con_key, parent_key);
        }
        self.retire_node(child_key, parent_key);
        self.retire_node(con_key, parent_key);
        self.prune_focus_order();
        taken.len() - 1
    }

    fn squash_children(
        &mut self,
        key: NodeKey,
        Ghost(rank): Ghost<spec_fn(NodeKey) -> nat>,
        Ghost(bound): Ghost<nat>,
        Ghost(fuel): Ghost<nat>,
    )
        requires
            old(self).wf(),
            ranked(old(self)@.parents, rank, bound),
            bound <= rank(key) + fuel,
        ensures
            final(self).wf(),
            ranked(final(self)@.parents, rank, bound),
            final(self)@ == old(self)@.squash_from(key, 0, old(self)@.kids(key).len(), fuel),
            forall|q: NodeKey|
                rank(q) <= rank(key) && q != key ==> #[trigger] final(self)@.kids(q) == old(
                    self,
                )@.kids(q),
            final(self)@.windows() == old(self)@.windows(),
            forall|k: NodeKey| #[trigger] final(self)@.loose(k) ==> old(self)@.loose(k),
            old(self)@.mentions_live() ==> final(self)@.mentions_live(),
        decreases bound - rank(key),
    {
        let ghost t = self@;
        let ghost total = self@.kids(key).len();
        let mut idx: usize = 0;
        let ghost mut left: nat = total;
        loop
            invariant
                self.wf(),
                forall|k: NodeKey| #[trigger] self@.loose(k) ==> old(self)@.loose(k),
                old(self)@.mentions_live() ==> self@.mentions_live(),
                self@.windows() == old(self)@.windows(),
                ranked(self@.parents, rank, bound),
                bound <= rank(key) + fuel,
                t == old(self)@,
                idx + left == self@.kids(key).len(),
                t.squash_from(key, 0, t.kids(key).len(), fuel) == self@.squash_from(
                    key,
                    idx as int,
                    left,
                    fuel,
                ),
                forall|q: NodeKey|
                    rank(q) <= rank(key) && q != key ==> #[trigger] self@.kids(q) == t.kids(q),
            decreases left,
        {
            let child = match self.get_container(key) {
                Some(container) => container.child_key(idx),
                None => None,
            };
            let child = match child {
                Some(child) => child,
                None => {
                    return;
                },
            };
            proof {
                lemma_slot(self@, key, child, idx as int);
                assert(self@.parents.contains_key(child));
                assert(fuel > 0);
            }
            if self.is_squashable_pair(child) {
                let ghost before = self@;
                let extra: usize = self.splice_squashed_pair(child);
                proof {
                    lemma_spliced_frame(before, child, rank, bound);
                    assert(self@.kids(key).len() == before.kids(key).len() + extra);
                }
                let count: usize = self.child_count_of(key);
                assert(idx + extra + 1 <= count);
                idx = idx + extra + 1;
            } else {
                if self.get_any_container(child).is_some() {
                    let ghost before = self@;
                    self.squash_children(
                        child,
                        Ghost(rank),
                        Ghost(bound),
                        Ghost((fuel - 1) as nat),
                    );
                    assert(self@.kids(key) == before.kids(key));
                }
                let count: usize = self.child_count_of(key);
                assert(idx + 1 <= count);
                idx = idx + 1;
            }
            proof {
                left = (left - 1) as nat;
            }
        }
    }

    /// How many children a node lays out.
    pub fn child_count_of(&self, key: NodeKey) -> (r: usize)
        ensures
            r == self@.kids(key).len(),
    {
        match self.get_container(key) {
            Some(container) => container.child_count(),
            None => 0,
        }
    }

    fn is_squashable_pair(&self, con_key: NodeKey) -> (r: bool)
        ensures
            r == self@.is_squashable(con_key),
    {
        match self.get_container(con_key) {
            Some(con) => {
                if con.child_count() != 1 {
                    return false;
                }
                match self.get_container(con.children[0]) {
                    Some(child) => match self.parent_of(con_key) {
                        Some(parent_key) => match self.get_container(parent_key) {
                            Some(parent) => con.layout().is_split_layout()
                                && child.layout().is_split_layout()
                                && !con.layout().is_parallel_to_layout(child.layout())
                                && parent.layout().is_parallel_to_layout(child.layout()),
                            None => false,
                        },
                        None => false,
                    },
                    None => false,
                }
            },
            None => false,
        }
    }

    /// Squashes every redundant pair of a branch.
    pub fn squash_branch(&mut self, branch_root: NodeKey)
        requires
            old(self).wf(),
        ensures
            final(self)@ == old(self)@.squashed(branch_root),
            final(self).wf(),
            final(self)@.windows() == old(self)@.windows(),
            forall|k: NodeKey| #[trigger] final(self)@.loose(k) ==> old(self)@.loose(k),
            old(self)@.mentions_live() ==> final(self)@.mentions_live(),
    {
        let ghost (rank, bound) = ranks(self@.parents);
        proof {
            lemma_ranks_fit(self@.parents);
        }
        self.squash_children(
            branch_root,
            Ghost(rank),
            Ghost(bound),
            Ghost(room(self@.parents, branch_root)),
        );
    }
}

/// A squash below a node changes no child list at the node's own level or above but that of
/// the squashed pair's parent.
proof fn lemma_spliced_frame(
    t: Tree,
    con: NodeKey,
    rank: spec_fn(NodeKey) -> nat,
    bound: nat,
)
    requires
        t.wf(),
        t.is_squashable(con),
        ranked(t.parents, rank, bound),
    ensures
        forall|q: NodeKey|
            rank(q) <= rank(t.parents[con]) && q != t.parents[con] ==> #[trigger] t.spliced(
                con,
            ).0.kids(q) == t.kids(q),
{
    let child = t.kids(con)[0];
    assert(t.kids(con) =~= seq![child]);
    assert(t.nodes[con].children[0] == child);
    assert(t.parents.contains_key(child));
    assert(t.parents.contains_key(con));
    if t.slot_of(con) is Some && t.kids(child).len() > 0 {
        let p = t.parents[con];
        lemma_dissolved(t, con, child);
        let open = t.dissolved(con, child);
        let heir = t.active(child);
        let seat = open.seat.with_selected(
            t.passed_on(open.seat.selected, con, child, heir),
        ).with_leaf(t.passed_on(open.seat.leaf, con, child, heir));
        let a = open.with_seat(seat);
        lemma_retired_links(a, child, p);
        lemma_retired_links(a.retired(child, p), con, p);
        assert forall|q: NodeKey| rank(q) <= rank(p) && q != p implies #[trigger] t.spliced(
            con,
        ).0.kids(q) == t.kids(q) by {
            assert(q != con && q != child);
        }
    }
}

} // verus!
