//! What tidying up after a move keeps: destroying what is empty, and squashing what is redundant.

use crate::axis::NodeKey;
use crate::cleanup::lemma_dissolved;
use crate::seat::{lemma_fronted, lemma_within_all, without};
use crate::tree::{
    lemma_depth, lemma_dropped, lemma_first_of, lemma_lineage, lemma_parent_not_under_child,
    lemma_unlinked, lemma_with_seat, lemma_without_is_remove, lineage, Pick, Tree,
};
use vstd::prelude::*;

verus! {

/// Whether `x` stands right before `y` in a list.
pub open spec fn runs_on(list: Seq<NodeKey>, x: NodeKey, y: NodeKey) -> bool {
    exists|i: int| 0 <= i && i + 1 < list.len() && #[trigger] list[i] == x && list[i + 1] == y
}

/// Whether `list` is a tidied `before` as far as the nodes that are left go: neighbours that are
/// left are neighbours still, and an end that is left is the end still.
pub open spec fn in_step(before: Seq<NodeKey>, list: Seq<NodeKey>, left: Set<NodeKey>) -> bool {
    &&& forall|x: NodeKey, y: NodeKey|
        #![trigger runs_on(before, x, y)]
        left.contains(x) && left.contains(y) && runs_on(before, x, y) ==> runs_on(list, x, y)
    &&& before.len() > 0 && left.contains(before[0]) ==> list.len() > 0 && list[0] == before[0]
    &&& before.len() > 0 && left.contains(before.last()) ==> list.len() > 0 && list.last()
        == before.last()
}

impl Tree {
    /// Whether `u` is this tree tidied up: containers may be gone, windows are not, and what is
    /// left stands as it stood.
    pub open spec fn tidied(self, u: Tree) -> bool {
        &&& u.wf()
        &&& u.root == self.root
        &&& u.floating == self.floating
        &&& forall|x: NodeKey| #[trigger] u.has(x) ==> self.has(x)
        &&& forall|x: NodeKey| #[trigger] self.is_view(x) ==> u.is_view(x)
        &&& forall|x: NodeKey| #[trigger]
            u.has(x) ==> u.nodes[x] == self.nodes[x].with_children(u.nodes[x].children)
        &&& forall|x: NodeKey| #[trigger]
            u.has(x) ==> in_step(self.nodes[x].children, u.nodes[x].children, u.nodes.dom())
    }
}

pub(crate) proof fn lemma_tidied_same(t: Tree, u: Tree)
    requires
        u.wf(),
        u.nodes == t.nodes,
        u.root == t.root,
        u.floating == t.floating,
    ensures
        t.tidied(u),
{
    assert forall|x: NodeKey| #[trigger] u.has(x) implies u.nodes[x] == t.nodes[x].with_children(
        u.nodes[x].children,
    ) by {}
}

pub(crate) proof fn lemma_tidied_trans(a: Tree, b: Tree, c: Tree)
    requires
        a.tidied(b),
        b.tidied(c),
    ensures
        a.tidied(c),
{
    assert forall|x: NodeKey| #[trigger] a.is_view(x) implies c.is_view(x) by {
        assert(b.is_view(x));
    }
    assert forall|x: NodeKey| #[trigger] c.has(x) implies c.nodes[x] == a.nodes[x].with_children(
        c.nodes[x].children,
    ) && in_step(a.nodes[x].children, c.nodes[x].children, c.nodes.dom()) && a.has(x) by {
        assert(b.has(x));
        let (l, m, n) = (a.nodes[x].children, b.nodes[x].children, c.nodes[x].children);
        assert(in_step(l, m, b.nodes.dom()));
        assert(in_step(m, n, c.nodes.dom()));
        assert forall|y: NodeKey, z: NodeKey|
            #![trigger runs_on(l, y, z)]
            c.nodes.dom().contains(y) && c.nodes.dom().contains(z) && runs_on(l, y, z) implies runs_on(
            n,
            y,
            z,
        ) by {
            assert(c.has(y) && c.has(z));
            assert(b.has(y) && b.has(z));
            assert(runs_on(m, y, z));
        }
        if l.len() > 0 && c.nodes.dom().contains(l[0]) {
            assert(c.has(l[0]));
        }
        if l.len() > 0 && c.nodes.dom().contains(l.last()) {
            assert(c.has(l.last()));
        }
    }
}

/// Taking one entry out leaves the others in step.
proof fn lemma_without_in_step(list: Seq<NodeKey>, k: NodeKey, left: Set<NodeKey>)
    requires
        list.no_duplicates(),
        !left.contains(k),
    ensures
        in_step(list, without(list, k), left),
{
    if list.contains(k) {
        lemma_without_is_remove(list, k);
        let at = list.index_of(k);
        let out = list.remove(at);
        assert forall|x: NodeKey, y: NodeKey|
            #![trigger runs_on(list, x, y)]
            left.contains(x) && left.contains(y) && runs_on(list, x, y) implies runs_on(
            out,
            x,
            y,
        ) by {
            let i = choose|i: int|
                0 <= i && i + 1 < list.len() && #[trigger] list[i] == x && list[i + 1] == y;
            if i < at {
                assert(out[i] == x && out[i + 1] == y);
            } else {
                assert(out[i - 1] == x && out[i - 1 + 1] == y);
            }
        }
    } else {
        assert forall|a: NodeKey| #[trigger] list.contains(a) implies Set::<
            NodeKey,
        >::full().remove(k).contains(a) by {}
        lemma_within_all(list, Set::full().remove(k));
    }
}

pub(crate) proof fn lemma_raw_focus_wf(t: Tree, k: NodeKey)
    requires
        t.wf(),
        t.has(k),
    ensures
        t.with_seat(t.seat.raw_focus(k)).wf(),
{
    lemma_fronted(t.seat.order, k);
    assert forall|x: NodeKey| #[trigger]
        t.seat.raw_focus(k).order.contains(x) <==> t.seat.order.contains(x) by {
        assert(t.seat.order.contains(k));
    }
    lemma_with_seat(t, t.seat.raw_focus(k));
}

/// A loose container without children that goes takes only itself along.
proof fn lemma_retired_wf(t: Tree, k: NodeKey, surviving: NodeKey)
    requires
        t.wf(),
        t.has(k),
        k != t.root,
        !t.parents.contains_key(k),
        t.nodes[k].children.len() == 0,
    ensures
        t.retired(k, surviving).wf(),
        t.retired(k, surviving).nodes == t.nodes.remove(k),
        t.retired(k, surviving).parents == t.parents,
        t.retired(k, surviving).root == t.root,
        t.retired(k, surviving).floating == t.floating,
{
    lemma_dropped(t, k);
    let after = t.dropped(k);
    let restore = t.seat.node();
    match after.recent(Pick::ViewUnder(surviving)) {
        None => {},
        Some(next) => {
            lemma_first_of(after, after.seat.order, Pick::ViewUnder(surviving));
            lemma_raw_focus_wf(after, next);
            let b = after.with_seat(after.seat.raw_focus(next));
            lemma_raw_focus_wf(b, after.root);
            let c = b.with_seat(b.seat.raw_focus(after.root));
            if restore is Some && after.has(restore->0) {
                lemma_raw_focus_wf(c, restore->0);
            }
        },
    }
}

/// Destroying what is empty tidies up.
pub(crate) proof fn lemma_reap_tidies(t: Tree, chain: Seq<NodeKey>)
    requires
        t.wf(),
        chain.len() > 0,
        chain == lineage(t.parents, chain[0]),
    ensures
        t.tidied(t.reap_chain(chain)),
    decreases chain.len(),
{
    let k = chain[0];
    if !t.is_barren(k) {
        lemma_tidied_same(t, t);
    } else {
        let linked = t.parents.contains_key(k);
        let loose = if linked {
            t.unlinked(k)
        } else {
            t
        };
        lemma_lineage(t.parents, k);
        if linked {
            lemma_unlinked(t, k);
            lemma_depth(t.parents, k);
            lemma_lineage(t.parents, t.parents[k]);
            assert(chain[1] == lineage(t.parents, t.parents[k])[0]);
        }
        let next = if chain.len() == 1 {
            loose.dropped(k)
        } else if t.bequeaths(k) {
            loose.with_seat(loose.seat.with_selected(Some(chain[1]))).dropped(k)
        } else {
            loose.retired(k, chain[1])
        };
        let seated = loose.with_seat(loose.seat.with_selected(Some(chain[1])));
        lemma_with_seat(loose, seated.seat);
        lemma_dropped(loose, k);
        lemma_dropped(seated, k);
        lemma_retired_wf(loose, k, chain[1]);
        assert(next.wf());
        assert(next.nodes == loose.nodes.remove(k));
        assert(next.parents == loose.parents);
        assert(t.tidied(next)) by {
            assert forall|x: NodeKey| #[trigger] next.has(x) implies t.has(x) && next.nodes[x]
                == t.nodes[x].with_children(next.nodes[x].children) && in_step(
                t.nodes[x].children,
                next.nodes[x].children,
                next.nodes.dom(),
            ) by {
                if linked && x == t.parents[k] {
                    assert(t.nodes[x].children.no_duplicates());
                    lemma_without_in_step(t.nodes[x].children, k, next.nodes.dom());
                }
            }
            assert forall|x: NodeKey| #[trigger] t.is_view(x) implies next.is_view(x) by {}
        }
        let rest = chain.drop_first();
        if linked {
            let p = t.parents[k];
            lemma_parent_not_under_child(t.parents, k);
            crate::cleanup::lemma_lineage_remove(t.parents, k, p);
            assert(rest =~= lineage(t.parents, p));
            assert(next.parents =~= t.parents.remove(k));
            lemma_reap_tidies(next, rest);
            lemma_tidied_trans(t, next, next.reap_chain(rest));
        } else {
            assert(rest.len() == 0);
            assert(next.reap_chain(rest) == next);
        }
    }
}

/// A redundant pair squashed: what is left of the tree.
proof fn lemma_spliced_shape(t: Tree, con: NodeKey)
    requires
        t.wf(),
        t.is_squashable(con),
        t.slot_of(con) is Some,
        t.kids(t.kids(con)[0]).len() > 0,
    ensures
        t.spliced(con).0.wf(),
        t.spliced(con).0.root == t.root,
        t.spliced(con).0.floating == t.floating,
        t.spliced(con).0.nodes == t.dissolved(con, t.kids(con)[0]).nodes.remove(
            t.kids(con)[0],
        ).remove(con),
{
    let child = t.kids(con)[0];
    assert(t.kids(con) =~= seq![child]);
    lemma_dissolved(t, con, child);
    let p = t.parents[con];
    let open = t.dissolved(con, child);
    let heir = t.active(child);
    let seat = open.seat.with_selected(
        t.passed_on(open.seat.selected, con, child, heir),
    ).with_leaf(t.passed_on(open.seat.leaf, con, child, heir));
    let a = open.with_seat(seat);
    lemma_with_seat(open, seat);
    lemma_retired_wf(a, child, p);
    let b = a.retired(child, p);
    lemma_retired_wf(b, con, p);
    let c = b.retired(con, p);
    assert forall|x: NodeKey| #[trigger] c.seat.order.contains(x) implies c.nodes.dom().contains(
        x,
    ) by {
        assert(c.has(x));
    }
    lemma_within_all(c.seat.order, c.nodes.dom());
    lemma_with_seat(c, c.pruned().seat);
}

/// One redundant pair squashed tidies up.
proof fn lemma_splice_tidies(t: Tree, con: NodeKey)
    requires
        t.wf(),
        t.is_squashable(con),
    ensures
        t.tidied(t.spliced(con).0),
{
    let child = t.kids(con)[0];
    let taken = t.kids(child);
    if t.slot_of(con) is None || taken.len() == 0 {
        lemma_tidied_same(t, t);
    } else {
        assert(t.kids(con) =~= seq![child]);
        lemma_dissolved(t, con, child);
        lemma_spliced_shape(t, con);
        let p = t.parents[con];
        let u = t.spliced(con).0;
        let kids = t.nodes[p].children;
        lemma_without_is_remove(kids, con);
        let idx = kids.index_of(con);
        assert forall|x: NodeKey| #[trigger] u.has(x) implies t.has(x) && u.nodes[x]
            == t.nodes[x].with_children(u.nodes[x].children) && in_step(
            t.nodes[x].children,
            u.nodes[x].children,
            u.nodes.dom(),
        ) by {
            if x == p {
                lemma_list_opened(kids, idx, taken.reverse(), u.nodes.dom());
            }
        }
        assert forall|x: NodeKey| #[trigger] t.is_view(x) implies u.is_view(x) by {}
    }
}

/// An entry replaced by others leaves the rest in step.
proof fn lemma_list_opened(
    kids: Seq<NodeKey>,
    idx: int,
    taken: Seq<NodeKey>,
    left: Set<NodeKey>,
)
    requires
        0 <= idx < kids.len(),
        !left.contains(kids[idx]),
    ensures
        in_step(kids, kids.take(idx) + taken + kids.skip(idx + 1), left),
{
    let list = kids.take(idx) + taken + kids.skip(idx + 1);
    let more = taken.len() - 1;
    assert forall|x: NodeKey, y: NodeKey|
        #![trigger runs_on(kids, x, y)]
        left.contains(x) && left.contains(y) && runs_on(kids, x, y) implies runs_on(list, x, y) by {
        let i = choose|i: int|
            0 <= i && i + 1 < kids.len() && #[trigger] kids[i] == x && kids[i + 1] == y;
        if i < idx {
            assert(list[i] == x && list[i + 1] == y);
        } else {
            assert(list[i + more] == x && list[i + more + 1] == y);
        }
    }
}

/// Squashing tidies up.
pub(crate) proof fn lemma_squash_tidies(t: Tree, k: NodeKey, idx: int, n: nat, fuel: nat)
    requires
        t.wf(),
    ensures
        t.tidied(t.squash_from(k, idx, n, fuel)),
    decreases fuel, n,
{
    if n == 0 || fuel == 0 || !(0 <= idx < t.kids(k).len()) {
        lemma_tidied_same(t, t);
    } else {
        let c = t.kids(k)[idx];
        if t.is_squashable(c) {
            let (u, extra) = t.spliced(c);
            lemma_splice_tidies(t, c);
            lemma_squash_tidies(u, k, idx + extra + 1, (n - 1) as nat, fuel);
            lemma_tidied_trans(
                t,
                u,
                u.squash_from(k, idx + extra + 1, (n - 1) as nat, fuel),
            );
        } else {
            let u = if t.is_container(c) {
                lemma_squash_tidies(t, c, 0, t.kids(c).len(), (fuel - 1) as nat);
                t.squash_from(c, 0, t.kids(c).len(), (fuel - 1) as nat)
            } else {
                lemma_tidied_same(t, t);
                t
            };
            lemma_squash_tidies(u, k, idx + 1, (n - 1) as nat, fuel);
            lemma_tidied_trans(t, u, u.squash_from(k, idx + 1, (n - 1) as nat, fuel));
        }
    }
}

} // verus!
