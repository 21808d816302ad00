//! What the four directions mean for a step and for a move.

use crate::axis::{Direction, Layout, NodeKey};
use crate::tree::{depth, lemma_depth, lemma_under_depth, lemma_under_trans, Tree};
use crate::walk::lemma_slot;
use vstd::prelude::*;

verus! {

/// One place on in a list, or one place back.
pub open spec fn sign(d: Direction) -> int {
    match d {
        Direction::Left | Direction::Up => -1,
        Direction::Right | Direction::Down => 1,
    }
}

/// Whether children laid out so run the way a direction points.
pub open spec fn runs(layout: Layout, d: Direction) -> bool {
    match d {
        Direction::Left | Direction::Right => layout == Layout::SplitH || layout == Layout::Tabbed,
        Direction::Up | Direction::Down => layout == Layout::SplitV || layout == Layout::Stacked,
    }
}

impl Tree {
    /// Whether `c` is the child of `p` at place `i`.
    pub open spec fn sits(self, c: NodeKey, p: NodeKey, i: int) -> bool {
        self.has(p) && 0 <= i < self.nodes[p].children.len() && self.nodes[p].children[i] == c
    }

    /// Whether `x` is the sibling right beside `c` in a direction their parent runs along.
    pub open spec fn beside(self, c: NodeKey, d: Direction, x: NodeKey) -> bool {
        exists|p: NodeKey, i: int| #[trigger]
            self.sits(c, p, i) && runs(self.nodes[p].layout, d) && self.sits(x, p, i + sign(d))
    }

    /// Whether nothing lies beside `c` in a direction.
    pub open spec fn at_the_edge(self, c: NodeKey, d: Direction) -> bool {
        forall|x: NodeKey| !#[trigger] self.beside(c, d, x)
    }

    /// Whether `x` is the far end of the list of `c`, which has others to wrap to.
    pub open spec fn far_end(self, c: NodeKey, d: Direction, x: NodeKey) -> bool {
        exists|p: NodeKey, i: int| #[trigger]
            self.sits(c, p, i) && runs(self.nodes[p].layout, d) && self.nodes[p].children.len() > 1
                && self.sits(
                x,
                p,
                if sign(d) < 0 {
                    self.nodes[p].children.len() - 1
                } else {
                    0
                },
            )
    }

    /// Whether a step from `from` comes by `c`: `c` is above it or is it, below the boundary.
    pub open spec fn on_the_way(self, from: NodeKey, c: NodeKey, boundary: Option<NodeKey>) -> bool {
        self.under(from, c) && match boundary {
            Some(b) => self.under(from, b) ==> self.under(c, b) && c != b,
            None => true,
        }
    }
}

/// The two ways of saying what lies beside a node agree.
pub(crate) proof fn lemma_neighbour(t: Tree, c: NodeKey, d: Direction)
    requires
        t.wf(),
        t.slot_of(c) is Some,
    ensures
        ({
            let p = t.parents[c];
            let i = t.kids(p).index_of(c);
            &&& t.sits(c, p, i)
            &&& t.is_parent(p)
            &&& t.kids(p) == t.nodes[p].children
            &&& t.nodes[p].layout.parallel(d) == runs(t.nodes[p].layout, d)
            &&& match d.step(i, t.kids(p).len() as int) {
                Some(n) => n == i + sign(d) && t.sits(t.kids(p)[n], p, n),
                None => forall|x: NodeKey| !#[trigger] t.sits(x, p, i + sign(d)),
            }
            &&& forall|q: NodeKey, j: int| #[trigger] t.sits(c, q, j) ==> q == p && j == i
        }),
{
    let p = t.parents[c];
    let kids = t.kids(p);
    let w = choose|j: int| 0 <= j < kids.len() && kids[j] == c;
    lemma_slot(t, p, c, w);
    assert forall|q: NodeKey, j: int| #[trigger] t.sits(c, q, j) implies q == p && j == kids.index_of(
        c,
    ) by {
        assert(t.parents[t.nodes[q].children[j]] == q);
        assert(kids.no_duplicates());
        assert(kids[j] == kids[kids.index_of(c)]);
    }
}

/// What has no place in a list has nothing beside it.
pub(crate) proof fn lemma_unlisted(t: Tree, c: NodeKey, d: Direction)
    requires
        t.wf(),
        t.slot_of(c) is None || !runs(t.nodes[t.parents[c]].layout, d),
    ensures
        t.at_the_edge(c, d),
        forall|x: NodeKey| !#[trigger] t.far_end(c, d, x),
{
    assert forall|q: NodeKey, j: int| #[trigger] t.sits(c, q, j) implies !runs(
        t.nodes[q].layout,
        d,
    ) by {
        assert(t.parents[t.nodes[q].children[j]] == q);
        assert(t.nodes[q].children.contains(c));
        assert(t.is_parent(q));
        assert(t.slot_of(c) is Some);
    }
}

proof fn lemma_edge(t: Tree, c: NodeKey, d: Direction)
    requires
        t.wf(),
        t.slot_of(c) is Some,
        d.step(t.kids(t.parents[c]).index_of(c), t.kids(t.parents[c]).len() as int) is None,
    ensures
        t.at_the_edge(c, d),
{
    lemma_neighbour(t, c, d);
}

/// Where a step goes: what is said of the landing, whichever level it was found on.
spec fn step_found(
    t: Tree,
    from: NodeKey,
    d: Direction,
    boundary: Option<NodeKey>,
    target: NodeKey,
) -> bool {
    exists|c: NodeKey|
        {
            &&& #[trigger] t.on_the_way(from, c, boundary)
            &&& t.beside(c, d, target)
            &&& forall|b: NodeKey|
                #[trigger] t.under(from, b) && t.under(b, c) ==> t.fullscreen != Some(b)
            &&& forall|b: NodeKey|
                #[trigger] t.under(from, b) && t.under(b, c) && b != c ==> t.at_the_edge(b, d)
        }
}

proof fn lemma_step_found(
    t: Tree,
    from: NodeKey,
    d: Direction,
    wrap: bool,
    boundary: Option<NodeKey>,
    candidate: Option<NodeKey>,
)
    requires
        t.wf(),
        t.step_target(from, d, wrap, boundary, candidate) matches Some((_, wrapped)) && !wrapped,
    ensures
        step_found(
            t,
            from,
            d,
            boundary,
            (t.step_target(from, d, wrap, boundary, candidate)->0).0,
        ),
    decreases depth(t.parents, from),
{
    let target = (t.step_target(from, d, wrap, boundary, candidate)->0).0;
    let p = t.parents[from];
    lemma_depth(t.parents, from);
    assert(t.under(from, from));
    let listed = t.slot_of(from) is Some;
    if listed {
        lemma_neighbour(t, from, d);
    }
    if listed && t.nodes[p].layout.parallel(d) && d.step(
        t.kids(p).index_of(from),
        t.kids(p).len() as int,
    ) is Some {
        let i = t.kids(p).index_of(from);
        assert(t.sits(from, p, i) && t.sits(target, p, i + sign(d)));
        assert(t.beside(from, d, target));
        assert forall|b: NodeKey| #[trigger] t.under(from, b) && t.under(b, from) implies b
            == from by {
            lemma_under_depth(t.parents, from, b);
            lemma_under_depth(t.parents, b, from);
        }
        assert(t.on_the_way(from, from, boundary));
    } else {
        let next = if listed && t.nodes[p].layout.parallel(d) && wrap && candidate is None && t.kids(
            p,
        ).len() > 1 {
            Some(
                if d.leading() {
                    t.kids(p).last()
                } else {
                    t.kids(p)[0]
                },
            )
        } else {
            candidate
        };
        if listed && t.nodes[p].layout.parallel(d) {
            lemma_edge(t, from, d);
        } else {
            if listed {
                assert(!runs(t.nodes[p].layout, d));
            }
            lemma_unlisted(t, from, d);
        }
        assert(t.step_target(p, d, wrap, boundary, next) == Some((target, false)));
        lemma_step_found(t, p, d, wrap, boundary, next);
        let c = choose|c: NodeKey|
            {
                &&& #[trigger] t.on_the_way(p, c, boundary)
                &&& t.beside(c, d, target)
                &&& forall|b: NodeKey|
                    #[trigger] t.under(p, b) && t.under(b, c) ==> t.fullscreen != Some(b)
                &&& forall|b: NodeKey|
                    #[trigger] t.under(p, b) && t.under(b, c) && b != c ==> t.at_the_edge(b, d)
            };
        assert(t.under(from, c));
        assert(t.on_the_way(from, c, boundary));
        assert(c != from) by {
            lemma_under_depth(t.parents, p, c);
        }
        assert forall|b: NodeKey| #[trigger] t.under(from, b) && t.under(b, c) implies t.fullscreen
            != Some(b) && (b != c ==> t.at_the_edge(b, d)) by {
            if b != from {
                assert(t.under(p, b));
            }
        }
    }
}

/// A directional step that does not wrap lands on the adjacent sibling: some node at or above
/// the start has the landing right beside it, one place on to the right or down, one place back
/// to the left or up, in a parent that runs that way. Nothing nearer to the start has anything
/// beside it on that side, and neither the boundary nor the owner of fullscreen was passed.
pub proof fn law_step_lands_next_door(
    t: Tree,
    from: NodeKey,
    d: Direction,
    wrap: bool,
    boundary: Option<NodeKey>,
    target: NodeKey,
)
    requires
        t.wf(),
        t.step_target(from, d, wrap, boundary, None) == Some((target, false)),
    ensures
        exists|c: NodeKey|
            {
                &&& #[trigger] t.on_the_way(from, c, boundary)
                &&& t.beside(c, d, target)
                &&& forall|b: NodeKey|
                    #[trigger] t.under(from, b) && t.under(b, c) ==> t.fullscreen != Some(b)
                &&& forall|b: NodeKey|
                    #[trigger] t.under(from, b) && t.under(b, c) && b != c ==> t.at_the_edge(b, d)
            },
{
    lemma_step_found(t, from, d, wrap, boundary, None);
}

proof fn lemma_step_finds(
    t: Tree,
    from: NodeKey,
    c: NodeKey,
    d: Direction,
    wrap: bool,
    boundary: Option<NodeKey>,
    candidate: Option<NodeKey>,
)
    requires
        t.wf(),
        t.on_the_way(from, c, boundary),
        !t.at_the_edge(c, d),
        forall|b: NodeKey| #[trigger] t.under(from, b) && t.under(b, c) ==> t.fullscreen != Some(b),
    ensures
        t.step_target(from, d, wrap, boundary, candidate) matches Some((_, wrapped)) && !wrapped,
    decreases depth(t.parents, from),
{
    let p = t.parents[from];
    assert(t.under(from, from));
    assert(boundary != Some(from)) by {
        if boundary == Some(from) {
            lemma_under_depth(t.parents, from, c);
            lemma_under_depth(t.parents, c, from);
        }
    }
    if t.slot_of(from) is Some {
        lemma_neighbour(t, from, d);
    }
    if from == c {
        if t.slot_of(c) is None || !runs(t.nodes[p].layout, d) {
            lemma_unlisted(t, c, d);
        } else if d.step(t.kids(p).index_of(c), t.kids(p).len() as int) is None {
            lemma_edge(t, c, d);
        }
    } else {
        lemma_depth(t.parents, from);
        assert(t.under(p, c));
        assert(t.on_the_way(p, c, boundary)) by {
            if boundary is Some && t.under(p, boundary->0) {
                assert(t.under(from, boundary->0));
            }
        }
        assert forall|b: NodeKey| #[trigger] t.under(p, b) && t.under(b, c) implies t.fullscreen
            != Some(b) by {
            assert(t.under(from, b));
        }
        let next = if wrap && candidate is None && t.kids(p).len() > 1 {
            Some(
                if d.leading() {
                    t.kids(p).last()
                } else {
                    t.kids(p)[0]
                },
            )
        } else {
            candidate
        };
        lemma_step_finds(t, p, c, d, wrap, boundary, next);
        lemma_step_finds(t, p, c, d, wrap, boundary, candidate);
    }
}

/// A directional step goes next door whenever it can: if anything lies beside a node on its way,
/// with no owner of fullscreen up to there, it lands and does not wrap.
pub proof fn law_step_goes_next_door_if_it_can(
    t: Tree,
    from: NodeKey,
    c: NodeKey,
    d: Direction,
    wrap: bool,
    boundary: Option<NodeKey>,
)
    requires
        t.wf(),
        t.on_the_way(from, c, boundary),
        !t.at_the_edge(c, d),
        forall|b: NodeKey| #[trigger] t.under(from, b) && t.under(b, c) ==> t.fullscreen != Some(b),
    ensures
        t.step_target(from, d, wrap, boundary, None) matches Some((_, wrapped)) && !wrapped,
{
    lemma_step_finds(t, from, c, d, wrap, boundary, None);
}

/// The end a level has to wrap to.
proof fn lemma_far_end(t: Tree, c: NodeKey, d: Direction)
    requires
        t.wf(),
        t.slot_of(c) is Some,
    ensures
        ({
            let p = t.parents[c];
            let kids = t.kids(p);
            let end = if d.leading() {
                kids.last()
            } else {
                kids[0]
            };
            forall|x: NodeKey| #[trigger]
                t.far_end(c, d, x) <==> runs(t.nodes[p].layout, d) && kids.len() > 1 && x == end
        }),
{
    lemma_neighbour(t, c, d);
    let p = t.parents[c];
    let kids = t.kids(p);
    let end = if d.leading() {
        kids.last()
    } else {
        kids[0]
    };
    if runs(t.nodes[p].layout, d) && kids.len() > 1 {
        assert(t.sits(c, p, kids.index_of(c)));
        assert(t.far_end(c, d, end));
    }
}

proof fn lemma_wrap_found(
    t: Tree,
    from: NodeKey,
    d: Direction,
    wrap: bool,
    boundary: Option<NodeKey>,
    candidate: Option<NodeKey>,
    target: NodeKey,
)
    requires
        t.wf(),
        t.step_target(from, d, wrap, boundary, candidate) == Some((target, true)),
    ensures
        candidate is Some ==> candidate == Some(target),
        candidate is None ==> wrap && exists|c: NodeKey|
            {
                &&& #[trigger] t.on_the_way(from, c, boundary)
                &&& t.far_end(c, d, target)
                &&& forall|b: NodeKey, x: NodeKey|
                    #[trigger] t.under(from, b) && t.under(b, c) && b != c ==> !#[trigger] t.far_end(
                        b,
                        d,
                        x,
                    )
            },
        forall|b: NodeKey| #[trigger]
            t.on_the_way(from, b, boundary) ==> t.at_the_edge(b, d) && t.fullscreen != Some(b),
    decreases depth(t.parents, from),
{
    let p = t.parents[from];
    assert(t.under(from, from));
    if boundary == Some(from) || !t.parents.contains_key(from) {
        assert forall|b: NodeKey| #[trigger] t.on_the_way(from, b, boundary) implies t.at_the_edge(
            b,
            d,
        ) && t.fullscreen != Some(b) by {
            if boundary == Some(from) {
                lemma_under_depth(t.parents, from, b);
                lemma_under_depth(t.parents, b, from);
            } else {
                lemma_unlisted(t, b, d);
            }
        }
    } else {
        lemma_depth(t.parents, from);
        let listed = t.slot_of(from) is Some;
        let along = listed && t.nodes[p].layout.parallel(d);
        if listed {
            lemma_neighbour(t, from, d);
            lemma_far_end(t, from, d);
        }
        if along {
            lemma_edge(t, from, d);
        } else {
            lemma_unlisted(t, from, d);
        }
        let end = if d.leading() {
            t.kids(p).last()
        } else {
            t.kids(p)[0]
        };
        let fresh = along && wrap && candidate is None && t.kids(p).len() > 1;
        let next = if fresh {
            Some(end)
        } else {
            candidate
        };
        assert(t.step_target(p, d, wrap, boundary, next) == Some((target, true)));
        lemma_wrap_found(t, p, d, wrap, boundary, next, target);
        assert forall|b: NodeKey| #[trigger] t.on_the_way(from, b, boundary) implies t.at_the_edge(
            b,
            d,
        ) && t.fullscreen != Some(b) by {
            if b != from {
                assert(t.under(p, b));
                assert(t.on_the_way(p, b, boundary)) by {
                    if boundary is Some && t.under(p, boundary->0) {
                        assert(t.under(from, boundary->0));
                    }
                }
            }
        }
        if fresh {
            assert(t.far_end(from, d, target));
            assert(t.on_the_way(from, from, boundary));
            assert forall|b: NodeKey| #[trigger] t.under(from, b) && t.under(b, from) implies b
                == from by {
                lemma_under_depth(t.parents, from, b);
                lemma_under_depth(t.parents, b, from);
            }
        } else if candidate is None {
            let c = choose|c: NodeKey|
                {
                    &&& #[trigger] t.on_the_way(p, c, boundary)
                    &&& t.far_end(c, d, target)
                    &&& forall|b: NodeKey, x: NodeKey|
                        #[trigger] t.under(p, b) && t.under(b, c) && b != c
                            ==> !#[trigger] t.far_end(b, d, x)
                };
            assert(t.under(from, c));
            assert(t.on_the_way(from, c, boundary));
            assert forall|b: NodeKey, x: NodeKey|
                #[trigger] t.under(from, b) && t.under(b, c) && b != c implies !#[trigger] t.far_end(
                b,
                d,
                x,
            ) by {
                if b != from {
                    assert(t.under(p, b));
                }
            }
        }
    }
}

/// A directional step that wraps goes to the far end of the nearest list along the direction
/// that has more than one member: to the last one when it went left or up, to the first one when
/// it went right or down. It wraps only when it may, and only when nothing on its way has
/// anything beside it.
pub proof fn law_wrap_goes_to_the_far_end(
    t: Tree,
    from: NodeKey,
    d: Direction,
    wrap: bool,
    boundary: Option<NodeKey>,
    target: NodeKey,
)
    requires
        t.wf(),
        t.step_target(from, d, wrap, boundary, None) == Some((target, true)),
    ensures
        wrap,
        exists|c: NodeKey|
            {
                &&& #[trigger] t.on_the_way(from, c, boundary)
                &&& t.far_end(c, d, target)
                &&& forall|b: NodeKey, x: NodeKey|
                    #[trigger] t.under(from, b) && t.under(b, c) && b != c ==> !#[trigger] t.far_end(
                        b,
                        d,
                        x,
                    )
            },
        forall|b: NodeKey| #[trigger]
            t.on_the_way(from, b, boundary) ==> t.at_the_edge(b, d) && t.fullscreen != Some(b),
{
    lemma_wrap_found(t, from, d, wrap, boundary, None, target);
}

proof fn lemma_wraps(
    t: Tree,
    from: NodeKey,
    d: Direction,
    boundary: Option<NodeKey>,
    candidate: Option<NodeKey>,
)
    requires
        t.wf(),
        candidate is Some || exists|c: NodeKey, x: NodeKey|
            #[trigger] t.on_the_way(from, c, boundary) && #[trigger] t.far_end(c, d, x),
        forall|b: NodeKey| #[trigger] t.under(from, b) ==> t.fullscreen != Some(b),
    ensures
        t.step_target(from, d, true, boundary, candidate) is Some,
    decreases depth(t.parents, from),
{
    let p = t.parents[from];
    assert(t.under(from, from));
    if boundary == Some(from) || !t.parents.contains_key(from) {
        if candidate is None {
            let (c, x) = choose|c: NodeKey, x: NodeKey|
                #[trigger] t.on_the_way(from, c, boundary) && #[trigger] t.far_end(c, d, x);
            if boundary == Some(from) {
                lemma_under_depth(t.parents, from, c);
                lemma_under_depth(t.parents, c, from);
            } else {
                lemma_unlisted(t, c, d);
            }
        }
    } else {
        lemma_depth(t.parents, from);
        let listed = t.slot_of(from) is Some;
        let along = listed && t.nodes[p].layout.parallel(d);
        if listed {
            lemma_neighbour(t, from, d);
            lemma_far_end(t, from, d);
        }
        if !along {
            lemma_unlisted(t, from, d);
        }
        let end = if d.leading() {
            t.kids(p).last()
        } else {
            t.kids(p)[0]
        };
        let fresh = along && candidate is None && t.kids(p).len() > 1;
        let next = if fresh {
            Some(end)
        } else {
            candidate
        };
        if next is None {
            let (c, x) = choose|c: NodeKey, x: NodeKey|
                #[trigger] t.on_the_way(from, c, boundary) && #[trigger] t.far_end(c, d, x);
            assert(c != from);
            assert(t.under(p, c));
            assert(t.on_the_way(p, c, boundary)) by {
                if boundary is Some && t.under(p, boundary->0) {
                    assert(t.under(from, boundary->0));
                }
            }
        }
        assert forall|b: NodeKey| #[trigger] t.under(p, b) implies t.fullscreen != Some(b) by {
            assert(t.under(from, b));
        }
        lemma_wraps(t, p, d, boundary, next);
    }
}

/// A step that may wrap finds something whenever a list along the direction on its way has more
/// than one member, and nothing it is in owns fullscreen.
pub proof fn law_wrap_finds_something(
    t: Tree,
    from: NodeKey,
    d: Direction,
    boundary: Option<NodeKey>,
    c: NodeKey,
    x: NodeKey,
)
    requires
        t.wf(),
        t.on_the_way(from, c, boundary),
        t.far_end(c, d, x),
        forall|b: NodeKey| #[trigger] t.under(from, b) ==> t.fullscreen != Some(b),
    ensures
        t.step_target(from, d, true, boundary, None) is Some,
{
    lemma_wraps(t, from, d, boundary, None);
}

/// No step leaves the owner of fullscreen.
pub proof fn law_no_step_leaves_fullscreen(
    t: Tree,
    from: NodeKey,
    d: Direction,
    wrap: bool,
    boundary: Option<NodeKey>,
    target: NodeKey,
    wrapped: bool,
    owner: NodeKey,
)
    requires
        t.wf(),
        t.fullscreen == Some(owner),
        t.under(from, owner),
        t.step_target(from, d, wrap, boundary, None) == Some((target, wrapped)),
    ensures
        t.under(target, owner),
        target != owner,
{
    if wrapped {
        lemma_wrap_found(t, from, d, wrap, boundary, None, target);
        let c = choose|c: NodeKey|
            #[trigger] t.on_the_way(from, c, boundary) && t.far_end(c, d, target);
        assert(!t.on_the_way(from, owner, boundary));
        lemma_shares_parent_far(t, c, d, target);
        lemma_within_owner(t, from, boundary, c, target, owner);
    } else {
        lemma_step_found(t, from, d, wrap, boundary, None);
        let c = choose|c: NodeKey|
            {
                &&& #[trigger] t.on_the_way(from, c, boundary)
                &&& t.beside(c, d, target)
                &&& forall|b: NodeKey|
                    #[trigger] t.under(from, b) && t.under(b, c) ==> t.fullscreen != Some(b)
            };
        let (p, i) = choose|p: NodeKey, i: int| #[trigger]
            t.sits(c, p, i) && runs(t.nodes[p].layout, d) && t.sits(target, p, i + sign(d));
        assert(t.parents[t.nodes[p].children[i]] == p);
        assert(t.parents[t.nodes[p].children[i + sign(d)]] == p);
        assert(t.parents.contains_key(c) && t.parents.contains_key(target));
        crate::tree::lemma_under_chain(t.parents, from, c, owner);
        assert(t.under(c, owner) && c != owner) by {
            assert(t.under(c, c));
            if t.under(owner, c) {
                assert(t.under(from, owner));
            }
        }
        assert(t.under(p, owner));
        assert(t.under(target, owner));
        lemma_depth(t.parents, target);
        lemma_under_depth(t.parents, p, owner);
    }
}

proof fn lemma_shares_parent_far(t: Tree, c: NodeKey, d: Direction, x: NodeKey)
    requires
        t.wf(),
        t.far_end(c, d, x),
    ensures
        t.parents.contains_key(c),
        t.parents.contains_key(x),
        t.parents[c] == t.parents[x],
{
    let (p, i) = choose|p: NodeKey, i: int| #[trigger]
        t.sits(c, p, i) && runs(t.nodes[p].layout, d) && t.nodes[p].children.len() > 1 && t.sits(
            x,
            p,
            if sign(d) < 0 {
                t.nodes[p].children.len() - 1
            } else {
                0
            },
        );
    let n = if sign(d) < 0 {
        t.nodes[p].children.len() - 1
    } else {
        0
    };
    assert(t.parents[t.nodes[p].children[i]] == p);
    assert(t.parents[t.nodes[p].children[n]] == p);
}

proof fn lemma_within_owner(
    t: Tree,
    from: NodeKey,
    boundary: Option<NodeKey>,
    c: NodeKey,
    x: NodeKey,
    owner: NodeKey,
)
    requires
        t.wf(),
        t.on_the_way(from, c, boundary),
        !t.on_the_way(from, owner, boundary),
        t.under(from, owner),
        t.parents.contains_key(c),
        t.parents.contains_key(x),
        t.parents[c] == t.parents[x],
    ensures
        t.under(x, owner),
        x != owner,
{
    let b = boundary->0;
    assert(t.under(from, b));
    crate::tree::lemma_under_chain(t.parents, from, owner, b);
    assert(t.under(b, owner)) by {
        if t.under(owner, b) {
            assert(owner == b);
            assert(t.under(b, b));
        }
    }
    let p = t.parents[c];
    assert(t.under(p, b));
    lemma_under_trans(t.parents, p, b, owner);
    assert(t.under(x, owner));
    lemma_depth(t.parents, x);
    lemma_under_depth(t.parents, p, owner);
}

// ---------------------------------------------------------------------------------------------
// Landing
// ---------------------------------------------------------------------------------------------

/// Focus that lands on a node and descends goes to a window at or below it, to the one focused
/// last among those: none of the others comes before it in the order.
pub proof fn law_landing_descends_to_the_most_recent(
    t: Tree,
    k: NodeKey,
    w: NodeKey,
    a: int,
    b: int,
)
    requires
        t.wf(),
        t.is_view(w),
        t.under(w, k),
        0 <= a < t.seat.order.len(),
        0 <= b < t.seat.order.len(),
        t.seat.order[b] == w,
        t.landed(k, true).seat.leaf == Some(t.seat.order[a]),
    ensures
        t.is_view(t.seat.order[a]),
        t.under(t.seat.order[a], k),
        a <= b,
        t.landed(k, true).seat.selected is None,
        t.landed(k, true).seat.order[0] == t.seat.order[a],
{
    lemma_inactive_view(t, k, w);
    let v = t.inactive_view(k)->0;
    crate::focus::law_focused_window_is_most_recent(t, v);
    if t.is_view(k) {
        lemma_alone_below(t, k, w);
        assert(t.seat.order.no_duplicates());
    } else {
        let pick = crate::tree::Pick::ViewUnder(k);
        crate::tree::lemma_first_of(t, t.seat.order, pick);
        let n = choose|n: int|
            0 <= n < t.seat.order.len() && t.seat.order[n] == v && forall|m: int|
                0 <= m < n ==> !t.meets(pick, #[trigger] t.seat.order[m]);
        assert(t.meets(pick, t.seat.order[b]));
        assert(t.seat.order[a] == t.seat.order[n]);
        assert(a == n);
    }
}

/// Landing on a node that has a window gives the focus to a window of it.
pub proof fn law_landing_focuses_a_window(t: Tree, k: NodeKey, w: NodeKey)
    requires
        t.wf(),
        t.is_view(w),
        t.under(w, k),
    ensures
        t.landed(k, true).seat.leaf matches Some(l) && t.is_view(l) && t.under(l, k),
{
    lemma_inactive_view(t, k, w);
    crate::focus::law_focused_window_is_most_recent(t, t.inactive_view(k)->0);
}

/// Landing on a container without descending selects the container itself.
pub proof fn law_landing_selects_a_container(t: Tree, k: NodeKey)
    requires
        t.wf(),
        t.is_container(k),
    ensures
        t.landed(k, false).seat.selected == Some(k),
        t.landed(k, false).seat.order[0] == k,
        t.landed(k, false).seat.leaf == t.leaf_under(k),
{
    crate::tree::lemma_lineage(t.parents, k);
    crate::seat::lemma_raised(t.seat.order, crate::tree::lineage(t.parents, k));
}

pub(crate) proof fn lemma_inactive_view(t: Tree, k: NodeKey, w: NodeKey)
    requires
        t.wf(),
        t.is_view(w),
        t.under(w, k),
    ensures
        t.inactive_view(k) matches Some(v) && t.is_view(v) && t.under(v, k),
        !t.is_view(k) ==> t.inactive_view(k) == t.recent(crate::tree::Pick::ViewUnder(k)),
{
    assert(t.under(k, k));
    if !t.is_view(k) {
        let pick = crate::tree::Pick::ViewUnder(k);
        crate::tree::lemma_first_of(t, t.seat.order, pick);
        assert(t.seat.order.contains(w));
        let j = choose|j: int| 0 <= j < t.seat.order.len() && t.seat.order[j] == w;
        assert(t.meets(pick, t.seat.order[j]));
    }
}

/// Nothing is below a window.
proof fn lemma_alone_below(t: Tree, k: NodeKey, w: NodeKey)
    requires
        t.wf(),
        t.is_view(k),
        t.under(w, k),
    ensures
        w == k,
    decreases depth(t.parents, w),
{
    if w != k {
        lemma_depth(t.parents, w);
        lemma_alone_below(t, k, t.parents[w]);
        assert(t.nodes[k].children.len() == 0);
        assert(t.nodes[t.parents[w]].children.contains(w));
    }
}

/// A directional focus from a window goes to the window beside it, or into the container beside it.
pub proof fn law_focus_goes_next_door(
    t: Tree,
    d: Direction,
    wrap: bool,
    k: NodeKey,
    p: NodeKey,
    i: int,
    x: NodeKey,
    w: NodeKey,
)
    requires
        t.wf(),
        t.seat.selected is None,
        t.seat.leaf == Some(k),
        t.fullscreen is None,
        t.sits(k, p, i),
        runs(t.nodes[p].layout, d),
        t.sits(x, p, i + sign(d)),
        t.is_view(w),
        t.under(w, x),
    ensures
        t.step_focused(d, wrap).1,
        t.step_focused(d, wrap).0.seat.leaf matches Some(l) && t.is_view(l) && t.under(l, x),
        t.is_view(x) ==> t.step_focused(d, wrap).0.seat.leaf == Some(x),
        t.step_focused(d, wrap).0.nodes == t.nodes,
{
    assert(t.under(k, k));
    assert(t.is_parent(p));
    lemma_slot(t, p, k, i);
    lemma_slot(t, p, x, i + sign(d));
    assert(t.beside(k, d, x));
    assert(t.on_the_way(k, k, None));
    lemma_step_finds(t, k, k, d, wrap, None, None);
    lemma_neighbour(t, k, d);
    assert(t.step_target(k, d, wrap, None, None) == Some((x, false)));
    law_landing_focuses_a_window(t, x, w);
    if t.is_view(x) {
        let l = t.landed(x, true).seat.leaf->0;
        lemma_alone_below(t, x, l);
    }
}

/// Selecting the parent selects the container around what is selected, or around the focused
/// window; selecting the child selects the child that was focused last.
pub proof fn law_selection_goes_up_and_down(t: Tree, k: NodeKey)
    requires
        t.wf(),
        t.has(k),
    ensures
        t.seat.selected == Some(k) && t.parents.contains_key(k) ==> t.parent_selected().1
            && t.parent_selected().0.seat.selected == Some(t.parents[k]),
        t.seat.selected is None && t.seat.leaf == Some(k) && t.parents.contains_key(k)
            ==> t.parent_selected().1 && t.parent_selected().0.seat.selected == Some(t.parents[k]),
        t.seat.selected == Some(k) && !t.parents.contains_key(k) ==> t.parent_selected() == (
            t,
            false,
        ),
        t.seat.selected == Some(k) && t.is_parent(k) && t.nodes[k].children.len() > 0
            ==> t.child_selected().1 && t.child_selected().0.seat.selected == t.active(k)
            && t.nodes[k].children.contains(t.active(k)->0),
        t.seat.leaf == Some(k) && t.parents.contains_key(k) && t.leaf_under(t.parents[k]) is Some
            ==> t.parent_focused().1 && t.parent_focused().0.seat.leaf == t.leaf_under(
            t.parents[k],
        ) && t.parent_focused().0.seat.order[0] == t.parents[k],
{
    if t.is_parent(k) && t.nodes[k].children.len() > 0 {
        crate::tree::lemma_active(t, k);
        crate::walk::lemma_active_listed(t, k);
    }
    if t.parents.contains_key(k) {
        let p = t.parents[k];
        crate::tree::lemma_lineage(t.parents, p);
        crate::seat::lemma_raised(t.seat.order, crate::tree::lineage(t.parents, p));
    }
}

/// `next` goes right in a row and down in a column, `previous` left and up.
pub proof fn law_next_runs_along_the_parent(t: Tree, k: NodeKey, p: NodeKey, forward: bool)
    requires
        t.wf(),
        t.parents.contains_key(k),
        t.parents[k] == p,
        t.is_parent(p),
    ensures
        t.along_parent(k, forward) matches Some(d) && runs(t.nodes[p].layout, d) && sign(d) == if
        forward {
            1int
        } else {
            -1
        },
{
}

} // verus!
