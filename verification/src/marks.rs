//! Marks attached to containers.

use crate::arena::{lemma_workspace_markless, ContainerArena};
use crate::axis::NodeKey;
use crate::node::ContainerData;
use crate::tile::{marks_state, Tile};
use crate::tree::Tree;
use vstd::prelude::*;

verus! {

/// `marks` without one mark, the others in their order.
pub open spec fn unmarked(marks: Seq<Seq<char>>, mark: Seq<char>) -> Seq<Seq<char>>
    decreases marks.len(),
{
    if marks.len() == 0 {
        Seq::empty()
    } else if marks.last() == mark {
        unmarked(marks.drop_last(), mark)
    } else {
        unmarked(marks.drop_last(), mark).push(marks.last())
    }
}

/// `marks` with one mark at the end, unless it is listed already.
pub open spec fn marked(marks: Seq<Seq<char>>, mark: Seq<char>) -> Seq<Seq<char>> {
    if marks.contains(mark) {
        marks
    } else {
        marks.push(mark)
    }
}

impl Tree {
    pub open spec fn has_mark(self, k: NodeKey, mark: Seq<char>) -> bool {
        self.is_container(k) && self.nodes[k].own_marks().contains(mark)
    }

    pub open spec fn with_marks(self, k: NodeKey, marks: Seq<Seq<char>>) -> Tree {
        if self.is_container(k) {
            self.with_node(k, self.nodes[k].with_marks(marks))
        } else {
            self
        }
    }

    /// The first of `keys` that has the mark.
    pub open spec fn first_marked(self, keys: Seq<NodeKey>, mark: Seq<char>) -> Option<NodeKey>
        decreases keys.len(),
    {
        if keys.len() == 0 {
            None
        } else if self.has_mark(keys[0], mark) {
            Some(keys[0])
        } else {
            self.first_marked(keys.drop_first(), mark)
        }
    }

    /// The tree with one mark on no node.
    pub open spec fn unmarked(self, mark: Seq<char>) -> Tree {
        Tree {
            nodes: Map::new(
                |k: NodeKey| self.nodes.contains_key(k),
                |k: NodeKey| self.nodes[k].with_marks(unmarked(self.nodes[k].own_marks(), mark)),
            ),
            ..self
        }
    }

    /// The tree with no mark on any node.
    pub open spec fn markless(self) -> Tree {
        Tree {
            nodes: Map::new(
                |k: NodeKey| self.nodes.contains_key(k),
                |k: NodeKey| self.nodes[k].with_marks(Seq::empty()),
            ),
            ..self
        }
    }
}

proof fn lemma_unmarked_step(marks: Seq<Seq<char>>, mark: Seq<char>, i: int)
    requires
        0 <= i < marks.len(),
    ensures
        unmarked(marks.take(i + 1), mark) == if marks[i] == mark {
            unmarked(marks.take(i), mark)
        } else {
            unmarked(marks.take(i), mark).push(marks[i])
        },
{
    assert(marks.take(i + 1).drop_last() =~= marks.take(i));
    assert(marks.take(i + 1).last() == marks[i]);
}

pub(crate) fn copy_marks(marks: &Vec<String>) -> (r: Vec<String>)
    ensures
        marks_state(r@) == marks_state(marks@),
{
    let mut out: Vec<String> = Vec::new();
    let mut i: usize = 0;
    while i < marks.len()
        invariant
            i <= marks@.len(),
            out@.len() == i,
            forall|j: int| 0 <= j < i ==> #[trigger] out@[j]@ == marks@[j]@,
        decreases marks@.len() - i,
    {
        out.push(marks[i].clone());
        i = i + 1;
    }
    assert(marks_state(out@) =~= marks_state(marks@));
    out
}

fn copy_unmarked(marks: &Vec<String>, mark: &String) -> (r: Vec<String>)
    ensures
        marks_state(r@) == unmarked(marks_state(marks@), mark@),
{
    let ghost all = marks_state(marks@);
    let mut out: Vec<String> = Vec::new();
    let mut i: usize = 0;
    assert(all.take(0) =~= Seq::empty());
    assert(marks_state(out@) =~= Seq::empty());
    while i < marks.len()
        invariant
            i <= marks@.len(),
            all == marks_state(marks@),
            marks_state(out@) == unmarked(all.take(i as int), mark@),
        decreases marks@.len() - i,
    {
        proof {
            lemma_unmarked_step(all, mark@, i as int);
        }
        if marks[i] != *mark {
            let ghost before = out@;
            let copy = marks[i].clone();
            out.push(copy);
            assert(marks_state(out@) =~= marks_state(before).push(copy@));
        }
        i = i + 1;
    }
    assert(all.take(i as int) =~= all);
    out
}

fn has_listed(marks: &Vec<String>, mark: &String) -> (r: bool)
    ensures
        r == marks_state(marks@).contains(mark@),
{
    let ghost all = marks_state(marks@);
    let mut i: usize = 0;
    while i < marks.len()
        invariant
            i <= marks@.len(),
            all == marks_state(marks@),
            forall|j: int| 0 <= j < i ==> #[trigger] all[j] != mark@,
        decreases marks@.len() - i,
    {
        assert(all[i as int] == marks@[i as int]@);
        if marks[i] == *mark {
            return true;
        }
        i = i + 1;
    }
    false
}

impl ContainerData {
    pub fn marks(&self) -> (r: &Vec<String>)
        ensures
            marks_state(r@) == self@.own_marks(),
    {
        match &self.tile {
            Some(tile) => &tile.marks,
            None => &self.marks,
        }
    }

    pub fn has_mark(&self, mark: &String) -> (r: bool)
        ensures
            r == self@.own_marks().contains(mark@),
    {
        has_listed(self.marks(), mark)
    }

    /// Adds a mark, once.
    pub fn add_mark(&mut self, mark: String)
        ensures
            final(self)@ == old(self)@.with_marks(marked(old(self)@.own_marks(), mark@)),
    {
        let mut marks = copy_marks(self.marks());
        if !self.has_mark(&mark) {
            let ghost before = marks@;
            marks.push(mark);
            assert(marks_state(marks@) =~= marks_state(before).push(mark@));
        }
        self.set_marks(marks);
    }

    pub fn remove_mark(&mut self, mark: &String)
        ensures
            final(self)@ == old(self)@.with_marks(unmarked(old(self)@.own_marks(), mark@)),
    {
        let marks = copy_unmarked(self.marks(), mark);
        self.set_marks(marks);
    }

    pub fn clear_marks(&mut self)
        ensures
            final(self)@ == old(self)@.with_marks(Seq::empty()),
    {
        let none: Vec<String> = Vec::new();
        assert(marks_state(none@) =~= Seq::empty());
        self.set_marks(none);
    }
}

impl ContainerArena {
    /// The marks of a container; the workspace carries none.
    pub fn node_marks(&self, key: NodeKey) -> (r: Option<&Vec<String>>)
        ensures
            r is Some <==> self@.is_container(key),
            r matches Some(marks) ==> marks_state(marks@) == self@.nodes[key].own_marks(),
    {
        match self.get_any_container(key) {
            Some(container) => Some(container.marks()),
            None => None,
        }
    }

    pub fn node_has_mark(&self, key: NodeKey, mark: &String) -> (r: bool)
        ensures
            r == self@.has_mark(key, mark@),
    {
        match self.get_any_container(key) {
            Some(container) => container.has_mark(mark),
            None => false,
        }
    }

    /// A container with the mark: of several, the one most recently focused.
    pub fn node_with_mark(&self, mark: &String) -> (r: Option<NodeKey>)
        requires
            self.wf(),
        ensures
            r == self@.first_marked(self@.seat.order, mark@),
            r matches Some(k) ==> self@.has_mark(k, mark@),
            r is None <==> forall|k: NodeKey| !#[trigger] self@.has_mark(k, mark@),
    {
        let order = self.seat().order();
        let mut i: usize = 0;
        assert(order@.skip(0) =~= order@);
        while i < order.len()
            invariant
                self.wf(),
                i <= order@.len(),
                order@ == self@.seat.order,
                self@.first_marked(order@, mark@) == self@.first_marked(
                    order@.skip(i as int),
                    mark@,
                ),
                forall|j: int| 0 <= j < i ==> !self@.has_mark(#[trigger] order@[j], mark@),
            decreases order@.len() - i,
        {
            assert(order@.skip(i as int).drop_first() =~= order@.skip(i as int + 1));
            if self.node_has_mark(order[i], mark) {
                return Some(order[i]);
            }
            i = i + 1;
        }
        assert forall|k: NodeKey| !#[trigger] self@.has_mark(k, mark@) by {
            if self@.has_mark(k, mark@) {
                assert(order@.contains(k));
                let j = choose|j: int| 0 <= j < order@.len() && order@[j] == k;
                assert(!self@.has_mark(order@[j], mark@));
            }
        }
        None
    }

    fn set_node_marks(&mut self, key: NodeKey, marks: Vec<String>)
        requires
            old(self).wf(),
        ensures
            final(self).wf(),
            final(self)@ == old(self)@.with_marks(key, marks_state(marks@)),
            final(self)@.windows() == old(self)@.windows(),
            forall|k: NodeKey| #[trigger] final(self)@.loose(k) ==> old(self)@.loose(k),
            old(self)@.mentions_live() ==> final(self)@.mentions_live(),
    {
        if self.get_any_container(key).is_some() {
            self.set_marks_of(key, marks);
        }
    }

    /// Marks a container; false if there is none.
    pub fn add_mark_to_node(&mut self, key: NodeKey, mark: String) -> (r: bool)
        requires
            old(self).wf(),
        ensures
            final(self).wf(),
            r == old(self)@.is_container(key),
            final(self)@ == old(self)@.with_marks(
                key,
                marked(old(self)@.nodes[key].own_marks(), mark@),
            ),
            final(self)@.windows() == old(self)@.windows(),
            forall|k: NodeKey| #[trigger] final(self)@.loose(k) ==> old(self)@.loose(k),
            old(self)@.mentions_live() ==> final(self)@.mentions_live(),
    {
        let marks = match self.get_any_container(key) {
            Some(container) => {
                let mut marks = copy_marks(container.marks());
                if !container.has_mark(&mark) {
                    let ghost before = marks@;
                    marks.push(mark);
                    assert(marks_state(marks@) =~= marks_state(before).push(mark@));
                }
                marks
            },
            None => {
                return false;
            },
        };
        self.set_node_marks(key, marks);
        true
    }

    /// Takes a mark off a container; false if there is no such container.
    pub fn remove_mark_from_node(&mut self, key: NodeKey, mark: &String) -> (r: bool)
        requires
            old(self).wf(),
        ensures
            final(self).wf(),
            r == old(self)@.is_container(key),
            final(self)@ == old(self)@.with_marks(
                key,
                unmarked(old(self)@.nodes[key].own_marks(), mark@),
            ),
            final(self)@.windows() == old(self)@.windows(),
            forall|k: NodeKey| #[trigger] final(self)@.loose(k) ==> old(self)@.loose(k),
            old(self)@.mentions_live() ==> final(self)@.mentions_live(),
    {
        let marks = match self.get_any_container(key) {
            Some(container) => copy_unmarked(container.marks(), mark),
            None => {
                return false;
            },
        };
        self.set_node_marks(key, marks);
        true
    }

    /// Takes every mark off a container; false if there is no such container.
    pub fn clear_marks_on_node(&mut self, key: NodeKey) -> (r: bool)
        requires
            old(self).wf(),
        ensures
            final(self).wf(),
            r == old(self)@.is_container(key),
            final(self)@ == old(self)@.with_marks(key, Seq::empty()),
            final(self)@.windows() == old(self)@.windows(),
            forall|k: NodeKey| #[trigger] final(self)@.loose(k) ==> old(self)@.loose(k),
            old(self)@.mentions_live() ==> final(self)@.mentions_live(),
    {
        if self.get_any_container(key).is_none() {
            return false;
        }
        let none: Vec<String> = Vec::new();
        assert(marks_state(none@) =~= Seq::empty());
        self.set_node_marks(key, none);
        true
    }

    /// Takes one mark off every container.
    pub fn remove_mark_everywhere(&mut self, mark: &String)
        requires
            old(self).wf(),
        ensures
            final(self).wf(),
            final(self)@ == old(self)@.unmarked(mark@),
            final(self)@.windows() == old(self)@.windows(),
            forall|k: NodeKey| #[trigger] final(self)@.loose(k) ==> old(self)@.loose(k),
            old(self)@.mentions_live() ==> final(self)@.mentions_live(),
    {
        let ghost t = self@;
        let order = self.live_keys();
        let mut i: usize = 0;
        while i < order.len()
            invariant
                self.wf(),
                forall|k: NodeKey| #[trigger] self@.loose(k) ==> old(self)@.loose(k),
                old(self)@.mentions_live() ==> self@.mentions_live(),
                self@.windows() == old(self)@.windows(),
                t.wf(),
                i <= order@.len(),
                order@ == t.seat.order,
                self@ == (Tree { nodes: self@.nodes, ..t }),
                self@.nodes.dom() =~= t.nodes.dom(),
                forall|k: NodeKey| #[trigger]
                    t.nodes.contains_key(k) ==> self@.nodes[k] == if order@.take(
                        i as int,
                    ).contains(k) && !t.nodes[k].workspace {
                        t.nodes[k].with_marks(unmarked(t.nodes[k].own_marks(), mark@))
                    } else {
                        t.nodes[k]
                    },
            decreases order@.len() - i,
        {
            let ghost u = self@;
            proof {
                lemma_taken(order@, i as int);
                assert(order@.contains(order@[i as int]));
                assert(t.nodes.contains_key(order@[i as int]));
            }
            self.remove_mark_from_node(order[i], mark);
            assert(self@.nodes.dom() =~= t.nodes.dom());
            i = i + 1;
        }
        proof {
            assert(order@.take(i as int) =~= order@);
            assert forall|k: NodeKey| #[trigger] t.nodes.contains_key(k) implies self@.nodes[k]
                == t.unmarked(mark@).nodes[k] by {
                assert(order@.contains(k));
                if t.nodes[k].workspace {
                    lemma_workspace_markless(*old(self), k);
                }
            }
            assert(self@.nodes =~= t.unmarked(mark@).nodes);
        }
    }

    /// Takes every mark off every container.
    pub fn clear_marks_everywhere(&mut self)
        requires
            old(self).wf(),
        ensures
            final(self).wf(),
            final(self)@ == old(self)@.markless(),
            final(self)@.windows() == old(self)@.windows(),
            forall|k: NodeKey| #[trigger] final(self)@.loose(k) ==> old(self)@.loose(k),
            old(self)@.mentions_live() ==> final(self)@.mentions_live(),
    {
        let ghost t = self@;
        let order = self.live_keys();
        let mut i: usize = 0;
        while i < order.len()
            invariant
                self.wf(),
                forall|k: NodeKey| #[trigger] self@.loose(k) ==> old(self)@.loose(k),
                old(self)@.mentions_live() ==> self@.mentions_live(),
                self@.windows() == old(self)@.windows(),
                t.wf(),
                i <= order@.len(),
                order@ == t.seat.order,
                self@ == (Tree { nodes: self@.nodes, ..t }),
                self@.nodes.dom() =~= t.nodes.dom(),
                forall|k: NodeKey| #[trigger]
                    t.nodes.contains_key(k) ==> self@.nodes[k] == if order@.take(
                        i as int,
                    ).contains(k) && !t.nodes[k].workspace {
                        t.nodes[k].with_marks(Seq::empty())
                    } else {
                        t.nodes[k]
                    },
            decreases order@.len() - i,
        {
            proof {
                lemma_taken(order@, i as int);
                assert(order@.contains(order@[i as int]));
                assert(t.nodes.contains_key(order@[i as int]));
            }
            self.clear_marks_on_node(order[i]);
            assert(self@.nodes.dom() =~= t.nodes.dom());
            i = i + 1;
        }
        proof {
            assert(order@.take(i as int) =~= order@);
            assert forall|k: NodeKey| #[trigger] t.nodes.contains_key(k) implies self@.nodes[k]
                == t.markless().nodes[k] by {
                assert(order@.contains(k));
                if t.nodes[k].workspace {
                    lemma_workspace_markless(*old(self), k);
                }
            }
            assert(self@.nodes =~= t.markless().nodes);
        }
    }

    /// Every node, most recently focused first.
    pub fn live_keys(&self) -> (r: Vec<NodeKey>)
        ensures
            r@ == self@.seat.order,
    {
        let order = self.seat().order();
        let mut out: Vec<NodeKey> = Vec::new();
        let mut i: usize = 0;
        while i < order.len()
            invariant
                i <= order@.len(),
                out@ == order@.take(i as int),
            decreases order@.len() - i,
        {
            out.push(order[i]);
            i = i + 1;
        }
        assert(order@.take(i as int) =~= order@);
        out
    }

    /// The window that stands for a node: the one its active children lead to.
    pub fn representative_window_for_node(&self, key: NodeKey) -> (r: Option<&Tile>)
        requires
            self.wf(),
        ensures
            r is Some <==> self@.leaf_under(key) is Some,
            r matches Some(tile) ==> tile@ == self@.nodes[self@.leaf_under(key)->0].tile->0,
    {
        match self.leaf_under_key(key) {
            Some(leaf) => self.get_tile(leaf),
            None => None,
        }
    }
}

proof fn lemma_taken(s: Seq<NodeKey>, i: int)
    requires
        0 <= i < s.len(),
    ensures
        forall|k: NodeKey| #[trigger]
            s.take(i + 1).contains(k) <==> s.take(i).contains(k) || k == s[i],
{
    assert(s.take(i + 1) =~= s.take(i).push(s[i]));
    crate::seat::lemma_push_contains(s.take(i), s[i]);
}

/// A mark added to a container is on it until it is taken off; taking it off leaves the other
/// marks.
pub proof fn law_mark_added_and_removed(t: Tree, k: NodeKey, mark: Seq<char>)
    requires
        t.is_container(k),
        !t.has_mark(k, mark),
    ensures
        t.with_marks(k, marked(t.nodes[k].own_marks(), mark)).has_mark(k, mark),
        unmarked(marked(t.nodes[k].own_marks(), mark), mark) == t.nodes[k].own_marks(),
{
    let marks = t.nodes[k].own_marks();
    assert(marks.push(mark)[marks.len() as int] == mark);
    assert(marks.push(mark).drop_last() =~= marks);
    lemma_unmarked_absent(marks, mark);
}

proof fn lemma_unmarked_absent(marks: Seq<Seq<char>>, mark: Seq<char>)
    requires
        !marks.contains(mark),
    ensures
        unmarked(marks, mark) == marks,
    decreases marks.len(),
{
    if marks.len() > 0 {
        assert(marks[marks.len() - 1] != mark);
        assert forall|j: int| 0 <= j < marks.drop_last().len() implies marks.drop_last()[j]
            != mark by {
            assert(marks[j] != mark);
        }
        lemma_unmarked_absent(marks.drop_last(), mark);
        assert(marks.drop_last().push(marks.last()) =~= marks);
    }
}

/// After a mark was removed everywhere no node has it, and every other mark is where it was.
pub proof fn law_mark_removed_everywhere(t: Tree, mark: Seq<char>, other: Seq<char>, k: NodeKey)
    ensures
        !t.unmarked(mark).has_mark(k, mark),
        other != mark ==> (t.unmarked(mark).has_mark(k, other) <==> t.has_mark(k, other)),
{
    if t.is_container(k) {
        lemma_unmarked_contains(t.nodes[k].own_marks(), mark, other);
        lemma_unmarked_contains(t.nodes[k].own_marks(), mark, mark);
    }
}

proof fn lemma_unmarked_contains(marks: Seq<Seq<char>>, mark: Seq<char>, m: Seq<char>)
    ensures
        unmarked(marks, mark).contains(m) <==> marks.contains(m) && m != mark,
    decreases marks.len(),
{
    if marks.len() > 0 {
        let front = marks.drop_last();
        lemma_unmarked_contains(front, mark, m);
        assert(marks =~= front.push(marks.last()));
        if marks.contains(m) {
            let i = choose|i: int| 0 <= i < marks.len() && marks[i] == m;
            if i < front.len() {
                assert(front[i] == m);
            }
        }
        if front.contains(m) {
            let i = choose|i: int| 0 <= i < front.len() && front[i] == m;
            assert(marks[i] == m);
        }
        assert(marks[marks.len() - 1] == marks.last());
        let rest = unmarked(front, mark);
        if marks.last() != mark {
            let all = rest.push(marks.last());
            if rest.contains(m) {
                let i = choose|i: int| 0 <= i < rest.len() && rest[i] == m;
                assert(all[i] == m);
            }
            assert(all[rest.len() as int] == marks.last());
            if all.contains(m) {
                let i = choose|i: int| 0 <= i < all.len() && all[i] == m;
                if i < rest.len() {
                    assert(rest[i] == m);
                }
            }
        }
    }
}

} // verus!
