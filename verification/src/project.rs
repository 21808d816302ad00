//! The tree as it is published: one description per node, with the children inside.

use crate::arena::ContainerArena;
use crate::axis::{Layout, NodeKey};
use crate::leafcache::entry_index;
use crate::marks::copy_marks;
use crate::measure::{Real, Rect};
use crate::paths::copy_path;
use crate::tile::{marks_state, text_state, WindowId};
use crate::tree::{lemma_depth, room, Tree};
use vstd::prelude::*;

verus! {

/// One node of the published tree.
#[derive(Debug)]
pub struct LayoutTreeNode {
    pub path: Vec<usize>,
    pub layout: Option<Layout>,
    pub window_id: Option<WindowId>,
    pub title: Option<String>,
    pub app_id: Option<String>,
    pub pid: Option<i32>,
    pub focused: bool,
    pub is_floating: bool,
    pub visible: bool,
    pub is_urgent: bool,
    pub is_sticky: bool,
    pub is_scratchpad: bool,
    pub marks: Vec<String>,
    pub rect: Option<Rect>,
    pub percent: Option<Real>,
    pub children: Vec<LayoutTreeNode>,
}

/// [`LayoutTreeNode`] as a value.
pub struct Description {
    pub path: Seq<usize>,
    pub layout: Option<Layout>,
    pub window_id: Option<WindowId>,
    pub title: Option<Seq<char>>,
    pub app_id: Option<Seq<char>>,
    pub pid: Option<i32>,
    pub focused: bool,
    pub is_floating: bool,
    pub visible: bool,
    pub is_urgent: bool,
    pub is_sticky: bool,
    pub is_scratchpad: bool,
    pub marks: Seq<Seq<char>>,
    pub rect: Option<Rect>,
    pub percent: Option<Real>,
    pub children: Seq<Description>,
}

/// What a projection is given: the node reported as focused, whether the branch floats, and
/// the share of each node that has one.
pub struct Reporting {
    pub focused: Option<NodeKey>,
    pub floating: bool,
    pub shares: Seq<(NodeKey, Real)>,
}

impl LayoutTreeNode {
    pub open spec fn state(self) -> Description
        decreases self, self.children.len() + 2,
    {
        Description {
            path: self.path@,
            layout: self.layout,
            window_id: self.window_id,
            title: text_state(self.title),
            app_id: text_state(self.app_id),
            pid: self.pid,
            focused: self.focused,
            is_floating: self.is_floating,
            visible: self.visible,
            is_urgent: self.is_urgent,
            is_sticky: self.is_sticky,
            is_scratchpad: self.is_scratchpad,
            marks: marks_state(self.marks@),
            rect: self.rect,
            percent: self.percent,
            children: self.states_from(0),
        }
    }

    /// The children from index `i` on.
    pub open spec fn states_from(self, i: int) -> Seq<Description>
        decreases self, self.children.len() - i + 1,
    {
        if 0 <= i < self.children.len() {
            seq![self.children@[i].state()] + self.states_from(i + 1)
        } else {
            Seq::empty()
        }
    }
}

impl View for LayoutTreeNode {
    type V = Description;

    open spec fn view(&self) -> Description {
        self.state()
    }
}

proof fn lemma_states_from(node: LayoutTreeNode, i: int)
    requires
        0 <= i <= node.children.len(),
    ensures
        node.states_from(i).len() == node.children.len() - i,
        forall|j: int|
            0 <= j < node.children.len() - i ==> #[trigger] node.states_from(i)[j]
                == node.children@[i + j].state(),
    decreases node.children.len() - i,
{
    if i < node.children.len() {
        lemma_states_from(node, i + 1);
        let rest = node.states_from(i + 1);
        assert forall|j: int| 0 <= j < node.children.len() - i implies #[trigger] node.states_from(
            i,
        )[j] == node.children@[i + j].state() by {
            if j > 0 {
                assert(rest[j - 1] == node.children@[i + 1 + (j - 1)].state());
            }
        }
    }
}

/// The share of a node, from the first entry of it.
pub open spec fn share_in(shares: Seq<(NodeKey, Real)>, k: NodeKey) -> Option<Real>
    decreases shares.len(),
{
    if shares.len() == 0 {
        None
    } else if shares[0].0 == k {
        Some(shares[0].1)
    } else {
        share_in(shares.drop_first(), k)
    }
}

fn find_share(shares: &Vec<(NodeKey, Real)>, key: NodeKey) -> (r: Option<Real>)
    ensures
        r == share_in(shares@, key),
{
    let mut i: usize = 0;
    assert(shares@.skip(0) =~= shares@);
    while i < shares.len()
        invariant
            i <= shares@.len(),
            share_in(shares@, key) == share_in(shares@.skip(i as int), key),
        decreases shares@.len() - i,
    {
        assert(shares@.skip(i as int).drop_first() =~= shares@.skip(i as int + 1));
        if shares[i].0 == key {
            return Some(shares[i].1);
        }
        i = i + 1;
    }
    None
}

impl Description {
    /// What is said of a node that is not there.
    pub open spec fn absent(path: Seq<usize>, percent: Option<Real>, floating: bool) -> Description {
        Description {
            path,
            layout: None,
            window_id: None,
            title: None,
            app_id: None,
            pid: None,
            focused: false,
            is_floating: floating,
            visible: false,
            is_urgent: false,
            is_sticky: false,
            is_scratchpad: false,
            marks: Seq::empty(),
            rect: None,
            percent,
            children: Seq::empty(),
        }
    }
}

impl Tree {
    /// Whether a window was last arranged where it can be seen; one never arranged counts as
    /// seen.
    pub open spec fn seen(self, k: NodeKey) -> bool {
        match self.caches.entry(k) {
            Some(info) => info.visible,
            None => true,
        }
    }

    /// The box a node is holding: a window the one of its tile, nothing if it was never
    /// arranged.
    pub open spec fn published_box(self, k: NodeKey) -> Option<Rect> {
        if self.is_view(k) {
            Some(
                match self.caches.entry(k) {
                    Some(info) => info.rect,
                    None => Rect::spec_zero(),
                },
            )
        } else if self.has(k) {
            Some(self.nodes[k].geometry)
        } else {
            None
        }
    }

    /// A node and everything below it as it is published.
    pub open spec fn described(
        self,
        k: NodeKey,
        path: Seq<usize>,
        percent: Option<Real>,
        reporting: Reporting,
    ) -> Description
        decreases room(self.parents, k), self.kids(k).len() + 2,
        when self.wf()
    {
        if self.is_view(k) {
            let tile = self.nodes[k].tile->0;
            Description {
                path,
                layout: None,
                window_id: Some(tile.window.id),
                title: tile.window.title,
                app_id: tile.window.app_id,
                pid: tile.window.pid,
                focused: reporting.focused == Some(k),
                is_floating: reporting.floating,
                visible: self.seen(k),
                is_urgent: tile.window.urgent,
                is_sticky: tile.is_sticky,
                is_scratchpad: tile.is_scratchpad,
                marks: self.nodes[k].own_marks(),
                rect: self.published_box(k),
                percent,
                children: Seq::empty(),
            }
        } else if self.is_parent(k) {
            let children = self.described_from(k, path, reporting, 0);
            Description {
                path,
                layout: Some(self.nodes[k].layout),
                window_id: None,
                title: None,
                app_id: None,
                pid: None,
                focused: reporting.focused == Some(k),
                is_floating: reporting.floating,
                visible: exists|i: int|
                    0 <= i < children.len() && (#[trigger] children[i]).visible,
                is_urgent: exists|i: int|
                    0 <= i < children.len() && (#[trigger] children[i]).is_urgent,
                is_sticky: exists|i: int|
                    0 <= i < children.len() && (#[trigger] children[i]).is_sticky,
                is_scratchpad: exists|i: int|
                    0 <= i < children.len() && (#[trigger] children[i]).is_scratchpad,
                marks: Seq::empty(),
                rect: self.published_box(k),
                percent,
                children,
            }
        } else {
            Description::absent(path, percent, reporting.floating)
        }
    }

    /// The children of a node from index `i` on.
    pub open spec fn described_from(
        self,
        k: NodeKey,
        path: Seq<usize>,
        reporting: Reporting,
        i: int,
    ) -> Seq<Description>
        decreases room(self.parents, k), self.kids(k).len() - i + 1,
        when self.wf()
    {
        proof {
            if 0 <= i < self.kids(k).len() {
                assert(self.parents.contains_key(self.nodes[k].children[i]));
                lemma_depth(self.parents, self.kids(k)[i]);
            }
        }
        if 0 <= i < self.kids(k).len() {
            seq![
                self.described(
                    self.kids(k)[i],
                    path.push(i as usize),
                    share_in(reporting.shares, self.kids(k)[i]),
                    reporting,
                ),
            ] + self.described_from(k, path, reporting, i + 1)
        } else {
            Seq::empty()
        }
    }
}

fn copy_text(text: &Option<String>) -> (r: Option<String>)
    ensures
        text_state(r) == text_state(*text),
{
    match text {
        Some(s) => Some(s.clone()),
        None => None,
    }
}

impl ContainerArena {
    /// Whether a window was last arranged where it can be seen.
    pub fn leaf_is_visible(&self, key: NodeKey) -> (r: bool)
        ensures
            r == self@.seen(key),
    {
        let leaves = &self.cache().leaf_layouts;
        let i: usize = entry_index(leaves, key);
        proof {
            lemma_entry_at(crate::cache::leaves_state(leaves@), key, i as int);
        }
        if i < leaves.len() {
            leaves[i].visible
        } else {
            true
        }
    }

    /// The box a node is holding.
    pub fn node_rect(&self, key: NodeKey) -> (r: Option<Rect>)
        ensures
            r == self@.published_box(key),
    {
        match self.get_node(key) {
            Some(node) => {
                if !node.is_view() {
                    return Some(node.common().geometry());
                }
                let leaves = &self.cache().leaf_layouts;
                let i: usize = entry_index(leaves, key);
                proof {
                    lemma_entry_at(crate::cache::leaves_state(leaves@), key, i as int);
                }
                if i < leaves.len() {
                    Some(leaves[i].rect)
                } else {
                    Some(Rect::zero())
                }
            },
            None => None,
        }
    }

    fn build_layout_tree_node(
        &self,
        node_key: NodeKey,
        focused_key: Option<NodeKey>,
        path: &mut Vec<usize>,
        percent: Option<Real>,
        is_floating: bool,
        shares: &Vec<(NodeKey, Real)>,
    ) -> (r: LayoutTreeNode)
        requires
            self.wf(),
        ensures
            final(path)@ == old(path)@,
            r@ == self@.described(
                node_key,
                old(path)@,
                percent,
                (Reporting { focused: focused_key, floating: is_floating, shares: shares@ }),
            ),
        decreases room(self@.parents, node_key),
    {
        let ghost reporting = Reporting {
            focused: focused_key,
            floating: is_floating,
            shares: shares@,
        };
        let ghost start = path@;
        let no_children: Vec<LayoutTreeNode> = Vec::new();
        if let Some(tile) = self.get_tile(node_key) {
            let marks = match self.node_marks(node_key) {
                Some(marks) => copy_marks(marks),
                None => {
                    proof {
                        assert(self@.nodes.contains_key(node_key));
                    }
                    Vec::new()
                },
            };
            let r = LayoutTreeNode {
                path: copy_path(path),
                layout: None,
                window_id: Some(tile.window.id),
                title: copy_text(&tile.window.title),
                app_id: copy_text(&tile.window.app_id),
                pid: tile.window.pid,
                focused: focused_key == Some(node_key),
                is_floating,
                visible: self.leaf_is_visible(node_key),
                is_urgent: tile.window.urgent,
                is_sticky: tile.is_sticky,
                is_scratchpad: tile.is_scratchpad,
                marks,
                rect: self.node_rect(node_key),
                percent,
                children: no_children,
            };
            assert(r.states_from(0) =~= Seq::empty());
            return r;
        }
        let (layout, count) = match self.get_container(node_key) {
            Some(container) => (container.layout(), container.child_count()),
            None => {
                let r = LayoutTreeNode {
                    path: copy_path(path),
                    layout: None,
                    window_id: None,
                    title: None,
                    app_id: None,
                    pid: None,
                    focused: false,
                    is_floating,
                    visible: false,
                    is_urgent: false,
                    is_sticky: false,
                    is_scratchpad: false,
                    marks: Vec::new(),
                    rect: None,
                    percent,
                    children: no_children,
                };
                assert(r.states_from(0) =~= Seq::empty());
                assert(marks_state(r.marks@) =~= Seq::empty());
                return r;
            },
        };
        let ghost all = self@.described_from(node_key, start, reporting, 0);
        let mut children: Vec<LayoutTreeNode> = Vec::new();
        let mut visible = false;
        let mut urgent = false;
        let mut sticky = false;
        let mut scratchpad = false;
        let mut i: usize = 0;
        assert(all.skip(0) =~= all);
        proof {
            lemma_described_from(self@, node_key, start, reporting, 0);
        }
        while i < count
            invariant
                self.wf(),
                i <= count,
                count == self@.kids(node_key).len(),
                all.len() == count,
                self@.is_parent(node_key),
                path@ == start,
                reporting == (Reporting {
                    focused: focused_key,
                    floating: is_floating,
                    shares: shares@,
                }),
                all == self@.described_from(node_key, start, reporting, 0),
                children@.len() == i,
                all.skip(i as int) == self@.described_from(node_key, start, reporting, i as int),
                forall|j: int| 0 <= j < i ==> #[trigger] children@[j].state() == all[j],
                visible == exists|j: int| 0 <= j < i && (#[trigger] all[j]).visible,
                urgent == exists|j: int| 0 <= j < i && (#[trigger] all[j]).is_urgent,
                sticky == exists|j: int| 0 <= j < i && (#[trigger] all[j]).is_sticky,
                scratchpad == exists|j: int| 0 <= j < i && (#[trigger] all[j]).is_scratchpad,
            decreases count - i,
        {
            let child = match self.get_container(node_key) {
                Some(container) => match container.child_key(i) {
                    Some(child) => child,
                    None => NodeKey { id: 0 },
                },
                None => NodeKey { id: 0 },
            };
            proof {
                crate::walk::lemma_slot(self@, node_key, child, i as int);
                lemma_depth(self@.parents, child);
                let rest = self@.described_from(node_key, start, reporting, i as int + 1);
                assert(all.skip(i as int)[0] == all[i as int]);
                assert(all.skip(i as int + 1) =~= all.skip(i as int).drop_first());
                assert(all.skip(i as int).drop_first() =~= rest);
            }
            path.push(i);
            let described = self.build_layout_tree_node(
                child,
                focused_key,
                path,
                find_share(shares, child),
                is_floating,
                shares,
            );
            path.pop();
            assert(path@ =~= start);
            assert(described.state() == all[i as int]);
            visible = visible || described.visible;
            urgent = urgent || described.is_urgent;
            sticky = sticky || described.is_sticky;
            scratchpad = scratchpad || described.is_scratchpad;
            children.push(described);
            i = i + 1;
        }
        let r = LayoutTreeNode {
            path: copy_path(path),
            layout: Some(layout),
            window_id: None,
            title: None,
            app_id: None,
            pid: None,
            focused: focused_key == Some(node_key),
            is_floating,
            visible,
            is_urgent: urgent,
            is_sticky: sticky,
            is_scratchpad: scratchpad,
            marks: Vec::new(),
            rect: self.node_rect(node_key),
            percent,
            children,
        };
        proof {
            lemma_states_from(r, 0);
            assert forall|j: int| 0 <= j < all.len() implies r.states_from(0)[j] == all[j] by {
                assert(r.states_from(0)[j] == r.children@[0 + j].state());
            }
            assert(r.states_from(0) =~= all);
            assert(marks_state(r.marks@) =~= Seq::empty());
        }
        r
    }

    /// The workspace as it is published, with the selection reported as focused.
    pub fn layout_tree(&self, shares: &Vec<(NodeKey, Real)>) -> (r: LayoutTreeNode)
        requires
            self.wf(),
        ensures
            r@ == self@.described(
                self@.root,
                Seq::empty(),
                None,
                (Reporting {
                    focused: self@.selected_node(),
                    floating: false,
                    shares: shares@,
                }),
            ),
    {
        let mut path: Vec<usize> = Vec::new();
        let focused = self.selected_node_key();
        self.build_layout_tree_node(self.workspace_root(), focused, &mut path, None, false, shares)
    }

    /// The workspace as it is published while another one has the focus.
    pub fn layout_tree_unfocused(&self, shares: &Vec<(NodeKey, Real)>) -> (r: LayoutTreeNode)
        requires
            self.wf(),
        ensures
            r@ == self@.described(
                self@.root,
                Seq::empty(),
                None,
                (Reporting { focused: None, floating: false, shares: shares@ }),
            ),
    {
        let mut path: Vec<usize> = Vec::new();
        self.build_layout_tree_node(self.workspace_root(), None, &mut path, None, false, shares)
    }

    /// One branch as it is published, addressed from `path`.
    pub fn layout_tree_for_branch(
        &self,
        branch_root: NodeKey,
        focused_key: Option<NodeKey>,
        path: &mut Vec<usize>,
        is_floating: bool,
        shares: &Vec<(NodeKey, Real)>,
    ) -> (r: Option<LayoutTreeNode>)
        requires
            self.wf(),
        ensures
            final(path)@ == old(path)@,
            r is Some <==> self@.has(branch_root),
            r matches Some(node) ==> node@ == self@.described(
                branch_root,
                old(path)@,
                None,
                (Reporting { focused: focused_key, floating: is_floating, shares: shares@ }),
            ),
    {
        if !self.holds_node(branch_root) {
            return None;
        }
        Some(
            self.build_layout_tree_node(branch_root, focused_key, path, None, is_floating, shares),
        )
    }
}

proof fn lemma_entry_at(leaves: Seq<crate::cache::LeafInfo>, key: NodeKey, n: int)
    requires
        0 <= n <= leaves.len(),
        forall|j: int| 0 <= j < n ==> (#[trigger] leaves[j]).key != key,
        n < leaves.len() ==> leaves[n].key == key,
    ensures
        crate::cache::entry_of(leaves, key) == if n < leaves.len() {
            Some(leaves[n])
        } else {
            None
        },
    decreases leaves.len(),
{
    if leaves.len() > 0 && n > 0 {
        assert(leaves[0].key != key);
        let rest = leaves.drop_first();
        assert forall|j: int| 0 <= j < n - 1 implies (#[trigger] rest[j]).key != key by {
            assert(leaves[j + 1].key != key);
        }
        lemma_entry_at(rest, key, n - 1);
    }
}

/// The paths published below a node lead back to the nodes they describe: the description at
/// a place among the children is the one of the child there, at the node's path and that place.
pub proof fn law_published_children_are_the_children(
    t: Tree,
    k: NodeKey,
    path: Seq<usize>,
    reporting: Reporting,
    i: int,
)
    requires
        t.wf(),
        t.is_parent(k),
        0 <= i < t.kids(k).len(),
        t.kids(k).len() <= usize::MAX,
    ensures
        t.described(k, path, None, reporting).children.len() == t.kids(k).len(),
        t.described(k, path, None, reporting).children[i].path == path.push(i as usize),
        t.described(k, path, None, reporting).children[i] == t.described(
            t.kids(k)[i],
            path.push(i as usize),
            share_in(reporting.shares, t.kids(k)[i]),
            reporting,
        ),
{
    lemma_described_from(t, k, path, reporting, 0);
}

pub(crate) proof fn lemma_described_from(
    t: Tree,
    k: NodeKey,
    path: Seq<usize>,
    reporting: Reporting,
    i: int,
)
    requires
        t.wf(),
        0 <= i <= t.kids(k).len(),
    ensures
        t.described_from(k, path, reporting, i).len() == t.kids(k).len() - i,
        forall|j: int|
            0 <= j < t.kids(k).len() - i ==> #[trigger] t.described_from(k, path, reporting, i)[j]
                == t.described(
                t.kids(k)[i + j],
                path.push((i + j) as usize),
                share_in(reporting.shares, t.kids(k)[i + j]),
                reporting,
            ),
    decreases t.kids(k).len() - i,
{
    if i < t.kids(k).len() {
        lemma_described_from(t, k, path, reporting, i + 1);
        let rest = t.described_from(k, path, reporting, i + 1);
        assert forall|j: int| 0 <= j < t.kids(k).len() - i implies #[trigger] t.described_from(
            k,
            path,
            reporting,
            i,
        )[j] == t.described(
            t.kids(k)[i + j],
            path.push((i + j) as usize),
            share_in(reporting.shares, t.kids(k)[i + j]),
            reporting,
        ) by {
            if j > 0 {
                assert(rest[j - 1] == t.described(
                    t.kids(k)[i + 1 + (j - 1)],
                    path.push((i + 1 + (j - 1)) as usize),
                    share_in(reporting.shares, t.kids(k)[i + 1 + (j - 1)]),
                    reporting,
                ));
            }
        }
    }
}

} // verus!
