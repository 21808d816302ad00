//! The tab bars of the switchers: what each tab says and which bars can be seen.

use crate::arena::ContainerArena;
use crate::axis::{Layout, NodeKey};
use crate::measure::{Real, Rect};
use crate::paths::copy_path;
use crate::tile::{BlockOutFrom, Tile};
use crate::tree::{lemma_depth, room, Tree};
use vstd::prelude::*;
use vstd::string::*;

verus! {

/// One tab.
#[derive(Debug)]
pub struct TabBarTab {
    pub title: String,
    pub is_focused: bool,
    pub is_urgent: bool,
    pub block_out_from: Option<BlockOutFrom>,
}

/// The bar of one switcher.
#[derive(Debug)]
pub struct TabBarInfo {
    /// The container this bar belongs to.
    pub key: NodeKey,
    /// Its path.
    pub path: Vec<usize>,
    pub layout: Layout,
    pub rect: Rect,
    pub row_height: Real,
    pub tabs: Vec<TabBarTab>,
}

/// Where the bar of a container goes and how high a row of it is.
#[derive(Debug, Clone, Copy, PartialEq, Eq, Structural)]
pub struct BarBox {
    pub key: NodeKey,
    pub rect: Rect,
    pub row_height: Real,
}

/// [`TabBarTab`] as a value.
pub struct Tab {
    pub title: Seq<char>,
    pub is_focused: bool,
    pub is_urgent: bool,
    pub block_out_from: Option<BlockOutFrom>,
}

/// [`TabBarInfo`] as a value.
pub struct Bar {
    pub key: NodeKey,
    pub path: Seq<usize>,
    pub layout: Layout,
    pub rect: Rect,
    pub row_height: Real,
    pub tabs: Seq<Tab>,
}

impl View for TabBarTab {
    type V = Tab;

    open spec fn view(&self) -> Tab {
        Tab {
            title: self.title@,
            is_focused: self.is_focused,
            is_urgent: self.is_urgent,
            block_out_from: self.block_out_from,
        }
    }
}

pub open spec fn tabs_state(tabs: Seq<TabBarTab>) -> Seq<Tab> {
    Seq::new(tabs.len(), |i: int| tabs[i]@)
}

impl View for TabBarInfo {
    type V = Bar;

    open spec fn view(&self) -> Bar {
        Bar {
            key: self.key,
            path: self.path@,
            layout: self.layout,
            rect: self.rect,
            row_height: self.row_height,
            tabs: tabs_state(self.tabs@),
        }
    }
}

pub open spec fn bars_state(bars: Seq<TabBarInfo>) -> Seq<Bar> {
    Seq::new(bars.len(), |i: int| bars[i]@)
}

/// Whether a character is white space.
pub open spec fn is_blank(c: char) -> bool {
    let n = c as u32;
    9 <= n <= 13 || n == 0x20 || n == 0x85 || n == 0xa0 || n == 0x1680 || 0x2000 <= n <= 0x200a || n
        == 0x2028 || n == 0x2029 || n == 0x202f || n == 0x205f || n == 0x3000
}

/// Whether there is nothing but white space.
pub open spec fn all_blank(text: Seq<char>) -> bool {
    forall|i: int| 0 <= i < text.len() ==> is_blank(#[trigger] text[i])
}

/// The bar box of a container, from the first entry of it.
pub open spec fn bar_in(boxes: Seq<BarBox>, k: NodeKey) -> Option<BarBox>
    decreases boxes.len(),
{
    if boxes.len() == 0 {
        None
    } else if boxes[0].key == k {
        Some(boxes[0])
    } else {
        bar_in(boxes.drop_first(), k)
    }
}

impl Tree {
    /// What a tab says: the title of the window it leads to, unless that says nothing.
    pub open spec fn tab_title(self, k: NodeKey) -> Seq<char> {
        match self.leaf_under(k) {
            Some(leaf) => match self.nodes[leaf].tile->0.window.title {
                Some(title) => if all_blank(title) {
                    "untitled"@
                } else {
                    title
                },
                None => "untitled"@,
            },
            None => "untitled"@,
        }
    }

    pub open spec fn tab_block_out(self, k: NodeKey) -> Option<BlockOutFrom> {
        match self.leaf_under(k) {
            Some(leaf) => self.nodes[leaf].tile->0.window.block_out_from,
            None => None,
        }
    }

    /// Whether some window below a node asks for attention.
    pub open spec fn urgent_below(self, k: NodeKey) -> bool {
        exists|i: int|
            0 <= i < self.leaves(k).len()
                && self.nodes[#[trigger] self.leaves(k)[i]].tile->0.window.urgent
    }

    /// The tabs of a container, one for each child.
    pub open spec fn tabs_of(self, k: NodeKey) -> Seq<Tab> {
        Seq::new(
            self.kids(k).len(),
            |i: int|
                Tab {
                    title: self.tab_title(self.kids(k)[i]),
                    is_focused: i == self.shown_index(k),
                    is_urgent: self.urgent_below(self.kids(k)[i]),
                    block_out_from: self.tab_block_out(self.kids(k)[i]),
                },
        )
    }

    /// The bar of a container itself, if it is a switcher that can be seen and has a bar.
    pub open spec fn own_bar(
        self,
        k: NodeKey,
        path: Seq<usize>,
        visible: bool,
        boxes: Seq<BarBox>,
    ) -> Seq<Bar> {
        match bar_in(boxes, k) {
            Some(b) => if visible && !self.nodes[k].layout.is_split() {
                seq![
                    Bar {
                        key: k,
                        path,
                        layout: self.nodes[k].layout,
                        rect: b.rect,
                        row_height: b.row_height,
                        tabs: self.tabs_of(k),
                    },
                ]
            } else {
                Seq::empty()
            },
            None => Seq::empty(),
        }
    }

    /// The bars at and below a node, each before those below it.
    pub open spec fn bars(
        self,
        k: NodeKey,
        path: Seq<usize>,
        visible: bool,
        boxes: Seq<BarBox>,
    ) -> Seq<Bar>
        decreases room(self.parents, k), self.kids(k).len() + 2,
        when self.wf()
    {
        if self.is_parent(k) {
            self.own_bar(k, path, visible, boxes) + self.bars_from(k, path, visible, boxes, 0)
        } else {
            Seq::empty()
        }
    }

    /// The bars below the children of a node from index `i` on. Of a switcher only the shown
    /// child can be seen.
    pub open spec fn bars_from(
        self,
        k: NodeKey,
        path: Seq<usize>,
        visible: bool,
        boxes: Seq<BarBox>,
        i: int,
    ) -> Seq<Bar>
        decreases room(self.parents, k), self.kids(k).len() - i + 1,
        when self.wf()
    {
        proof {
            if 0 <= i < self.kids(k).len() {
                assert(self.parents.contains_key(self.nodes[k].children[i]));
                lemma_depth(self.parents, self.kids(k)[i]);
            }
        }
        if 0 <= i < self.kids(k).len() {
            let seen = visible && (self.nodes[k].layout.is_split() || i == self.shown_index(k));
            self.bars(self.kids(k)[i], path.push(i as usize), seen, boxes) + self.bars_from(
                k,
                path,
                visible,
                boxes,
                i + 1,
            )
        } else {
            Seq::empty()
        }
    }
}

fn is_blank_char(c: char) -> (r: bool)
    ensures
        r == is_blank(c),
{
    let n: u32 = c as u32;
    (9 <= n && n <= 13) || n == 0x20 || n == 0x85 || n == 0xa0 || n == 0x1680 || (0x2000 <= n && n
        <= 0x200a) || n == 0x2028 || n == 0x2029 || n == 0x202f || n == 0x205f || n == 0x3000
}

fn is_all_blank(text: &String) -> (r: bool)
    ensures
        r == all_blank(text@),
{
    let chars = text.as_str();
    let count: usize = chars.unicode_len();
    let mut i: usize = 0;
    while i < count
        invariant
            i <= count,
            chars@ == text@,
            count == text@.len(),
            forall|j: int| 0 <= j < i ==> is_blank(#[trigger] text@[j]),
        decreases count - i,
    {
        let c = chars.get_char(i);
        if !is_blank_char(c) {
            assert(!is_blank(text@[i as int]));
            return false;
        }
        i = i + 1;
    }
    true
}

fn find_bar(boxes: &Vec<BarBox>, key: NodeKey) -> (r: Option<BarBox>)
    ensures
        r == bar_in(boxes@, key),
{
    let mut i: usize = 0;
    assert(boxes@.skip(0) =~= boxes@);
    while i < boxes.len()
        invariant
            i <= boxes@.len(),
            bar_in(boxes@, key) == bar_in(boxes@.skip(i as int), key),
        decreases boxes@.len() - i,
    {
        assert(boxes@.skip(i as int).drop_first() =~= boxes@.skip(i as int + 1));
        if boxes[i].key == key {
            return Some(boxes[i]);
        }
        i = i + 1;
    }
    None
}

impl ContainerArena {
    /// The window a node leads to along active children.
    pub fn focused_window_in_subtree(&self, node_key: NodeKey) -> (r: Option<&Tile>)
        requires
            self.wf(),
        ensures
            r is Some <==> self@.leaf_under(node_key) is Some,
            r matches Some(tile) ==> tile@ == self@.nodes[self@.leaf_under(node_key)->0].tile->0,
    {
        match self.leaf_under_key(node_key) {
            Some(leaf) => self.get_tile(leaf),
            None => None,
        }
    }

    /// What the tab of a node says, and what it is blocked out from.
    pub fn focused_title_and_block_out(&self, node_key: NodeKey) -> (r: (
        String,
        Option<BlockOutFrom>,
    ))
        requires
            self.wf(),
        ensures
            r.0@ == self@.tab_title(node_key),
            r.1 == self@.tab_block_out(node_key),
    {
        if let Some(tile) = self.focused_window_in_subtree(node_key) {
            let title = match &tile.window.title {
                Some(title) => if is_all_blank(title) {
                    "untitled".to_owned()
                } else {
                    title.clone()
                },
                None => "untitled".to_owned(),
            };
            return (title, tile.window.block_out_from);
        }
        ("untitled".to_owned(), None)
    }

    /// Whether some window below a node asks for attention.
    pub fn subtree_has_urgent(&self, node_key: NodeKey) -> (r: bool)
        requires
            self.wf(),
        ensures
            r == self@.urgent_below(node_key),
    {
        let leaves = self.leaf_keys_under(node_key);
        proof {
            crate::walk::lemma_leaves_are_views(self@, node_key);
        }
        let mut i: usize = 0;
        while i < leaves.len()
            invariant
                i <= leaves@.len(),
                leaves@ == self@.leaves(node_key),
                forall|j: int|
                    0 <= j < leaves@.len() ==> self@.is_view(#[trigger] self@.leaves(node_key)[j]),
                forall|j: int|
                    0 <= j < i ==> !self@.nodes[#[trigger] self@.leaves(
                        node_key,
                    )[j]].tile->0.window.urgent,
            decreases leaves@.len() - i,
        {
            assert(self@.is_view(self@.leaves(node_key)[i as int]));
            if let Some(tile) = self.get_tile(leaves[i]) {
                if tile.window.urgent {
                    return true;
                }
            }
            i = i + 1;
        }
        false
    }

    /// The window a click on a tab goes to. A window that has a bar of its own is its only tab.
    pub fn window_for_tab(&self, container_key: NodeKey, tab_idx: usize) -> (r: Option<&Tile>)
        requires
            self.wf(),
        ensures
            r is Some <==> (self@.is_parent(container_key) && tab_idx < self@.kids(
                container_key,
            ).len() && self@.leaf_under(self@.kids(container_key)[tab_idx as int]) is Some) || (
            self@.is_view(container_key) && tab_idx == 0),
            r matches Some(tile) ==> tile@ == if self@.is_parent(container_key) {
                self@.nodes[self@.leaf_under(
                    self@.kids(container_key)[tab_idx as int],
                )->0].tile->0
            } else {
                self@.nodes[container_key].tile->0
            },
    {
        if let Some(container) = self.get_container(container_key) {
            return match container.child_key(tab_idx) {
                Some(child) => self.focused_window_in_subtree(child),
                None => None,
            };
        }
        if tab_idx == 0 {
            return self.get_tile(container_key);
        }
        None
    }

    fn shown_child(&self, key: NodeKey) -> (r: usize)
        requires
            self.wf(),
        ensures
            r == self@.shown_index(key),
    {
        match self.active_child_index(key) {
            Some(idx) => {
                proof {
                    crate::walk::lemma_slot(
                        self@,
                        key,
                        self@.kids(key)[idx as int],
                        idx as int,
                    );
                }
                idx
            },
            None => 0,
        }
    }

    fn tabs_of(&self, key: NodeKey) -> (r: Vec<TabBarTab>)
        requires
            self.wf(),
            self@.is_parent(key),
        ensures
            tabs_state(r@) == self@.tabs_of(key),
    {
        let shown: usize = self.shown_child(key);
        let kids = self.child_keys_of(key);
        let mut tabs: Vec<TabBarTab> = Vec::new();
        let mut i: usize = 0;
        while i < kids.len()
            invariant
                self.wf(),
                i <= kids@.len(),
                kids@ == self@.kids(key),
                shown == self@.shown_index(key),
                tabs@.len() == i,
                forall|j: int| 0 <= j < i ==> #[trigger] tabs@[j]@ == self@.tabs_of(key)[j],
            decreases kids@.len() - i,
        {
            let (title, block_out_from) = self.focused_title_and_block_out(kids[i]);
            tabs.push(
                TabBarTab {
                    title,
                    is_focused: i == shown,
                    is_urgent: self.subtree_has_urgent(kids[i]),
                    block_out_from,
                },
            );
            i = i + 1;
        }
        assert(tabs_state(tabs@) =~= self@.tabs_of(key));
        tabs
    }

    fn collect_tab_bar_layouts(
        &self,
        node_key: NodeKey,
        path: &mut Vec<usize>,
        out: &mut Vec<TabBarInfo>,
        visible: bool,
        boxes: &Vec<BarBox>,
    )
        requires
            self.wf(),
        ensures
            final(path)@ == old(path)@,
            bars_state(final(out)@) == bars_state(old(out)@) + self@.bars(
                node_key,
                old(path)@,
                visible,
                boxes@,
            ),
        decreases room(self@.parents, node_key),
    {
        let ghost start = path@;
        let ghost before = bars_state(out@);
        let (layout, count) = match self.get_container(node_key) {
            Some(container) => (container.layout(), container.child_count()),
            None => {
                assert(before + Seq::<Bar>::empty() =~= before);
                return;
            },
        };
        let ghost own = self@.own_bar(node_key, start, visible, boxes@);
        if visible && !layout.is_split_layout() {
            if let Some(b) = find_bar(boxes, node_key) {
                let info = TabBarInfo {
                    key: node_key,
                    path: copy_path(path),
                    layout,
                    rect: b.rect,
                    row_height: b.row_height,
                    tabs: self.tabs_of(node_key),
                };
                let ghost prior = out@;
                out.push(info);
                assert(bars_state(out@) =~= bars_state(prior).push(info@));
            }
        }
        assert(bars_state(out@) =~= before + own);
        let shown: usize = self.shown_child(node_key);
        let mut i: usize = 0;
        let ghost whole = before + self@.bars(node_key, start, visible, boxes@);
        assert(bars_state(out@) + self@.bars_from(node_key, start, visible, boxes@, 0) =~= whole);
        while i < count
            invariant
                self.wf(),
                i <= count,
                self@.is_parent(node_key),
                count == self@.kids(node_key).len(),
                layout == self@.nodes[node_key].layout,
                shown == self@.shown_index(node_key),
                path@ == start,
                bars_state(out@) + self@.bars_from(node_key, start, visible, boxes@, i as int)
                    == whole,
            decreases count - i,
        {
            let child = match self.get_container(node_key) {
                Some(container) => match container.child_key(i) {
                    Some(child) => child,
                    None => NodeKey { id: 0 },
                },
                None => NodeKey { id: 0 },
            };
            proof {
                crate::walk::lemma_slot(self@, node_key, child, i as int);
                lemma_depth(self@.parents, child);
            }
            let seen = visible && (layout.is_split_layout() || i == shown);
            let ghost sofar = bars_state(out@);
            path.push(i);
            self.collect_tab_bar_layouts(child, path, out, seen, boxes);
            path.pop();
            proof {
                assert(path@ =~= start);
                let here = self@.bars(child, start.push(i), seen, boxes@);
                let rest = self@.bars_from(node_key, start, visible, boxes@, i as int + 1);
                assert(sofar + (here + rest) =~= (sofar + here) + rest);
            }
            i = i + 1;
        }
        assert(bars_state(out@) + Seq::<Bar>::empty() =~= bars_state(out@));
    }

    /// The tab bars inside one branch, addressed from its own root.
    pub fn tab_bar_layouts_in_branch(&self, branch_root: NodeKey, boxes: &Vec<BarBox>) -> (r: Vec<
        TabBarInfo,
    >)
        requires
            self.wf(),
        ensures
            bars_state(r@) == self@.bars(branch_root, Seq::empty(), true, boxes@),
    {
        let mut out: Vec<TabBarInfo> = Vec::new();
        let mut path: Vec<usize> = Vec::new();
        self.collect_tab_bar_layouts(branch_root, &mut path, &mut out, true, boxes);
        assert(bars_state(out@) =~= self@.bars(branch_root, Seq::empty(), true, boxes@));
        out
    }

    /// The tab bars of the tiled side.
    pub fn tab_bar_layouts(&self, boxes: &Vec<BarBox>) -> (r: Vec<TabBarInfo>)
        requires
            self.wf(),
        ensures
            bars_state(r@) == self@.bars(self@.root, Seq::empty(), true, boxes@),
    {
        self.tab_bar_layouts_in_branch(self.workspace_root(), boxes)
    }
}

/// A switcher marks exactly one of its tabs as focused.
pub proof fn law_one_tab_is_focused(t: Tree, k: NodeKey, i: int, j: int)
    requires
        t.wf(),
        0 <= i < t.kids(k).len(),
        0 <= j < t.kids(k).len(),
    ensures
        0 <= t.shown_index(k) < t.kids(k).len(),
        t.tabs_of(k)[t.shown_index(k)].is_focused,
        t.tabs_of(k)[i].is_focused && t.tabs_of(k)[j].is_focused ==> i == j,
{
    if t.active(k) is Some {
        crate::walk::lemma_active_listed(t, k);
    }
}

} // verus!
