//! What the tab bars say and show.

use crate::axis::{Layout, NodeKey};
use crate::tabs::{all_blank, bar_in, is_blank, BarBox};
use crate::tree::{depth, lemma_depth, lemma_first_of, room, Pick, Tree};
use crate::walk::{law_leaves_are_the_windows_below, lemma_slot};
use vstd::prelude::*;

verus! {

/// Blanks, tabs and line ends are white space; no character of printable ASCII is, nor any letter
/// of Latin, Greek, Cyrillic, Hebrew, Arabic or the ideographs.
pub proof fn law_white_space(c: char)
    ensures
        c == ' ' || c == '\t' || c == '\n' || c == '\r' ==> is_blank(c),
        0x21 <= c as u32 <= 0x7e ==> !is_blank(c),
        0xa1 <= c as u32 <= 0x167f ==> !is_blank(c),
        0x3001 <= c as u32 ==> !is_blank(c),
        (c as u32) < 9 ==> !is_blank(c),
{
}

/// A tab says the title of the window it leads to, letter for letter, if that has any character
/// that is not white space.
pub proof fn law_tab_says_the_title(t: Tree, k: NodeKey, title: Seq<char>, i: int)
    requires
        t.leaf_under(k) is Some,
        t.nodes[t.leaf_under(k)->0].tile->0.window.title == Some(title),
        0 <= i < title.len(),
        !is_blank(title[i]),
    ensures
        t.tab_title(k) == title,
{
}

/// A tab that leads to no title worth the name says that it is untitled.
pub proof fn law_tab_without_a_title(t: Tree, k: NodeKey)
    requires
        match t.leaf_under(k) {
            Some(leaf) => match t.nodes[leaf].tile->0.window.title {
                Some(title) => forall|i: int| 0 <= i < title.len() ==> is_blank(#[trigger] title[i]),
                None => true,
            },
            None => true,
        },
    ensures
        t.tab_title(k) == "untitled"@,
{
}

/// What a tab says is never white space alone.
pub proof fn law_tab_says_something(t: Tree, k: NodeKey)
    ensures
        exists|i: int| 0 <= i < t.tab_title(k).len() && !is_blank(#[trigger] t.tab_title(k)[i]),
{
    reveal_strlit("untitled");
    let said = t.tab_title(k);
    if said == "untitled"@ {
        assert(said[0] == 'u');
    } else {
        assert(!all_blank(said));
    }
}

/// Each child of a container has its tab, in the order of the children: the tab is urgent exactly
/// when some window below the child is, and is blocked out as the window it leads to.
pub proof fn law_a_tab_for_each_child(t: Tree, k: NodeKey, i: int)
    requires
        t.wf(),
        t.is_parent(k),
        0 <= i < t.nodes[k].children.len(),
    ensures
        t.tabs_of(k).len() == t.nodes[k].children.len(),
        t.tabs_of(k)[i].title == t.tab_title(t.nodes[k].children[i]),
        t.tabs_of(k)[i].is_urgent <==> exists|w: NodeKey|
            t.is_view(w) && #[trigger] t.under(w, t.nodes[k].children[i])
                && t.nodes[w].tile->0.window.urgent,
        t.leaf_under(t.nodes[k].children[i]) matches Some(w) ==> t.tabs_of(k)[i].block_out_from
            == t.nodes[w].tile->0.window.block_out_from,
{
    let c = t.nodes[k].children[i];
    lemma_slot(t, k, c, i);
    let leaves = t.leaves(c);
    if t.urgent_below(c) {
        let j = choose|j: int|
            0 <= j < leaves.len() && t.nodes[#[trigger] leaves[j]].tile->0.window.urgent;
        assert(leaves.contains(leaves[j]));
        law_leaves_are_the_windows_below(t, c, leaves[j]);
    }
    assert forall|w: NodeKey|
        t.is_view(w) && #[trigger] t.under(w, c) && t.nodes[w].tile->0.window.urgent implies t.urgent_below(
        c,
    ) by {
        law_leaves_are_the_windows_below(t, c, w);
        let j = choose|j: int| 0 <= j < leaves.len() && leaves[j] == w;
        assert(t.nodes[leaves[j]].tile->0.window.urgent);
    }
}

/// The tab shown as focused is that of the child most recently focused.
pub proof fn law_focused_tab_is_the_most_recent(t: Tree, k: NodeKey, i: int, j: int, a: int, b: int)
    requires
        t.wf(),
        t.is_parent(k),
        0 <= i < t.nodes[k].children.len(),
        0 <= j < t.nodes[k].children.len(),
        t.tabs_of(k)[i].is_focused,
        0 <= a < t.seat.order.len(),
        0 <= b < t.seat.order.len(),
        t.seat.order[a] == t.nodes[k].children[i],
        t.seat.order[b] == t.nodes[k].children[j],
    ensures
        a <= b,
{
    let kids = t.kids(k);
    let pick = Pick::ChildOf(k);
    lemma_first_of(t, t.seat.order, pick);
    lemma_slot(t, k, kids[i], i);
    lemma_slot(t, k, kids[j], j);
    lemma_listed_in_branch(t, k, kids[i]);
    lemma_listed_in_branch(t, k, kids[j]);
    assert(t.meets(pick, t.seat.order[a]));
    assert(t.meets(pick, t.seat.order[b]));
    let c = t.recent(pick)->0;
    let n = choose|n: int|
        0 <= n < t.seat.order.len() && t.seat.order[n] == c && forall|m: int|
            0 <= m < n ==> !t.meets(pick, #[trigger] t.seat.order[m]);
    assert(t.active(k) == Some(c));
    crate::walk::lemma_active_listed(t, k);
    assert(kids[i] == c) by {
        assert(kids.contains(c));
        let w = choose|w: int| 0 <= w < kids.len() && kids[w] == c;
        lemma_slot(t, k, c, w);
    }
    assert(a == n) by {
        assert(t.seat.order[a] == t.seat.order[n]);
        assert(t.seat.order.no_duplicates());
    }
}

/// A listed child of the workspace is on the tiled side.
pub(crate) proof fn lemma_listed_in_branch(t: Tree, k: NodeKey, c: NodeKey)
    requires
        t.wf(),
        t.kids(k).contains(c),
        t.parents.contains_key(c),
        t.parents[c] == k,
    ensures
        k != t.root || t.branch(c) == t.root,
{
    crate::tree::lemma_branch_step(t, c);
    if k == t.root && t.is_floating(c) {
        let i = choose|i: int| 0 <= i < t.floating.len() && #[trigger] t.floating[i].key == c;
        assert(!t.nodes[t.root].children.contains(t.floating[i].key));
    }
}

/// Whatever has a bar is tabbed or stacked, is below the node asked about at the path the bar
/// gives, and has the box that was measured for it and a tab for each child.
pub proof fn law_bars_belong_to_switchers(
    t: Tree,
    k: NodeKey,
    visible: bool,
    boxes: Seq<BarBox>,
    n: int,
)
    requires
        t.wf(),
        0 <= n < t.bars(k, Seq::empty(), visible, boxes).len(),
    ensures
        ({
            let bar = t.bars(k, Seq::empty(), visible, boxes)[n];
            &&& visible
            &&& t.is_parent(bar.key)
            &&& t.under(bar.key, k)
            &&& bar.layout == t.nodes[bar.key].layout
            &&& bar.layout == Layout::Tabbed || bar.layout == Layout::Stacked
            &&& bar_in(boxes, bar.key) matches Some(b) && bar.rect == b.rect && bar.row_height
                == b.row_height
            &&& bar.tabs == t.tabs_of(bar.key)
        }),
{
    lemma_bars(t, k, Seq::empty(), visible, boxes, n);
}

proof fn lemma_bars(
    t: Tree,
    k: NodeKey,
    path: Seq<usize>,
    visible: bool,
    boxes: Seq<BarBox>,
    n: int,
)
    requires
        t.wf(),
        0 <= n < t.bars(k, path, visible, boxes).len(),
    ensures
        ({
            let bar = t.bars(k, path, visible, boxes)[n];
            &&& visible
            &&& t.is_parent(bar.key)
            &&& t.under(bar.key, k)
            &&& bar.layout == t.nodes[bar.key].layout
            &&& bar.layout == Layout::Tabbed || bar.layout == Layout::Stacked
            &&& bar_in(boxes, bar.key) matches Some(b) && bar.rect == b.rect && bar.row_height
                == b.row_height
            &&& bar.tabs == t.tabs_of(bar.key)
        }),
    decreases room(t.parents, k), t.kids(k).len() + 2,
{
    let own = t.own_bar(k, path, visible, boxes);
    assert(t.under(k, k));
    if n >= own.len() {
        lemma_bars_from(t, k, path, visible, boxes, 0, n - own.len());
    }
}

proof fn lemma_bars_from(
    t: Tree,
    k: NodeKey,
    path: Seq<usize>,
    visible: bool,
    boxes: Seq<BarBox>,
    i: int,
    n: int,
)
    requires
        t.wf(),
        0 <= i,
        0 <= n < t.bars_from(k, path, visible, boxes, i).len(),
    ensures
        ({
            let bar = t.bars_from(k, path, visible, boxes, i)[n];
            &&& visible
            &&& t.is_parent(bar.key)
            &&& t.under(bar.key, k)
            &&& bar.layout == t.nodes[bar.key].layout
            &&& bar.layout == Layout::Tabbed || bar.layout == Layout::Stacked
            &&& bar_in(boxes, bar.key) matches Some(b) && bar.rect == b.rect && bar.row_height
                == b.row_height
            &&& bar.tabs == t.tabs_of(bar.key)
        }),
    decreases room(t.parents, k), t.kids(k).len() - i + 1,
{
    let c = t.kids(k)[i];
    lemma_slot(t, k, c, i);
    lemma_depth(t.parents, c);
    let seen = visible && (t.nodes[k].layout.is_split() || i == t.shown_index(k));
    let first = t.bars(c, path.push(i as usize), seen, boxes);
    if n < first.len() {
        lemma_bars(t, c, path.push(i as usize), seen, boxes, n);
        assert(t.under(c, k)) by {
            assert(t.under(k, k));
        }
        crate::tree::lemma_under_trans(t.parents, first[n].key, c, k);
    } else {
        lemma_bars_from(t, k, path, visible, boxes, i + 1, n - first.len());
    }
}

} // verus!
