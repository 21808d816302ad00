//! What is told of a tree, and where the next window is said to go.

use crate::axis::{Layout, NodeKey};
use crate::paths::lemma_at_path_push;
use crate::project::{lemma_described_from, share_in, Description, Reporting};
use crate::report::{decimal, digit};
use crate::tree::{lemma_depth, lemma_first_of, room, Pick, Tree};
use crate::walk::lemma_slot;
use vstd::prelude::*;

verus! {

// ---------------------------------------------------------------------------------------------
// What is published
// ---------------------------------------------------------------------------------------------

/// What can be said of a window that its containers take over.
pub enum Trait {
    Urgent,
    Sticky,
    Scratchpad,
    Visible,
}

/// Whether a description says so.
pub open spec fn says(d: Description, what: Trait) -> bool {
    match what {
        Trait::Urgent => d.is_urgent,
        Trait::Sticky => d.is_sticky,
        Trait::Scratchpad => d.is_scratchpad,
        Trait::Visible => d.visible,
    }
}

/// Whether a window is so.
pub open spec fn is_so(t: Tree, w: NodeKey, what: Trait) -> bool {
    match what {
        Trait::Urgent => t.nodes[w].tile->0.window.urgent,
        Trait::Sticky => t.nodes[w].tile->0.is_sticky,
        Trait::Scratchpad => t.nodes[w].tile->0.is_scratchpad,
        Trait::Visible => match t.caches.entry(w) {
            Some(info) => info.visible,
            None => true,
        },
    }
}

spec fn some_is_so(t: Tree, keys: Seq<NodeKey>, what: Trait) -> bool {
    exists|n: int| 0 <= n < keys.len() && is_so(t, #[trigger] keys[n], what)
}

proof fn lemma_some_of_both(t: Tree, a: Seq<NodeKey>, b: Seq<NodeKey>, what: Trait)
    ensures
        some_is_so(t, a + b, what) <==> some_is_so(t, a, what) || some_is_so(t, b, what),
{
    let all = a + b;
    if some_is_so(t, a, what) {
        let n = choose|n: int| 0 <= n < a.len() && is_so(t, #[trigger] a[n], what);
        assert(all[n] == a[n]);
    }
    if some_is_so(t, b, what) {
        let n = choose|n: int| 0 <= n < b.len() && is_so(t, #[trigger] b[n], what);
        assert(all[a.len() + n] == b[n]);
    }
    if some_is_so(t, all, what) {
        let n = choose|n: int| 0 <= n < all.len() && is_so(t, #[trigger] all[n], what);
        if n < a.len() {
            assert(a[n] == all[n]);
        } else {
            assert(b[n - a.len()] == all[n]);
        }
    }
}

proof fn lemma_told(
    t: Tree,
    k: NodeKey,
    path: Seq<usize>,
    percent: Option<crate::measure::Real>,
    reporting: Reporting,
    what: Trait,
)
    requires
        t.wf(),
    ensures
        says(t.described(k, path, percent, reporting), what) <==> some_is_so(t, t.leaves(k), what),
    decreases room(t.parents, k), t.kids(k).len() + 2,
{
    if t.is_view(k) {
        assert(t.leaves(k)[0] == k);
    } else if t.is_parent(k) {
        lemma_told_from(t, k, path, reporting, 0, what);
        let children = t.described_from(k, path, reporting, 0);
        if exists|n: int| 0 <= n < children.len() && says(#[trigger] children[n], what) {
            let n = choose|n: int| 0 <= n < children.len() && says(#[trigger] children[n], what);
            match what {
                Trait::Urgent => {
                    assert(children[n].is_urgent);
                },
                Trait::Sticky => {
                    assert(children[n].is_sticky);
                },
                Trait::Scratchpad => {
                    assert(children[n].is_scratchpad);
                },
                Trait::Visible => {
                    assert(children[n].visible);
                },
            }
        }
        if says(t.described(k, path, percent, reporting), what) {
            let n = match what {
                Trait::Urgent => choose|n: int|
                    0 <= n < children.len() && (#[trigger] children[n]).is_urgent,
                Trait::Sticky => choose|n: int|
                    0 <= n < children.len() && (#[trigger] children[n]).is_sticky,
                Trait::Scratchpad => choose|n: int|
                    0 <= n < children.len() && (#[trigger] children[n]).is_scratchpad,
                Trait::Visible => choose|n: int|
                    0 <= n < children.len() && (#[trigger] children[n]).visible,
            };
            assert(says(children[n], what));
        }
    } else {
        assert(t.leaves(k).len() == 0);
    }
}

proof fn lemma_told_from(
    t: Tree,
    k: NodeKey,
    path: Seq<usize>,
    reporting: Reporting,
    i: int,
    what: Trait,
)
    requires
        t.wf(),
        0 <= i,
    ensures
        (exists|n: int|
            0 <= n < t.described_from(k, path, reporting, i).len() && says(
                #[trigger] t.described_from(k, path, reporting, i)[n],
                what,
            )) <==> some_is_so(t, t.leaves_from(k, i), what),
    decreases room(t.parents, k), t.kids(k).len() - i + 1,
{
    let all = t.described_from(k, path, reporting, i);
    if i < t.kids(k).len() {
        let c = t.kids(k)[i];
        lemma_slot(t, k, c, i);
        lemma_depth(t.parents, c);
        let percent = share_in(reporting.shares, c);
        lemma_told(t, c, path.push(i as usize), percent, reporting, what);
        lemma_told_from(t, k, path, reporting, i + 1, what);
        lemma_some_of_both(t, t.leaves(c), t.leaves_from(k, i + 1), what);
        let rest = t.described_from(k, path, reporting, i + 1);
        assert(all[0] == t.described(c, path.push(i as usize), percent, reporting));
        if exists|n: int| 0 <= n < rest.len() && says(#[trigger] rest[n], what) {
            let n = choose|n: int| 0 <= n < rest.len() && says(#[trigger] rest[n], what);
            assert(all[n + 1] == rest[n]);
        }
        if exists|n: int| 0 <= n < all.len() && says(#[trigger] all[n], what) {
            let n = choose|n: int| 0 <= n < all.len() && says(#[trigger] all[n], what);
            if n > 0 {
                assert(rest[n - 1] == all[n]);
            }
        }
    }
}

/// A container is told to be urgent, sticky, on the scratchpad or visible exactly when some window
/// below it is.
pub proof fn law_containers_take_over_from_their_windows(
    t: Tree,
    k: NodeKey,
    path: Seq<usize>,
    percent: Option<crate::measure::Real>,
    reporting: Reporting,
    what: Trait,
)
    requires
        t.wf(),
    ensures
        says(t.described(k, path, percent, reporting), what) <==> exists|n: int|
            0 <= n < t.leaves(k).len() && is_so(t, #[trigger] t.leaves(k)[n], what),
{
    lemma_told(t, k, path, percent, reporting, what);
}

/// A window is told by what it is: its id, title, application and process, its marks, the box of its
/// tile, and whether it is the focused node; a container by its layout and its box.
pub proof fn law_nodes_are_told_as_they_are(
    t: Tree,
    k: NodeKey,
    path: Seq<usize>,
    percent: Option<crate::measure::Real>,
    reporting: Reporting,
)
    requires
        t.wf(),
        t.has(k),
    ensures
        ({
            let d = t.described(k, path, percent, reporting);
            &&& d.path == path
            &&& d.percent == percent
            &&& d.focused <==> reporting.focused == Some(k)
            &&& d.is_floating == reporting.floating
            &&& t.is_view(k) ==> {
                let tile = t.nodes[k].tile->0;
                &&& d.window_id == Some(tile.window.id)
                &&& d.title == tile.window.title
                &&& d.app_id == tile.window.app_id
                &&& d.pid == tile.window.pid
                &&& d.marks == tile.marks
                &&& d.layout is None
                &&& d.children.len() == 0
                &&& t.caches.entry(k) matches Some(info) ==> d.rect == Some(info.rect)
            }
            &&& !t.is_view(k) ==> {
                &&& d.window_id is None
                &&& d.layout == Some(t.nodes[k].layout)
                &&& d.rect == Some(t.nodes[k].geometry)
                &&& d.children.len() == t.nodes[k].children.len()
            }
        }),
{
    if !t.is_view(k) {
        lemma_described_from(t, k, path, reporting, 0);
    }
}

/// Groups are told from the bottom of the stack up: the lowest comes first.
pub proof fn law_groups_are_told_from_the_bottom(
    t: Tree,
    i: int,
    shares: Seq<(NodeKey, crate::measure::Real)>,
)
    requires
        t.wf(),
        0 <= i < t.floating.len() <= usize::MAX,
    ensures
        t.published_group(i, shares).path.len() == 1,
        t.published_group(i, shares).path[0] + i + 1 == t.floating.len(),
        t.published_group(i, shares).is_floating,
        t.is_view(t.floating[i].key) ==> t.published_group(i, shares).window_id == Some(
            t.nodes[t.floating[i].key].tile->0.window.id,
        ),
        t.published_group(i, shares).focused <==> t.selected_node() == Some(t.floating[i].key),
{
    let root = t.floating[i].key;
    assert(t.under(root, root));
    assert(t.parents.contains_key(t.floating[i].key));
    assert(t.has(root));
}

// ---------------------------------------------------------------------------------------------
// Where the next window goes
// ---------------------------------------------------------------------------------------------

proof fn lemma_preview_steps(t: Tree, k: NodeKey, path: Seq<usize>, x: NodeKey)
    requires
        t.wf(),
        t.at_path(k, path) == Some(x),
        t.is_parent(x),
    ensures
        t.preview_steps(k, path) matches Some((_, end)) && end == x,
    decreases path.len(),
{
    if path.len() > 0 {
        let c = t.kids(k)[path[0] as int];
        let rest = path.drop_first();
        assert(t.at_path(c, rest) == Some(x));
        if t.is_view(c) {
            assert(t.kids(c).len() == 0);
            assert(rest.len() == 0);
            assert(x == c);
        }
        lemma_preview_steps(t, c, rest, x);
    }
}

/// The next window is said to go right after the selection, or the focused window if nothing is
/// selected: at that place of that list, laid out as it is.
pub proof fn law_preview_is_after_the_focus(
    arena: crate::arena::ContainerArena,
    k: NodeKey,
    p: NodeKey,
    i: int,
)
    requires
        arena.wf(),
        arena@.sits(k, p, i),
        arena@.branch(k) == arena@.root,
        arena@.leaf_under(arena@.root) is Some,
        arena@.seat.selected == Some(k) || arena@.seat.selected is None && arena@.seat.leaf == Some(
            k,
        ),
        arena@.nodes[p].children.len() < usize::MAX,
    ensures
        arena@.preview() matches Some(preview) && preview.parent == p && preview.insert_idx == i + 1
            && preview.layout == arena@.nodes[p].layout && preview.child_count
            == arena@.nodes[p].children.len(),
{
    let t = arena@;
    crate::arena::law_child_lists_fit(arena);
    assert(t.is_parent(p));
    lemma_slot(t, p, k, i);
    crate::swap::lemma_listed_not_floating(t, k);
    crate::tree::lemma_branch_step(t, k);
    crate::tree::lemma_branch(t, p);
    assert(t.branch(p) == t.root);
    crate::paths::law_address_leads_back(t, p);
    let kids = t.nodes[p].children;
    assert(kids.no_duplicates());
    assert(kids.index_of(k) == i) by {
        assert(kids[kids.index_of(k)] == kids[i]);
    }
    let path = t.address(k);
    assert(path == t.address(p).push(i as usize));
    assert(path.drop_last() =~= t.address(p));
    assert(t.selected_address() == path);
    lemma_preview_steps(t, t.root, t.address(p), p);
}

// ---------------------------------------------------------------------------------------------
// Columns
// ---------------------------------------------------------------------------------------------

/// A column that is moved is at the place asked for; the others keep their order.
pub proof fn law_moved_column_is_in_place(t: Tree, from: int, to: int, n: int)
    requires
        0 <= from < t.nodes[t.root].children.len(),
        0 <= to < t.nodes[t.root].children.len(),
        0 <= n < t.nodes[t.root].children.len() - 1,
    ensures
        ({
            let (a, b) = (t.nodes[t.root].children, t.column_moved(from, to).nodes[t.root].children);
            &&& b.len() == a.len()
            &&& b[to] == a[from]
            &&& b.remove(to)[n] == a.remove(from)[n]
        }),
{
}

/// The column a node is in is the child of the workspace that is above it.
pub proof fn law_column_of_a_node(t: Tree, k: NodeKey)
    requires
        t.wf(),
        t.column_of(k) is Some,
    ensures
        ({
            let i = t.column_of(k)->0;
            &&& 0 <= i < t.nodes[t.root].children.len()
            &&& t.under(k, t.nodes[t.root].children[i])
        }),
    decreases crate::tree::depth(t.parents, k),
{
    lemma_depth(t.parents, k);
    assert(t.under(k, k));
    if t.parents[k] == t.root {
        let kids = t.kids(t.root);
        let w = choose|w: int| 0 <= w < kids.len() && kids[w] == k;
        lemma_slot(t, t.root, k, w);
    } else {
        law_column_of_a_node(t, t.parents[k]);
    }
}

/// Every node below a column is in it.
pub proof fn law_nodes_below_a_column_are_in_it(t: Tree, k: NodeKey, i: int)
    requires
        t.wf(),
        0 <= i < t.nodes[t.root].children.len(),
        t.under(k, t.nodes[t.root].children[i]),
    ensures
        t.column_of(k) == Some(i),
    decreases crate::tree::depth(t.parents, k),
{
    let c = t.nodes[t.root].children[i];
    assert(t.is_parent(t.root));
    lemma_slot(t, t.root, c, i);
    if k != c {
        lemma_depth(t.parents, k);
        law_nodes_below_a_column_are_in_it(t, t.parents[k], i);
        if t.parents[k] == t.root {
            crate::tree::lemma_under_depth(t.parents, t.root, c);
            lemma_depth(t.parents, c);
        }
    }
}

// ---------------------------------------------------------------------------------------------
// Text
// ---------------------------------------------------------------------------------------------

/// The number a text of digits stands for.
pub open spec fn reads(text: Seq<char>) -> nat
    decreases text.len(),
{
    if text.len() == 0 {
        0
    } else {
        let c = text.last() as u32;
        reads(text.drop_last()) * 10 + if 48 <= c <= 57 {
            (c - 48) as nat
        } else {
            0
        }
    }
}

proof fn lemma_digit(n: nat)
    requires
        n < 10,
    ensures
        digit(n).len() == 1,
        digit(n)[0] as u32 == 48 + n,
{
    reveal_strlit("0");
    reveal_strlit("1");
    reveal_strlit("2");
    reveal_strlit("3");
    reveal_strlit("4");
    reveal_strlit("5");
    reveal_strlit("6");
    reveal_strlit("7");
    reveal_strlit("8");
    reveal_strlit("9");
}

/// A number written in decimal reads as that number.
pub proof fn law_decimal_reads_back(n: nat)
    ensures
        reads(decimal(n)) == n,
        decimal(n).len() > 0,
    decreases n,
{
    if n < 10 {
        lemma_digit(n);
        assert(digit(n).drop_last() =~= Seq::empty());
        assert(reads(Seq::<char>::empty()) == 0);
    } else {
        law_decimal_reads_back(n / 10);
        lemma_digit(n % 10);
        let text = decimal(n / 10) + digit(n % 10);
        assert(text.drop_last() =~= decimal(n / 10));
        assert(text.last() == digit(n % 10)[0]);
    }
}

// ---------------------------------------------------------------------------------------------
// Marks
// ---------------------------------------------------------------------------------------------

/// Of the nodes with a mark the one found was focused last.
pub proof fn law_marked_node_found_is_the_most_recent(
    t: Tree,
    keys: Seq<NodeKey>,
    mark: Seq<char>,
    n: int,
)
    requires
        0 <= n < keys.len(),
        t.has_mark(keys[n], mark),
    ensures
        exists|m: int|
            0 <= m <= n && t.first_marked(keys, mark) == Some(#[trigger] keys[m]) && t.has_mark(
                keys[m],
                mark,
            ),
    decreases keys.len(),
{
    if t.has_mark(keys[0], mark) {
        assert(t.first_marked(keys, mark) == Some(keys[0]));
    } else {
        let rest = keys.drop_first();
        assert(rest[n - 1] == keys[n]);
        law_marked_node_found_is_the_most_recent(t, rest, mark, n - 1);
        let m = choose|m: int|
            0 <= m <= n - 1 && t.first_marked(rest, mark) == Some(#[trigger] rest[m])
                && t.has_mark(rest[m], mark);
        assert(keys[m + 1] == rest[m]);
    }
}

/// A mark that is added is on the node once more than before at most, and no other mark is added or
/// lost.
pub proof fn law_adding_a_mark_adds_that_mark(
    marks: Seq<Seq<char>>,
    mark: Seq<char>,
    other: Seq<char>,
)
    ensures
        crate::marks::marked(marks, mark).contains(mark),
        other != mark ==> (crate::marks::marked(marks, mark).contains(other) <==> marks.contains(
            other,
        )),
        marks.no_duplicates() ==> crate::marks::marked(marks, mark).no_duplicates(),
{
    if !marks.contains(mark) {
        let all = marks.push(mark);
        assert(all[marks.len() as int] == mark);
        if marks.contains(other) {
            let j = choose|j: int| 0 <= j < marks.len() && marks[j] == other;
            assert(all[j] == other);
        }
        if all.contains(other) && other != mark {
            let j = choose|j: int| 0 <= j < all.len() && all[j] == other;
            assert(marks[j] == other);
        }
        if marks.no_duplicates() {
            assert forall|a: int, b: int|
                0 <= a < all.len() && 0 <= b < all.len() && a != b implies all[a] != all[b] by {
                if a == marks.len() {
                    assert(marks[b] != mark);
                } else if b == marks.len() {
                    assert(marks[a] != mark);
                }
            }
        }
    }
}

} // verus!
