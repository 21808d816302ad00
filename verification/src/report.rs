//! Diagnostic descriptions of the tree and of the state of its layout.

use crate::arena::ContainerArena;
use crate::axis::{Layout, NodeKey};
use crate::cache::{leaves_state, pending_state, LeafInfo};
use crate::tree::{lemma_depth, room, Tree};
use vstd::prelude::*;
use vstd::string::*;

verus! {

/// The state of the layout in numbers.
#[derive(Debug)]
pub struct LayoutSummary {
    /// Windows on the tiled side.
    pub window_count: usize,
    /// Cached entries.
    pub leaf_count: usize,
    /// Entries of each arrange that waits for its windows.
    pub pending_leaf_counts: Vec<usize>,
    /// Cached entries whose box is empty.
    pub zero_size: usize,
}

/// How many of the boxes are empty.
pub open spec fn empty_boxes(leaves: Seq<LeafInfo>) -> nat
    decreases leaves.len(),
{
    if leaves.len() == 0 {
        0
    } else {
        let last = leaves.last();
        let rest = empty_boxes(leaves.drop_last());
        if last.rect.size.w.at_most_zero() || last.rect.size.h.at_most_zero() {
            rest + 1
        } else {
            rest
        }
    }
}

/// The decimal digit of a number below ten.
pub open spec fn digit(n: nat) -> Seq<char> {
    if n == 0 {
        "0"@
    } else if n == 1 {
        "1"@
    } else if n == 2 {
        "2"@
    } else if n == 3 {
        "3"@
    } else if n == 4 {
        "4"@
    } else if n == 5 {
        "5"@
    } else if n == 6 {
        "6"@
    } else if n == 7 {
        "7"@
    } else if n == 8 {
        "8"@
    } else {
        "9"@
    }
}

/// A number in decimal.
pub open spec fn decimal(n: nat) -> Seq<char>
    decreases n,
{
    if n < 10 {
        digit(n)
    } else {
        decimal(n / 10) + digit(n % 10)
    }
}

/// Two spaces for each level.
pub open spec fn indent(depth: nat) -> Seq<char>
    decreases depth,
{
    if depth == 0 {
        Seq::empty()
    } else {
        indent((depth - 1) as nat) + "  "@
    }
}

impl Layout {
    pub open spec fn label(self) -> Seq<char> {
        match self {
            Layout::SplitH => "SplitH"@,
            Layout::SplitV => "SplitV"@,
            Layout::Tabbed => "Tabbed"@,
            Layout::Stacked => "Stacked"@,
        }
    }
}

/// The name of a layout.
pub fn layout_label(layout: Layout) -> (r: &'static str)
    ensures
        r@ == layout.label(),
{
    match layout {
        Layout::SplitH => "SplitH",
        Layout::SplitV => "SplitV",
        Layout::Tabbed => "Tabbed",
        Layout::Stacked => "Stacked",
    }
}

impl Tree {
    /// A node and everything below it, a line each, indented by depth; the focused window is
    /// starred.
    pub open spec fn text_of(self, k: NodeKey, depth: nat) -> Seq<char>
        decreases room(self.parents, k), self.kids(k).len() + 2,
        when self.wf()
    {
        if self.is_view(k) {
            indent(depth) + "Window "@ + decimal(self.nodes[k].tile->0.window.id as nat) + (
            if self.effective_focus() == Some(k) {
                " *"@
            } else {
                ""@
            }) + "\n"@
        } else if self.is_parent(k) {
            indent(depth) + self.nodes[k].layout.label() + "\n"@ + self.text_from(k, depth, 0)
        } else {
            indent(depth) + "(missing)"@ + "\n"@
        }
    }

    /// The lines of the children from index `i` on.
    pub open spec fn text_from(self, k: NodeKey, depth: nat, i: int) -> Seq<char>
        decreases room(self.parents, k), self.kids(k).len() - i + 1,
        when self.wf()
    {
        proof {
            if 0 <= i < self.kids(k).len() {
                assert(self.parents.contains_key(self.nodes[k].children[i]));
                lemma_depth(self.parents, self.kids(k)[i]);
            }
        }
        if 0 <= i < self.kids(k).len() {
            self.text_of(self.kids(k)[i], depth + 1) + self.text_from(k, depth, i + 1)
        } else {
            Seq::empty()
        }
    }
}

fn push_decimal(out: &mut String, n: u64)
    ensures
        final(out)@ == old(out)@ + decimal(n as nat),
    decreases n,
{
    let ghost before = out@;
    if n >= 10 {
        push_decimal(out, n / 10);
    }
    let last: u64 = n % 10;
    let text = if last == 0 {
        "0"
    } else if last == 1 {
        "1"
    } else if last == 2 {
        "2"
    } else if last == 3 {
        "3"
    } else if last == 4 {
        "4"
    } else if last == 5 {
        "5"
    } else if last == 6 {
        "6"
    } else if last == 7 {
        "7"
    } else if last == 8 {
        "8"
    } else {
        "9"
    };
    assert(text@ == digit((n as nat) % 10));
    let ghost mid = out@;
    out.append(text);
    proof {
        if n >= 10 {
            assert(before + (decimal(n as nat / 10) + text@) =~= (before + decimal(n as nat / 10))
                + text@);
        }
    }
}

impl ContainerArena {
    /// The state of the layout in numbers.
    pub fn debug_layout_state(&self) -> (r: LayoutSummary)
        requires
            self.wf(),
        ensures
            r.window_count == self@.leaves(self@.root).len(),
            r.leaf_count == self@.caches.leaves.len(),
            r.pending_leaf_counts@.len() == self@.caches.pending.len(),
            forall|i: int|
                0 <= i < self@.caches.pending.len() ==> #[trigger] r.pending_leaf_counts@[i]
                    == self@.caches.pending[i].data.leaves.len(),
            r.zero_size == empty_boxes(self@.caches.leaves),
    {
        let leaves = &self.cache().leaf_layouts;
        let pending = &self.cache().pending_layouts;
        let ghost all = leaves_state(leaves@);
        let ghost held = pending_state(pending@);
        let mut zero_size: usize = 0;
        let mut i: usize = 0;
        assert(all.take(0) =~= Seq::empty());
        while i < leaves.len()
            invariant
                i <= leaves@.len(),
                all == leaves_state(leaves@),
                zero_size == empty_boxes(all.take(i as int)),
                zero_size <= i,
            decreases leaves@.len() - i,
        {
            proof {
                assert(all.take(i as int + 1).drop_last() =~= all.take(i as int));
                assert(all.take(i as int + 1).last() == leaves@[i as int]@);
            }
            let size = leaves[i].rect.size;
            if size.w.is_at_most_zero() || size.h.is_at_most_zero() {
                zero_size = zero_size + 1;
            }
            i = i + 1;
        }
        assert(all.take(i as int) =~= all);
        let mut counts: Vec<usize> = Vec::new();
        let mut j: usize = 0;
        while j < pending.len()
            invariant
                j <= pending@.len(),
                held == pending_state(pending@),
                counts@.len() == j,
                forall|n: int| 0 <= n < j ==> #[trigger] counts@[n] == held[n].data.leaves.len(),
            decreases pending@.len() - j,
        {
            assert(held[j as int] == pending@[j as int]@);
            counts.push(pending[j].data.leaf_layouts.len());
            j = j + 1;
        }
        LayoutSummary {
            window_count: self.window_count(),
            leaf_count: leaves.len(),
            pending_leaf_counts: counts,
            zero_size,
        }
    }

    fn debug_tree_node(&self, node_key: NodeKey, indent_by: &String, out: &mut String, Ghost(
        depth,
    ): Ghost<nat>)
        requires
            self.wf(),
            indent_by@ == indent(depth),
        ensures
            final(out)@ == old(out)@ + self@.text_of(node_key, depth),
        decreases room(self@.parents, node_key),
    {
        let ghost before = out@;
        out.append(indent_by.as_str());
        if let Some(tile) = self.get_tile(node_key) {
            out.append("Window ");
            push_decimal(out, tile.window.id);
            if self.effective_focused_key() == Some(node_key) {
                out.append(" *");
            } else {
                out.append("");
            }
            out.append("\n");
            assert(out@ =~= before + self@.text_of(node_key, depth));
            return;
        }
        let (layout, count) = match self.get_container(node_key) {
            Some(container) => (container.layout(), container.child_count()),
            None => {
                out.append("(missing)");
                out.append("\n");
                assert(out@ =~= before + self@.text_of(node_key, depth));
                return;
            },
        };
        out.append(layout_label(layout));
        out.append("\n");
        let mut deeper = indent_by.clone();
        deeper.append("  ");
        let mut i: usize = 0;
        let ghost whole = before + self@.text_of(node_key, depth);
        assert(out@ + self@.text_from(node_key, depth, 0) =~= whole);
        while i < count
            invariant
                self.wf(),
                i <= count,
                count == self@.kids(node_key).len(),
                deeper@ == indent(depth + 1),
                out@ + self@.text_from(node_key, depth, i as int) == whole,
            decreases count - i,
        {
            let child = match self.get_container(node_key) {
                Some(container) => match container.child_key(i) {
                    Some(child) => child,
                    None => NodeKey { id: 0 },
                },
                None => NodeKey { id: 0 },
            };
            proof {
                crate::walk::lemma_slot(self@, node_key, child, i as int);
                lemma_depth(self@.parents, child);
            }
            let ghost sofar = out@;
            self.debug_tree_node(child, &deeper, out, Ghost(depth + 1));
            proof {
                let here = self@.text_of(child, depth + 1);
                let rest = self@.text_from(node_key, depth, i as int + 1);
                assert(sofar + (here + rest) =~= (sofar + here) + rest);
            }
            i = i + 1;
        }
        assert(out@ + Seq::<char>::empty() =~= out@);
    }

    /// One branch in lines of text.
    pub fn debug_branch(&self, branch_root: NodeKey) -> (r: String)
        requires
            self.wf(),
        ensures
            r@ == self@.text_of(branch_root, 0),
    {
        let mut out = String::new();
        let none = String::new();
        self.debug_tree_node(branch_root, &none, &mut out, Ghost(0));
        assert(out@ =~= self@.text_of(branch_root, 0));
        out
    }

    /// The tiled side in lines of text.
    pub fn debug_tree(&self) -> (r: String)
        requires
            self.wf(),
        ensures
            r@ == self@.text_of(self@.root, 0),
    {
        self.debug_branch(self.workspace_root())
    }
}

} // verus!
