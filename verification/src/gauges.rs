//! The small reckonings: limits, doubles, shares, rings, drags and what can be seen.

use crate::axis::{Layout, NodeKey, ResizeReach};
use crate::fitting::{within_limits, within_limits_or_free, MIN_FLOATING_HEIGHT, MIN_FLOATING_WIDTH};
use crate::fractions::{payers, places_but};
use crate::grab::{Drag, FrameDelta, GestureState, GestureStep};
use crate::invariants::deviation_in;
use crate::measure::{nearest_multiple, IntSize, Point, Real};
use crate::ring::{
    selection_config, BorderConfig, FocusRingConfig, FocusRingEdges, FocusRingIndicatorEdge,
    FocusRingState, Ring,
};
use crate::tile::{SizingMode, TileRequest, TileState, WindowState};
use crate::tree::{depth, lemma_depth, lemma_first_of, lemma_under_depth, lemma_under_trans, Pick, Tree};
use vstd::prelude::*;

verus! {

// ---------------------------------------------------------------------------------------------
// Limits
// ---------------------------------------------------------------------------------------------

/// A length is kept within limits that are set: not below the lower, not above the upper unless the
/// lower demands it, and as it is when it is within them.
pub proof fn law_limits_hold(x: i32, min: i32, max: i32)
    ensures
        ({
            let r = within_limits(x, min, max);
            &&& min > 0 ==> r >= min
            &&& max > 0 && min <= max ==> r <= max
            &&& (min <= 0 || x >= min) && (max <= 0 || x <= max) ==> r == x
            &&& min > 0 && x < min ==> r == min
            &&& max > 0 && x > max && min <= max ==> r == max
            &&& max > 0 && min > max ==> r == if x > max || x < min {
                min
            } else {
                x
            }
        }),
        x != 0 ==> within_limits_or_free(x, min, max) == within_limits(x, min, max),
        !(min > 0 && min == max) ==> within_limits_or_free(0, min, max) == 0,
        min > 0 ==> within_limits_or_free(0, min, min) == min,
{
}

/// A floating window without limits of its own is no smaller than the smallest and no larger than
/// the output, and as asked in between.
pub proof fn law_free_floating_size(w: WindowState, size: IntSize, output: IntSize)
    requires
        w.min_size.w <= 0,
        w.min_size.h <= 0,
        w.max_size.w <= 0,
        w.max_size.h <= 0,
        output.w >= MIN_FLOATING_WIDTH,
        output.h >= MIN_FLOATING_HEIGHT,
    ensures
        ({
            let r = w.constrained(size, output);
            &&& MIN_FLOATING_WIDTH <= r.w <= output.w
            &&& MIN_FLOATING_HEIGHT <= r.h <= output.h
            &&& MIN_FLOATING_WIDTH <= size.w <= output.w ==> r.w == size.w
            &&& MIN_FLOATING_HEIGHT <= size.h <= output.h ==> r.h == size.h
        }),
{
}

/// The size a window of normal size has, or is about to have, is the one it is asked for when it
/// floats again, within its limits.
pub proof fn law_floating_size_comes_back(tile: TileState)
    requires
        tile.window.sizing_mode is Normal,
        tile.window.min_size == (IntSize { w: 0, h: 0 }),
        tile.window.max_size == (IntSize { w: 0, h: 0 }),
    ensures
        tile.size_stored().floating_asked().request == Some(
            TileRequest::WindowSize {
                size: match tile.window.expected_size {
                    Some(size) => size,
                    None => tile.window.size,
                },
                animate: !tile.is_scratchpad,
            },
        ),
        tile.size_stored().floating_asked().window.sizing_mode is Normal,
{
}

/// A window that is not of normal size keeps the floating size it had.
pub proof fn law_fullscreen_keeps_the_floating_size(
    tile: TileState,
    restore: Option<IntSize>,
    output: IntSize,
)
    requires
        !(tile.window.sizing_mode is Normal),
        tile.floating_window_size is Some,
    ensures
        tile.size_stored() == tile,
        tile.kept_fullscreen(restore, output) == tile,
{
}

/// A fullscreen window that never floated comes back to the size it is to be restored to, else to
/// its natural one, as any floating window would have it.
pub proof fn law_fullscreen_floats_to_its_restored_size(
    tile: TileState,
    restore: IntSize,
    output: IntSize,
)
    requires
        tile.floating_window_size is None,
    ensures
        tile.kept_fullscreen(Some(restore), output).floating_window_size == Some(
            tile.window.constrained(restore, output),
        ),
        tile.window.natural_size.w > 0 && tile.window.natural_size.h > 0 ==> tile.kept_fullscreen(
            None,
            output,
        ).floating_window_size == Some(tile.window.constrained(tile.window.natural_size, output)),
        tile.kept_fullscreen(Some(restore), output).window == tile.window,
{
}

// ---------------------------------------------------------------------------------------------
// Doubles
// ---------------------------------------------------------------------------------------------

/// Of two numbers exactly one is less, or they are the same; what is no number is neither.
pub proof fn law_doubles_are_ordered(a: Real, b: Real, c: Real)
    ensures
        !a.is_nan() && !b.is_nan() ==> a.less(b) || b.less(a) || a.same(b),
        a.less(b) ==> !b.less(a) && !a.same(b),
        a.less(b) && b.less(c) ==> a.less(c),
        a.same(b) && b.less(c) ==> a.less(c),
        a.is_nan() ==> !a.less(b) && !b.less(a) && !a.same(b),
        a.positive() <==> Real::spec_zero().less(a),
        a.at_most_zero() <==> a.less(Real::spec_zero()) || a.same(Real::spec_zero()),
        a.at_least_zero() <==> Real::spec_zero().less(a) || a.same(Real::spec_zero()),
{
}

/// Positive doubles are ordered as their bit patterns, negative ones the other way round, and every
/// negative one is less than every positive one.
pub proof fn law_doubles_by_bits(a: Real, b: Real)
    requires
        !a.is_nan(),
        !b.is_nan(),
    ensures
        a.bits < 0x8000_0000_0000_0000 && b.bits < 0x8000_0000_0000_0000 ==> (a.less(b) <==> a.bits
            < b.bits),
        a.bits >= 0x8000_0000_0000_0000 && b.bits >= 0x8000_0000_0000_0000 ==> (a.less(b)
            <==> a.bits > b.bits),
        a.bits > 0x8000_0000_0000_0000 && b.bits < 0x8000_0000_0000_0000 ==> a.less(b),
        a.bits == 0x8000_0000_0000_0000 && b.bits == 0 ==> a.same(b),
{
}

/// What is no number has all bits of the exponent and some of the rest; the infinities are numbers,
/// beyond all others.
pub proof fn law_what_is_no_number(a: Real)
    ensures
        a.bits <= 0x7ff0_0000_0000_0000 ==> !a.is_nan(),
        0x7ff0_0000_0000_0000 < a.bits < 0x8000_0000_0000_0000 ==> a.is_nan(),
        0x8000_0000_0000_0000 <= a.bits <= 0xfff0_0000_0000_0000 ==> !a.is_nan(),
        0xfff0_0000_0000_0000 < a.bits ==> a.is_nan(),
        !(Real { bits: 0x7ff0_0000_0000_0000 }).less(a),
        !a.less(Real { bits: 0xfff0_0000_0000_0000 }),
        a.finite() <==> !a.is_nan() && a.bits != 0x7ff0_0000_0000_0000 && a.bits
            != 0xfff0_0000_0000_0000,
{
}

/// The order that covers what is no number agrees with the other one on numbers, and tells any two
/// doubles apart.
pub proof fn law_total_order_of_doubles(a: Real, b: Real)
    ensures
        a.less(b) ==> a.total_rank() < b.total_rank(),
        a.total_rank() == b.total_rank() <==> a == b,
        (Real { bits: 0x8000_0000_0000_0000 }).total_rank() < Real::spec_zero().total_rank(),
{
}

/// Rounding to a multiple goes to the nearest, and from the middle to the even one.
pub proof fn law_nearest_multiple(n: int, grain: int)
    requires
        0 <= n,
        0 < grain,
    ensures
        ({
            let r = nearest_multiple(n, grain);
            &&& r % grain == 0
            &&& -grain <= 2 * (r - n) <= grain
            &&& n % grain == 0 ==> r == n
            &&& 2 * (r - n) == grain || 2 * (n - r) == grain ==> (r / grain) % 2 == 0
        }),
{
    let q = n / grain;
    let m = n % grain;
    let r = nearest_multiple(n, grain);
    assert(n == q * grain + m && 0 <= m < grain && q >= 0) by (nonlinear_arith)
        requires
            q == n / grain,
            m == n % grain,
            0 < grain,
            0 <= n,
    ;
    assert((q + 1) * grain == q * grain + grain) by (nonlinear_arith);
    assert((q * grain) % grain == 0 && ((q + 1) * grain) % grain == 0 && (q * grain) / grain == q
        && ((q + 1) * grain) / grain == q + 1) by (nonlinear_arith)
        requires
            0 < grain,
            0 <= q,
    ;
}

// ---------------------------------------------------------------------------------------------
// Shares
// ---------------------------------------------------------------------------------------------

/// Those who pay for a resize are never the child itself: all its siblings, or the one right before
/// it, or the one right after it.
pub proof fn law_siblings_pay(count: int, idx: int, i: usize)
    requires
        0 <= idx < count <= usize::MAX,
    ensures
        payers(count, idx, ResizeReach::Siblings).contains(i) <==> i < count && i != idx,
        payers(count, idx, ResizeReach::Before).contains(i) <==> i + 1 == idx,
        payers(count, idx, ResizeReach::After).contains(i) <==> i == idx + 1 && i < count,
{
    lemma_places_but(count, idx, i);
    if idx > 0 {
        assert(payers(count, idx, ResizeReach::Before)[0] == (idx - 1) as usize);
    }
    if idx + 1 < count {
        assert(payers(count, idx, ResizeReach::After)[0] == (idx + 1) as usize);
    }
}

proof fn lemma_places_but(count: int, idx: int, i: usize)
    requires
        0 <= count <= usize::MAX,
        0 <= idx,
    ensures
        places_but(count, idx).contains(i) <==> i < count && i != idx,
    decreases count,
{
    if count > 0 {
        lemma_places_but(count - 1, idx, i);
        let rest = places_but(count - 1, idx);
        if count - 1 != idx {
            let all = rest.push((count - 1) as usize);
            if rest.contains(i) {
                let j = choose|j: int| 0 <= j < rest.len() && rest[j] == i;
                assert(all[j] == i);
            }
            if all.contains(i) {
                let j = choose|j: int| 0 <= j < all.len() && all[j] == i;
                if j < rest.len() {
                    assert(rest[j] == i);
                }
            }
            assert(all[rest.len() as int] == (count - 1) as usize);
        }
    }
}

// ---------------------------------------------------------------------------------------------
// Rings
// ---------------------------------------------------------------------------------------------

/// A ring is painted by its state: an urgent window, the focused one, one focused on a side that is
/// not active, and all others each have their own colours.
pub proof fn law_ring_is_painted_by_its_state(config: FocusRingConfig)
    ensures
        config.palette(FocusRingState::Urgent) == config.urgent,
        config.palette(FocusRingState::Focused) == config.active,
        config.palette(FocusRingState::Unfocused) == config.inactive,
        config.palette(FocusRingState::FocusedInactive).base.color
            == config.focused_inactive.base.color,
        config.palette(FocusRingState::FocusedInactive).indicator.color
            == config.focused_inactive.indicator.color,
        config.focused_inactive.base.gradient is Some ==> config.palette(
            FocusRingState::FocusedInactive,
        ).base.gradient == config.focused_inactive.base.gradient,
        config.focused_inactive.base.gradient is None ==> config.palette(
            FocusRingState::FocusedInactive,
        ).base.gradient == config.inactive.base.gradient,
{
}

/// A ring that is off, and a border without width, draw nothing; a border draws an edge exactly
/// where that edge shows.
pub proof fn law_border_draws_the_edges_that_show(ring: Ring)
    ensures
        ring.config.off ==> ring.segments().len() == 0,
        ring.is_border && ring.drawn_width.same(Real::spec_zero()) ==> ring.segments().len() == 0,
        !ring.config.off && ring.is_border && !ring.drawn_width.same(Real::spec_zero()) ==> {
            &&& ring.segments().contains(0) <==> ring.edges.top
            &&& ring.segments().contains(1) <==> ring.edges.bottom
            &&& ring.segments().contains(2) <==> ring.edges.left
            &&& ring.segments().contains(3) <==> ring.edges.right
        },
        !ring.config.off && !ring.is_border ==> (ring.segments().len() > 0 <==> ring.edges.top
            || ring.edges.bottom || ring.edges.left || ring.edges.right),
{
    crate::ring::lemma_shown(ring.edges, 8, 0);
    crate::ring::lemma_shown(ring.edges, 8, 1);
    crate::ring::lemma_shown(ring.edges, 8, 2);
    crate::ring::lemma_shown(ring.edges, 8, 3);
}

/// A ring brought up to date has the colours of its state and the edges it was given, and only a
/// border shows where the next window goes, on the edge that was asked for and no other.
pub proof fn law_updated_ring(
    ring: Ring,
    state: FocusRingState,
    edges: FocusRingEdges,
    edge: FocusRingIndicatorEdge,
    rounded: bool,
)
    ensures
        ({
            let border = ring.updated(state, true, edges, Some(edge), rounded);
            let plain = ring.updated(state, false, edges, Some(edge), rounded);
            let side = match edge {
                FocusRingIndicatorEdge::Top => 0int,
                FocusRingIndicatorEdge::Bottom => 1,
                FocusRingIndicatorEdge::Left => 2,
                FocusRingIndicatorEdge::Right => 3,
            };
            &&& border.palette == ring.config.palette(state)
            &&& border.edges == edges && plain.edges == edges
            &&& border.drawn_width == ring.config.width
            &&& border.config == ring.config
            &&& border.paint(side) == border.palette.indicator
            &&& forall|n: int| n != side ==> #[trigger] border.paint(n) == border.palette.base
            &&& forall|n: int| #[trigger] plain.paint(n) == plain.palette.base
            &&& rounded ==> border.use_border_shader
        }),
{
}

/// A selection is drawn as the focus ring if that shows, else as the border.
pub proof fn law_selection_is_drawn_as_what_shows(ring: FocusRingConfig, border: BorderConfig)
    ensures
        !ring.off && ring.width.positive() ==> selection_config(ring, border) == ring,
        ring.off || !ring.width.positive() ==> selection_config(ring, border).width == border.width
            && selection_config(ring, border).off == border.off && selection_config(
            ring,
            border,
        ).active == border.active,
{
}

// ---------------------------------------------------------------------------------------------
// Drags
// ---------------------------------------------------------------------------------------------

/// The workspaces go against the pointer: the travel handed on is the motion with its sign turned,
/// all of it when the switch begins, that of the frame afterwards.
pub proof fn law_workspaces_go_against_the_pointer(
    drag: Drag,
    delta: Point,
    total: Point,
    far: bool,
    timestamp: u64,
)
    ensures
        match drag.step(delta, total, far, timestamp) {
            GestureStep::Begin { output, travel, timestamp: at } => drag.gesture is Recognizing
                && far && output == drag.output && travel.rank() == -total.y.rank() && at
                == timestamp,
            GestureStep::Update { travel, timestamp: at } => drag.gesture is WorkspaceSwitch
                && travel.rank() == -delta.y.rank() && at == timestamp,
            GestureStep::Wait => drag.gesture is Recognizing && !far,
        },
{
}

/// Motion that is reported as such counts before where the pointer is; a frame without an event
/// counts for nothing, and what a frame used is not used again.
pub proof fn law_a_frame_is_used_once(drag: Drag)
    ensures
        drag.event_timestamp is None ==> drag.frame_delta() is None && drag.framed() == drag,
        drag.event_timestamp matches Some(at) ==> {
            &&& drag.frame_delta() matches Some((_, then)) && then == at
            &&& drag.relative_delta matches Some(d) ==> drag.frame_delta() == Some(
                (FrameDelta::Relative(d), at),
            )
            &&& drag.relative_delta is None ==> drag.frame_delta() == Some(
                (FrameDelta::Between(drag.last_location, drag.new_location), at),
            )
        },
        drag.framed().frame_delta() is None,
        drag.event_timestamp is Some ==> drag.framed().last_location == drag.new_location,
        drag.framed().gesture == drag.gesture,
{
}

// ---------------------------------------------------------------------------------------------
// What can be seen
// ---------------------------------------------------------------------------------------------

/// Whether every switcher from `k` up to `top` shows what leads to `k`.
pub open spec fn nothing_hides(t: Tree, k: NodeKey, top: NodeKey) -> bool {
    forall|c: NodeKey|
        #[trigger] t.under(k, c) && t.under(c, top) && c != top && t.is_parent(t.parents[c]) && (
        t.nodes[t.parents[c]].layout == Layout::Tabbed || t.nodes[t.parents[c]].layout
            == Layout::Stacked) ==> t.active(t.parents[c]) == Some(c)
}

proof fn lemma_shown(t: Tree, k: NodeKey, top: NodeKey)
    requires
        t.wf(),
        t.under(k, top),
    ensures
        t.shown(k, top) <==> nothing_hides(t, k, top),
    decreases depth(t.parents, k),
{
    assert(t.under(k, k));
    if k == top {
        assert forall|c: NodeKey| #[trigger] t.under(k, c) && t.under(c, top) implies c == top by {
            lemma_under_depth(t.parents, k, c);
            lemma_under_depth(t.parents, c, k);
        }
    } else {
        let p = t.parents[k];
        lemma_depth(t.parents, k);
        lemma_shown(t, p, top);
        if nothing_hides(t, k, top) {
            assert forall|c: NodeKey|
                #[trigger] t.under(p, c) && t.under(c, top) && c != top && t.is_parent(t.parents[c])
                    && (t.nodes[t.parents[c]].layout == Layout::Tabbed
                    || t.nodes[t.parents[c]].layout == Layout::Stacked) implies t.active(
                t.parents[c],
            ) == Some(c) by {
                assert(t.under(k, c));
            }
        }
        if t.shown(k, top) {
            assert forall|c: NodeKey|
                #[trigger] t.under(k, c) && t.under(c, top) && c != top && t.is_parent(t.parents[c])
                    && (t.nodes[t.parents[c]].layout == Layout::Tabbed
                    || t.nodes[t.parents[c]].layout == Layout::Stacked) implies t.active(
                t.parents[c],
            ) == Some(c) by {
                if c != k {
                    assert(t.under(p, c));
                }
            }
        }
    }
}

/// A window can be seen exactly when every tabbed or stacked container around it shows what leads
/// to it, and it is within what is fullscreen.
pub proof fn law_what_can_be_seen(t: Tree, k: NodeKey)
    requires
        t.wf(),
        t.has(k),
    ensures
        t.focus_shows(k) <==> nothing_hides(t, k, t.branch(k)) && (t.fullscreen is None || t.under(
            k,
            t.fullscreen->0,
        )),
{
    crate::tree::lemma_branch(t, k);
    lemma_shown(t, k, t.branch(k));
}

/// The child a container shows is the one focused last: none of the others comes before it.
pub proof fn law_active_child_is_the_most_recent(
    t: Tree,
    p: NodeKey,
    i: int,
    j: int,
    a: int,
    b: int,
)
    requires
        t.wf(),
        t.sits(t.seat.order[a], p, i),
        t.sits(t.seat.order[b], p, j),
        0 <= a < t.seat.order.len(),
        0 <= b < t.seat.order.len(),
        t.active(p) == Some(t.seat.order[a]),
    ensures
        a <= b,
{
    let pick = Pick::ChildOf(p);
    let (x, y) = (t.seat.order[a], t.seat.order[b]);
    assert(t.is_parent(p));
    crate::walk::lemma_slot(t, p, x, i);
    crate::walk::lemma_slot(t, p, y, j);
    assert(t.kids(p).contains(x) && t.kids(p).contains(y));
    crate::captions::lemma_listed_in_branch(t, p, x);
    crate::captions::lemma_listed_in_branch(t, p, y);
    assert(t.meets(pick, t.seat.order[a]));
    assert(t.meets(pick, t.seat.order[b]));
    lemma_first_of(t, t.seat.order, pick);
    let c = t.recent(pick)->0;
    let n = choose|n: int|
        0 <= n < t.seat.order.len() && t.seat.order[n] == c && forall|m: int|
            0 <= m < n ==> !t.meets(pick, #[trigger] t.seat.order[m]);
    assert(t.seat.order[n] == t.seat.order[a]);
    assert(t.seat.order.no_duplicates());
    if b < n {
        assert(!t.meets(pick, t.seat.order[b]));
    }
}

// ---------------------------------------------------------------------------------------------
// What holds between commands
// ---------------------------------------------------------------------------------------------

/// In a sound tree every node hangs below the workspace, no container but the workspace is empty,
/// the focus is on a window, and there is a focus whenever there is a window; fullscreen is owned
/// by a node that is there and is not the workspace; and no share is negative.
pub proof fn law_sound_tree(t: Tree, k: NodeKey)
    requires
        t.wf(),
        t.sound(),
        t.has(k),
    ensures
        t.under(k, t.root),
        k != t.root && t.nodes[k].tile is None ==> t.nodes[k].children.len() > 0,
        t.seat.leaf matches Some(l) ==> t.is_view(l),
        t.is_view(k) ==> t.seat.leaf is Some,
        t.fullscreen matches Some(f) ==> t.has(f) && f != t.root,
        t.seat.selected matches Some(s) ==> t.has(s),
        k != t.root ==> t.nodes[k].own_sizing().fractions.width.rank() >= 0
            && t.nodes[k].own_sizing().fractions.height.rank() >= 0,
{
    assert(t.nodes.contains_key(k));
    assert(t.under(t.root, t.root));
    assert(t.nodes.contains_key(t.root));
    if k != t.root {
        assert(t.is_container(k));
        if t.nodes[k].tile is None {
            assert(t.is_split(k));
        }
    }
}

/// The shares of every split that holds something have to make up a whole to within a millionth.
pub proof fn law_shares_have_to_make_up_a_whole(t: Tree, deviations: Seq<(NodeKey, Real)>, k: NodeKey)
    requires
        t.shares_whole(deviations),
        t.has(k),
        t.nodes[k].tile is None,
        t.nodes[k].children.len() > 0,
        t.nodes[k].layout == Layout::SplitH || t.nodes[k].layout == Layout::SplitV,
    ensures
        exists|i: int|
            0 <= i < deviations.len() && (#[trigger] deviations[i]).0 == k
                && !deviations[i].1.is_nan() && deviations[i].1.rank() <= 0x3EB0_C6F7_A0B5_ED8D,
{
    assert(t.divides(k));
    lemma_deviation(deviations, k);
}

proof fn lemma_deviation(deviations: Seq<(NodeKey, Real)>, k: NodeKey)
    ensures
        deviation_in(deviations, k) matches Some(d) ==> exists|i: int|
            0 <= i < deviations.len() && (#[trigger] deviations[i]).0 == k && deviations[i].1 == d,
    decreases deviations.len(),
{
    if deviations.len() > 0 {
        if deviations[0].0 == k {
            assert(deviations[0].1 == deviation_in(deviations, k)->0);
        } else {
            let rest = deviations.drop_first();
            lemma_deviation(rest, k);
            if deviation_in(rest, k) is Some {
                let d = deviation_in(rest, k)->0;
                let i = choose|i: int|
                    0 <= i < rest.len() && (#[trigger] rest[i]).0 == k && rest[i].1 == d;
                assert(deviations[i + 1] == rest[i]);
            }
        }
    }
}

} // verus!
