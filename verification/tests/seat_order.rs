use tiri_layout::arena::ContainerArena;
use tiri_layout::axis::{Layout, NodeKey};
use tiri_layout::measure::{IntSize, Point, Real, Rect, Size};
use tiri_layout::resize::{Edge, ResizeEdge};
use tiri_layout::seat::SeatFocus;
use tiri_layout::tile::{Tile, Window};
use tiri_layout::tree::ArenaOptions;

fn key(id: u64) -> NodeKey {
    NodeKey { id }
}

fn bits_of(x: f64) -> Real {
    Real { bits: x.to_bits() }
}

#[test]
fn focusing_raises_the_chain_and_keeps_the_rest() {
    let mut seat = SeatFocus::default();
    for id in 1..6 {
        seat.register(key(id));
    }
    assert_eq!(seat.order(), &vec![key(1), key(2), key(3), key(4), key(5)]);
    seat.focus(&vec![key(4), key(2)], Some(key(4)));
    assert_eq!(seat.order(), &vec![key(4), key(2), key(1), key(3), key(5)]);
    assert_eq!(seat.focused_leaf(), Some(key(4)));
    assert_eq!(seat.selected(), None);
    seat.select(&vec![key(3)], key(3), Some(key(5)));
    assert_eq!(seat.order(), &vec![key(3), key(4), key(2), key(1), key(5)]);
    assert_eq!(seat.selected(), Some(key(3)));
    assert_eq!(seat.node(), Some(key(3)));
    seat.redirect_selection(None);
    assert_eq!(seat.node(), Some(key(5)));
}

#[test]
fn leaving_the_order_undoes_entering_it() {
    let mut seat = SeatFocus::default();
    seat.register(key(1));
    seat.register(key(2));
    seat.focus(&vec![key(2)], Some(key(2)));
    let before = seat.order().clone();
    seat.register(key(3));
    assert_eq!(seat.order().len(), 3);
    seat.unregister(key(3));
    assert_eq!(seat.order(), &before);
    assert_eq!(seat.focused_leaf(), Some(key(2)));
    seat.unregister(key(2));
    assert_eq!(seat.focused_leaf(), None);
}

fn rect(x: f64, y: f64, w: f64, h: f64) -> Rect {
    Rect {
        loc: Point { x: bits_of(x), y: bits_of(y) },
        size: Size { w: bits_of(w), h: bits_of(h) },
    }
}

fn row() -> (ContainerArena, Vec<NodeKey>) {
    let mut arena = ContainerArena::new(
        1,
        ArenaOptions {
            autotile: false,
            animations_off: false,
            view_size: Size { w: bits_of(1920.0), h: bits_of(1080.0) },
            working_area: rect(0.0, 0.0, 1920.0, 1080.0),
        },
    );
    let mut keys = Vec::new();
    for id in 1..4 {
        let key = arena.take_key();
        arena.insert_window(Tile::new(key, Window::new(id)), true);
        keys.push(key);
    }
    (arena, keys)
}

#[test]
fn a_drag_finds_the_neighbour_on_its_side() {
    let (arena, keys) = row();
    let right = arena.resize_candidates(keys[1], Edge::Right, Layout::SplitH);
    assert_eq!(right.len(), 1);
    assert_eq!(right[0].parent, arena.workspace_root());
    assert_eq!(right[0].child, keys[1]);
    assert_eq!(right[0].neighbor, keys[2]);
    assert!(right[0].neighbor_after);
    let left = arena.resize_candidates(keys[1], Edge::Left, Layout::SplitH);
    assert_eq!(left[0].neighbor, keys[0]);
    assert!(!left[0].neighbor_after);
    assert!(!arena.has_resize_target(keys[0], Edge::Left, Layout::SplitH));
    assert!(!arena.has_resize_target(keys[1], Edge::Top, Layout::SplitV));
    assert!(ResizeEdge::empty().is_empty());
}

#[test]
fn a_floating_size_respects_the_limits_of_the_window() {
    let mut window = Window::new(1);
    window.min_size = IntSize { w: 200, h: 0 };
    window.max_size = IntSize { w: 500, h: 400 };
    let tile = Tile::new(key(9), window);
    let output = IntSize { w: 1920, h: 1080 };
    assert_eq!(
        tile.floating_constraints(IntSize { w: 800, h: 800 }, output),
        IntSize { w: 500, h: 400 }
    );
    assert_eq!(
        tile.floating_constraints(IntSize { w: 100, h: 300 }, output),
        IntSize { w: 200, h: 300 }
    );
}
