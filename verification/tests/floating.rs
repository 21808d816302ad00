use tiri_layout::arena::ContainerArena;
use tiri_layout::axis::{Direction, Layout, NodeKey};
use tiri_layout::cache::ArrangeScope;
use tiri_layout::commit::BranchLayout;
use tiri_layout::measure::{IntSize, Point, Real, Rect, Size};
use tiri_layout::resize::ResizeEdge;
use tiri_layout::ring::FocusRingEdges;
use tiri_layout::scene::{FloatingResizeResult, Pull, ResizeProbe};
use tiri_layout::space::FloatingSpace;
use tiri_layout::tile::{SizingMode, Tile, TileRequest, Window};
use tiri_layout::tree::{ArenaOptions, FloatingGeometry, FloatingRootKind};
use tiri_layout::upkeep::{ResizeAxis, ResizeRequest, ResizeSubject};

fn bits_of(x: f64) -> Real {
    Real { bits: x.to_bits() }
}

fn rect(x: f64, y: f64, w: f64, h: f64) -> Rect {
    Rect {
        loc: Point { x: bits_of(x), y: bits_of(y) },
        size: Size { w: bits_of(w), h: bits_of(h) },
    }
}

fn geometry(x: f64, y: f64, w: f64, h: f64) -> FloatingGeometry {
    FloatingGeometry {
        pos: Point { x: bits_of(x / 1920.0), y: bits_of(y / 1080.0) },
        working_area: rect(0.0, 0.0, 1920.0, 1080.0),
        target: rect(x, y, w, h),
        resize_base_size: Size { w: bits_of(w), h: bits_of(h) },
    }
}

const SCREEN: IntSize = IntSize { w: 1920, h: 1080 };

/// How far the shares of the children of each split are from a whole.
fn deviations(arena: &ContainerArena) -> Vec<(NodeKey, Real)> {
    let mut out = Vec::new();
    for key in arena.live_keys() {
        if arena.get_container(key).is_some() {
            let sum: f64 =
                arena.child_percents(key).iter().map(|share| f64::from_bits(share.bits)).sum();
            out.push((key, bits_of((sum - 1.0).abs())));
        }
    }
    out
}

/// Whether the tree is sound once every split has divided its span evenly.
fn sound(arena: &mut ContainerArena) -> bool {
    for key in arena.live_keys() {
        let count = arena.child_percents(key).len();
        if count > 0 {
            arena.recalculate_child_percents(key, bits_of(1.0 / count as f64));
        }
    }
    arena.verify_invariants(&deviations(arena))
}

fn workspace() -> ContainerArena {
    ContainerArena::new(
        1,
        ArenaOptions {
            autotile: false,
            animations_off: false,
            view_size: Size { w: bits_of(1920.0), h: bits_of(1080.0) },
            working_area: rect(0.0, 0.0, 1920.0, 1080.0),
        },
    )
}

fn tile(arena: &mut ContainerArena, id: u64) -> Tile {
    let key = arena.take_key();
    Tile::new(key, Window::new(id))
}

fn float(space: &mut FloatingSpace, arena: &mut ContainerArena, id: u64) -> NodeKey {
    let tile = tile(arena, id);
    let key = tile.key;
    space.add_tile(arena, tile, true, geometry(100.0, 100.0, 400.0, 300.0), SCREEN);
    key
}

fn stack(arena: &ContainerArena) -> Vec<NodeKey> {
    arena.floating_roots()
}

fn edges(left: bool, right: bool, top: bool, bottom: bool) -> ResizeEdge {
    ResizeEdge { left, right, top, bottom }
}

#[test]
fn floating_windows_stack_on_top() {
    let mut arena = workspace();
    let mut space = FloatingSpace::new();
    assert!(space.is_empty(&arena));
    let a = float(&mut space, &mut arena, 1);
    let b = float(&mut space, &mut arena, 2);
    assert_eq!(stack(&arena), vec![b, a]);
    assert!(space.has_window(&arena, 1));
    assert!(!space.has_window(&arena, 3));
    assert_eq!(space.active_window(&arena).unwrap().window.id, 2);
    assert!(arena.is_floating_root(a));
    assert_eq!(arena.window_count(), 0);
    assert!(space.verify_invariants(&arena, 3, 3));
    assert_eq!(space.container_pos(&arena, 1), Some(Point { x: bits_of(100.0), y: bits_of(100.0) }));
}

#[test]
fn activation_raises_and_focuses() {
    let mut arena = workspace();
    let mut space = FloatingSpace::new();
    let a = float(&mut space, &mut arena, 1);
    let b = float(&mut space, &mut arena, 2);
    assert!(space.activate_window(&mut arena, 1));
    assert_eq!(stack(&arena), vec![a, b]);
    assert_eq!(arena.focused_window_id(), Some(1));
    assert!(space.activate_window_without_raising(&mut arena, 2));
    assert_eq!(stack(&arena), vec![a, b]);
    assert_eq!(arena.focused_window_id(), Some(2));
    assert!(!space.activate_window(&mut arena, 3));
}

#[test]
fn dialogs_stay_above_their_windows() {
    let mut arena = workspace();
    let mut space = FloatingSpace::new();
    let a = float(&mut space, &mut arena, 1);
    let b = float(&mut space, &mut arena, 2);
    let key = arena.take_key();
    let mut window = Window::new(3);
    window.parent = Some(1);
    space.add_tile(
        &mut arena,
        Tile::new(key, window),
        false,
        geometry(0.0, 0.0, 100.0, 100.0),
        SCREEN,
    );
    assert_eq!(stack(&arena), vec![key, b, a]);
    assert!(space.activate_window(&mut arena, 1));
    assert_eq!(stack(&arena), vec![key, a, b]);
    assert_eq!(arena.focused_window_id(), Some(1));
}

#[test]
fn restacking_is_undone() {
    let mut arena = workspace();
    let mut space = FloatingSpace::new();
    let a = float(&mut space, &mut arena, 1);
    let b = float(&mut space, &mut arena, 2);
    let c = float(&mut space, &mut arena, 3);
    assert!(arena.move_floating_root(2, 0));
    assert_eq!(stack(&arena), vec![a, c, b]);
    assert!(arena.move_floating_root(0, 2));
    assert_eq!(stack(&arena), vec![c, b, a]);
}

#[test]
fn a_removed_window_remembers_its_place() {
    let mut arena = workspace();
    let mut space = FloatingSpace::new();
    let a = float(&mut space, &mut arena, 1);
    let b = float(&mut space, &mut arena, 2);
    let removed = space.remove_tile(&mut arena, 1);
    assert!(removed.is_floating);
    assert_eq!(removed.tile.window.id, 1);
    assert_eq!(
        removed.tile.floating_pos,
        Some(Point { x: bits_of(100.0 / 1920.0), y: bits_of(100.0 / 1080.0) })
    );
    assert!(removed.tile.floating_reinsert_hint.is_some());
    assert_eq!(stack(&arena), vec![b]);
    assert!(!arena.holds_node(a));
    assert!(space.verify_invariants(&arena, 3, 3));
    // The group is gone: the window comes back as one of its own.
    space.add_tile_with_restore_hint(
        &mut arena,
        removed.tile,
        true,
        geometry(5.0, 5.0, 50.0, 50.0),
        SCREEN,
    );
    assert_eq!(stack(&arena), vec![a, b]);
    assert!(space.remove_active_tile(&mut arena).is_some());
    assert!(space.remove_active_tile(&mut arena).is_some());
    assert!(space.remove_active_tile(&mut arena).is_none());
    assert!(space.is_empty(&arena));
}

#[test]
fn a_window_floats_and_tiles_again() {
    let mut arena = workspace();
    let t1 = tile(&mut arena, 1);
    let t2 = tile(&mut arena, 2);
    let k1 = t1.key;
    let k2 = t2.key;
    arena.insert_window(t1, true);
    arena.insert_window(t2, true);
    let root = arena.float_as_group(
        k1,
        geometry(10.0, 10.0, 300.0, 200.0),
        0,
        FloatingRootKind::ImplicitWindowGroup,
    );
    assert_eq!(root, Some(k1));
    assert!(arena.is_in_floating_branch(k1));
    assert_eq!(arena.leaf_keys_in_branch(arena.workspace_root()), vec![k2]);
    assert!(arena.unfloat_into_workspace(k1));
    assert_eq!(arena.leaf_keys_in_branch(arena.workspace_root()), vec![k2, k1]);
    assert!(sound(&mut arena));
    assert_eq!(arena.all_window_ids(), vec![2, 1]);
}

#[test]
fn splits_inside_a_group() {
    let mut arena = workspace();
    let mut space = FloatingSpace::new();
    let a = float(&mut space, &mut arena, 1);
    space.split_vertical(&mut arena);
    let root = arena.floating_root_at(0).unwrap();
    assert_ne!(root, a);
    assert_eq!(space.root_layout_for_window(&arena, 1), Some(Layout::SplitV));
    let t2 = tile(&mut arena, 2);
    assert!(space.add_tile_to_active_container(&mut arena, t2, true, true));
    assert_eq!(arena.window_ids_under(root), vec![1, 2]);
    assert_eq!(
        space.debug_tree_for_window(&arena, 2),
        Some("SplitV\n  Window 1\n  Window 2 *\n".to_string())
    );
    assert!(space.container_allows_splits(&arena, 2));
    space.toggle_split_layout(&mut arena);
    assert_eq!(space.root_layout_for_window(&arena, 1), Some(Layout::SplitH));
    assert!(space.focus_left(&mut arena, &Vec::new()));
    assert_eq!(arena.focused_window_id(), Some(1));

    // A resize along the split is of the window, one across it of the group.
    assert_eq!(
        space.resize_window(
            &mut arena,
            Some(2),
            ResizeRequest::Axis(ResizeAxis::Horizontal)
        ),
        Some(ResizeSubject::Child { root, parent: root, child_idx: 1 })
    );
    assert_eq!(
        space.set_window_height(&mut arena, Some(2)),
        Some(ResizeSubject::Group(root))
    );
    assert_eq!(
        space.resize_window(&mut arena, None, ResizeRequest::Edge(Direction::Left)),
        Some(ResizeSubject::Group(root))
    );
    assert_eq!(space.set_window_width(&mut arena, Some(9)), None);
    assert_eq!(space.close_window_ids_for_active_selection(&arena), vec![1]);
}

#[test]
fn presets_are_remembered_until_a_resize() {
    let mut arena = workspace();
    let mut space = FloatingSpace::new();
    let a = float(&mut space, &mut arena, 1);
    assert_eq!(space.toggle_window_width(&arena, None, true, 3, Some(1)), Some((1, 1)));
    space.record_preset(&mut arena, 1, ResizeAxis::Horizontal, 1);
    assert_eq!(arena.get_tile(a).unwrap().floating_preset_width_idx, Some(1));
    assert_eq!(space.toggle_window_width(&arena, Some(1), true, 3, None), Some((1, 2)));
    assert_eq!(space.toggle_window_height(&arena, Some(1), false, 3, None), Some((1, 2)));
    assert!(space.verify_invariants(&arena, 3, 3));
    assert!(!space.verify_invariants(&arena, 1, 3));
    assert_eq!(
        space.set_window_width(&mut arena, Some(1)),
        Some(ResizeSubject::Group(a))
    );
    assert_eq!(arena.get_tile(a).unwrap().floating_preset_width_idx, None);
    assert_eq!(space.toggle_window_width(&arena, Some(5), true, 3, None), None);
}

#[test]
fn groups_move_unless_fullscreen() {
    let mut arena = workspace();
    let mut space = FloatingSpace::new();
    let a = float(&mut space, &mut arena, 1);
    space.move_window(&mut arena, Some(1), geometry(7.0, 8.0, 400.0, 300.0), &Vec::new());
    assert_eq!(arena.floating_area(a), Some(rect(7.0, 8.0, 400.0, 300.0)));
    space.center_window(&mut arena, None, geometry(760.0, 390.0, 400.0, 300.0), &Vec::new());
    assert_eq!(arena.floating_area(a), Some(rect(760.0, 390.0, 400.0, 300.0)));
    assert!(!space.set_fullscreen(&mut arena, 1, true, rect(0.0, 0.0, 1.0, 1.0).loc));
    assert!(space.is_fullscreen(&arena, 1));
    space.move_window(&mut arena, None, geometry(1.0, 1.0, 1.0, 1.0), &Vec::new());
    assert_eq!(arena.floating_area(a), Some(rect(760.0, 390.0, 400.0, 300.0)));
    assert!(!space.move_container_for_window_to(
        &mut arena,
        9,
        geometry(1.0, 1.0, 1.0, 1.0),
        &Vec::new()
    ));
    let plan = space.render(&arena, true, true, true, false);
    assert_eq!(plan.tiles.len(), 1);
    assert!(plan.tiles[0].at_origin);
    assert!(plan.tiles[0].draw_focus);
    assert_eq!(plan.bar_scopes.len(), 0);
    assert_eq!(space.window_under(&arena, &Vec::new(), &vec![a]), Some(1));
    assert_eq!(space.window_under(&arena, &Vec::new(), &Vec::new()), None);
}

#[test]
fn the_working_area_takes_the_groups_along() {
    let mut arena = workspace();
    let mut space = FloatingSpace::new();
    let a = float(&mut space, &mut arena, 1);
    let b = float(&mut space, &mut arena, 2);
    space.update_config(
        &mut arena,
        &vec![geometry(1.0, 2.0, 3.0, 4.0), geometry(5.0, 6.0, 7.0, 8.0)],
    );
    assert_eq!(arena.floating_area(b), Some(rect(1.0, 2.0, 3.0, 4.0)));
    assert_eq!(arena.floating_area(a), Some(rect(5.0, 6.0, 7.0, 8.0)));
    assert!(space.resize_group(&mut arena, a, geometry(5.0, 6.0, 70.0, 80.0), &Vec::new()));
    assert_eq!(arena.floating_area(a), Some(rect(5.0, 6.0, 70.0, 80.0)));
    let size = Size { w: bits_of(9.0), h: bits_of(9.0) };
    assert!(space.update_window(&mut arena, 1, size));
    assert_eq!(arena.floating_geometry(a).unwrap().resize_base_size, size);
    assert!(!space.update_window(&mut arena, 3, size));
}

#[test]
fn a_pointer_resize_is_of_the_group_at_its_border() {
    let mut arena = workspace();
    let mut space = FloatingSpace::new();
    let a = float(&mut space, &mut arena, 1);
    let size = Size { w: bits_of(400.0), h: bits_of(300.0) };
    let corner = edges(true, false, true, false);
    assert!(space.interactive_resize_begin(
        &arena,
        1,
        corner,
        size,
        rect(100.0, 100.0, 400.0, 300.0),
        edges(true, false, false, false)
    ));
    assert!(!space.interactive_resize_begin(
        &arena,
        1,
        corner,
        size,
        rect(100.0, 100.0, 400.0, 300.0),
        corner
    ));
    let step = space
        .interactive_resize_update(&arena, 1, IntSize { w: 450, h: 310 })
        .unwrap();
    assert_eq!(step.root, a);
    assert_eq!(step.width, Some((450, true)));
    assert_eq!(step.height, Some((310, false)));
    assert_eq!(step.pull_x, Pull::Whole);
    assert_eq!(step.pull_y, Pull::Stay);
    assert!(space.interactive_resize_update(&arena, 2, SCREEN).is_none());
    let told = space.refresh(&arena, true, true, true);
    assert_eq!(told.len(), 1);
    assert!(told[0].activated);
    assert_eq!(told[0].resize, Some(corner));
    space.interactive_resize_end(Some(2));
    assert!(space.resize_in_progress().is_some());
    space.interactive_resize_end(Some(1));
    assert!(space.resize_in_progress().is_none());
    let told = space.refresh(&arena, true, false, true);
    assert!(!told[0].activated);
    assert_eq!(told[0].resize, None);
}

#[test]
fn a_resize_holds_to_the_limits_of_the_window() {
    let mut arena = workspace();
    let mut space = FloatingSpace::new();
    let key = arena.take_key();
    let mut window = Window::new(1);
    window.min_size = IntSize { w: 200, h: 100 };
    window.max_size = IntSize { w: 600, h: 0 };
    space.add_tile(
        &mut arena,
        Tile::new(key, window),
        true,
        geometry(0.0, 0.0, 400.0, 300.0),
        SCREEN,
    );
    let none = edges(false, false, false, false);
    space.interactive_resize_begin(
        &arena,
        1,
        edges(false, true, false, true),
        Size { w: bits_of(400.0), h: bits_of(300.0) },
        rect(0.0, 0.0, 400.0, 300.0),
        none,
    );
    let step = space
        .interactive_resize_update(&arena, 1, IntSize { w: 900, h: 20 })
        .unwrap();
    assert_eq!(step.width, Some((600, false)));
    assert_eq!(step.height, Some((100, false)));
}

#[test]
fn animations_are_tracked() {
    let mut arena = workspace();
    let mut space = FloatingSpace::new();
    let a = float(&mut space, &mut arena, 1);
    assert!(!space.are_animations_ongoing(&arena));
    assert!(space.start_open_animation(&mut arena, 1));
    assert!(!space.start_open_animation(&mut arena, 2));
    assert!(space.are_animations_ongoing(&arena));
    assert!(space.are_transitions_ongoing(&arena));
    space.advance_animations(&mut arena, &vec![(a, false)], &Vec::new());
    assert!(space.are_animations_ongoing(&arena));
    assert!(!space.are_transitions_ongoing(&arena));
    space.advance_animations(&mut arena, &Vec::new(), &Vec::new());
    assert!(!space.are_animations_ongoing(&arena));
    space.start_close_animation(7);
    space.start_close_animation(8);
    let plan = space.render(&arena, true, true, true, true);
    assert_eq!(plan.closing, vec![8, 7]);
    assert!(space.render(&arena, true, true, false, true).closing.is_empty());
    space.advance_animations(&mut arena, &Vec::new(), &vec![8]);
    assert_eq!(space.render(&arena, true, true, true, true).closing, vec![8]);
}

fn arranged() -> (ContainerArena, FloatingSpace, NodeKey, NodeKey) {
    let mut arena = workspace();
    let mut space = FloatingSpace::new();
    let a = float(&mut space, &mut arena, 1);
    let b = float(&mut space, &mut arena, 2);
    let passes = vec![
        BranchLayout {
            branch: a,
            data: arena.collect_branch_layout_data(
                a,
                rect(10.0, 20.0, 400.0, 300.0),
                &Vec::new(),
                bits_of(0.0),
            ),
            totals: Vec::new(),
            current: Vec::new(),
        next: Vec::new(),
            released: true,
        },
        BranchLayout {
            branch: b,
            data: arena.collect_branch_layout_data(
                b,
                rect(500.0, 600.0, 400.0, 300.0),
                &Vec::new(),
                bits_of(0.0),
            ),
            totals: Vec::new(),
            current: Vec::new(),
        next: Vec::new(),
            released: true,
        },
    ];
    arena.commit_layout(passes, false);
    (arena, space, a, b)
}

#[test]
fn windows_are_shown_from_the_top_down() {
    let (arena, space, a, b) = arranged();
    let shown = space.tiles_with_offsets_visible(&arena);
    assert_eq!(shown.len(), 2);
    assert_eq!(shown[0].0.window.id, 2);
    assert_eq!(shown[0].1, Point { x: bits_of(500.0), y: bits_of(600.0) });
    assert_eq!(shown[1].0.window.id, 1);
    assert_eq!(
        space.visible_offset(&arena, 1),
        Some(Point { x: bits_of(10.0), y: bits_of(20.0) })
    );
    assert_eq!(space.visible_offset(&arena, 3), None);
    let looks = space.update_render_elements(&arena, true, true);
    assert_eq!(looks.len(), 2);
    assert_eq!(looks[0].key, b);
    assert!(looks[0].focused);
    assert!(!looks[1].focused);
    assert!(!looks[0].focus_head);
    assert_eq!(looks[0].edges, FocusRingEdges::all());
    assert!(space.update_render_elements(&arena, true, false).is_empty());
    assert_eq!(space.window_under(&arena, &Vec::new(), &vec![a, b]), Some(2));
    assert_eq!(space.window_under(&arena, &Vec::new(), &vec![a]), Some(1));
    assert_eq!(space.window_under(&arena, &vec![(a, 1)], &vec![b]), Some(1));
    let plan = space.render(&arena, true, true, true, false);
    assert_eq!(plan.bar_scopes, vec![b, a]);
    assert_eq!(plan.selection, None);
    assert_eq!(plan.tiles.len(), 2);
    assert!(plan.tiles[0].draw_focus);
    assert!(!plan.tiles[1].draw_focus);
}

#[test]
fn the_outermost_window_is_activated() {
    let (mut arena, mut space, a, b) = arranged();
    space.focus_leftmost(&mut arena);
    assert_eq!(arena.focused_window_id(), Some(1));
    assert_eq!(stack(&arena), vec![a, b]);
    space.focus_bottommost(&mut arena);
    assert_eq!(arena.focused_window_id(), Some(2));
    space.focus_topmost(&mut arena);
    assert_eq!(arena.focused_window_id(), Some(1));
    space.focus_rightmost(&mut arena);
    assert_eq!(arena.focused_window_id(), Some(2));
}

#[test]
fn the_nearest_group_is_found() {
    let (mut arena, mut space, a, b) = arranged();
    let c = float(&mut space, &mut arena, 3);
    assert_eq!(stack(&arena), vec![c, b, a]);
    let all = |x: f64, y: f64, z: f64| vec![bits_of(x), bits_of(y), bits_of(z)];
    assert_eq!(space.directional_root(&arena, &all(0.0, 5.0, 3.0)), Some(a));
    assert_eq!(space.directional_root(&arena, &all(0.0, 3.0, 3.0)), Some(a));
    assert_eq!(space.directional_root(&arena, &all(0.0, 0.0, -1.0)), Some(b));
    assert_eq!(space.directional_root(&arena, &all(0.0, -1.0, -1.0)), None);
    assert_eq!(space.directional_root(&arena, &all(0.0, f64::NAN, -1.0)), None);
    let empty = workspace();
    assert_eq!(space.directional_root(&empty, &Vec::new()), None);
}

#[test]
fn a_resize_begins_at_the_topmost_window() {
    let (arena, space, a, b) = arranged();
    let probe = |key: NodeKey, inside: bool, on_bar: bool, e: ResizeEdge| ResizeProbe {
        key,
        inside,
        on_bar,
        edges: e,
        on_border: edges(true, false, false, true),
    };
    let corner = edges(true, false, true, false);
    let none = edges(false, false, false, false);
    match space.resize_hit_under(
        &arena,
        &vec![probe(a, true, false, corner), probe(b, false, false, corner)],
        &Vec::new(),
    ) {
        FloatingResizeResult::Hit(hit) => {
            assert_eq!(hit.window, 1);
            assert_eq!(hit.edges, corner);
            assert_eq!(hit.external_edges, edges(true, false, false, false));
        }
        _ => panic!(),
    }
    assert_eq!(
        space.resize_hit_under(
            &arena,
            &vec![probe(a, true, false, corner), probe(b, true, true, corner)],
            &Vec::new(),
        ),
        FloatingResizeResult::Blocked
    );
    assert_eq!(
        space.resize_edges_under(&arena, &vec![probe(b, true, false, none)], &Vec::new()),
        Some(none)
    );
    assert_eq!(space.resize_edges_under(&arena, &Vec::new(), &Vec::new()), None);
}

#[test]
fn groups_are_published_from_the_bottom_up() {
    let (arena, space, _, _) = arranged();
    let nodes = space.layout_tree_nodes(&arena, &Vec::new());
    assert_eq!(nodes.len(), 2);
    assert_eq!(nodes[0].0.window_id, Some(1));
    assert_eq!(nodes[0].0.path, vec![0]);
    assert!(!nodes[0].0.focused);
    assert_eq!(nodes[1].0.window_id, Some(2));
    assert_eq!(nodes[1].0.path, vec![1]);
    assert!(nodes[1].0.focused);
    assert!(nodes[1].0.is_floating);
    assert_eq!(nodes[1].1, FloatingRootKind::ImplicitWindowGroup);
}

#[test]
fn a_fullscreen_window_maps_as_the_owner() {
    let mut arena = workspace();
    let mut space = FloatingSpace::new();
    let key = arena.take_key();
    let mut window = Window::new(1);
    window.sizing_mode = SizingMode::Fullscreen;
    space.add_tile(
        &mut arena,
        Tile::new(key, window),
        true,
        geometry(0.0, 0.0, 400.0, 300.0),
        SCREEN,
    );
    assert_eq!(arena.fullscreen_key(), Some(key));
    assert!(space.has_fullscreen_window(&arena));
    assert_eq!(
        space.resize_hit_under(&arena, &Vec::new(), &Vec::new()),
        FloatingResizeResult::Nothing
    );
}

#[test]
fn floating_costs_a_window_nothing() {
    let mut arena = workspace();
    let t1 = tile(&mut arena, 1);
    let t2 = tile(&mut arena, 2);
    let k1 = t1.key;
    arena.insert_window(t1, true);
    arena.insert_window(t2, true);
    assert!(arena.add_mark_to_node(k1, "a".to_string()));
    assert!(arena.float_subtree(
        k1,
        geometry(10.0, 10.0, 300.0, 200.0),
        0,
        FloatingRootKind::ImplicitWindowGroup,
    ));
    assert_eq!(arena.window_key(1), Some(k1));
    assert!(arena.node_has_mark(k1, &"a".to_string()));
    assert!(sound(&mut arena));
}

#[test]
fn a_window_floats_where_it_was() {
    let mut arena = workspace();
    let space = FloatingSpace::new();
    let there = Point { x: bits_of(5.0), y: bits_of(6.0) };
    let rule = Point { x: bits_of(7.0), y: bits_of(8.0) };
    let mut t = tile(&mut arena, 1);
    assert_eq!(space.stored_or_default_tile_pos(&t, there, Some(rule)), Some(rule));
    assert_eq!(space.stored_or_default_tile_pos(&t, there, None), None);
    t.is_scratchpad = true;
    assert_eq!(space.stored_or_default_tile_pos(&t, there, Some(rule)), None);
    t.floating_pos = Some(Point { x: bits_of(0.5), y: bits_of(0.5) });
    assert_eq!(space.stored_or_default_tile_pos(&t, there, Some(rule)), Some(there));
}

fn lone_windows(ids: &[u64]) -> (ContainerArena, FloatingSpace) {
    let mut arena = workspace();
    let mut space = FloatingSpace::new();
    for id in ids {
        float(&mut space, &mut arena, *id);
    }
    (arena, space)
}

#[test]
fn steps_to_the_left_go_round() {
    let (mut arena, mut space) = lone_windows(&[1, 2, 3]);
    assert!(space.activate_window(&mut arena, 2));
    let mut active = Vec::new();
    for _ in 0..3 {
        active.push(space.active_window(&arena).unwrap().window.id);
        assert!(space.focus_left(&mut arena, &Vec::new()));
    }
    assert_eq!(active, vec![2, 1, 3]);
    assert_eq!(space.active_window(&arena).unwrap().window.id, 2);
}

#[test]
fn a_step_to_the_right_undoes_one_to_the_left() {
    let (mut arena, mut space) = lone_windows(&[1, 2, 3]);
    assert!(space.focus_left(&mut arena, &Vec::new()));
    assert_eq!(space.active_window(&arena).unwrap().window.id, 2);
    assert!(space.focus_right(&mut arena, &Vec::new()));
    assert_eq!(space.active_window(&arena).unwrap().window.id, 3);
    assert!(space.focus_right(&mut arena, &Vec::new()));
    assert_eq!(space.active_window(&arena).unwrap().window.id, 1);
    assert!(space.focus_left(&mut arena, &Vec::new()));
    assert_eq!(space.active_window(&arena).unwrap().window.id, 3);
}

#[test]
fn the_nearest_group_gets_the_focus() {
    let (mut arena, mut space) = lone_windows(&[1, 2, 3]);
    let far = bits_of(300.0);
    let near = bits_of(20.0);
    let behind = bits_of(-5.0);
    // From the top down: 3, which is active, then 2 and 1.
    assert!(space.focus_up(&mut arena, &vec![bits_of(0.0), far, near]));
    assert_eq!(space.active_window(&arena).unwrap().window.id, 1);
    // Now 1, 3 and 2.
    assert!(!space.focus_down_no_wrap(&mut arena, &vec![bits_of(0.0), behind, behind]));
    assert!(space.focus_left_no_wrap(&mut arena, &vec![bits_of(0.0), behind, far]));
    assert_eq!(space.active_window(&arena).unwrap().window.id, 2);
}

#[test]
fn fullscreen_and_back() {
    let (mut arena, mut space) = lone_windows(&[2]);
    let size = IntSize { w: 640, h: 480 };
    let key = arena.take_key();
    let mut window = Window::new(1);
    window.size = size;
    space.add_tile(
        &mut arena,
        Tile::new(key, window),
        false,
        geometry(100.0, 100.0, 400.0, 300.0),
        SCREEN,
    );
    let before: Vec<FloatingGeometry> =
        stack(&arena).into_iter().map(|root| arena.floating_geometry(root).unwrap()).collect();
    let order = stack(&arena);
    let at = rect(100.0, 100.0, 400.0, 300.0).loc;
    assert!(!space.set_fullscreen(&mut arena, 1, true, at));
    assert!(space.has_fullscreen_window(&arena));
    assert_eq!(
        arena.get_tile(key).unwrap().request,
        Some(TileRequest::Fullscreen { animate: true })
    );
    assert!(!space.set_fullscreen(&mut arena, 1, false, at));
    assert!(!space.has_fullscreen_window(&arena));
    assert_eq!(
        arena.get_tile(key).unwrap().request,
        Some(TileRequest::WindowSize { size, animate: true })
    );
    assert_eq!(stack(&arena), order);
    let after: Vec<FloatingGeometry> =
        stack(&arena).into_iter().map(|root| arena.floating_geometry(root).unwrap()).collect();
    assert_eq!(after, before);
}

#[test]
fn fullscreen_is_handed_over_in_two_steps() {
    let (mut arena, mut space) = lone_windows(&[1, 2]);
    let at = rect(100.0, 100.0, 400.0, 300.0).loc;
    assert!(!space.set_fullscreen(&mut arena, 1, true, at));
    while arena.take_arrange().is_some() {}
    assert!(space.set_fullscreen(&mut arena, 2, true, at));
    assert!(!space.has_fullscreen_window(&arena));
    assert_eq!(arena.take_arrange(), Some(ArrangeScope::Workspace));
    assert!(!space.set_fullscreen(&mut arena, 2, true, at));
    assert!(space.is_fullscreen(&arena, 2));
}

#[test]
fn the_floating_side_lists_what_floats() {
    let mut arena = workspace();
    let mut space = FloatingSpace::new();
    assert!(space.is_empty(&arena));
    assert!(space.tiles(&arena).is_empty());
    assert!(space.active_window(&arena).is_none());
    let tiled = tile(&mut arena, 7);
    arena.insert_window(tiled, true);
    assert!(space.is_empty(&arena));
    assert!(!space.has_window(&arena, 7));
    float(&mut space, &mut arena, 1);
    assert!(!space.is_empty(&arena));
    assert_eq!(space.tiles(&arena).len(), 1);
    assert!(space.has_window(&arena, 1));
    assert_eq!(space.active_window(&arena).unwrap().window.id, 1);
    assert!(space.verify_invariants(&arena, 0, 0));
    assert!(space.remove_active_tile(&mut arena).is_some());
    assert!(space.is_empty(&arena));
    assert!(space.remove_active_tile(&mut arena).is_none());
}

#[test]
fn marks_outlive_a_stay_elsewhere() {
    let (mut arena, mut space) = lone_windows(&[1, 2]);
    let key = arena.window_key(1).unwrap();
    assert!(arena.add_mark_to_node(key, "a".to_string()));
    let removed = space.remove_tile(&mut arena, 1);
    assert_eq!(removed.tile.marks, vec!["a".to_string()]);
    assert_eq!(arena.node_with_mark(&"a".to_string()), None);
    space.add_tile_with_restore_hint(
        &mut arena,
        removed.tile,
        false,
        geometry(100.0, 100.0, 400.0, 300.0),
        SCREEN,
    );
    assert_eq!(arena.node_with_mark(&"a".to_string()), Some(key));
}

#[test]
fn a_restored_window_is_listed_where_it_was() {
    let mut arena = workspace();
    let mut space = FloatingSpace::new();
    float(&mut space, &mut arena, 1);
    space.split_vertical(&mut arena);
    for id in [2, 3] {
        let t = tile(&mut arena, id);
        assert!(space.add_tile_to_active_container(&mut arena, t, true, true));
    }
    float(&mut space, &mut arena, 9);
    let listed = |space: &FloatingSpace, arena: &ContainerArena| -> Vec<u64> {
        space.tiles(arena).iter().map(|t| t.window.id).collect()
    };
    assert_eq!(listed(&space, &arena), vec![9, 1, 2, 3]);
    for id in [1, 2, 3] {
        let removed = space.remove_tile(&mut arena, id);
        assert_eq!(listed(&space, &arena).len(), 3);
        space.add_tile_with_restore_hint(
            &mut arena,
            removed.tile,
            false,
            geometry(0.0, 0.0, 400.0, 300.0),
            SCREEN,
        );
        assert_eq!(listed(&space, &arena), vec![9, 1, 2, 3]);
        assert_eq!(stack(&arena).len(), 2);
    }
}

#[test]
fn tiles_change_in_place() {
    let (mut arena, mut space) = lone_windows(&[1, 2]);
    let key = arena.window_key(1).unwrap();
    // From the top down: 2, then 1.
    space.tiles_mut(&mut arena, 1).unwrap().is_sticky = true;
    assert!(arena.get_tile(key).unwrap().is_sticky);
    assert!(!space.active_window(&arena).unwrap().is_sticky);
    assert!(space.tiles_mut(&mut arena, 2).is_none());
    space.active_window_mut(&mut arena).unwrap().window.urgent = true;
    assert!(space.active_window(&arena).unwrap().window.urgent);
    assert!(!arena.get_tile(key).unwrap().window.urgent);
    space.remove_tile(&mut arena, 1);
    space.remove_tile(&mut arena, 2);
    assert!(space.active_window_mut(&mut arena).is_none());
}
