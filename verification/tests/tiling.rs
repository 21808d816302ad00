use tiri_layout::arena::ContainerArena;
use tiri_layout::axis::{Direction, Layout, NodeKey};
use tiri_layout::cache::ArrangeScope;
use tiri_layout::column::Column;
use tiri_layout::commit::{BranchLayout, LayoutRequest};
use tiri_layout::measure::{IntSize, Point, Real, Rect, Size};
use tiri_layout::split::LayoutCycleEntry;
use tiri_layout::tabs::BarBox;
use tiri_layout::tile::{Tile, Window};
use tiri_layout::tree::ArenaOptions;

fn bits_of(x: f64) -> Real {
    Real { bits: x.to_bits() }
}

fn rect(x: f64, y: f64, w: f64, h: f64) -> Rect {
    Rect {
        loc: Point { x: bits_of(x), y: bits_of(y) },
        size: Size { w: bits_of(w), h: bits_of(h) },
    }
}

fn options(autotile: bool) -> ArenaOptions {
    ArenaOptions {
        autotile,
        animations_off: false,
        view_size: Size { w: bits_of(1920.0), h: bits_of(1080.0) },
        working_area: rect(0.0, 0.0, 1920.0, 1080.0),
    }
}

/// How far the shares of the children of each split are from a whole.
fn deviations(arena: &ContainerArena) -> Vec<(NodeKey, Real)> {
    let mut out = Vec::new();
    for key in arena.live_keys() {
        if arena.get_container(key).is_some() {
            let sum: f64 =
                arena.child_percents(key).iter().map(|share| f64::from_bits(share.bits)).sum();
            out.push((key, bits_of((sum - 1.0).abs())));
        }
    }
    out
}

/// Whether the tree is sound once every split has divided its span evenly.
fn sound(arena: &mut ContainerArena) -> bool {
    for key in arena.live_keys() {
        let count = arena.child_percents(key).len();
        if count > 0 {
            arena.recalculate_child_percents(key, bits_of(1.0 / count as f64));
        }
    }
    arena.verify_invariants(&deviations(arena))
}

fn workspace() -> ContainerArena {
    ContainerArena::new(1, options(false))
}

fn tile(arena: &mut ContainerArena, id: u64) -> Tile {
    let key = arena.take_key();
    Tile::new(key, Window::new(id))
}

fn open(arena: &mut ContainerArena, id: u64) -> NodeKey {
    let tile = tile(arena, id);
    let key = tile.key;
    arena.insert_window(tile, true);
    key
}

fn shape_of(arena: &ContainerArena, key: NodeKey) -> String {
    if let Some(tile) = arena.get_tile(key) {
        return format!("{}", tile.window.id);
    }
    let container = arena.get_container(key).unwrap();
    let letter = match container.layout() {
        Layout::SplitH => "H",
        Layout::SplitV => "V",
        Layout::Tabbed => "T",
        Layout::Stacked => "S",
    };
    let kids: Vec<String> =
        container.children().iter().map(|k| shape_of(arena, *k)).collect();
    format!("{}[{}]", letter, kids.join(" "))
}

fn shape(arena: &ContainerArena) -> String {
    shape_of(arena, arena.workspace_root())
}

#[test]
fn an_empty_workspace_is_sound() {
    let mut arena = workspace();
    assert!(arena.is_empty());
    assert!(sound(&mut arena));
    assert_eq!(shape(&arena), "H[]");
    assert_eq!(arena.window_count(), 0);
    assert_eq!(arena.focused_window_id(), None);
    assert_eq!(arena.debug_tree(), "SplitH\n");
}

#[test]
fn windows_open_beside_the_focused_one() {
    let mut arena = workspace();
    let a = open(&mut arena, 1);
    open(&mut arena, 2);
    assert_eq!(shape(&arena), "H[1 2]");
    assert_eq!(arena.focused_window_id(), Some(2));
    arena.focus_node_key(a);
    open(&mut arena, 3);
    assert_eq!(shape(&arena), "H[1 3 2]");
    assert_eq!(arena.focused_window_id(), Some(3));
    assert!(sound(&mut arena));
    assert_eq!(arena.all_window_ids(), vec![1, 3, 2]);
    assert_eq!(arena.debug_tree(), "SplitH\n  Window 1\n  Window 3 *\n  Window 2\n");
}

#[test]
fn a_split_gives_a_window_a_container() {
    let mut arena = workspace();
    open(&mut arena, 1);
    open(&mut arena, 2);
    open(&mut arena, 3);
    assert!(arena.split_focused(Layout::SplitV));
    assert_eq!(shape(&arena), "H[1 2 V[3]]");
    open(&mut arena, 4);
    assert_eq!(shape(&arena), "H[1 2 V[3 4]]");
    assert!(arena.contains_layout(Layout::SplitV));
    assert!(!arena.contains_layout(Layout::Tabbed));
    assert!(sound(&mut arena));
}

#[test]
fn a_split_of_a_lone_window_states_the_layout() {
    let mut arena = workspace();
    open(&mut arena, 1);
    assert!(arena.split_focused(Layout::SplitV));
    assert_eq!(shape(&arena), "V[1]");
}

fn nested() -> (ContainerArena, Vec<NodeKey>) {
    let mut arena = workspace();
    let mut keys = Vec::new();
    keys.push(open(&mut arena, 1));
    keys.push(open(&mut arena, 2));
    keys.push(open(&mut arena, 3));
    arena.split_focused(Layout::SplitV);
    keys.push(open(&mut arena, 4));
    (arena, keys)
}

#[test]
fn moves_go_between_containers() {
    let (mut arena, _) = nested();
    assert!(arena.move_in_direction(Direction::Left));
    assert_eq!(shape(&arena), "H[1 2 4 V[3]]");
    assert_eq!(arena.focused_window_id(), Some(4));
    assert!(arena.move_in_direction(Direction::Right));
    assert_eq!(shape(&arena), "H[1 2 V[4 3]]");
    assert!(sound(&mut arena));
    let mut ids = arena.all_window_ids();
    ids.sort();
    assert_eq!(ids, vec![1, 2, 3, 4]);
}

#[test]
fn siblings_trade_places_on_a_move() {
    let mut arena = workspace();
    open(&mut arena, 1);
    open(&mut arena, 2);
    assert!(arena.move_in_direction(Direction::Left));
    assert_eq!(shape(&arena), "H[2 1]");
    assert!(!arena.move_in_direction(Direction::Left));
    assert_eq!(shape(&arena), "H[2 1]");
}

#[test]
fn a_move_across_the_workspace_turns_it() {
    let mut arena = workspace();
    open(&mut arena, 1);
    open(&mut arena, 2);
    assert!(arena.move_in_direction(Direction::Up));
    assert_eq!(shape(&arena), "V[2 H[1]]");
    assert!(sound(&mut arena));
}

#[test]
fn focus_steps_over_the_tree_and_wraps() {
    let (mut arena, keys) = nested();
    assert!(arena.focus_in_direction(Direction::Up));
    assert_eq!(arena.focused_window_id(), Some(3));
    assert!(arena.focus_in_direction(Direction::Left));
    assert_eq!(arena.focused_window_id(), Some(2));
    assert!(arena.focus_in_direction(Direction::Left));
    assert_eq!(arena.focused_window_id(), Some(1));
    assert!(!arena.focus_in_direction_no_wrap(Direction::Left));
    assert_eq!(arena.focused_window_id(), Some(1));
    assert!(arena.focus_in_direction(Direction::Left));
    // Back into the container, to the window last focused there.
    assert_eq!(arena.focused_window_id(), Some(3));
    assert_eq!(shape(&arena), "H[1 2 V[3 4]]");
    assert_eq!(arena.seat().order()[0], keys[2]);
}

#[test]
fn the_parent_can_be_selected_and_left_again() {
    let (mut arena, keys) = nested();
    let column = arena.parent_of(keys[3]).unwrap();
    assert!(arena.select_parent());
    assert_eq!(arena.selected_key(), Some(column));
    assert_eq!(arena.selected_container_key(), Some(column));
    assert!(arena.select_child());
    assert_eq!(arena.focused_window_id(), Some(4));
    arena.select_parent();
    arena.clear_selection();
    assert_eq!(arena.selected_key(), None);
}

#[test]
fn closing_takes_the_window_and_what_it_empties() {
    let (mut arena, keys) = nested();
    let column = arena.parent_of(keys[3]).unwrap();
    let gone = arena.remove_window(4).unwrap();
    assert_eq!(gone.window.id, 4);
    assert_eq!(shape(&arena), "H[1 2 V[3]]");
    assert!(arena.remove_window(3).is_some());
    assert_eq!(shape(&arena), "H[1 2]");
    assert!(!arena.holds_node(column));
    assert!(arena.remove_window(9).is_none());
    assert_eq!(arena.window_count(), 2);
    assert!(sound(&mut arena));
}

#[test]
fn swapping_twice_restores_the_places() {
    let (mut arena, keys) = nested();
    assert!(arena.swap_nodes(keys[0], keys[3]));
    assert_eq!(shape(&arena), "H[4 2 V[3 1]]");
    assert!(arena.swap_nodes(keys[0], keys[3]));
    assert_eq!(shape(&arena), "H[1 2 V[3 4]]");
    let column = arena.parent_of(keys[3]).unwrap();
    assert!(!arena.swap_nodes(column, keys[3]));
    assert!(!arena.swap_nodes(keys[0], keys[0]));
    assert!(sound(&mut arena));
}

#[test]
fn a_layout_command_wraps_what_the_workspace_holds() {
    let mut arena = workspace();
    open(&mut arena, 1);
    open(&mut arena, 2);
    assert!(arena.set_focused_layout(Layout::Tabbed));
    assert_eq!(shape(&arena), "H[T[1 2]]");
    // The container remembers no split yet: the screen is wide.
    assert!(arena.toggle_split_layout());
    assert_eq!(shape(&arena), "H[H[1 2]]");
    assert!(sound(&mut arena));
}

#[test]
fn toggles_cycle_through_the_layouts() {
    let (mut arena, keys) = nested();
    let target = keys[3];
    assert!(arena.toggle_split_for_target(target));
    assert_eq!(shape(&arena), "H[1 2 H[3 4]]");
    assert!(arena.toggle_split_for_target(target));
    assert_eq!(shape(&arena), "H[1 2 V[3 4]]");
    let cycle = vec![
        LayoutCycleEntry::Layout(Layout::Tabbed),
        LayoutCycleEntry::Layout(Layout::Stacked),
    ];
    assert!(arena.toggle_layout_cycle_for_target(target, &cycle));
    assert_eq!(shape(&arena), "H[1 2 T[3 4]]");
    assert!(arena.toggle_layout_cycle_for_target(target, &cycle));
    assert_eq!(shape(&arena), "H[1 2 S[3 4]]");
    assert!(arena.set_default_layout_for_target(target));
    assert_eq!(shape(&arena), "H[1 2 V[3 4]]");
    assert!(!arena.toggle_layout_cycle_for_target(target, &Vec::new()));
}

#[test]
fn split_none_flattens() {
    let (mut arena, keys) = nested();
    arena.remove_window(4);
    assert_eq!(shape(&arena), "H[1 2 V[3]]");
    let geometry = tiri_layout::tree::FloatingGeometry::zero();
    assert_eq!(arena.unsplit_target(keys[2], geometry), Some(arena.workspace_root()));
    assert_eq!(shape(&arena), "H[1 2 3]");
    assert_eq!(arena.unsplit_target(keys[2], geometry), None);
    assert!(sound(&mut arena));
}

#[test]
fn columns_move_there_and_back() {
    let (mut arena, _) = nested();
    assert_eq!(arena.root_children_len(), 3);
    assert_eq!(arena.focused_root_index(), Some(2));
    assert!(arena.move_root_child(2, 0));
    assert_eq!(shape(&arena), "H[V[3 4] 1 2]");
    assert!(arena.move_root_child(0, 2));
    assert_eq!(shape(&arena), "H[1 2 V[3 4]]");
    assert!(!arena.move_root_child(0, 3));
    assert!(arena.focus_root_child(0));
    assert_eq!(arena.focused_window_id(), Some(1));
}

#[test]
fn addresses_lead_back() {
    let (arena, keys) = nested();
    assert_eq!(arena.find_node_path(keys[0]), Some(vec![0]));
    assert_eq!(arena.find_node_path(keys[3]), Some(vec![2, 1]));
    for key in &keys {
        let path = arena.find_node_path(*key).unwrap();
        assert_eq!(arena.get_node_key_at_path(&path), Some(*key));
    }
    assert_eq!(arena.get_node_key_at_path(&vec![5]), None);
    assert_eq!(arena.focus_path(), vec![2, 1]);
    let info = arena.insert_parent_info_for_window(4).unwrap();
    assert_eq!(info.parent_path, vec![2]);
    assert_eq!(info.insert_idx, 1);
    assert_eq!(info.layout, Layout::SplitV);
}

#[test]
fn a_subtree_moves_to_another_workspace() {
    let (mut arena, keys) = nested();
    let column = arena.parent_of(keys[3]).unwrap();
    let (subtree, slot) = arena.take_subtree_at(column).unwrap();
    assert_eq!(shape(&arena), "H[1 2]");
    assert!(slot.is_some());
    assert!(sound(&mut arena));
    let ids: Vec<u64> = subtree.tiles().iter().map(|t| t.window.id).collect();
    assert_eq!(ids, vec![3, 4]);

    let mut other = ContainerArena::new(1000, options(false));
    open(&mut other, 9);
    other.insert_subtree_at_root(0, subtree, true);
    assert_eq!(shape(&other), "H[V[3 4] 9]");
    assert_eq!(other.parent_of(keys[3]), Some(column));
    assert_eq!(other.focused_window_id(), Some(4));
    assert!(sound(&mut other));
}

#[test]
fn a_container_coming_to_an_empty_workspace_becomes_it() {
    let (mut arena, keys) = nested();
    let column = arena.parent_of(keys[3]).unwrap();
    let (subtree, _) = arena.take_subtree_at(column).unwrap();
    let mut other = ContainerArena::new(1000, options(false));
    other.insert_subtree_at_root(0, subtree, true);
    assert_eq!(shape(&other), "V[3 4]");
    assert!(!other.holds_node(column));
}

#[test]
fn columns_hold_their_windows() {
    let mut arena = workspace();
    let key = arena.take_key();
    let tiles = vec![tile(&mut arena, 1), tile(&mut arena, 2), tile(&mut arena, 3)];
    let column = Column::from_tiles(key, tiles);
    assert!(column.contains(2));
    assert!(!column.contains(4));
    let ids: Vec<u64> = column.tiles().iter().map(|t| t.window.id).collect();
    assert_eq!(ids, vec![1, 2, 3]);
    let subtree = column.into_subtree();
    assert_eq!(subtree.layout, Layout::SplitV);
    let ids: Vec<u64> =
        Column::from_subtree(subtree).into_tiles().iter().map(|t| t.window.id).collect();
    assert_eq!(ids, vec![1, 2, 3]);

    let lone = tile(&mut arena, 5);
    let lone_key = lone.key;
    let column = Column::from_tiles(key, vec![lone]);
    assert_eq!(column.into_subtree().key, lone_key);
    let single = Column::new(tile(&mut arena, 6));
    assert_eq!(single.tiles().len(), 1);
}

#[test]
fn marks_are_found_and_taken_off() {
    let (mut arena, keys) = nested();
    let a = "a".to_string();
    let b = "b".to_string();
    assert!(arena.add_mark_to_node(keys[0], a.clone()));
    assert!(arena.add_mark_to_node(keys[0], b.clone()));
    assert!(arena.add_mark_to_node(keys[1], b.clone()));
    assert!(arena.node_has_mark(keys[0], &a));
    assert_eq!(arena.node_with_mark(&a), Some(keys[0]));
    assert!(arena.remove_mark_from_node(keys[0], &a));
    assert_eq!(arena.node_with_mark(&a), None);
    assert!(arena.node_has_mark(keys[0], &b));
    arena.remove_mark_everywhere(&b);
    assert_eq!(arena.node_with_mark(&b), None);
    assert_eq!(arena.node_marks(keys[0]).unwrap().len(), 0);
    let root = arena.workspace_root();
    assert!(!arena.add_mark_to_node(root, a));
}

#[test]
fn autotiling_makes_pairs() {
    let mut arena = ContainerArena::new(1, options(true));
    let a = open(&mut arena, 1);
    open(&mut arena, 2);
    // A window without a box is not split.
    assert_eq!(shape(&arena), "H[1 2]");
    let pass = BranchLayout {
        branch: arena.workspace_root(),
        data: arena.collect_branch_layout_data(
            arena.workspace_root(),
            rect(0.0, 0.0, 1920.0, 1080.0),
            &vec![
                (a, rect(0.0, 0.0, 960.0, 1080.0)),
                (arena.focused_key().unwrap(), rect(960.0, 0.0, 960.0, 1080.0)),
            ],
            bits_of(0.0),
        ),
        totals: Vec::new(),
        current: Vec::new(),
        next: Vec::new(),
        released: true,
    };
    arena.commit_layout(vec![pass], false);
    let tile = tile(&mut arena, 3);
    arena.insert_window(tile, false);
    assert_eq!(shape(&arena), "H[1 V[2 3]]");
}

#[test]
fn boxes_read_back() {
    let (mut arena, keys) = nested();
    let column = arena.parent_of(keys[3]).unwrap();
    arena.set_node_geometry(column, rect(1.0, 2.0, 3.0, 4.0));
    assert_eq!(arena.node_geometry(column), Some(rect(1.0, 2.0, 3.0, 4.0)));
    assert_eq!(
        arena.container_info(column),
        Some((Layout::SplitV, rect(1.0, 2.0, 3.0, 4.0), 2))
    );
    assert_eq!(arena.container_info(keys[0]), None);
}

#[test]
fn shares_of_children_read_back() {
    let (mut arena, keys) = nested();
    let root = arena.workspace_root();
    arena.resolve_child_percents(root, &vec![bits_of(0.5), bits_of(0.25), bits_of(0.25)]);
    assert_eq!(arena.child_percent(root, 0), Some(bits_of(0.5)));
    assert_eq!(arena.child_percents(root), vec![bits_of(0.5), bits_of(0.25), bits_of(0.25)]);
    assert_eq!(arena.child_percent(root, 3), None);
    assert!(arena.set_child_percent_pair(root, 0, 1, bits_of(0.625), bits_of(0.125)));
    assert_eq!(arena.child_percent(root, 0), Some(bits_of(0.625)));
    assert_eq!(arena.child_percent(root, 1), Some(bits_of(0.125)));
    assert_eq!(arena.node_fraction(keys[0], Layout::SplitV), Some(bits_of(0.0)));
}

#[test]
fn a_switcher_has_one_focused_tab() {
    let (mut arena, keys) = nested();
    arena.set_layout_for_target(Layout::Tabbed, keys[3]);
    assert_eq!(shape(&arena), "H[1 2 T[3 4]]");
    let column = arena.parent_of(keys[3]).unwrap();
    let boxes = vec![BarBox {
        key: column,
        rect: rect(0.0, 0.0, 100.0, 20.0),
        row_height: bits_of(20.0),
    }];
    let bars = arena.tab_bar_layouts(&boxes);
    assert_eq!(bars.len(), 1);
    assert_eq!(bars[0].path, vec![2]);
    assert_eq!(bars[0].tabs.len(), 2);
    assert_eq!(bars[0].tabs[0].title, "untitled");
    assert!(!bars[0].tabs[0].is_focused);
    assert!(bars[0].tabs[1].is_focused);
    assert_eq!(arena.window_for_tab(column, 0).unwrap().window.id, 3);
    assert!(arena.parent_is_switcher(keys[2]));
}

#[test]
fn the_published_tree_follows_the_paths() {
    let (arena, _) = nested();
    let tree = arena.layout_tree(&Vec::new());
    assert_eq!(tree.layout, Some(Layout::SplitH));
    assert_eq!(tree.children.len(), 3);
    assert_eq!(tree.children[0].window_id, Some(1));
    assert_eq!(tree.children[2].layout, Some(Layout::SplitV));
    assert_eq!(tree.children[2].path, vec![2]);
    assert_eq!(tree.children[2].children[1].window_id, Some(4));
    assert_eq!(tree.children[2].children[1].path, vec![2, 1]);
    assert!(tree.children[2].children[1].focused);
    assert!(!tree.children[0].focused);
}

#[test]
fn a_window_arrives_at_an_edge() {
    let mut arena = workspace();
    open(&mut arena, 1);
    open(&mut arena, 2);
    let tile3 = tile(&mut arena, 3);
    assert!(arena.insert_leaf_split_root(Direction::Left, tile3, true));
    assert_eq!(shape(&arena), "H[3 1 2]");
    let tile4 = tile(&mut arena, 4);
    arena.append_leaf(tile4, true);
    assert_eq!(shape(&arena), "H[3 1 2 4]");
    let tile5 = tile(&mut arena, 5);
    arena.insert_leaf_after(3, tile5, true);
    assert_eq!(shape(&arena), "H[3 5 1 2 4]");
    let tile6 = tile(&mut arena, 6);
    arena.insert_leaf_at(1, tile6, false);
    assert_eq!(shape(&arena), "H[3 6 5 1 2 4]");
    assert!(sound(&mut arena));
}

#[test]
fn closing_leaves_nothing_empty() {
    let mut arena = workspace();
    open(&mut arena, 1);
    open(&mut arena, 2);
    assert!(arena.split_focused(Layout::SplitV));
    assert!(arena.split_focused(Layout::SplitH));
    open(&mut arena, 3);
    assert!(arena.split_focused(Layout::SplitV));
    assert_eq!(shape(&arena), "H[1 H[2 V[3]]]");
    assert!(arena.remove_window(3).is_some());
    assert_eq!(shape(&arena), "H[1 H[2]]");
    assert_eq!(arena.focused_window_id(), Some(2));
    assert!(arena.remove_window(2).is_some());
    assert_eq!(shape(&arena), "H[1]");
    assert_eq!(arena.focused_window_id(), Some(1));
    assert!(sound(&mut arena));
}

#[test]
fn a_split_window_stands_alone() {
    let mut arena = workspace();
    open(&mut arena, 1);
    let k2 = open(&mut arena, 2);
    open(&mut arena, 3);
    assert!(arena.split_target(Layout::SplitV, k2));
    assert_eq!(shape(&arena), "H[1 V[2] 3]");
    assert!(arena.split_target(Layout::SplitH, k2));
    assert_eq!(shape(&arena), "H[1 H[2] 3]");
    assert!(sound(&mut arena));
}

#[test]
fn shares_must_make_up_a_whole() {
    let mut arena = workspace();
    let root = arena.workspace_root();
    open(&mut arena, 1);
    open(&mut arena, 2);
    // Neither window has a share yet.
    assert!(!arena.verify_invariants(&deviations(&arena)));
    arena.recalculate_child_percents(root, bits_of(0.5));
    assert!(arena.verify_invariants(&deviations(&arena)));
    assert!(arena.verify_invariants(&vec![(root, bits_of(0.000_001))]));
    assert!(!arena.verify_invariants(&vec![(root, bits_of(0.000_002))]));
    assert!(!arena.verify_invariants(&vec![(root, bits_of(f64::NAN))]));
    assert!(!arena.verify_invariants(&Vec::new()));
    // Tabs do not divide a span.
    assert!(arena.set_focused_layout(Layout::Tabbed));
    assert_eq!(shape(&arena), "H[T[1 2]]");
    assert!(arena.verify_invariants(&vec![(root, bits_of(0.0))]));
}

#[test]
fn paths_are_empty_for_branch_roots_only() {
    let (arena, keys) = nested();
    let root = arena.workspace_root();
    assert_eq!(arena.branch_relative_path(root), Some(Vec::new()));
    for key in &keys {
        let path = arena.branch_relative_path(*key).unwrap();
        assert!(!path.is_empty());
        assert_eq!(arena.node_at_branch_path(arena.branch_root(*key), &path), Some(*key));
    }
}

#[test]
fn every_arrange_asked_for_is_run() {
    let (mut arena, keys) = nested();
    while arena.take_arrange().is_some() {}
    let column = arena.parent_of(keys[3]).unwrap();
    arena.layout();
    arena.layout();
    arena.layout_container_subtree(column);
    assert_eq!(arena.take_arrange(), Some(ArrangeScope::Workspace));
    assert_eq!(arena.take_arrange(), Some(ArrangeScope::Subtree(column)));
    assert_eq!(arena.take_arrange(), None);
}

#[test]
fn an_arrange_wanted_meanwhile_is_caught_up_with() {
    let mut arena = workspace();
    let a = open(&mut arena, 1);
    let root = arena.workspace_root();
    while arena.take_arrange().is_some() {}
    let data = arena.collect_branch_layout_data(
        root,
        rect(0.0, 0.0, 1920.0, 1080.0),
        &vec![(a, rect(0.0, 0.0, 1920.0, 1080.0))],
        bits_of(0.0),
    );
    let request = LayoutRequest { fullscreen: false, size: IntSize { w: 1920, h: 1080 } };
    let pass = BranchLayout {
        branch: root,
        data,
        totals: Vec::new(),
        current: Vec::new(),
        next: vec![(a, request)],
        released: false,
    };
    arena.commit_layout(vec![pass], false);
    assert!(arena.has_pending_layouts());
    assert!(!arena.catch_up());
    // An arrange that comes while the branch waits is remembered.
    assert!(arena.begin_layout(ArrangeScope::Workspace).is_some());
    assert_eq!(arena.take_arrange(), None);
    arena.release_pending(root);
    assert!(arena.catch_up());
    assert!(!arena.has_pending_layouts());
    assert_eq!(arena.take_arrange(), Some(ArrangeScope::Workspace));
    assert!(!arena.catch_up());
}

#[test]
fn spans_are_recorded_in_their_branch_only() {
    let (mut arena, keys) = nested();
    let root = arena.workspace_root();
    let column = arena.parent_of(keys[3]).unwrap();
    let before = arena.node_sizing(keys[3]);
    arena.record_child_totals(&vec![(column, bits_of(700.0))], column);
    assert_eq!(arena.node_sizing(keys[3]), before);
    arena.record_child_totals(&vec![(column, bits_of(700.0))], root);
    assert_eq!(
        arena.node_sizing(keys[3]).unwrap().child_total(Layout::SplitV),
        bits_of(700.0)
    );
}

#[test]
fn marks_travel() {
    let (mut arena, keys) = nested();
    let column = arena.parent_of(keys[3]).unwrap();
    assert!(arena.add_mark_to_node(keys[3], "window".to_string()));
    assert!(arena.add_mark_to_node(column, "split".to_string()));
    let (subtree, _) = arena.take_subtree_at(column).unwrap();
    assert_eq!(subtree.marks, vec!["split".to_string()]);
    let mut other = ContainerArena::new(1000, options(false));
    open(&mut other, 9);
    other.insert_subtree_at_root(0, subtree, true);
    assert!(other.node_has_mark(keys[3], &"window".to_string()));
    assert!(other.node_has_mark(column, &"split".to_string()));
    assert_eq!(other.node_with_mark(&"window".to_string()), Some(keys[3]));

    // A window keeps its marks on its own, too.
    let tile = other.remove_window(4).unwrap();
    assert_eq!(tile.marks, vec!["window".to_string()]);
    arena.insert_window(tile, true);
    assert!(arena.node_has_mark(keys[3], &"window".to_string()));
    arena.remove_mark_everywhere(&"window".to_string());
    assert!(!arena.node_has_mark(keys[3], &"window".to_string()));
}
