//! Windows and the tiles that hold them, as the tree sees them.

use crate::axis::{Layout, NodeKey};
use crate::cache::LeafDecor;
use crate::measure::{IntSize, NodeSizing, Point, Real, Size};
use vstd::prelude::*;

verus! {

/// Identity of a window.
pub type WindowId = u64;

/// How a window is sized on its output.
#[derive(Debug, Clone, Copy, PartialEq, Eq, Structural)]
pub enum SizingMode {
    Normal,
    Maximized,
    Fullscreen,
}

/// From what a window is blocked out.
#[derive(Debug, Clone, Copy, PartialEq, Eq, Structural)]
pub enum BlockOutFrom {
    Screencast,
    ScreenCapture,
}

/// Where a node sat in its branch, so that it can be put back there.
#[derive(Debug)]
pub struct InsertParentInfo {
    pub parent_path: Vec<usize>,
    pub insert_idx: usize,
    pub layout: Layout,
}

/// The place a window had in a floating group: the group, and the slot inside it when it was
/// not the whole group.
#[derive(Debug)]
pub struct ReinsertHint {
    pub root_id: u64,
    pub info: Option<InsertParentInfo>,
}

/// What was asked of a window and not yet delivered to its client.
#[derive(Debug, Clone, Copy, PartialEq, Eq, Structural)]
pub enum TileRequest {
    /// The box of its tile.
    TileSize { tile_size: Size, animate: bool },
    /// A size in whole pixels, once.
    WindowSize { size: IntSize, animate: bool },
    /// To fill the output.
    Fullscreen { animate: bool },
}

/// What the tree reads of a window.
#[derive(Debug)]
pub struct Window {
    pub id: WindowId,
    /// The window this one is a dialog of.
    pub parent: Option<WindowId>,
    pub title: Option<String>,
    pub app_id: Option<String>,
    pub pid: Option<i32>,
    pub urgent: bool,
    pub block_out_from: Option<BlockOutFrom>,
    pub min_size: IntSize,
    pub max_size: IntSize,
    pub natural_size: IntSize,
    /// The size of its last commit.
    pub size: IntSize,
    /// The size it was asked for and has yet to commit.
    pub expected_size: Option<IntSize>,
    pub sizing_mode: SizingMode,
}

/// A window in the tree, with the state it keeps while it moves through it.
#[derive(Debug)]
pub struct Tile {
    pub key: NodeKey,
    pub window: Window,
    pub sizing: NodeSizing,
    pub size: Size,
    pub decor: LeafDecor,
    pub request: Option<TileRequest>,
    pub floating_window_size: Option<IntSize>,
    pub floating_pos: Option<Point>,
    pub floating_reinsert_hint: Option<ReinsertHint>,
    pub floating_preset_width_idx: Option<usize>,
    pub floating_preset_height_idx: Option<usize>,
    pub is_sticky: bool,
    pub is_scratchpad: bool,
    /// Whether anything about the tile is being animated.
    pub is_animating: bool,
    /// Whether the tile itself is being brought in, out or elsewhere.
    pub is_transitioning: bool,
    /// Whether the tile is on its way to another workspace.
    pub is_moving_between_workspaces: bool,
    /// The marks of the window, which go wherever its tile goes.
    pub marks: Vec<String>,
}

/// [`InsertParentInfo`] as a value.
pub struct Slot {
    pub parent_path: Seq<usize>,
    pub insert_idx: usize,
    pub layout: Layout,
}

/// [`ReinsertHint`] as a value.
pub struct Hint {
    pub root_id: u64,
    pub info: Option<Slot>,
}

/// [`Window`] as a value.
pub struct WindowState {
    pub id: WindowId,
    pub parent: Option<WindowId>,
    pub title: Option<Seq<char>>,
    pub app_id: Option<Seq<char>>,
    pub pid: Option<i32>,
    pub urgent: bool,
    pub block_out_from: Option<BlockOutFrom>,
    pub min_size: IntSize,
    pub max_size: IntSize,
    pub natural_size: IntSize,
    pub size: IntSize,
    pub expected_size: Option<IntSize>,
    pub sizing_mode: SizingMode,
}

/// [`Tile`] as a value.
pub struct TileState {
    pub key: NodeKey,
    pub window: WindowState,
    pub sizing: NodeSizing,
    pub size: Size,
    pub decor: LeafDecor,
    pub request: Option<TileRequest>,
    pub floating_window_size: Option<IntSize>,
    pub floating_pos: Option<Point>,
    pub floating_reinsert_hint: Option<Hint>,
    pub floating_preset_width_idx: Option<usize>,
    pub floating_preset_height_idx: Option<usize>,
    pub is_sticky: bool,
    pub is_scratchpad: bool,
    pub is_animating: bool,
    pub is_transitioning: bool,
    pub is_moving_between_workspaces: bool,
    pub marks: Seq<Seq<char>>,
}

pub open spec fn text_state(text: Option<String>) -> Option<Seq<char>> {
    match text {
        Some(s) => Some(s@),
        None => None,
    }
}

/// Marks by what they read.
pub open spec fn marks_state(marks: Seq<String>) -> Seq<Seq<char>> {
    Seq::new(marks.len(), |i: int| marks[i]@)
}

impl View for InsertParentInfo {
    type V = Slot;

    open spec fn view(&self) -> Slot {
        Slot { parent_path: self.parent_path@, insert_idx: self.insert_idx, layout: self.layout }
    }
}

pub open spec fn slot_state(info: Option<InsertParentInfo>) -> Option<Slot> {
    match info {
        Some(info) => Some(info@),
        None => None,
    }
}

impl View for ReinsertHint {
    type V = Hint;

    open spec fn view(&self) -> Hint {
        Hint { root_id: self.root_id, info: slot_state(self.info) }
    }
}

pub open spec fn hint_state(hint: Option<ReinsertHint>) -> Option<Hint> {
    match hint {
        Some(hint) => Some(hint@),
        None => None,
    }
}

impl View for Window {
    type V = WindowState;

    open spec fn view(&self) -> WindowState {
        WindowState {
            id: self.id,
            parent: self.parent,
            title: text_state(self.title),
            app_id: text_state(self.app_id),
            pid: self.pid,
            urgent: self.urgent,
            block_out_from: self.block_out_from,
            min_size: self.min_size,
            max_size: self.max_size,
            natural_size: self.natural_size,
            size: self.size,
            expected_size: self.expected_size,
            sizing_mode: self.sizing_mode,
        }
    }
}

impl View for Tile {
    type V = TileState;

    open spec fn view(&self) -> TileState {
        TileState {
            key: self.key,
            window: self.window@,
            sizing: self.sizing,
            size: self.size,
            decor: self.decor,
            request: self.request,
            floating_window_size: self.floating_window_size,
            floating_pos: self.floating_pos,
            floating_reinsert_hint: hint_state(self.floating_reinsert_hint),
            floating_preset_width_idx: self.floating_preset_width_idx,
            floating_preset_height_idx: self.floating_preset_height_idx,
            is_sticky: self.is_sticky,
            is_scratchpad: self.is_scratchpad,
            is_animating: self.is_animating,
            is_transitioning: self.is_transitioning,
            is_moving_between_workspaces: self.is_moving_between_workspaces,
            marks: marks_state(self.marks@),
        }
    }
}

impl TileState {
    pub open spec fn with_sizing(self, sizing: NodeSizing) -> TileState {
        TileState { sizing, ..self }
    }
}

impl TileRequest {
    /// The sizing mode a window is in once it was asked.
    pub open spec fn mode(self) -> SizingMode {
        match self {
            TileRequest::Fullscreen { .. } => SizingMode::Fullscreen,
            _ => SizingMode::Normal,
        }
    }
}

impl TileState {
    /// The tile once something was asked of it.
    pub open spec fn asked(self, request: TileRequest) -> TileState {
        TileState {
            request: Some(request),
            window: WindowState { sizing_mode: request.mode(), ..self.window },
            ..self
        }
    }
}

impl WindowState {
    /// Whether this window is a dialog of `parent`.
    pub open spec fn child_of(self, parent: WindowState) -> bool {
        self.parent == Some(parent.id)
    }
}

impl Window {
    /// A window with nothing set but its identity.
    pub fn new(id: WindowId) -> (r: Window)
        ensures
            r@ == (WindowState {
                id,
                parent: None,
                title: None,
                app_id: None,
                pid: None,
                urgent: false,
                block_out_from: None,
                min_size: IntSize { w: 0, h: 0 },
                max_size: IntSize { w: 0, h: 0 },
                natural_size: IntSize { w: 0, h: 0 },
                size: IntSize { w: 0, h: 0 },
                expected_size: None,
                sizing_mode: SizingMode::Normal,
            }),
    {
        Window {
            id,
            parent: None,
            title: None,
            app_id: None,
            pid: None,
            urgent: false,
            block_out_from: None,
            min_size: IntSize { w: 0, h: 0 },
            max_size: IntSize { w: 0, h: 0 },
            natural_size: IntSize { w: 0, h: 0 },
            size: IntSize { w: 0, h: 0 },
            expected_size: None,
            sizing_mode: SizingMode::Normal,
        }
    }

    pub fn is_child_of(&self, parent: &Window) -> (r: bool)
        ensures
            r == self@.child_of(parent@),
    {
        match self.parent {
            Some(id) => id == parent.id,
            None => false,
        }
    }
}

impl Tile {
    /// Asks something of the window; the client is told when the request is delivered.
    pub fn ask(&mut self, request: TileRequest)
        ensures
            final(self)@ == old(self)@.asked(request),
    {
        self.request = Some(request);
        self.window.sizing_mode = match request {
            TileRequest::Fullscreen { .. } => SizingMode::Fullscreen,
            TileRequest::TileSize { .. } | TileRequest::WindowSize { .. } => SizingMode::Normal,
        };
    }

    pub open spec fn spec_new(key: NodeKey, window: WindowState) -> TileState {
        TileState {
            key,
            window,
            sizing: NodeSizing::spec_new(),
            size: Size::spec_zero(),
            decor: LeafDecor {
                tab_bar_offset: Real::spec_zero(),
                draw_titlebar: false,
                in_tabbed_context: false,
            },
            request: None,
            floating_window_size: None,
            floating_pos: None,
            floating_reinsert_hint: None,
            floating_preset_width_idx: None,
            floating_preset_height_idx: None,
            is_sticky: false,
            is_scratchpad: false,
            is_animating: false,
            is_transitioning: false,
            is_moving_between_workspaces: false,
            marks: Seq::empty(),
        }
    }

    /// A tile around a window, under the identity it will have in every tree.
    pub fn new(key: NodeKey, window: Window) -> (r: Tile)
        ensures
            r@ == Tile::spec_new(key, window@),
    {
        let r = Tile {
            key,
            window,
            sizing: NodeSizing::new(),
            size: crate::measure::Rect::zero().size,
            decor: LeafDecor {
                tab_bar_offset: Real::zero(),
                draw_titlebar: false,
                in_tabbed_context: false,
            },
            request: None,
            floating_window_size: None,
            floating_pos: None,
            floating_reinsert_hint: None,
            floating_preset_width_idx: None,
            floating_preset_height_idx: None,
            is_sticky: false,
            is_scratchpad: false,
            is_animating: false,
            is_transitioning: false,
            is_moving_between_workspaces: false,
            marks: Vec::new(),
        };
        assert(r@.marks =~= Seq::empty());
        r
    }
}

} // verus!
