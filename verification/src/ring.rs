//! The ring drawn around a window or a selected container: what it is painted with and which of
//! its segments show.

use crate::measure::Real;
use vstd::prelude::*;

verus! {

/// A colour, each channel held by the bit pattern of a single.
#[derive(Debug, Clone, Copy, PartialEq, Eq, Structural)]
pub struct Color {
    pub r: u32,
    pub g: u32,
    pub b: u32,
    pub a: u32,
}

/// What the area of a gradient is.
#[derive(Debug, Clone, Copy, PartialEq, Eq, Structural)]
pub enum GradientRelativeTo {
    Window,
    WorkspaceView,
}

/// A gradient between two colours.
#[derive(Debug, Clone, Copy, PartialEq, Eq, Structural)]
pub struct Gradient {
    pub from: Color,
    pub to: Color,
    pub angle: i16,
    pub relative_to: GradientRelativeTo,
    /// How the colours in between are found; only the renderer tells the ways apart.
    pub interpolation: u8,
}

/// What one kind of segment is painted with. Without a gradient the colour is used.
#[derive(Debug, Clone, Copy, PartialEq, Eq, Structural)]
pub struct Paint {
    pub color: Color,
    pub gradient: Option<Gradient>,
}

/// What the ring of a window in one state is painted with.
#[derive(Debug, Clone, Copy, PartialEq, Eq, Structural)]
pub struct Palette {
    /// The ring itself.
    pub base: Paint,
    /// The segment that shows where the next window goes.
    pub indicator: Paint,
}

/// How focus rings are drawn.
#[derive(Debug, Clone, Copy, PartialEq, Eq, Structural)]
pub struct FocusRingConfig {
    pub off: bool,
    pub width: Real,
    pub active: Palette,
    pub inactive: Palette,
    pub focused_inactive: Palette,
    pub urgent: Palette,
}

/// How borders are drawn.
#[derive(Debug, Clone, Copy, PartialEq, Eq, Structural)]
pub struct BorderConfig {
    pub off: bool,
    pub width: Real,
    pub active: Palette,
    pub inactive: Palette,
    pub focused_inactive: Palette,
    pub urgent: Palette,
}

/// The edges of a ring that show.
#[derive(Debug, Clone, Copy, PartialEq, Eq, Structural)]
pub struct FocusRingEdges {
    pub top: bool,
    pub bottom: bool,
    pub left: bool,
    pub right: bool,
}

/// The edge painted as the indicator.
#[derive(Debug, Clone, Copy, PartialEq, Eq, Structural)]
pub enum FocusRingIndicatorEdge {
    Top,
    Bottom,
    Left,
    Right,
}

/// The state a ring shows.
#[derive(Debug, Clone, Copy, PartialEq, Eq, Structural)]
pub enum FocusRingState {
    Focused,
    FocusedInactive,
    Unfocused,
    Urgent,
}

/// A ring. A border is eight segments: the top, bottom, left and right edges, and then the
/// corners from the top left one clockwise. Drawn behind the window it is the first segment
/// alone.
#[derive(Debug, Clone, Copy, PartialEq, Eq, Structural)]
pub struct FocusRing {
    config: FocusRingConfig,
    palette: Palette,
    indicator_edge: Option<FocusRingIndicatorEdge>,
    /// The width at the last update.
    drawn_width: Real,
    is_border: bool,
    use_border_shader: bool,
    thicken_corners: bool,
    edges: FocusRingEdges,
}

/// [`FocusRing`] as a value.
pub struct Ring {
    pub config: FocusRingConfig,
    pub palette: Palette,
    pub indicator_edge: Option<FocusRingIndicatorEdge>,
    pub drawn_width: Real,
    pub is_border: bool,
    pub use_border_shader: bool,
    pub thicken_corners: bool,
    pub edges: FocusRingEdges,
}

/// The number of segments of a border.
pub const SEGMENTS: usize = 8;

impl BorderConfig {
    pub open spec fn spec_ring(self) -> FocusRingConfig {
        FocusRingConfig {
            off: self.off,
            width: self.width,
            active: self.active,
            inactive: self.inactive,
            focused_inactive: self.focused_inactive,
            urgent: self.urgent,
        }
    }

    /// A ring that looks like the border.
    pub fn into_ring(self) -> (r: FocusRingConfig)
        ensures
            r == self.spec_ring(),
    {
        FocusRingConfig {
            off: self.off,
            width: self.width,
            active: self.active,
            inactive: self.inactive,
            focused_inactive: self.focused_inactive,
            urgent: self.urgent,
        }
    }
}

/// How the selection of a container is drawn: as the focus ring when that shows at all, as the
/// border otherwise.
pub open spec fn selection_config(
    focus_ring: FocusRingConfig,
    border: BorderConfig,
) -> FocusRingConfig {
    if !focus_ring.off && focus_ring.width.positive() {
        focus_ring
    } else {
        border.spec_ring()
    }
}

/// Selects how the selection of a container is drawn: the focus ring is preferred when it is
/// visible; otherwise the border, which carries the same colours, stands in.
pub fn container_selection_config(focus_ring: FocusRingConfig, border: BorderConfig) -> (r:
    FocusRingConfig)
    ensures
        r == selection_config(focus_ring, border),
{
    if !focus_ring.off && focus_ring.width.is_positive() {
        focus_ring
    } else {
        border.into_ring()
    }
}

impl FocusRingConfig {
    /// What a ring in a state is painted with. A focused window that is not active borrows the
    /// gradient of unfocused ones where it has none of its own.
    pub open spec fn palette(self, state: FocusRingState) -> Palette {
        match state {
            FocusRingState::Urgent => self.urgent,
            FocusRingState::Focused => self.active,
            FocusRingState::Unfocused => self.inactive,
            FocusRingState::FocusedInactive => Palette {
                base: self.focused_inactive.base.or_gradient(self.inactive.base),
                indicator: self.focused_inactive.indicator.or_gradient(self.inactive.indicator),
            },
        }
    }

    fn palette_for(&self, state: FocusRingState) -> (r: Palette)
        ensures
            r == self.palette(state),
    {
        match state {
            FocusRingState::Urgent => self.urgent,
            FocusRingState::Focused => self.active,
            FocusRingState::Unfocused => self.inactive,
            FocusRingState::FocusedInactive => Palette {
                base: self.focused_inactive.base.with_gradient_of(self.inactive.base),
                indicator: self.focused_inactive.indicator.with_gradient_of(
                    self.inactive.indicator,
                ),
            },
        }
    }
}

impl Paint {
    pub open spec fn or_gradient(self, other: Paint) -> Paint {
        Paint {
            gradient: if self.gradient is Some {
                self.gradient
            } else {
                other.gradient
            },
            ..self
        }
    }

    fn with_gradient_of(self, other: Paint) -> (r: Paint)
        ensures
            r == self.or_gradient(other),
    {
        match self.gradient {
            Some(_) => self,
            None => Paint { color: self.color, gradient: other.gradient },
        }
    }

    pub open spec fn spec_area(self) -> GradientRelativeTo {
        match self.gradient {
            Some(gradient) => gradient.relative_to,
            None => GradientRelativeTo::Window,
        }
    }

    /// What the paint is spread over: a plain colour is spread over the window.
    pub fn area(self) -> (r: GradientRelativeTo)
        ensures
            r == self.spec_area(),
    {
        match self.gradient {
            Some(gradient) => gradient.relative_to,
            None => GradientRelativeTo::Window,
        }
    }
}

impl Palette {
    pub open spec fn spec_blank() -> Palette {
        let paint = Paint { color: Color { r: 0, g: 0, b: 0, a: 0 }, gradient: None };
        Palette { base: paint, indicator: paint }
    }

    /// Nothing but transparent black.
    fn blank() -> (r: Palette)
        ensures
            r == Palette::spec_blank(),
    {
        let paint = Paint { color: Color { r: 0, g: 0, b: 0, a: 0 }, gradient: None };
        Palette { base: paint, indicator: paint }
    }
}

impl FocusRingEdges {
    pub open spec fn spec_all() -> FocusRingEdges {
        FocusRingEdges { top: true, bottom: true, left: true, right: true }
    }

    pub open spec fn spec_none() -> FocusRingEdges {
        FocusRingEdges { top: false, bottom: false, left: false, right: false }
    }

    pub fn all() -> (r: Self)
        ensures
            r == FocusRingEdges::spec_all(),
    {
        FocusRingEdges { top: true, bottom: true, left: true, right: true }
    }

    pub fn none() -> (r: Self)
        ensures
            r == FocusRingEdges::spec_none(),
    {
        FocusRingEdges { top: false, bottom: false, left: false, right: false }
    }

    /// Whether a segment of a border shows: an edge by itself, a corner where both of its edges
    /// do.
    pub open spec fn spec_shows(self, segment: int) -> bool {
        if segment == 0 {
            self.top
        } else if segment == 1 {
            self.bottom
        } else if segment == 2 {
            self.left
        } else if segment == 3 {
            self.right
        } else if segment == 4 {
            self.top && self.left
        } else if segment == 5 {
            self.top && self.right
        } else if segment == 6 {
            self.bottom && self.right
        } else {
            self.bottom && self.left
        }
    }

    pub fn shows(self, segment: usize) -> (r: bool)
        requires
            segment < SEGMENTS,
        ensures
            r == self.spec_shows(segment as int),
    {
        match segment {
            0 => self.top,
            1 => self.bottom,
            2 => self.left,
            3 => self.right,
            4 => self.top && self.left,
            5 => self.top && self.right,
            6 => self.bottom && self.right,
            _ => self.bottom && self.left,
        }
    }
}

impl FocusRingIndicatorEdge {
    pub open spec fn spec_segment(self) -> int {
        match self {
            FocusRingIndicatorEdge::Top => 0,
            FocusRingIndicatorEdge::Bottom => 1,
            FocusRingIndicatorEdge::Left => 2,
            FocusRingIndicatorEdge::Right => 3,
        }
    }

    /// The segment of the edge.
    pub fn segment(self) -> (r: usize)
        ensures
            r == self.spec_segment(),
            r < SEGMENTS,
    {
        match self {
            FocusRingIndicatorEdge::Top => 0,
            FocusRingIndicatorEdge::Bottom => 1,
            FocusRingIndicatorEdge::Left => 2,
            FocusRingIndicatorEdge::Right => 3,
        }
    }
}

/// The segments below `upto` that show, in drawing order.
pub open spec fn shown_segments(edges: FocusRingEdges, upto: int) -> Seq<usize>
    decreases upto,
{
    if upto <= 0 {
        Seq::empty()
    } else if edges.spec_shows(upto - 1) {
        shown_segments(edges, upto - 1).push((upto - 1) as usize)
    } else {
        shown_segments(edges, upto - 1)
    }
}

impl Ring {
    pub open spec fn spec_new(config: FocusRingConfig) -> Ring {
        Ring {
            config,
            palette: Palette::spec_blank(),
            indicator_edge: None,
            drawn_width: Real::spec_zero(),
            is_border: false,
            use_border_shader: false,
            thicken_corners: true,
            edges: FocusRingEdges::spec_all(),
        }
    }

    /// The ring brought up to date. Only a border has an indicator. The shader is wanted for
    /// round corners and for gradients.
    pub open spec fn updated(
        self,
        state: FocusRingState,
        is_border: bool,
        edges: FocusRingEdges,
        indicator_edge: Option<FocusRingIndicatorEdge>,
        rounded: bool,
    ) -> Ring {
        let palette = self.config.palette(state);
        Ring {
            palette,
            indicator_edge: if is_border {
                indicator_edge
            } else {
                None
            },
            drawn_width: self.config.width,
            is_border,
            use_border_shader: rounded || palette.base.gradient is Some
                || palette.indicator.gradient is Some,
            edges,
            ..self
        }
    }

    /// What a segment is painted with.
    pub open spec fn paint(self, segment: int) -> Paint {
        if self.indicator_edge matches Some(edge) && edge.spec_segment() == segment {
            self.palette.indicator
        } else {
            self.palette.base
        }
    }

    /// The segments drawn. A border without width and a ring that is off have none.
    pub open spec fn segments(self) -> Seq<usize> {
        if self.config.off || (self.is_border && self.drawn_width.same(Real::spec_zero())) {
            Seq::empty()
        } else if self.is_border {
            shown_segments(self.edges, SEGMENTS as int)
        } else if self.edges == FocusRingEdges::spec_none() {
            Seq::empty()
        } else {
            seq![0usize]
        }
    }
}

impl View for FocusRing {
    type V = Ring;

    closed spec fn view(&self) -> Ring {
        Ring {
            config: self.config,
            palette: self.palette,
            indicator_edge: self.indicator_edge,
            drawn_width: self.drawn_width,
            is_border: self.is_border,
            use_border_shader: self.use_border_shader,
            thicken_corners: self.thicken_corners,
            edges: self.edges,
        }
    }
}

impl FocusRing {
    pub fn new(config: FocusRingConfig) -> (r: Self)
        ensures
            r@ == Ring::spec_new(config),
    {
        FocusRing {
            config,
            palette: Palette::blank(),
            indicator_edge: None,
            drawn_width: Real::zero(),
            is_border: false,
            use_border_shader: false,
            thicken_corners: true,
            edges: FocusRingEdges::all(),
        }
    }

    /// Takes another configuration. What is drawn follows at the next update.
    pub fn update_config(&mut self, config: FocusRingConfig)
        ensures
            final(self)@ == (Ring { config, ..old(self)@ }),
    {
        self.config = config;
    }

    /// Brings the ring up to date; `rounded` is whether the window has round corners.
    pub fn update_render_elements(
        &mut self,
        state: FocusRingState,
        is_border: bool,
        edges: FocusRingEdges,
        indicator_edge: Option<FocusRingIndicatorEdge>,
        rounded: bool,
    )
        ensures
            final(self)@ == old(self)@.updated(state, is_border, edges, indicator_edge, rounded),
    {
        let palette = self.config.palette_for(state);
        self.palette = palette;
        self.drawn_width = self.config.width;
        self.is_border = is_border;
        self.edges = edges;
        self.indicator_edge = if is_border {
            indicator_edge
        } else {
            None
        };
        self.use_border_shader = rounded || palette.base.gradient.is_some()
            || palette.indicator.gradient.is_some();
    }

    /// What a segment is painted with.
    pub fn segment_paint(&self, segment: usize) -> (r: Paint)
        requires
            segment < SEGMENTS,
        ensures
            r == self@.paint(segment as int),
    {
        match self.indicator_edge {
            Some(edge) => if edge.segment() == segment {
                self.palette.indicator
            } else {
                self.palette.base
            },
            None => self.palette.base,
        }
    }

    /// The segments to draw, in order.
    pub fn render(&self) -> (r: Vec<usize>)
        ensures
            r@ == self@.segments(),
    {
        let mut out: Vec<usize> = Vec::new();
        if self.config.off || (self.is_border && self.drawn_width.is_same(Real::zero())) {
            return out;
        }
        if self.is_border {
            let mut i: usize = 0;
            while i < SEGMENTS
                invariant
                    i <= SEGMENTS,
                    out@ == shown_segments(self.edges, i as int),
                decreases SEGMENTS - i,
            {
                if self.edges.shows(i) {
                    out.push(i);
                }
                i = i + 1;
            }
        } else if self.edges != FocusRingEdges::none() {
            out.push(0);
        }
        out
    }

    /// Whether the segments are drawn by the border shader, where the renderer has one.
    pub fn draws_with_shader(&self, has_shader: bool) -> (r: bool)
        ensures
            r == (self@.use_border_shader && has_shader),
    {
        self.use_border_shader && has_shader
    }

    /// Whether the inner corners of the border are drawn a little thicker than the border is.
    pub fn thickens_corners(&self) -> (r: bool)
        ensures
            r == (self@.is_border && self@.thicken_corners),
    {
        self.is_border && self.thicken_corners
    }

    pub fn width(&self) -> (r: Real)
        ensures
            r == self@.config.width,
    {
        self.config.width
    }

    pub fn is_off(&self) -> (r: bool)
        ensures
            r == self@.config.off,
    {
        self.config.off
    }

    pub fn set_thicken_corners(&mut self, value: bool)
        ensures
            final(self)@ == (Ring { thicken_corners: value, ..old(self)@ }),
    {
        self.thicken_corners = value;
    }

    pub fn config(&self) -> (r: &FocusRingConfig)
        ensures
            *r == self@.config,
    {
        &self.config
    }

    /// The ring around a selected container: a border on all sides, `width` being its width in
    /// whole physical pixels.
    pub fn for_selection(
        is_active: bool,
        focus_ring: FocusRingConfig,
        border: BorderConfig,
        width: Real,
    ) -> (r: Self)
        ensures
            r@ == Ring::spec_new(
                (FocusRingConfig { width, ..selection_config(focus_ring, border) }),
            ).updated(
                if is_active {
                    FocusRingState::Focused
                } else {
                    FocusRingState::FocusedInactive
                },
                true,
                FocusRingEdges::spec_all(),
                None,
                false,
            ),
    {
        let mut config = container_selection_config(focus_ring, border);
        config.width = width;
        let mut ring = FocusRing::new(config);
        let state = if is_active {
            FocusRingState::Focused
        } else {
            FocusRingState::FocusedInactive
        };
        ring.update_render_elements(state, true, FocusRingEdges::all(), None, false);
        ring
    }
}

/// A border that is on and has width draws all eight segments when every edge shows, none when
/// no edge does, and a corner only together with both of its edges.
pub proof fn law_corners_follow_their_edges(ring: Ring)
    requires
        !ring.config.off,
        ring.is_border,
        !ring.drawn_width.same(Real::spec_zero()),
    ensures
        ring.edges == FocusRingEdges::spec_all() ==> ring.segments() == seq![
            0usize,
            1usize,
            2usize,
            3usize,
            4usize,
            5usize,
            6usize,
            7usize,
        ],
        ring.edges == FocusRingEdges::spec_none() ==> ring.segments().len() == 0,
        ring.segments().contains(4) <==> ring.segments().contains(0) && ring.segments().contains(2),
        ring.segments().contains(5) <==> ring.segments().contains(0) && ring.segments().contains(3),
        ring.segments().contains(6) <==> ring.segments().contains(1) && ring.segments().contains(3),
        ring.segments().contains(7) <==> ring.segments().contains(1) && ring.segments().contains(2),
{
    reveal_with_fuel(shown_segments, 9);
    let all = seq![0usize, 1usize, 2usize, 3usize, 4usize, 5usize, 6usize, 7usize];
    if ring.edges == FocusRingEdges::spec_all() {
        assert(ring.segments() =~= all);
    }
    lemma_shown(ring.edges, 8, 0);
    lemma_shown(ring.edges, 8, 1);
    lemma_shown(ring.edges, 8, 2);
    lemma_shown(ring.edges, 8, 3);
    lemma_shown(ring.edges, 8, 4);
    lemma_shown(ring.edges, 8, 5);
    lemma_shown(ring.edges, 8, 6);
    lemma_shown(ring.edges, 8, 7);
}

pub(crate) proof fn lemma_shown(edges: FocusRingEdges, upto: int, segment: usize)
    requires
        0 <= upto <= 8,
    ensures
        shown_segments(edges, upto).contains(segment) <==> segment < upto && edges.spec_shows(
            segment as int,
        ),
    decreases upto,
{
    if upto > 0 {
        lemma_shown(edges, upto - 1, segment);
        let rest = shown_segments(edges, upto - 1);
        if edges.spec_shows(upto - 1) {
            let whole = rest.push((upto - 1) as usize);
            if rest.contains(segment) {
                let j = choose|j: int| 0 <= j < rest.len() && rest[j] == segment;
                assert(whole[j] == segment);
            }
            assert(whole[rest.len() as int] == (upto - 1) as usize);
            assert(whole.contains(segment) ==> rest.contains(segment) || segment == upto - 1) by {
                if whole.contains(segment) {
                    let j = choose|j: int| 0 <= j < whole.len() && whole[j] == segment;
                    if j < rest.len() {
                        assert(rest[j] == segment);
                    }
                }
            }
        }
    }
}

} // verus!
