use tiri_layout::measure::Real;
use tiri_layout::ring::{
    container_selection_config, BorderConfig, Color, FocusRing, FocusRingConfig, FocusRingEdges,
    FocusRingIndicatorEdge, FocusRingState, Gradient, GradientRelativeTo, Paint, Palette,
};

fn bits_of(x: f64) -> Real {
    Real { bits: x.to_bits() }
}

fn color(n: u32) -> Color {
    Color { r: n, g: n + 1, b: n + 2, a: n + 3 }
}

fn palette(n: u32) -> Palette {
    Palette {
        base: Paint { color: color(n), gradient: None },
        indicator: Paint { color: color(n + 10), gradient: None },
    }
}

fn gradient(n: u32, relative_to: GradientRelativeTo) -> Gradient {
    Gradient { from: color(n), to: color(n + 5), angle: 45, relative_to, interpolation: 0 }
}

fn default_ring() -> FocusRingConfig {
    FocusRingConfig {
        off: false,
        width: bits_of(4.0),
        active: palette(100),
        inactive: palette(200),
        focused_inactive: palette(300),
        urgent: palette(400),
    }
}

fn default_border() -> BorderConfig {
    BorderConfig {
        off: true,
        width: bits_of(4.0),
        active: palette(500),
        inactive: palette(600),
        focused_inactive: palette(700),
        urgent: palette(800),
    }
}

#[test]
fn container_selection_prefers_focus_ring_when_visible() {
    let focus = FocusRingConfig { off: false, width: bits_of(3.0), ..default_ring() };

    let border = default_border();
    let selected = container_selection_config(focus, border);
    assert_eq!(selected, focus);
}

#[test]
fn container_selection_falls_back_to_border_when_focus_ring_off() {
    let focus = FocusRingConfig { off: true, width: bits_of(3.0), ..default_ring() };

    let border = BorderConfig { off: false, ..default_border() };

    let selected = container_selection_config(focus, border);
    assert_eq!(selected, border.into_ring());
}

#[test]
fn container_selection_falls_back_to_border_when_focus_ring_zero_width() {
    let focus = FocusRingConfig { off: false, width: bits_of(0.0), ..default_ring() };

    let border = BorderConfig { off: false, ..default_border() };

    let selected = container_selection_config(focus, border);
    assert_eq!(selected, border.into_ring());
}

#[test]
fn a_width_below_zero_or_not_a_number_is_not_visible() {
    let border = default_border();
    for width in [-1.0, -0.0, f64::NAN] {
        let focus = FocusRingConfig { width: bits_of(width), ..default_ring() };
        assert_eq!(container_selection_config(focus, border), border.into_ring());
    }
}

#[test]
fn the_border_keeps_its_colours_as_a_ring() {
    let ring = default_border().into_ring();
    assert!(ring.off);
    assert_eq!(ring.width, bits_of(4.0));
    assert_eq!(ring.active, palette(500));
    assert_eq!(ring.inactive, palette(600));
    assert_eq!(ring.focused_inactive, palette(700));
    assert_eq!(ring.urgent, palette(800));
}

#[test]
fn a_border_draws_edges_and_the_corners_between_them() {
    let mut ring = FocusRing::new(default_ring());
    ring.update_render_elements(FocusRingState::Focused, true, FocusRingEdges::all(), None, false);
    assert_eq!(ring.render(), vec![0, 1, 2, 3, 4, 5, 6, 7]);

    let untopped = FocusRingEdges { top: false, ..FocusRingEdges::all() };
    ring.update_render_elements(FocusRingState::Focused, true, untopped, None, false);
    assert_eq!(ring.render(), vec![1, 2, 3, 6, 7]);

    ring.update_render_elements(FocusRingState::Focused, true, FocusRingEdges::none(), None, false);
    assert_eq!(ring.render(), Vec::<usize>::new());
}

#[test]
fn a_ring_behind_the_window_is_one_segment() {
    let mut ring = FocusRing::new(default_ring());
    assert_eq!(ring.render(), vec![0]);
    ring.update_render_elements(
        FocusRingState::Focused,
        false,
        FocusRingEdges { top: true, ..FocusRingEdges::none() },
        Some(FocusRingIndicatorEdge::Top),
        false,
    );
    assert_eq!(ring.render(), vec![0]);
    // Only a border has an indicator.
    assert_eq!(ring.segment_paint(0).color, color(100));
    ring.update_render_elements(FocusRingState::Focused, false, FocusRingEdges::none(), None, false);
    assert_eq!(ring.render(), Vec::<usize>::new());
}

#[test]
fn nothing_is_drawn_when_off_or_without_width() {
    let mut ring = FocusRing::new(FocusRingConfig { off: true, ..default_ring() });
    ring.update_render_elements(FocusRingState::Focused, true, FocusRingEdges::all(), None, false);
    assert!(ring.is_off());
    assert_eq!(ring.render(), Vec::<usize>::new());

    let mut ring = FocusRing::new(FocusRingConfig { width: bits_of(0.0), ..default_ring() });
    ring.update_render_elements(FocusRingState::Focused, true, FocusRingEdges::all(), None, false);
    assert_eq!(ring.render(), Vec::<usize>::new());
    // Behind the window a ring without width is still its segment.
    ring.update_render_elements(FocusRingState::Focused, false, FocusRingEdges::all(), None, false);
    assert_eq!(ring.render(), vec![0]);
}

#[test]
fn a_new_width_shows_at_the_next_update() {
    let mut ring = FocusRing::new(FocusRingConfig { width: bits_of(0.0), ..default_ring() });
    ring.update_render_elements(FocusRingState::Focused, true, FocusRingEdges::all(), None, false);
    ring.update_config(default_ring());
    assert_eq!(ring.width(), bits_of(4.0));
    assert_eq!(ring.config().width, bits_of(4.0));
    assert_eq!(ring.render(), Vec::<usize>::new());
    ring.update_render_elements(FocusRingState::Focused, true, FocusRingEdges::all(), None, false);
    assert_eq!(ring.render().len(), 8);
}

#[test]
fn the_state_chooses_the_colours() {
    let mut ring = FocusRing::new(default_ring());
    for (state, n) in [
        (FocusRingState::Focused, 100),
        (FocusRingState::Unfocused, 200),
        (FocusRingState::FocusedInactive, 300),
        (FocusRingState::Urgent, 400),
    ] {
        ring.update_render_elements(
            state,
            true,
            FocusRingEdges::all(),
            Some(FocusRingIndicatorEdge::Right),
            false,
        );
        assert_eq!(ring.segment_paint(0).color, color(n));
        assert_eq!(ring.segment_paint(3).color, color(n + 10));
        assert_eq!(ring.segment_paint(5).color, color(n));
    }
}

#[test]
fn a_focused_window_that_is_not_active_borrows_gradients() {
    let mut config = default_ring();
    let own = gradient(1, GradientRelativeTo::WorkspaceView);
    let lent = gradient(2, GradientRelativeTo::Window);
    config.inactive.base.gradient = Some(lent);
    let mut ring = FocusRing::new(config);
    ring.update_render_elements(
        FocusRingState::FocusedInactive,
        true,
        FocusRingEdges::all(),
        None,
        false,
    );
    assert_eq!(ring.segment_paint(0).gradient, Some(lent));
    assert_eq!(ring.segment_paint(0).color, color(300));
    assert_eq!(ring.segment_paint(0).area(), GradientRelativeTo::Window);
    assert!(ring.draws_with_shader(true));
    assert!(!ring.draws_with_shader(false));

    config.focused_inactive.base.gradient = Some(own);
    ring.update_config(config);
    ring.update_render_elements(
        FocusRingState::FocusedInactive,
        true,
        FocusRingEdges::all(),
        None,
        false,
    );
    assert_eq!(ring.segment_paint(0).gradient, Some(own));
    assert_eq!(ring.segment_paint(0).area(), GradientRelativeTo::WorkspaceView);
}

#[test]
fn round_corners_want_the_shader() {
    let mut ring = FocusRing::new(default_ring());
    ring.update_render_elements(FocusRingState::Focused, true, FocusRingEdges::all(), None, false);
    assert!(!ring.draws_with_shader(true));
    ring.update_render_elements(FocusRingState::Focused, true, FocusRingEdges::all(), None, true);
    assert!(ring.draws_with_shader(true));
    assert!(ring.thickens_corners());
    ring.set_thicken_corners(false);
    assert!(!ring.thickens_corners());
}

#[test]
fn the_selection_ring_is_a_border_on_all_sides() {
    let ring = FocusRing::for_selection(true, default_ring(), default_border(), bits_of(2.0));
    assert_eq!(ring.width(), bits_of(2.0));
    assert_eq!(ring.render().len(), 8);
    assert_eq!(ring.segment_paint(0).color, color(100));
    let ring = FocusRing::for_selection(false, default_ring(), default_border(), bits_of(2.0));
    assert_eq!(ring.segment_paint(0).color, color(300));
}

#[test]
fn indicator_edges_name_their_segments() {
    assert_eq!(FocusRingIndicatorEdge::Top.segment(), 0);
    assert_eq!(FocusRingIndicatorEdge::Bottom.segment(), 1);
    assert_eq!(FocusRingIndicatorEdge::Left.segment(), 2);
    assert_eq!(FocusRingIndicatorEdge::Right.segment(), 3);
}
