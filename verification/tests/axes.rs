use tiri_layout::axis::{Direction, Layout};
use tiri_layout::fitting::{ensure_min_max_size, ensure_min_max_size_maybe_zero};
use tiri_layout::measure::{NodeSizing, Real};
use tiri_layout::upkeep::{next_preset_idx, ResizeAxis};

fn bits_of(x: f64) -> Real {
    Real { bits: x.to_bits() }
}

#[test]
fn directions_turn_around() {
    for d in [Direction::Left, Direction::Right, Direction::Up, Direction::Down] {
        assert_eq!(d.opposite().opposite(), d);
        assert_eq!(d.opposite().is_horizontal(), d.is_horizontal());
        assert_ne!(d.opposite().is_leading(), d.is_leading());
        assert_ne!(d.is_horizontal(), d.is_vertical());
        assert!(d.split_layout().is_parallel_to(d));
    }
}

#[test]
fn sibling_steps_stay_in_range_and_are_undone() {
    assert_eq!(Direction::Right.sibling_index(0, 3), Some(1));
    assert_eq!(Direction::Left.sibling_index(1, 3), Some(0));
    assert_eq!(Direction::Left.sibling_index(0, 3), None);
    assert_eq!(Direction::Down.sibling_index(2, 3), None);
}

#[test]
fn the_layout_cycle_has_four_stops() {
    let mut layout = Layout::SplitH;
    let mut seen = Vec::new();
    for _ in 0..4 {
        seen.push(layout);
        layout = layout.next_in_cycle();
    }
    assert_eq!(layout, Layout::SplitH);
    for l in [Layout::SplitH, Layout::SplitV, Layout::Tabbed, Layout::Stacked] {
        assert!(seen.contains(&l));
    }
}

#[test]
fn doubles_compare_by_their_bits() {
    assert!(bits_of(-0.0).is_same(bits_of(0.0)));
    assert!(!bits_of(f64::NAN).is_same(bits_of(f64::NAN)));
    assert!(bits_of(-1.5).is_less(bits_of(-1.0)));
    assert!(!bits_of(0.0).is_less(bits_of(-0.0)));
    assert!(bits_of(f64::INFINITY).is_positive());
    assert!(!bits_of(f64::NAN).is_positive());
    assert!(bits_of(-0.0).comes_before(bits_of(0.0)));
    assert!(bits_of(f64::INFINITY).comes_before(bits_of(f64::NAN)));
    assert_eq!(bits_of(2.5).negate(), bits_of(-2.5));
    assert_eq!(bits_of(-2.5).negate(), bits_of(2.5));
    assert!(bits_of(f64::MAX).is_finite());
    assert!(!bits_of(f64::INFINITY).is_finite());
}

#[test]
fn shares_narrow_to_singles() {
    for x in [0.1, 1.0 / 3.0, 0.5, 1.0, 123456.789, 1e-30] {
        assert_eq!(bits_of(x).narrow(), bits_of(f64::from(x as f32)));
    }
}

#[test]
fn shares_read_back_per_axis() {
    let mut sizing = NodeSizing::new();
    sizing.set_fraction(Layout::SplitH, bits_of(0.25));
    assert_eq!(sizing.fraction(Layout::SplitH), bits_of(0.25));
    assert_eq!(sizing.fraction(Layout::SplitV), bits_of(0.0));
    sizing.unset_fractions();
    assert_eq!(sizing.fraction(Layout::SplitH), bits_of(0.0));
}

#[test]
fn presets_step_around() {
    assert_eq!(next_preset_idx(3, true, Some(2), None), 0);
    assert_eq!(next_preset_idx(3, false, Some(0), None), 2);
    assert_eq!(next_preset_idx(3, true, Some(7), None), 2);
    assert_eq!(next_preset_idx(3, true, None, Some(1)), 1);
    assert_eq!(next_preset_idx(3, true, None, None), 0);
    assert_eq!(next_preset_idx(3, false, None, None), 2);
    for idx in 0..3 {
        let there = next_preset_idx(3, true, Some(idx), None);
        assert_eq!(next_preset_idx(3, false, Some(there), None), idx);
    }
    assert_eq!(ResizeAxis::Horizontal.layout(), Layout::SplitH);
    assert_eq!(ResizeAxis::Vertical.layout(), Layout::SplitV);
}

#[test]
fn sizes_are_held_to_their_limits() {
    assert_eq!(ensure_min_max_size(500, 100, 400), 400);
    assert_eq!(ensure_min_max_size(50, 100, 400), 100);
    assert_eq!(ensure_min_max_size(500, 600, 400), 600);
    assert_eq!(ensure_min_max_size(500, 0, 0), 500);
    assert_eq!(ensure_min_max_size_maybe_zero(0, 100, 400), 0);
    assert_eq!(ensure_min_max_size_maybe_zero(0, 100, 100), 100);
    assert_eq!(ensure_min_max_size_maybe_zero(500, 100, 400), 400);
}
