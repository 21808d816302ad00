use tiri_layout::grab::{
    Aftermath, FrameDelta, GestureStep, OutputId, SpatialMovementGrab,
};
use tiri_layout::measure::{Point, Real};

fn bits_of(x: f64) -> Real {
    Real { bits: x.to_bits() }
}

fn point(x: f64, y: f64) -> Point {
    Point { x: bits_of(x), y: bits_of(y) }
}

const OUTPUT: OutputId = OutputId { id: 7 };

#[test]
fn a_frame_without_events_is_nothing() {
    let mut grab = SpatialMovementGrab::new(point(10.0, 10.0), OUTPUT);
    assert_eq!(grab.frame(), None);
    assert_eq!(grab.workspace_switch_output(), None);
}

#[test]
fn motion_is_measured_between_frames() {
    let mut grab = SpatialMovementGrab::new(point(10.0, 10.0), OUTPUT);
    grab.motion(point(11.0, 12.0), 3);
    grab.motion(point(13.0, 14.0), 5);
    let (delta, timestamp) = grab.frame().unwrap();
    assert_eq!(delta, FrameDelta::Between(point(10.0, 10.0), point(13.0, 14.0)));
    assert_eq!(timestamp, 5000);
    grab.motion(point(20.0, 20.0), 6);
    assert_eq!(
        grab.frame().unwrap().0,
        FrameDelta::Between(point(13.0, 14.0), point(20.0, 20.0))
    );
    assert_eq!(grab.frame(), None);
}

#[test]
fn relative_motion_takes_precedence() {
    let mut grab = SpatialMovementGrab::new(point(0.0, 0.0), OUTPUT);
    assert_eq!(grab.gathered(), None);
    grab.relative_motion(point(1.0, 2.0), 1234);
    grab.motion(point(50.0, 50.0), 9);
    assert_eq!(grab.gathered(), Some(point(1.0, 2.0)));
    assert_eq!(grab.frame(), Some((FrameDelta::Relative(point(1.0, 2.0)), 1234)));
    assert_eq!(grab.gathered(), None);
    // The location of the last frame counts all the same.
    grab.motion(point(51.0, 50.0), 10);
    assert_eq!(
        grab.frame(),
        Some((FrameDelta::Between(point(50.0, 50.0), point(51.0, 50.0)), 10_000))
    );
}

#[test]
fn the_switch_begins_once_and_goes_on() {
    let mut grab = SpatialMovementGrab::new(point(0.0, 0.0), OUTPUT);
    let near = grab.on_frame(point(1.0, 1.0), point(1.0, 1.0), false, 1);
    assert_eq!(near, GestureStep::Wait);
    assert_eq!(grab.workspace_switch_output(), None);
    let far = grab.on_frame(point(9.0, 3.0), point(10.0, 4.0), true, 2);
    assert_eq!(
        far,
        GestureStep::Begin { output: OUTPUT, travel: bits_of(-4.0), timestamp: 2 }
    );
    assert_eq!(grab.workspace_switch_output(), Some(OUTPUT));
    let next = grab.on_frame(point(0.0, 1.5), point(10.0, 5.5), false, 3);
    assert_eq!(next, GestureStep::Update { travel: bits_of(-1.5), timestamp: 3 });
    let more = grab.on_frame(point(0.0, -2.0), point(10.0, 3.5), true, 4);
    assert_eq!(more, GestureStep::Update { travel: bits_of(2.0), timestamp: 4 });
}

#[test]
fn the_answer_of_the_layout_decides_what_follows() {
    assert_eq!(
        SpatialMovementGrab::answered(Some(Some(OUTPUT))),
        Aftermath { goes_on: true, invalidate: true, redraw: Some(OUTPUT) }
    );
    assert_eq!(
        SpatialMovementGrab::answered(Some(None)),
        Aftermath { goes_on: true, invalidate: true, redraw: None }
    );
    assert_eq!(
        SpatialMovementGrab::answered(None),
        Aftermath { goes_on: false, invalidate: false, redraw: None }
    );
}

#[test]
fn letting_go_before_the_switch_changes_nothing() {
    let mut grab = SpatialMovementGrab::new(point(0.0, 0.0), OUTPUT);
    assert_eq!(
        grab.on_ungrab(Some(OUTPUT)),
        Aftermath { goes_on: false, invalidate: false, redraw: None }
    );
    grab.on_frame(point(9.0, 9.0), point(9.0, 9.0), true, 1);
    assert_eq!(
        grab.on_ungrab(Some(OUTPUT)),
        Aftermath { goes_on: false, invalidate: true, redraw: Some(OUTPUT) }
    );
    assert_eq!(
        grab.on_ungrab(None),
        Aftermath { goes_on: false, invalidate: true, redraw: None }
    );
}
