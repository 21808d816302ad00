//! The pointer grab that turns a drag into a switch between workspaces.

use crate::measure::{Point, Real};
use vstd::prelude::*;

verus! {

/// The identity of an output.
#[derive(Debug, Clone, Copy, PartialEq, Eq, Structural)]
pub struct OutputId {
    pub id: u64,
}

/// How far the drag has come.
#[derive(Debug, Clone, Copy, PartialEq, Eq, Structural)]
pub enum GestureState {
    /// It has not moved far enough to mean anything.
    Recognizing,
    /// It switches workspaces.
    WorkspaceSwitch,
}

/// What a pointer frame amounts to.
#[derive(Debug, Clone, Copy, PartialEq, Eq, Structural)]
pub enum FrameDelta {
    /// The relative motion gathered since the last frame.
    Relative(Point),
    /// The way from one location to another.
    Between(Point, Point),
}

/// What the layout is told about the drag.
#[derive(Debug, Clone, Copy, PartialEq, Eq, Structural)]
pub enum GestureStep {
    /// Nothing yet.
    Wait,
    /// The switch begins on the output, already this far along.
    Begin { output: OutputId, travel: Real, timestamp: u64 },
    /// The switch goes on.
    Update { travel: Real, timestamp: u64 },
}

/// What is left to do after the layout was told.
#[derive(Debug, Clone, Copy, PartialEq, Eq, Structural)]
pub struct Aftermath {
    /// Whether the grab goes on.
    pub goes_on: bool,
    /// Whether the layout has to be looked at again.
    pub invalidate: bool,
    /// The output to draw again.
    pub redraw: Option<OutputId>,
}

/// A drag that switches workspaces. The workspace strip is the only axis it can travel:
/// whichever way the pointer goes, the vertical part of it counts.
#[derive(Debug, Clone, Copy, PartialEq, Eq, Structural)]
pub struct SpatialMovementGrab {
    output: OutputId,
    gesture: GestureState,
    last_location: Point,
    // Gathered until the frame ends.
    new_location: Point,
    event_timestamp: Option<u64>,
    relative_delta: Option<Point>,
}

/// [`SpatialMovementGrab`] as a value. Timestamps are in microseconds.
pub struct Drag {
    pub output: OutputId,
    pub gesture: GestureState,
    pub last_location: Point,
    pub new_location: Point,
    pub event_timestamp: Option<u64>,
    pub relative_delta: Option<Point>,
}

impl Real {
    /// The double of the other sign.
    pub open spec fn negated(self) -> Real {
        if self.bits < crate::measure::SIGN_BIT {
            Real { bits: (self.bits + crate::measure::SIGN_BIT) as u64 }
        } else {
            Real { bits: (self.bits - crate::measure::SIGN_BIT) as u64 }
        }
    }

    pub fn negate(self) -> (r: Real)
        ensures
            r == self.negated(),
    {
        if self.bits < crate::measure::SIGN_BIT {
            Real { bits: self.bits + crate::measure::SIGN_BIT }
        } else {
            Real { bits: self.bits - crate::measure::SIGN_BIT }
        }
    }
}

impl View for SpatialMovementGrab {
    type V = Drag;

    closed spec fn view(&self) -> Drag {
        Drag {
            output: self.output,
            gesture: self.gesture,
            last_location: self.last_location,
            new_location: self.new_location,
            event_timestamp: self.event_timestamp,
            relative_delta: self.relative_delta,
        }
    }
}

impl Drag {
    /// The drag after a frame: what was gathered is used up.
    pub open spec fn framed(self) -> Drag {
        match self.event_timestamp {
            Some(_) => Drag {
                event_timestamp: None,
                relative_delta: None,
                last_location: self.new_location,
                ..self
            },
            None => self,
        }
    }

    /// What a frame amounts to, and when. Relative motion takes precedence over where the
    /// pointer is.
    pub open spec fn frame_delta(self) -> Option<(FrameDelta, u64)> {
        match self.event_timestamp {
            Some(timestamp) => Some(
                (
                    match self.relative_delta {
                        Some(delta) => FrameDelta::Relative(delta),
                        None => FrameDelta::Between(self.last_location, self.new_location),
                    },
                    timestamp,
                ),
            ),
            None => None,
        }
    }

    /// What the layout is told: `delta` is the motion of the frame, `total` all of it so far,
    /// `far` whether that is enough to mean something.
    pub open spec fn step(self, delta: Point, total: Point, far: bool, timestamp: u64) -> GestureStep {
        match self.gesture {
            GestureState::Recognizing => if far {
                GestureStep::Begin { output: self.output, travel: total.y.negated(), timestamp }
            } else {
                GestureStep::Wait
            },
            GestureState::WorkspaceSwitch => GestureStep::Update {
                travel: delta.y.negated(),
                timestamp,
            },
        }
    }
}

impl SpatialMovementGrab {
    pub fn new(location: Point, output: OutputId) -> (r: Self)
        ensures
            r@ == (Drag {
                output,
                gesture: GestureState::Recognizing,
                last_location: location,
                new_location: location,
                event_timestamp: None,
                relative_delta: None,
            }),
    {
        SpatialMovementGrab {
            output,
            gesture: GestureState::Recognizing,
            last_location: location,
            new_location: location,
            event_timestamp: None,
            relative_delta: None,
        }
    }

    /// The output whose workspaces are being switched.
    pub fn workspace_switch_output(&self) -> (r: Option<OutputId>)
        ensures
            r == if self@.gesture is WorkspaceSwitch {
                Some(self@.output)
            } else {
                None
            },
    {
        match self.gesture {
            GestureState::WorkspaceSwitch => Some(self.output),
            GestureState::Recognizing => None,
        }
    }

    /// The pointer is at `location`. Relative motion takes precedence over this.
    pub fn motion(&mut self, location: Point, time_millis: u32)
        ensures
            final(self)@ == (Drag {
                new_location: location,
                event_timestamp: if old(self)@.relative_delta is None {
                    Some((time_millis * 1000) as u64)
                } else {
                    old(self)@.event_timestamp
                },
                ..old(self)@
            }),
    {
        self.new_location = location;
        if self.relative_delta.is_none() {
            self.event_timestamp = Some(time_millis as u64 * 1000);
        }
    }

    /// The relative motion gathered since the last frame.
    pub fn gathered(&self) -> (r: Option<Point>)
        ensures
            r == self@.relative_delta,
    {
        self.relative_delta
    }

    /// The pointer was moved; `gathered` is all the relative motion since the last frame.
    pub fn relative_motion(&mut self, gathered: Point, time_micros: u64)
        ensures
            final(self)@ == (Drag {
                relative_delta: Some(gathered),
                event_timestamp: Some(time_micros),
                ..old(self)@
            }),
    {
        self.relative_delta = Some(gathered);
        self.event_timestamp = Some(time_micros);
    }

    /// Ends a frame: what it amounts to and when, if anything happened in it.
    pub fn frame(&mut self) -> (r: Option<(FrameDelta, u64)>)
        ensures
            r == old(self)@.frame_delta(),
            final(self)@ == old(self)@.framed(),
    {
        let timestamp = match self.event_timestamp {
            Some(timestamp) => timestamp,
            None => {
                return None;
            },
        };
        let delta = match self.relative_delta {
            Some(delta) => FrameDelta::Relative(delta),
            None => FrameDelta::Between(self.last_location, self.new_location),
        };
        self.event_timestamp = None;
        self.relative_delta = None;
        self.last_location = self.new_location;
        Some((delta, timestamp))
    }

    /// Decides what the layout is told about the motion of a frame. A drag that has come far
    /// enough switches workspaces from then on.
    pub fn on_frame(&mut self, delta: Point, total: Point, far: bool, timestamp: u64) -> (r:
        GestureStep)
        ensures
            r == old(self)@.step(delta, total, far, timestamp),
            final(self)@ == (Drag {
                gesture: if far {
                    GestureState::WorkspaceSwitch
                } else {
                    old(self)@.gesture
                },
                ..old(self)@
            }),
    {
        match self.gesture {
            GestureState::Recognizing => {
                if far {
                    self.gesture = GestureState::WorkspaceSwitch;
                    GestureStep::Begin { output: self.output, travel: total.y.negate(), timestamp }
                } else {
                    GestureStep::Wait
                }
            },
            GestureState::WorkspaceSwitch => GestureStep::Update {
                travel: delta.y.negate(),
                timestamp,
            },
        }
    }

    /// What is left to do once the layout was told: `answer` is what it said, the output to draw
    /// again if any; a layout that no longer follows the gesture ends the grab. The answer to
    /// [`GestureStep::Wait`] is that there is nothing to draw.
    pub fn answered(answer: Option<Option<OutputId>>) -> (r: Aftermath)
        ensures
            r == match answer {
                Some(redraw) => (Aftermath { goes_on: true, invalidate: true, redraw }),
                None => (Aftermath { goes_on: false, invalidate: false, redraw: None }),
            },
    {
        match answer {
            Some(redraw) => Aftermath { goes_on: true, invalidate: true, redraw },
            None => Aftermath { goes_on: false, invalidate: false, redraw: None },
        }
    }

    /// What is left to do when the grab is let go: `answer` is the output to draw again, as the
    /// layout says at the end of the switch. A drag that never became one changes nothing.
    pub fn on_ungrab(&self, answer: Option<OutputId>) -> (r: Aftermath)
        ensures
            r == (Aftermath {
                goes_on: false,
                invalidate: self@.gesture is WorkspaceSwitch,
                redraw: if self@.gesture is WorkspaceSwitch {
                    answer
                } else {
                    None
                },
            }),
    {
        match self.gesture {
            GestureState::WorkspaceSwitch => Aftermath {
                goes_on: false,
                invalidate: true,
                redraw: answer,
            },
            GestureState::Recognizing => Aftermath {
                goes_on: false,
                invalidate: false,
                redraw: None,
            },
        }
    }
}

/// The switch begins at most once: after a step that began it, every further step continues it.
pub proof fn law_switch_begins_once(
    drag: Drag,
    delta: Point,
    total: Point,
    timestamp: u64,
    next: (Point, Point, bool, u64),
)
    requires
        drag.gesture is Recognizing,
    ensures
        drag.step(delta, total, true, timestamp) is Begin,
        drag.step(delta, total, false, timestamp) is Wait,
        ({
            let later = Drag { gesture: GestureState::WorkspaceSwitch, ..drag };
            later.framed().step(next.0, next.1, next.2, next.3) is Update
        }),
{
}

} // verus!
