//! The sizes windows are given when they float.

use crate::measure::IntSize;
use crate::tile::{SizingMode, Tile, TileRequest, TileState, Window, WindowState};
use vstd::prelude::*;

verus! {

/// A floating window is never made narrower than this, unless its own limits say so.
pub const MIN_FLOATING_WIDTH: i32 = 75;

/// A floating window is never made lower than this, unless its own limits say so.
pub const MIN_FLOATING_HEIGHT: i32 = 50;

/// A length within limits, of which a zero is none; the lower limit wins.
pub open spec fn within_limits(x: i32, min: i32, max: i32) -> i32 {
    let capped = if max > 0 && x > max {
        max
    } else {
        x
    };
    if min > 0 && capped < min {
        min
    } else {
        capped
    }
}

/// A length within limits, where zero leaves the choice to the client unless the limits leave
/// no choice.
pub open spec fn within_limits_or_free(x: i32, min: i32, max: i32) -> i32 {
    if x != 0 {
        within_limits(x, min, max)
    } else if min > 0 && min == max {
        min
    } else {
        0
    }
}

/// `x` between `floor` and `ceiling`; the floor wins.
pub open spec fn floored(x: i32, floor: i32, ceiling: i32) -> i32 {
    let capped = if x < ceiling {
        x
    } else {
        ceiling
    };
    if capped > floor {
        capped
    } else {
        floor
    }
}

pub fn ensure_min_max_size(x: i32, min_size: i32, max_size: i32) -> (r: i32)
    ensures
        r == within_limits(x, min_size, max_size),
{
    let capped: i32 = if max_size > 0 && x > max_size {
        max_size
    } else {
        x
    };
    if min_size > 0 && capped < min_size {
        min_size
    } else {
        capped
    }
}

pub fn ensure_min_max_size_maybe_zero(x: i32, min_size: i32, max_size: i32) -> (r: i32)
    ensures
        r == within_limits_or_free(x, min_size, max_size),
{
    if x != 0 {
        ensure_min_max_size(x, min_size, max_size)
    } else if min_size > 0 && min_size == max_size {
        min_size
    } else {
        0
    }
}

fn keep_between(x: i32, floor: i32, ceiling: i32) -> (r: i32)
    ensures
        r == floored(x, floor, ceiling),
{
    let capped: i32 = if x < ceiling {
        x
    } else {
        ceiling
    };
    if capped > floor {
        capped
    } else {
        floor
    }
}

impl IntSize {
    /// Neither side is zero or less.
    pub open spec fn positive(self) -> bool {
        self.w > 0 && self.h > 0
    }

    pub open spec fn spec_zero() -> IntSize {
        IntSize { w: 0, h: 0 }
    }

    fn is_positive(self) -> (r: bool)
        ensures
            r == self.positive(),
    {
        self.w > 0 && self.h > 0
    }
}

impl WindowState {
    /// The size a window is on its way to, else the one it has.
    pub open spec fn coming_size(self) -> IntSize {
        match self.expected_size {
            Some(size) => size,
            None => self.size,
        }
    }

    /// A size within the limits of the window, a zero side left free.
    pub open spec fn fitted(self, size: IntSize) -> IntSize {
        IntSize {
            w: within_limits_or_free(size.w, self.min_size.w, self.max_size.w),
            h: within_limits_or_free(size.h, self.min_size.h, self.max_size.h),
        }
    }

    /// A size as any floating window gets it: no smaller than the floor, no larger than the
    /// output, within the limits of the window.
    pub open spec fn constrained(self, size: IntSize, output: IntSize) -> IntSize {
        self.fitted(
            IntSize {
                w: floored(size.w, MIN_FLOATING_WIDTH, output.w),
                h: floored(size.h, MIN_FLOATING_HEIGHT, output.h),
            },
        )
    }
}

impl TileState {
    /// The size to ask for when the window floats: the one it had floating. Without one, a
    /// window of normal size is asked for the size it is expected to have; any other may choose.
    pub open spec fn floating_size(self) -> IntSize {
        let size = match self.floating_window_size {
            Some(size) => size,
            None => if self.window.sizing_mode is Normal {
                match self.window.expected_size {
                    Some(size) => size,
                    None => IntSize::spec_zero(),
                }
            } else {
                IntSize::spec_zero()
            },
        };
        self.window.fitted(size)
    }

    /// The tile asked to take its floating size.
    pub open spec fn floating_asked(self) -> TileState {
        self.asked(
            TileRequest::WindowSize { size: self.floating_size(), animate: !self.is_scratchpad },
        )
    }

    /// The tile of a window that floats and stays fullscreen, with the size to come back to:
    /// the one it had floating, else the one it is to be restored to, else its natural size.
    pub open spec fn kept_fullscreen(self, restore: Option<IntSize>, output: IntSize) -> TileState {
        if self.floating_window_size is Some {
            self
        } else {
            let size = match restore {
                Some(size) => Some(size),
                None => if self.window.natural_size.positive() {
                    Some(self.window.natural_size)
                } else {
                    None
                },
            };
            TileState {
                floating_window_size: match size {
                    Some(size) => Some(self.window.constrained(size, output)),
                    None => None,
                },
                ..self
            }
        }
    }

    /// The tile of a window that is floated from the tiled side: it starts from its natural
    /// size.
    pub open spec fn newly_floating(self, output: IntSize) -> TileState {
        TileState {
            floating_window_size: Some(self.window.constrained(self.window.natural_size, output)),
            ..self
        }.floating_asked()
    }

    /// The tile with the size it has now kept for when it floats again; one that is not of
    /// normal size keeps what it had.
    pub open spec fn size_stored(self) -> TileState {
        if self.window.sizing_mode is Normal {
            TileState { floating_window_size: Some(self.window.coming_size()), ..self }
        } else {
            self
        }
    }

    /// The tile of a window as it arrives on the floating side.
    pub open spec fn arriving(self, output: IntSize) -> TileState {
        if self.window.sizing_mode is Fullscreen {
            self.kept_fullscreen(None, output)
        } else {
            self.floating_asked()
        }
    }

    /// The window size the box of an arriving window is made for, if it is known.
    pub open spec fn arriving_size(self, output: IntSize) -> Option<IntSize> {
        if self.window.sizing_mode is Fullscreen {
            self.kept_fullscreen(None, output).floating_window_size
        } else if self.floating_size().positive() {
            Some(self.floating_size())
        } else {
            None
        }
    }
}

impl Window {
    fn fit(&self, size: IntSize) -> (r: IntSize)
        ensures
            r == self@.fitted(size),
    {
        IntSize {
            w: ensure_min_max_size_maybe_zero(size.w, self.min_size.w, self.max_size.w),
            h: ensure_min_max_size_maybe_zero(size.h, self.min_size.h, self.max_size.h),
        }
    }
}

impl Tile {
    /// A size as any floating window gets it.
    pub fn floating_constraints(&self, size: IntSize, output: IntSize) -> (r: IntSize)
        ensures
            r == self@.window.constrained(size, output),
    {
        self.window.fit(
            IntSize {
                w: keep_between(size.w, MIN_FLOATING_WIDTH, output.w),
                h: keep_between(size.h, MIN_FLOATING_HEIGHT, output.h),
            },
        )
    }

    /// The size to ask for when the window floats.
    pub fn floating_size(&self) -> (r: IntSize)
        ensures
            r == self@.floating_size(),
    {
        let none = IntSize { w: 0, h: 0 };
        let size = match self.floating_window_size {
            Some(size) => size,
            None => if self.window.sizing_mode == SizingMode::Normal {
                match self.window.expected_size {
                    Some(size) => size,
                    None => none,
                }
            } else {
                none
            },
        };
        self.window.fit(size)
    }

    /// Asks the window to take its floating size; answers with it when it is a definite one.
    pub fn prepare_tile_for_floating(&mut self) -> (r: Option<IntSize>)
        ensures
            final(self)@ == old(self)@.floating_asked(),
            r == if old(self)@.floating_size().positive() {
                Some(old(self)@.floating_size())
            } else {
                None
            },
    {
        let size = self.floating_size();
        let animate = !self.is_scratchpad;
        self.ask(TileRequest::WindowSize { size, animate });
        if size.is_positive() {
            Some(size)
        } else {
            None
        }
    }

    /// Sees to it that a window that floats and stays fullscreen has a size to come back to.
    pub fn preserve_fullscreen_tile_for_floating(
        &mut self,
        restore: Option<IntSize>,
        output: IntSize,
    )
        ensures
            final(self)@ == old(self)@.kept_fullscreen(restore, output),
    {
        if self.floating_window_size.is_some() {
            return;
        }
        let size = match restore {
            Some(size) => Some(size),
            None => if self.window.natural_size.is_positive() {
                Some(self.window.natural_size)
            } else {
                None
            },
        };
        self.floating_window_size = match size {
            Some(size) => Some(self.floating_constraints(size, output)),
            None => None,
        };
    }

    /// Prepares a window floated from the tiled side, which starts from its natural size.
    pub fn prepare_natural_size(&mut self, output: IntSize) -> (r: Option<IntSize>)
        ensures
            final(self)@ == old(self)@.newly_floating(output),
    {
        let size = self.floating_constraints(self.window.natural_size, output);
        self.floating_window_size = Some(size);
        self.prepare_tile_for_floating()
    }

    /// Keeps the size the window has now for when it floats again.
    pub fn store_floating_size_for_restore(&mut self)
        ensures
            final(self)@ == old(self)@.size_stored(),
    {
        if self.window.sizing_mode == SizingMode::Normal {
            self.floating_window_size = Some(
                match self.window.expected_size {
                    Some(size) => size,
                    None => self.window.size,
                },
            );
        }
    }

    /// Prepares a window that arrives on the floating side.
    pub fn prepare_arrival(&mut self, output: IntSize)
        ensures
            final(self)@ == old(self)@.arriving(output),
    {
        if self.window.sizing_mode == SizingMode::Fullscreen {
            self.preserve_fullscreen_tile_for_floating(None, output);
        } else {
            self.prepare_tile_for_floating();
        }
    }

    /// The window size the box of an arriving window is made for, if it is known.
    pub fn arriving_size(&self, output: IntSize) -> (r: Option<IntSize>)
        ensures
            r == self@.arriving_size(output),
    {
        if self.window.sizing_mode == SizingMode::Fullscreen {
            match self.floating_window_size {
                Some(size) => Some(size),
                None => if self.window.natural_size.is_positive() {
                    Some(self.floating_constraints(self.window.natural_size, output))
                } else {
                    None
                },
            }
        } else {
            let size = self.floating_size();
            if size.is_positive() {
                Some(size)
            } else {
                None
            }
        }
    }
}

/// A floating window respects the limits of its client wherever they leave room: what it is
/// given is no larger than the upper limit, unless the lower one demands it, and no smaller than
/// the lower one.
pub proof fn law_floating_size_respects_limits(w: WindowState, size: IntSize, output: IntSize)
    ensures
        ({
            let r = w.constrained(size, output);
            &&& w.min_size.w > 0 ==> r.w >= w.min_size.w
            &&& w.min_size.h > 0 ==> r.h >= w.min_size.h
            &&& w.max_size.w > 0 && w.max_size.w >= w.min_size.w ==> r.w <= w.max_size.w
            &&& w.max_size.h > 0 && w.max_size.h >= w.min_size.h ==> r.h <= w.max_size.h
            &&& w.max_size.w <= 0 ==> r.w >= MIN_FLOATING_WIDTH
            &&& w.max_size.h <= 0 ==> r.h >= MIN_FLOATING_HEIGHT
        }),
{
}

} // verus!
