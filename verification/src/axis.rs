//! Layouts, directions and the axes they run along.

use vstd::prelude::*;

verus! {

/// Stable identity of a node, kept while it moves between workspaces.
#[derive(Debug, Clone, Copy, PartialEq, Eq, Hash, PartialOrd, Ord, Structural)]
pub struct NodeKey {
    pub id: u64,
}

/// Layout mode of a container.
#[derive(Debug, Clone, Copy, PartialEq, Eq, Structural)]
pub enum Layout {
    /// Children run left to right.
    SplitH,
    /// Children run top to bottom.
    SplitV,
    /// Children share one box, with a bar of tabs.
    Tabbed,
    /// Children share one box, with a stack of title bars.
    Stacked,
}

/// Direction for navigation and movement.
#[derive(Debug, Clone, Copy, PartialEq, Eq, Structural)]
pub enum Direction {
    Left,
    Right,
    Up,
    Down,
}

/// Which siblings a resize takes the space from.
#[derive(Debug, Clone, Copy, PartialEq, Eq, Structural)]
pub enum ResizeReach {
    /// Every sibling except the resized child.
    Siblings,
    /// The sibling before.
    Before,
    /// The sibling after.
    After,
}

impl Default for Layout {
    fn default() -> (r: Self)
        ensures
            r == Layout::SplitH,
    {
        Layout::SplitH
    }
}

impl Layout {
    pub open spec fn horizontal(self) -> bool {
        self == Layout::SplitH || self == Layout::Tabbed
    }

    pub open spec fn is_split(self) -> bool {
        self == Layout::SplitH || self == Layout::SplitV
    }

    pub open spec fn parallel(self, direction: Direction) -> bool {
        self.horizontal() == direction.horizontal()
    }

    pub open spec fn cycled(self) -> Layout {
        match self {
            Layout::SplitH => Layout::SplitV,
            Layout::SplitV => Layout::Stacked,
            Layout::Stacked => Layout::Tabbed,
            Layout::Tabbed => Layout::SplitH,
        }
    }

    /// Whether children of a container with this layout run left to right. Tabs count as
    /// horizontal and stacks as vertical.
    pub fn is_horizontal(self) -> (r: bool)
        ensures
            r == self.horizontal(),
    {
        matches!(self, Layout::SplitH | Layout::Tabbed)
    }

    /// Whether a step in `direction` moves between siblings of a container with this layout.
    pub fn is_parallel_to(self, direction: Direction) -> (r: bool)
        ensures
            r == self.parallel(direction),
    {
        self.is_horizontal() == direction.is_horizontal()
    }

    /// Whether two layouts arrange their children along the same axis.
    pub fn is_parallel_to_layout(self, other: Layout) -> (r: bool)
        ensures
            r == (self.horizontal() == other.horizontal()),
    {
        self.is_horizontal() == other.is_horizontal()
    }

    /// Next layout in the `layout toggle all` cycle:
    /// SplitH, SplitV, Stacked, Tabbed, and SplitH again.
    pub fn next_in_cycle(self) -> (r: Layout)
        ensures
            r == self.cycled(),
    {
        match self {
            Layout::SplitH => Layout::SplitV,
            Layout::SplitV => Layout::Stacked,
            Layout::Stacked => Layout::Tabbed,
            Layout::Tabbed => Layout::SplitH,
        }
    }

    pub(crate) fn is_split_layout(self) -> (r: bool)
        ensures
            r == self.is_split(),
    {
        matches!(self, Layout::SplitH | Layout::SplitV)
    }
}

impl Direction {
    pub open spec fn horizontal(self) -> bool {
        self == Direction::Left || self == Direction::Right
    }

    pub open spec fn leading(self) -> bool {
        self == Direction::Left || self == Direction::Up
    }

    pub open spec fn reversed(self) -> Direction {
        match self {
            Direction::Left => Direction::Right,
            Direction::Right => Direction::Left,
            Direction::Up => Direction::Down,
            Direction::Down => Direction::Up,
        }
    }

    pub open spec fn along(self) -> Layout {
        if self.horizontal() {
            Layout::SplitH
        } else {
            Layout::SplitV
        }
    }

    /// The neighbour of index `idx` among `count` siblings, one step in this direction.
    pub open spec fn step(self, idx: int, count: int) -> Option<int> {
        let next = if self.leading() {
            idx - 1
        } else {
            idx + 1
        };
        if self.leading() && next >= 0 || !self.leading() && next < count {
            Some(next)
        } else {
            None
        }
    }

    /// The opposite direction.
    pub fn opposite(self) -> (r: Self)
        ensures
            r == self.reversed(),
    {
        match self {
            Direction::Left => Direction::Right,
            Direction::Right => Direction::Left,
            Direction::Up => Direction::Down,
            Direction::Down => Direction::Up,
        }
    }

    pub fn is_horizontal(self) -> (r: bool)
        ensures
            r == self.horizontal(),
    {
        matches!(self, Direction::Left | Direction::Right)
    }

    pub fn is_vertical(self) -> (r: bool)
        ensures
            r == !self.horizontal(),
    {
        matches!(self, Direction::Up | Direction::Down)
    }

    /// The split layout whose axis runs along this direction.
    pub fn split_layout(self) -> (r: Layout)
        ensures
            r == self.along(),
    {
        if self.is_horizontal() {
            Layout::SplitH
        } else {
            Layout::SplitV
        }
    }

    /// Whether this direction points at the start of its axis rather than the end.
    pub fn is_leading(self) -> (r: bool)
        ensures
            r == self.leading(),
    {
        matches!(self, Direction::Left | Direction::Up)
    }

    /// Index of the sibling adjacent to `idx` in this direction, if it exists.
    pub fn sibling_index(self, idx: usize, count: usize) -> (r: Option<usize>)
        requires
            self.leading() || idx < usize::MAX,
        ensures
            match self.step(idx as int, count as int) {
                Some(next) => r == Some(next as usize) && 0 <= next <= usize::MAX,
                None => r is None,
            },
    {
        if self.is_leading() {
            if idx > 0 {
                Some(idx - 1)
            } else {
                None
            }
        } else if idx + 1 < count {
            Some(idx + 1)
        } else {
            None
        }
    }
}

/// Turning around twice restores the direction, and turning around keeps the axis while
/// swapping which end of it is meant.
pub proof fn law_opposite_is_an_involution(d: Direction)
    ensures
        d.reversed().reversed() == d,
        d.reversed() != d,
        d.reversed().horizontal() == d.horizontal(),
        d.reversed().leading() == !d.leading(),
{
}

/// The toggle cycle has period four and visits every layout.
pub proof fn law_cycle_visits_every_layout(from: Layout, to: Layout)
    ensures
        from.cycled().cycled().cycled().cycled() == from,
        to == from || to == from.cycled() || to == from.cycled().cycled() || to
            == from.cycled().cycled().cycled(),
{
}

/// A sibling step can be undone by the step in the opposite direction, and it stays in range.
pub proof fn law_sibling_step_is_undone(d: Direction, idx: int, count: int)
    requires
        0 <= idx < count,
        d.step(idx, count) is Some,
    ensures
        0 <= d.step(idx, count)->0 < count,
        d.reversed().step(d.step(idx, count)->0, count) == Some(idx),
{
}

/// The split made for a direction is the layout that direction steps through, and the one the
/// perpendicular directions do not.
pub proof fn law_split_layout_runs_along_its_direction(d: Direction, other: Direction)
    ensures
        d.along().parallel(d),
        d.along().parallel(other) == (d.horizontal() == other.horizontal()),
{
}

} // verus!
