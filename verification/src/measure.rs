//! Measures carried by the tree.
//!
//! The tree stores and compares lengths and shares, and hands them from node to node; it never
//! computes with them. A length is held as the bit pattern of its double.

use crate::axis::Layout;
use vstd::prelude::*;

verus! {

/// Bit pattern of positive infinity; a larger magnitude is not a number.
pub const INFINITE_BITS: u64 = 0x7ff0_0000_0000_0000;

/// The sign bit.
pub const SIGN_BIT: u64 = 0x8000_0000_0000_0000;

/// One step of the exponent.
pub const EXPONENT_STEP: u64 = 0x10_0000_0000_0000;

/// A double, held by its bit pattern.
#[derive(Debug, Clone, Copy, PartialEq, Eq, Structural)]
pub struct Real {
    pub bits: u64,
}

#[derive(Debug, Clone, Copy, PartialEq, Eq, Structural)]
pub struct Point {
    pub x: Real,
    pub y: Real,
}

#[derive(Debug, Clone, Copy, PartialEq, Eq, Structural)]
pub struct Size {
    pub w: Real,
    pub h: Real,
}

/// A box in workspace coordinates.
#[derive(Debug, Clone, Copy, PartialEq, Eq, Structural)]
pub struct Rect {
    pub loc: Point,
    pub size: Size,
}

/// A size in whole pixels.
#[derive(Debug, Clone, Copy, PartialEq, Eq, Structural)]
pub struct IntSize {
    pub w: i32,
    pub h: i32,
}

/// The size shares of a node along both axes; a zero share is unset.
#[derive(Debug, Clone, Copy, PartialEq, Eq, Structural)]
pub struct ChildFractions {
    pub width: Real,
    pub height: Real,
}

/// The size state of a node, independent of its parent: its shares, the spans its last
/// arranged pixel size came from, and the box it had when it entered fullscreen.
#[derive(Debug, Clone, Copy, PartialEq, Eq, Structural)]
pub struct NodeSizing {
    pub fractions: ChildFractions,
    pub child_total_width: Real,
    pub child_total_height: Real,
    pub fullscreen_restore_geometry: Option<Rect>,
}

/// The nearest multiple of `grain` to `n`, ties going to the even multiple.
pub open spec fn nearest_multiple(n: int, grain: int) -> int {
    let q = n / grain;
    let r = n % grain;
    if 2 * r < grain || (2 * r == grain && q % 2 == 0) {
        q * grain
    } else {
        (q + 1) * grain
    }
}

/// Distance of neighbouring singles, in units of the last place of a double whose exponent
/// field is `exponent`.
pub open spec fn single_grain(exponent: int) -> int
    decreases 897 - exponent,
{
    if exponent >= 897 {
        0x2000_0000
    } else {
        2 * single_grain(exponent + 1)
    }
}

/// Magnitude bits of the single nearest to the double whose magnitude bits are `mag`.
pub open spec fn narrowed_magnitude(mag: int) -> int {
    let exponent = mag / EXPONENT_STEP as int;
    if mag >= INFINITE_BITS {
        mag
    } else if mag <= 0x3690_0000_0000_0000 {
        0
    } else if exponent < 874 {
        874 * EXPONENT_STEP
    } else {
        let man = mag % EXPONENT_STEP as int;
        let r = mag - man + nearest_multiple(EXPONENT_STEP + man, single_grain(exponent))
            - EXPONENT_STEP;
        if r >= 0x47f0_0000_0000_0000 {
            INFINITE_BITS as int
        } else {
            r
        }
    }
}

proof fn lemma_single_grain(exponent: int)
    requires
        874 <= exponent,
    ensures
        0x2000_0000 <= single_grain(exponent) <= EXPONENT_STEP,
        exponent >= 875 ==> 2 * single_grain(exponent) <= EXPONENT_STEP,
        exponent < 897 ==> single_grain(exponent) == 2 * single_grain(exponent + 1),
    decreases 897 - exponent,
{
    reveal_with_fuel(single_grain, 25);
}

proof fn lemma_nearest_multiple(n: int, grain: int)
    requires
        0 <= n,
        0 < grain,
    ensures
        0 <= n - n % grain <= nearest_multiple(n, grain) <= n - n % grain + grain,
        (n / grain) * grain == n - n % grain,
        (n / grain + 1) * grain == n - n % grain + grain,
{
    vstd::arithmetic::div_mod::lemma_fundamental_div_mod(n, grain);
    let q = n / grain;
    assert(q * grain == grain * q) by (nonlinear_arith);
    assert((q + 1) * grain == q * grain + grain) by (nonlinear_arith);
    assert(0 <= q * grain) by (nonlinear_arith)
        requires
            0 <= q,
            0 < grain,
    ;
    assert(0 <= q) by {
        vstd::arithmetic::div_mod::lemma_div_pos_is_pos(n, grain);
    }
    vstd::arithmetic::div_mod::lemma_mod_bound(n, grain);
}

impl Real {
    pub open spec fn magnitude(self) -> int {
        if self.bits < SIGN_BIT {
            self.bits as int
        } else {
            self.bits - SIGN_BIT
        }
    }

    pub open spec fn is_nan(self) -> bool {
        self.magnitude() > INFINITE_BITS
    }

    /// An integer that orders the doubles that are numbers as they are ordered.
    pub open spec fn rank(self) -> int {
        if self.bits < SIGN_BIT {
            self.magnitude()
        } else {
            -self.magnitude()
        }
    }

    /// An integer that orders all doubles by sign and bit pattern: minus zero comes right before
    /// zero, and what is not a number comes last on its side.
    pub open spec fn total_rank(self) -> int {
        if self.bits < SIGN_BIT {
            self.magnitude()
        } else {
            -1 - self.magnitude()
        }
    }

    pub open spec fn less(self, other: Real) -> bool {
        !self.is_nan() && !other.is_nan() && self.rank() < other.rank()
    }

    pub open spec fn same(self, other: Real) -> bool {
        !self.is_nan() && !other.is_nan() && self.rank() == other.rank()
    }

    pub open spec fn positive(self) -> bool {
        !self.is_nan() && self.rank() > 0
    }

    /// Zero or less; not so when it is not a number.
    pub open spec fn at_most_zero(self) -> bool {
        !self.is_nan() && self.rank() <= 0
    }

    /// Rounded to the nearest single and back.
    pub open spec fn narrowed(self) -> Real {
        if self.bits < SIGN_BIT {
            Real { bits: narrowed_magnitude(self.magnitude()) as u64 }
        } else {
            Real { bits: (narrowed_magnitude(self.magnitude()) + SIGN_BIT) as u64 }
        }
    }

    pub open spec fn spec_zero() -> Real {
        Real { bits: 0 }
    }

    pub fn zero() -> (r: Real)
        ensures
            r == Real::spec_zero(),
    {
        Real { bits: 0 }
    }

    fn magnitude_bits(self) -> (r: u64)
        ensures
            r == self.magnitude(),
            r < SIGN_BIT,
    {
        if self.bits < SIGN_BIT {
            self.bits
        } else {
            self.bits - SIGN_BIT
        }
    }

    /// Whether this is a number above zero.
    pub fn is_positive(self) -> (r: bool)
        ensures
            r == self.positive(),
    {
        0 < self.bits && self.bits <= INFINITE_BITS
    }

    pub fn is_at_most_zero(self) -> (r: bool)
        ensures
            r == self.at_most_zero(),
    {
        let zero = Real::zero();
        self.is_less(zero) || self.is_same(zero)
    }

    /// The total order of doubles.
    pub fn comes_before(self, other: Real) -> (r: bool)
        ensures
            r == (self.total_rank() < other.total_rank()),
    {
        if self.bits < SIGN_BIT {
            other.bits < SIGN_BIT && self.bits < other.bits
        } else {
            other.bits < SIGN_BIT || other.bits < self.bits
        }
    }

    /// The comparison of doubles: false whenever either is not a number, zeros being equal.
    pub fn is_less(self, other: Real) -> (r: bool)
        ensures
            r == self.less(other),
    {
        let a = self.magnitude_bits();
        let b = other.magnitude_bits();
        if a > INFINITE_BITS || b > INFINITE_BITS {
            return false;
        }
        if self.bits < SIGN_BIT {
            other.bits < SIGN_BIT && a < b
        } else if other.bits < SIGN_BIT {
            a > 0 || b > 0
        } else {
            b < a
        }
    }

    /// The equality of doubles: false whenever either is not a number, zeros being equal.
    pub fn is_same(self, other: Real) -> (r: bool)
        ensures
            r == self.same(other),
    {
        let a = self.magnitude_bits();
        let b = other.magnitude_bits();
        a <= INFINITE_BITS && a == b && (a == 0 || self.bits == other.bits)
    }

    /// Rounds to the nearest single, ties to even, and widens again.
    pub fn narrow(self) -> (r: Real)
        ensures
            r == self.narrowed(),
    {
        let mag = self.magnitude_bits();
        let exponent: u64 = mag / EXPONENT_STEP;
        let out: u64 = if mag >= INFINITE_BITS {
            mag
        } else if mag <= 0x3690_0000_0000_0000 {
            0
        } else if exponent < 874 {
            874 * EXPONENT_STEP
        } else {
            let man: u64 = mag % EXPONENT_STEP;
            let mut grain: u64 = 0x2000_0000;
            let mut e: u64 = 897;
            while e > exponent
                invariant
                    874 <= exponent,
                    e <= 897,
                    e >= exponent || exponent >= 897,
                    exponent >= 897 ==> e == 897,
                    grain == single_grain(e as int),
                decreases e,
            {
                proof {
                    lemma_single_grain(e as int - 1);
                }
                e = e - 1;
                grain = grain * 2;
            }
            proof {
                if exponent >= 897 {
                    assert(single_grain(exponent as int) == 0x2000_0000);
                }
                assert(grain == single_grain(exponent as int));
                lemma_single_grain(exponent as int);
                lemma_nearest_multiple(EXPONENT_STEP + man, grain as int);
            }
            let sig: u64 = EXPONENT_STEP + man;
            let rem: u64 = sig % grain;
            let quot: u64 = sig / grain;
            let base: u64 = sig - rem;
            let rounded: u64 = if 2 * rem < grain || (2 * rem == grain && quot % 2 == 0) {
                base
            } else {
                base + grain
            };
            assert(rounded == nearest_multiple(sig as int, grain as int));
            assert(rounded >= EXPONENT_STEP) by {
                lemma_grain_divides(exponent as int, man as int);
            }
            let r: u64 = (mag - man) + (rounded - EXPONENT_STEP);
            if r >= 0x47f0_0000_0000_0000 {
                INFINITE_BITS
            } else {
                r
            }
        };
        if self.bits < SIGN_BIT {
            Real { bits: out }
        } else {
            Real { bits: out + SIGN_BIT }
        }
    }
}

/// The grain divides the exponent step, so rounding never falls below the leading bit.
proof fn lemma_grain_divides(exponent: int, man: int)
    requires
        874 <= exponent,
        0 <= man < EXPONENT_STEP,
    ensures
        nearest_multiple(EXPONENT_STEP + man, single_grain(exponent)) >= EXPONENT_STEP,
{
    let grain = single_grain(exponent);
    lemma_single_grain(exponent);
    lemma_nearest_multiple(EXPONENT_STEP + man, grain);
    let k = lemma_grain_multiple(exponent);
    let n = EXPONENT_STEP + man;
    assert(n / grain >= k) by (nonlinear_arith)
        requires
            n == EXPONENT_STEP + man,
            man >= 0,
            k * grain == EXPONENT_STEP,
            grain > 0,
    ;
    assert((n / grain) * grain >= k * grain) by (nonlinear_arith)
        requires
            n / grain >= k,
            grain > 0,
    ;
}

proof fn lemma_grain_multiple(exponent: int) -> (k: int)
    requires
        874 <= exponent,
    ensures
        k * single_grain(exponent) == EXPONENT_STEP,
        k > 0,
    decreases exponent - 874,
{
    if exponent == 874 {
        reveal_with_fuel(single_grain, 25);
        1
    } else if exponent > 897 {
        lemma_grain_multiple(exponent - 1)
    } else {
        let k = lemma_grain_multiple(exponent - 1);
        lemma_single_grain(exponent - 1);
        let g = single_grain(exponent);
        assert((2 * k) * g == k * (2 * g)) by (nonlinear_arith);
        2 * k
    }
}

impl Size {
    pub open spec fn spec_zero() -> Size {
        Size { w: Real::spec_zero(), h: Real::spec_zero() }
    }
}

impl Rect {
    pub open spec fn spec_zero() -> Rect {
        Rect {
            loc: Point { x: Real::spec_zero(), y: Real::spec_zero() },
            size: Size::spec_zero(),
        }
    }

    /// The empty box at the origin, which a node holds before it is first arranged.
    pub fn zero() -> (r: Rect)
        ensures
            r == Rect::spec_zero(),
    {
        Rect {
            loc: Point { x: Real::zero(), y: Real::zero() },
            size: Size { w: Real::zero(), h: Real::zero() },
        }
    }
}

impl ChildFractions {
    pub open spec fn spec_unset() -> ChildFractions {
        ChildFractions { width: Real::spec_zero(), height: Real::spec_zero() }
    }

    pub open spec fn narrowed(self) -> ChildFractions {
        ChildFractions { width: self.width.narrowed(), height: self.height.narrowed() }
    }

    pub fn unset() -> (r: ChildFractions)
        ensures
            r == ChildFractions::spec_unset(),
    {
        ChildFractions { width: Real::zero(), height: Real::zero() }
    }

    /// The shares as a replacement takes them over: through single precision.
    pub fn narrow(self) -> (r: ChildFractions)
        ensures
            r == self.narrowed(),
    {
        ChildFractions { width: self.width.narrow(), height: self.height.narrow() }
    }
}

impl NodeSizing {
    pub open spec fn spec_new() -> NodeSizing {
        NodeSizing {
            fractions: ChildFractions::spec_unset(),
            child_total_width: Real::spec_zero(),
            child_total_height: Real::spec_zero(),
            fullscreen_restore_geometry: None,
        }
    }

    pub open spec fn share(self, layout: Layout) -> Real {
        if layout == Layout::SplitV {
            self.fractions.height
        } else {
            self.fractions.width
        }
    }

    pub open spec fn with_share(self, layout: Layout, share: Real) -> NodeSizing {
        if layout == Layout::SplitV {
            NodeSizing { fractions: ChildFractions { height: share, ..self.fractions }, ..self }
        } else {
            NodeSizing { fractions: ChildFractions { width: share, ..self.fractions }, ..self }
        }
    }

    pub open spec fn total(self, layout: Layout) -> Real {
        match layout {
            Layout::SplitH => self.child_total_width,
            Layout::SplitV => self.child_total_height,
            _ => Real::spec_zero(),
        }
    }

    pub open spec fn with_total(self, layout: Layout, total: Real) -> NodeSizing {
        match layout {
            Layout::SplitH => NodeSizing { child_total_width: total, ..self },
            Layout::SplitV => NodeSizing { child_total_height: total, ..self },
            _ => self,
        }
    }

    pub open spec fn with_fractions(self, fractions: ChildFractions) -> NodeSizing {
        NodeSizing { fractions, ..self }
    }

    pub fn new() -> (r: NodeSizing)
        ensures
            r == NodeSizing::spec_new(),
    {
        NodeSizing {
            fractions: ChildFractions::unset(),
            child_total_width: Real::zero(),
            child_total_height: Real::zero(),
            fullscreen_restore_geometry: None,
        }
    }

    /// The share that a parent with this layout reads.
    pub fn fraction(self, layout: Layout) -> (r: Real)
        ensures
            r == self.share(layout),
    {
        match layout {
            Layout::SplitV => self.fractions.height,
            Layout::SplitH | Layout::Tabbed | Layout::Stacked => self.fractions.width,
        }
    }

    pub fn set_fraction(&mut self, layout: Layout, fraction: Real)
        ensures
            *final(self) == old(self).with_share(layout, fraction),
    {
        match layout {
            Layout::SplitV => self.fractions.height = fraction,
            Layout::SplitH | Layout::Tabbed | Layout::Stacked => self.fractions.width = fraction,
        }
    }

    /// The span the last arranged size came from; switchers have none.
    pub fn child_total(self, layout: Layout) -> (r: Real)
        ensures
            r == self.total(layout),
    {
        match layout {
            Layout::SplitH => self.child_total_width,
            Layout::SplitV => self.child_total_height,
            Layout::Tabbed | Layout::Stacked => Real::zero(),
        }
    }

    pub fn set_child_total(&mut self, layout: Layout, total: Real)
        ensures
            *final(self) == old(self).with_total(layout, total),
    {
        match layout {
            Layout::SplitH => self.child_total_width = total,
            Layout::SplitV => self.child_total_height = total,
            Layout::Tabbed | Layout::Stacked => {},
        }
    }

    pub fn unset_fractions(&mut self)
        ensures
            *final(self) == old(self).with_fractions(ChildFractions::spec_unset()),
    {
        self.fractions = ChildFractions::unset();
    }
}

/// A share reads back as it was set, and setting the share of one axis leaves the other.
pub proof fn law_share_reads_back(sizing: NodeSizing, layout: Layout, share: Real)
    ensures
        sizing.with_share(layout, share).share(layout) == share,
        sizing.with_share(Layout::SplitH, share).share(Layout::SplitV) == sizing.share(
            Layout::SplitV,
        ),
        sizing.with_share(Layout::SplitV, share).share(Layout::SplitH) == sizing.share(
            Layout::SplitH,
        ),
        layout.is_split() ==> sizing.with_total(layout, share).total(layout) == share,
{
}

} // verus!
