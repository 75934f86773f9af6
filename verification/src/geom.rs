//! Geometry and constraint types.
//!
//! Every length is a fixed-point integer counting hundredths of a layout
//! unit. Valid dimensions lie in `[0, MAX_DIM]`; degenerate values are
//! clamped into that range rather than propagated, so layout is total.

use vstd::prelude::*;

verus! {

/// Largest representable dimension, in hundredths of a unit.
pub const MAX_DIM: i64 = 0x1000_0000;

/// Comparison tolerance: one hundredth of a unit. Leftover space whose
/// magnitude is at most `EPS` is treated as zero by the flex algorithm.
pub const EPS: i64 = 1;

/// Upper bound on arena slots, so child counts fit comfortably in `i64`.
pub const MAX_NODES: usize = 0x10_0000;

/// A dimension is valid when it lies in `[0, MAX_DIM]`.
pub open spec fn dim_ok(v: int) -> bool {
    0 <= v <= MAX_DIM
}

/// Clamp an arbitrary value into the valid dimension range.
pub open spec fn spec_clamp_dim(v: int) -> i64 {
    if v < 0 {
        0
    } else if v > MAX_DIM {
        MAX_DIM
    } else {
        v as i64
    }
}

/// Clamp an arbitrary value into the valid dimension range.
pub fn clamp_dim(v: i64) -> (r: i64)
    ensures
        r == spec_clamp_dim(v as int),
        dim_ok(r as int),
{
    if v < 0 {
        0
    } else if v > MAX_DIM {
        MAX_DIM
    } else {
        v
    }
}

/// Dimension addition, clamped at `MAX_DIM`; both operands must be valid.
pub open spec fn spec_cadd(a: int, b: int) -> i64 {
    if a + b > MAX_DIM {
        MAX_DIM
    } else {
        (a + b) as i64
    }
}

/// Dimension addition, clamped at `MAX_DIM`.
pub fn cadd(a: i64, b: i64) -> (r: i64)
    requires
        dim_ok(a as int),
        dim_ok(b as int),
    ensures
        r == spec_cadd(a as int, b as int),
        dim_ok(r as int),
{
    if a + b > MAX_DIM {
        MAX_DIM
    } else {
        a + b
    }
}

/// Dimension subtraction, clamped at zero; both operands must be valid.
pub open spec fn spec_csub(a: int, b: int) -> i64 {
    if a - b < 0 {
        0
    } else {
        (a - b) as i64
    }
}

/// Dimension subtraction, clamped at zero.
pub fn csub(a: i64, b: i64) -> (r: i64)
    requires
        dim_ok(a as int),
        dim_ok(b as int),
    ensures
        r == spec_csub(a as int, b as int),
        dim_ok(r as int),
{
    if a - b < 0 {
        0
    } else {
        a - b
    }
}

/// The two layout axes. A flex container arranges children along its main
/// axis; the other axis is its cross axis.
#[derive(Clone, Copy, PartialEq, Eq, Structural, Debug)]
pub enum Axis {
    Horizontal,
    Vertical,
}

/// A width/height pair in hundredths of a unit.
#[derive(Clone, Copy, PartialEq, Eq, Structural, Debug)]
pub struct Size {
    pub w: i64,
    pub h: i64,
}

/// An x/y position pair in hundredths of a unit.
#[derive(Clone, Copy, PartialEq, Eq, Structural, Debug)]
pub struct Point {
    pub x: i64,
    pub y: i64,
}

/// A size is valid when both dimensions are.
pub open spec fn size_ok(s: Size) -> bool {
    dim_ok(s.w as int) && dim_ok(s.h as int)
}

impl Size {
    /// The zero size.
    pub fn zero() -> (r: Size)
        ensures
            r == (Size { w: 0, h: 0 }),
    {
        Size { w: 0, h: 0 }
    }

    /// The component along the given axis.
    pub open spec fn spec_main(self, axis: Axis) -> i64 {
        match axis {
            Axis::Horizontal => self.w,
            Axis::Vertical => self.h,
        }
    }

    /// The component along the other axis.
    pub open spec fn spec_cross(self, axis: Axis) -> i64 {
        match axis {
            Axis::Horizontal => self.h,
            Axis::Vertical => self.w,
        }
    }

    /// The component along the given axis.
    pub fn main(&self, axis: Axis) -> (r: i64)
        ensures
            r == self.spec_main(axis),
    {
        match axis {
            Axis::Horizontal => self.w,
            Axis::Vertical => self.h,
        }
    }

    /// The component along the other axis.
    pub fn cross(&self, axis: Axis) -> (r: i64)
        ensures
            r == self.spec_cross(axis),
    {
        match axis {
            Axis::Horizontal => self.h,
            Axis::Vertical => self.w,
        }
    }

    /// Build a size from its main- and cross-axis components.
    pub open spec fn spec_from_axes(axis: Axis, main: i64, cross: i64) -> Size {
        match axis {
            Axis::Horizontal => Size { w: main, h: cross },
            Axis::Vertical => Size { w: cross, h: main },
        }
    }

    /// Build a size from its main- and cross-axis components.
    pub fn from_axes(axis: Axis, main: i64, cross: i64) -> (r: Size)
        ensures
            r == Size::spec_from_axes(axis, main, cross),
    {
        match axis {
            Axis::Horizontal => Size { w: main, h: cross },
            Axis::Vertical => Size { w: cross, h: main },
        }
    }
}

impl Point {
    /// The origin.
    pub fn zero() -> (r: Point)
        ensures
            r == (Point { x: 0, y: 0 }),
    {
        Point { x: 0, y: 0 }
    }
}

/// One axis of a sizing request exchanged between parent and child during
/// measurement. `Fixed` commits the child to an exact extent; `Ideal` asks
/// for its natural size; `Min` for the smallest usable size; `Max` for the
/// largest size it would use given unlimited space.
#[derive(Clone, Copy, PartialEq, Eq, Structural, Debug)]
pub enum Constraint {
    Fixed(i64),
    Ideal,
    Min,
    Max,
}

/// A per-axis pair of sizing instructions.
#[derive(Clone, Copy, PartialEq, Eq, Structural, Debug)]
pub struct Constraints {
    pub width: Constraint,
    pub height: Constraint,
}

/// A constraint is valid when any fixed extent is a valid dimension.
pub open spec fn constraint_ok(c: Constraint) -> bool {
    match c {
        Constraint::Fixed(v) => dim_ok(v as int),
        _ => true,
    }
}

/// Both axes of a constraint pair are valid.
pub open spec fn constraints_ok(c: Constraints) -> bool {
    constraint_ok(c.width) && constraint_ok(c.height)
}

impl Constraints {
    /// The constraint on the given axis.
    pub open spec fn spec_axis(self, axis: Axis) -> Constraint {
        match axis {
            Axis::Horizontal => self.width,
            Axis::Vertical => self.height,
        }
    }

    /// The constraint on the given axis.
    pub fn axis(&self, axis: Axis) -> (r: Constraint)
        ensures
            r == self.spec_axis(axis),
    {
        match axis {
            Axis::Horizontal => self.width,
            Axis::Vertical => self.height,
        }
    }

    /// Replace the constraint on the given axis.
    pub open spec fn spec_with_axis(self, axis: Axis, c: Constraint) -> Constraints {
        match axis {
            Axis::Horizontal => Constraints { width: c, height: self.height },
            Axis::Vertical => Constraints { width: self.width, height: c },
        }
    }

    /// Replace the constraint on the given axis.
    pub fn with_axis(&self, axis: Axis, c: Constraint) -> (r: Constraints)
        ensures
            r == self.spec_with_axis(axis, c),
    {
        match axis {
            Axis::Horizontal => Constraints { width: c, height: self.height },
            Axis::Vertical => Constraints { width: self.width, height: c },
        }
    }

    /// Ask both axes for an exact extent.
    pub fn fixed(s: Size) -> (r: Constraints)
        ensures
            r == (Constraints { width: Constraint::Fixed(s.w), height: Constraint::Fixed(s.h) }),
    {
        Constraints { width: Constraint::Fixed(s.w), height: Constraint::Fixed(s.h) }
    }
}

/// A resolved position and size in parent-local coordinates, produced once
/// per node per frame by the layout pass.
#[derive(Clone, Copy, PartialEq, Eq, Structural, Debug)]
pub struct Layout {
    pub position: Point,
    pub size: Size,
}

/// An RGBA color with 8-bit channels.
#[derive(Clone, Copy, PartialEq, Eq, Structural, Debug)]
pub struct Rgba {
    pub r: u8,
    pub g: u8,
    pub b: u8,
    pub a: u8,
}

impl Rgba {
    /// Opaque black.
    pub fn black() -> (c: Rgba)
        ensures
            c == (Rgba { r: 0, g: 0, b: 0, a: 255 }),
    {
        Rgba { r: 0, g: 0, b: 0, a: 255 }
    }
}

} // verus!
