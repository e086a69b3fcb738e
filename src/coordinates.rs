//! Cell coordinates with saturating arithmetic.
use vstd::prelude::*;

verus! {

/// Largest value a coordinate component can take.
pub const COORD_MAX: u16 = 65535;

/// Clamps an integer into the range of a coordinate component.
pub open spec fn clamp_coord(v: int) -> int {
    if v < 0 {
        0
    } else if v > COORD_MAX as int {
        COORD_MAX as int
    } else {
        v
    }
}

/// A cell position: `x` grows to the right, `y` grows upwards.
///
/// All arithmetic on coordinates saturates: a component never wraps around,
/// it stops at `0` below and at `u16::MAX` above.
#[derive(Debug, Default, Clone, Copy, PartialEq, Eq, Structural, Hash, PartialOrd, Ord)]
pub struct Coordinates {
    pub x: u16,
    pub y: u16,
}

impl Coordinates {
    /// Component-wise saturating sum of two coordinates.
    pub fn saturating_add(self, other: Coordinates) -> (r: Coordinates)
        ensures
            r.x == clamp_coord(self.x + other.x),
            r.y == clamp_coord(self.y + other.y),
    {
        Coordinates { x: self.x.saturating_add(other.x), y: self.y.saturating_add(other.y) }
    }

    /// Component-wise saturating difference of two coordinates.
    pub fn saturating_sub(self, other: Coordinates) -> (r: Coordinates)
        ensures
            r.x == clamp_coord(self.x - other.x),
            r.y == clamp_coord(self.y - other.y),
    {
        Coordinates { x: self.x.saturating_sub(other.x), y: self.y.saturating_sub(other.y) }
    }

    /// Moves by a signed offset, saturating each component.
    pub fn offset(self, delta: (i8, i8)) -> (r: Coordinates)
        ensures
            r.x == clamp_coord(self.x + delta.0),
            r.y == clamp_coord(self.y + delta.1),
    {
        Coordinates { x: shift(self.x, delta.0), y: shift(self.y, delta.1) }
    }

    /// Moves by a signed offset, or `None` when a component would leave the
    /// representable range.
    pub fn checked_offset(self, delta: (i8, i8)) -> (r: Option<Coordinates>)
        ensures
            r is Some <==> (0 <= self.x + delta.0 <= COORD_MAX && 0 <= self.y + delta.1
                <= COORD_MAX),
            r matches Some(p) ==> p.x == self.x + delta.0 && p.y == self.y + delta.1,
    {
        let nx: i32 = self.x as i32 + delta.0 as i32;
        let ny: i32 = self.y as i32 + delta.1 as i32;
        if 0 <= nx && nx <= COORD_MAX as i32 && 0 <= ny && ny <= COORD_MAX as i32 {
            Some(Coordinates { x: nx as u16, y: ny as u16 })
        } else {
            None
        }
    }
}

/// Saturating move of one component by a signed step.
fn shift(v: u16, d: i8) -> (r: u16)
    ensures
        r == clamp_coord(v + d),
{
    let n: i32 = v as i32 + d as i32;
    if n < 0 {
        0
    } else if n > COORD_MAX as i32 {
        COORD_MAX
    } else {
        n as u16
    }
}

/// The component-wise saturating sum, as a value.
pub open spec fn sum_spec(a: Coordinates, b: Coordinates) -> Coordinates {
    Coordinates { x: clamp_coord(a.x + b.x) as u16, y: clamp_coord(a.y + b.y) as u16 }
}

/// The component-wise saturating difference, as a value.
pub open spec fn difference_spec(a: Coordinates, b: Coordinates) -> Coordinates {
    Coordinates { x: clamp_coord(a.x - b.x) as u16, y: clamp_coord(a.y - b.y) as u16 }
}

/// A coordinate moved by a signed offset with saturation, as a value.
pub open spec fn offset_spec(a: Coordinates, d: (i8, i8)) -> Coordinates {
    Coordinates { x: clamp_coord(a.x + d.0) as u16, y: clamp_coord(a.y + d.1) as u16 }
}

impl core::ops::Add for Coordinates {
    type Output = Coordinates;

    fn add(self, other: Coordinates) -> Coordinates {
        self.saturating_add(other)
    }
}

impl vstd::std_specs::ops::AddSpecImpl for Coordinates {
    open spec fn obeys_add_spec() -> bool {
        true
    }

    open spec fn add_req(self, rhs: Coordinates) -> bool {
        true
    }

    open spec fn add_spec(self, rhs: Coordinates) -> Coordinates {
        sum_spec(self, rhs)
    }
}

impl core::ops::Add<(i8, i8)> for Coordinates {
    type Output = Coordinates;

    fn add(self, other: (i8, i8)) -> Coordinates {
        self.offset(other)
    }
}

impl vstd::std_specs::ops::AddSpecImpl<(i8, i8)> for Coordinates {
    open spec fn obeys_add_spec() -> bool {
        true
    }

    open spec fn add_req(self, rhs: (i8, i8)) -> bool {
        true
    }

    open spec fn add_spec(self, rhs: (i8, i8)) -> Coordinates {
        offset_spec(self, rhs)
    }
}

impl core::ops::Sub for Coordinates {
    type Output = Coordinates;

    fn sub(self, other: Coordinates) -> Coordinates {
        self.saturating_sub(other)
    }
}

impl vstd::std_specs::ops::SubSpecImpl for Coordinates {
    open spec fn obeys_sub_spec() -> bool {
        true
    }

    open spec fn sub_req(self, rhs: Coordinates) -> bool {
        true
    }

    open spec fn sub_spec(self, rhs: Coordinates) -> Coordinates {
        difference_spec(self, rhs)
    }
}

} // verus!
