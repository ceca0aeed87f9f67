//! Fixed-point coordinates.
use vstd::prelude::*;

verus! {

/// Number of fractional bits of a [`Fixed`] value.
pub const FRACT_BITS: u32 = 16;

/// One whole unit in the raw representation of a [`Fixed`] value.
pub const ONE: i64 = 65536;

/// Largest magnitude of a raw coordinate that the layout passes accept.
pub const COORD_LIMIT: i64 = 0x100_0000_0000;

/// A signed fixed-point number: `raw / 2^FRACT_BITS`.
#[derive(Clone, Copy, Debug, PartialEq, Eq, Structural, Hash)]
pub struct Fixed {
    pub raw: i64,
}

/// A point of the plane in fixed-point coordinates.
#[derive(Clone, Copy, Debug, PartialEq, Eq, Structural, Hash)]
pub struct Point {
    pub x: Fixed,
    pub y: Fixed,
}

impl Fixed {
    /// The value as an integer count of `2^-FRACT_BITS` steps.
    pub open spec fn val(self) -> int {
        self.raw as int
    }

    /// Whether the value lies within the accepted coordinate range.
    pub open spec fn in_range(self) -> bool {
        -COORD_LIMIT <= self.raw <= COORD_LIMIT
    }

    /// The whole number `n`.
    pub fn from_int(n: i32) -> (r: Fixed)
        ensures
            r.val() == n * ONE,
    {
        Fixed { raw: n as i64 * ONE }
    }

    /// The value with raw representation `raw`.
    pub fn from_raw(raw: i64) -> (r: Fixed)
        ensures
            r.raw == raw,
    {
        Fixed { raw }
    }

    pub fn add(self, o: Fixed) -> (r: Fixed)
        requires
            i64::MIN <= self.val() + o.val() <= i64::MAX,
        ensures
            r.val() == self.val() + o.val(),
    {
        Fixed { raw: self.raw + o.raw }
    }

    pub fn sub(self, o: Fixed) -> (r: Fixed)
        requires
            i64::MIN <= self.val() - o.val() <= i64::MAX,
        ensures
            r.val() == self.val() - o.val(),
    {
        Fixed { raw: self.raw - o.raw }
    }

    /// Absolute value.
    pub fn abs(self) -> (r: Fixed)
        requires
            self.raw > i64::MIN,
        ensures
            r.val() == if self.val() < 0 { -self.val() } else { self.val() },
    {
        if self.raw < 0 {
            Fixed { raw: -self.raw }
        } else {
            self
        }
    }

    /// Half of the value, rounded toward negative infinity.
    pub fn half(self) -> (r: Fixed)
        ensures
            r.val() == self.val() / 2,
    {
        let q = self.raw / 2;
        if self.raw < 0 && q * 2 != self.raw {
            Fixed { raw: q - 1 }
        } else {
            Fixed { raw: q }
        }
    }

    /// The smaller of two values.
    pub fn min(self, o: Fixed) -> (r: Fixed)
        ensures
            r.val() == if self.val() <= o.val() { self.val() } else { o.val() },
    {
        if self.raw <= o.raw {
            self
        } else {
            o
        }
    }

    /// The larger of two values.
    pub fn max(self, o: Fixed) -> (r: Fixed)
        ensures
            r.val() == if self.val() >= o.val() { self.val() } else { o.val() },
    {
        if self.raw >= o.raw {
            self
        } else {
            o
        }
    }
}

} // verus!
