//! Stateless coordinate transforms over 2D integer vectors.
//!
//! World positions are modelled with exact integer components. `relative_to`
//! and `undo_relative` convert between a tilemap's world anchor and a
//! zero-relative frame; `abs` and `copy_signs` handle the sign-aware
//! transforms needed because the tile-index axis and the world Y axis run in
//! opposite directions.

use vstd::prelude::*;

verus! {

/// A 2D vector with integer components.
#[derive(Clone, Copy, Debug, PartialEq, Eq, Structural)]
pub struct Vec2i {
    pub x: i64,
    pub y: i64,
}

/// Mathematical component-wise subtraction.
pub open spec fn spec_relative_to(px: int, py: int, zx: int, zy: int) -> (int, int) {
    (px - zx, py - zy)
}

/// Mathematical component-wise addition.
pub open spec fn spec_undo_relative(px: int, py: int, zx: int, zy: int) -> (int, int) {
    (px + zx, py + zy)
}

/// Mathematical absolute value of one component.
pub open spec fn spec_abs(a: int) -> int {
    if a < 0 {
        -a
    } else {
        a
    }
}

/// Magnitude of `a` carrying the sign of `s`; a non-negative `s` counts as
/// positive.
pub open spec fn spec_copy_sign(a: int, s: int) -> int {
    if s < 0 {
        -spec_abs(a)
    } else {
        spec_abs(a)
    }
}

impl Vec2i {
    /// Build a vector from its components.
    pub fn new(x: i64, y: i64) -> (r: Vec2i)
        ensures
            r == (Vec2i { x, y }),
    {
        Vec2i { x, y }
    }

    /// This point expressed relative to the origin `zero`.
    pub fn relative_to(&self, zero: &Vec2i) -> (r: Vec2i)
        requires
            i64::MIN <= self.x - zero.x <= i64::MAX,
            i64::MIN <= self.y - zero.y <= i64::MAX,
        ensures
            (r.x as int, r.y as int) == spec_relative_to(
                self.x as int,
                self.y as int,
                zero.x as int,
                zero.y as int,
            ),
    {
        Vec2i { x: self.x - zero.x, y: self.y - zero.y }
    }

    /// Inverse of `relative_to`: translate back by the origin `zero`.
    pub fn undo_relative(&self, zero: &Vec2i) -> (r: Vec2i)
        requires
            i64::MIN <= self.x + zero.x <= i64::MAX,
            i64::MIN <= self.y + zero.y <= i64::MAX,
        ensures
            (r.x as int, r.y as int) == spec_undo_relative(
                self.x as int,
                self.y as int,
                zero.x as int,
                zero.y as int,
            ),
    {
        Vec2i { x: self.x + zero.x, y: self.y + zero.y }
    }

    /// Component-wise absolute value.
    pub fn abs(&self) -> (r: Vec2i)
        requires
            self.x != i64::MIN,
            self.y != i64::MIN,
        ensures
            r.x == spec_abs(self.x as int),
            r.y == spec_abs(self.y as int),
    {
        Vec2i {
            x: if self.x < 0 {
                -self.x
            } else {
                self.x
            },
            y: if self.y < 0 {
                -self.y
            } else {
                self.y
            },
        }
    }

    /// Component-wise magnitude of `self` with the sign of the corresponding
    /// component of `signs`.
    pub fn copy_signs(&self, signs: &Vec2i) -> (r: Vec2i)
        requires
            self.x != i64::MIN,
            self.y != i64::MIN,
        ensures
            r.x == spec_copy_sign(self.x as int, signs.x as int),
            r.y == spec_copy_sign(self.y as int, signs.y as int),
    {
        let ax: i64 = if self.x < 0 {
            -self.x
        } else {
            self.x
        };
        let ay: i64 = if self.y < 0 {
            -self.y
        } else {
            self.y
        };
        Vec2i {
            x: if signs.x < 0 {
                -ax
            } else {
                ax
            },
            y: if signs.y < 0 {
                -ay
            } else {
                ay
            },
        }
    }

    /// World-space top-left corner of a tilemap anchored at `self`, given the
    /// map's tile count and the world size of one grid cell: the Y component
    /// moves up by `cell_y * (map_rows - 1)` because tile rows are indexed
    /// downward while world Y grows upward.
    pub fn tiled_top_left(&self, map_rows: u32, cell_y: i64) -> (r: Vec2i)
        requires
            map_rows >= 1,
            i64::MIN <= self.y + cell_y * (map_rows - 1) <= i64::MAX,
            i64::MIN <= cell_y * (map_rows - 1) <= i64::MAX,
        ensures
            r.x == self.x,
            r.y == self.y + cell_y * (map_rows - 1),
    {
        let rows_above: i64 = (map_rows - 1) as i64;
        Vec2i { x: self.x, y: self.y + cell_y * rows_above }
    }
}

/// The movement direction chosen by the pressed directional inputs: each
/// axis sums its two opposing inputs, so pressing both cancels to zero.
pub fn direction_from(left: bool, right: bool, up: bool, down: bool) -> (r: Vec2i)
    ensures
        r.x == (if right {
            1int
        } else {
            0int
        }) - (if left {
            1int
        } else {
            0int
        }),
        r.y == (if up {
            1int
        } else {
            0int
        }) - (if down {
            1int
        } else {
            0int
        }),
{
    let mut x: i64 = 0;
    let mut y: i64 = 0;
    if left {
        x = x - 1;
    }
    if right {
        x = x + 1;
    }
    if up {
        y = y + 1;
    }
    if down {
        y = y - 1;
    }
    Vec2i { x, y }
}

/// `undo_relative` undoes `relative_to`: translating a point into the frame
/// of an origin and back returns the original point, for every point and
/// every origin.
pub proof fn lemma_relative_round_trip(px: int, py: int, zx: int, zy: int)
    ensures
        spec_undo_relative(
            spec_relative_to(px, py, zx, zy).0,
            spec_relative_to(px, py, zx, zy).1,
            zx,
            zy,
        ) == (px, py),
{
}

/// `copy_signs` is idempotent for a fixed sign vector: applying the same sign
/// a second time changes nothing, and the magnitude always equals the
/// original absolute value while the sign matches the sign argument.
pub proof fn lemma_copy_sign_idempotent(a: int, s: int)
    ensures
        spec_copy_sign(spec_copy_sign(a, s), s) == spec_copy_sign(a, s),
        spec_abs(spec_copy_sign(a, s)) == spec_abs(a),
        s < 0 ==> spec_copy_sign(a, s) <= 0,
        s >= 0 ==> spec_copy_sign(a, s) >= 0,
{
}

} // verus!
