//! Entity health with saturating damage.

use vstd::prelude::*;

verus! {

/// An entity's health points.
#[derive(Clone, Copy, Debug, PartialEq, Eq, Structural)]
pub struct Health {
    current: usize,
    max: usize,
}

impl Health {
    /// The remaining health points.
    pub closed spec fn spec_current(&self) -> usize {
        self.current
    }

    /// The maximum health points.
    pub closed spec fn spec_max(&self) -> usize {
        self.max
    }

    /// The remaining health points.
    pub fn current(&self) -> (r: usize)
        ensures
            r == self.spec_current(),
    {
        self.current
    }

    /// The maximum health points.
    pub fn max_points(&self) -> (r: usize)
        ensures
            r == self.spec_max(),
    {
        self.max
    }

    /// Full health at the given maximum.
    pub fn new(max: usize) -> (h: Health)
        ensures
            h.spec_current() == max,
            h.spec_max() == max,
    {
        Health { current: max, max }
    }

    /// A copy with `damage` points removed, saturating at zero; the
    /// maximum is kept.
    pub fn damage(&self, damage: usize) -> (h: Health)
        ensures
            h.spec_max() == self.spec_max(),
            h.spec_current() == if damage > self.spec_current() {
                0usize
            } else {
                (self.spec_current() - damage) as usize
            },
    {
        Health {
            current: if self.current < damage {
                0
            } else {
                self.current - damage
            },
            max: self.max,
        }
    }
}

impl Default for Health {
    /// Full health at the default maximum of 100 points.
    fn default() -> (h: Health)
        ensures
            h.spec_current() == 100,
            h.spec_max() == 100,
    {
        Health::new(100)
    }
}

} // verus!
