//! Sprite-animation frame bookkeeping: which atlas frame a timer-driven
//! playback shows next.

use vstd::prelude::*;

verus! {

/// One named sprite animation: the first and last frame index of its
/// texture-atlas range. Two animations are the same exactly when their
/// frame ranges coincide.
#[derive(Clone, Copy, Debug, PartialEq, Eq, Structural)]
pub struct SpriteAnimation {
    pub first: usize,
    pub last: usize,
}

impl SpriteAnimation {
    /// Whether `index` is one of this animation's frames.
    pub open spec fn holds_frame(&self, index: usize) -> bool {
        self.first <= index <= self.last
    }

    /// The frame shown after `index` once the playback timer fires: the
    /// following frame of the range, wrapping from the last frame back to
    /// the first.
    pub fn next_frame(&self, index: usize) -> (r: usize)
        requires
            index <= self.last,
        ensures
            r == (if index == self.last {
                self.first
            } else {
                (index + 1) as usize
            }),
            self.holds_frame(index) && self.first <= self.last ==> self.holds_frame(r),
    {
        if index == self.last {
            self.first
        } else {
            index + 1
        }
    }
}

} // verus!
