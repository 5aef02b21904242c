use vstd::prelude::*;

verus! {

/// The largest level a channel of the finished image can have.
pub const MAX_LEVEL: i64 = 255;

/// A value that can be forced into the range its kind allows.
pub trait Clamp: Sized {
    /// The value of the range that is nearest to `self`.
    spec fn clamped(self) -> Self;

    /// Forces the value into the range.
    fn clamp(self) -> (r: Self)
        ensures
            r == self.clamped(),
    ;
}

/// A channel of a pixel after gamma encoding and rounding, before it is known
/// to fit into a byte.
#[derive(Clone, Copy, Debug, PartialEq, Eq, Structural)]
pub struct Level {
    pub value: i64,
}

impl Clamp for Level {
    open spec fn clamped(self) -> Level {
        if self.value < 0 {
            Level { value: 0 }
        } else if self.value > MAX_LEVEL {
            Level { value: MAX_LEVEL }
        } else {
            self
        }
    }

    fn clamp(self) -> (r: Level) {
        if self.value < 0 {
            Level { value: 0 }
        } else if self.value > MAX_LEVEL {
            Level { value: MAX_LEVEL }
        } else {
            self
        }
    }
}

/// The byte that stands for a level in the finished image: the level itself
/// where it is a byte, 0 below and 255 above.
pub open spec fn spec_to_int(level: i64) -> u8 {
    (Level { value: level }).clamped().value as u8
}

#[verifier::when_used_as_spec(spec_to_int)]
pub fn to_int(level: i64) -> (b: u8)
    ensures
        b == spec_to_int(level),
        0 <= level <= MAX_LEVEL ==> b == level,
        level < 0 ==> b == 0,
        level > MAX_LEVEL ==> b == 255,
{
    let forced = (Level { value: level }).clamp();
    forced.value as u8
}

} // verus!
