use vstd::prelude::*;

verus! {

/// The bit of a binary64 pattern that holds the sign.
pub const SIGN_BIT: u64 = 0x8000_0000_0000_0000;

/// The binary64 pattern of positive infinity.
pub const INFINITY_BITS: u64 = 0x7FF0_0000_0000_0000;

/// Whether the pattern has its sign bit set.
pub open spec fn is_negative(bits: u64) -> bool {
    bits >= SIGN_BIT
}

/// The pattern without its sign bit.  Among patterns of numbers a larger
/// magnitude is a number farther from zero.
pub open spec fn magnitude(bits: u64) -> u64 {
    if bits >= SIGN_BIT {
        (bits - SIGN_BIT) as u64
    } else {
        bits
    }
}

/// Whether the pattern stands for no number.
pub open spec fn is_nan(bits: u64) -> bool {
    magnitude(bits) > INFINITY_BITS
}

/// Where the number of a pattern stands among all numbers: its magnitude
/// above zero, or as far below.  The two zeros stand in one place.
pub open spec fn rank(bits: u64) -> int {
    if is_negative(bits) {
        -(magnitude(bits) as int)
    } else {
        magnitude(bits) as int
    }
}

/// Whether the number of pattern `a` is less than that of pattern `b`, as
/// binary64 numbers compare: what is no number is not less than anything,
/// and nothing is less than it.
pub open spec fn less(a: u64, b: u64) -> bool {
    !is_nan(a) && !is_nan(b) && rank(a) < rank(b)
}

/// Whether the pattern stands for a distance at which there is a hit: one
/// that is less than infinity.
pub open spec fn is_hit(bits: u64) -> bool {
    less(bits, INFINITY_BITS)
}

/// The key of a distance: the place of the number, counted from the least.
pub open spec fn spec_distance_key(bits: u64) -> Option<u64> {
    if is_hit(bits) {
        Some((rank(bits) + SIGN_BIT) as u64)
    } else {
        None
    }
}

/// The key of the distance with the given binary64 pattern, or `None` where
/// the pattern stands for no hit.
#[verifier::when_used_as_spec(spec_distance_key)]
pub fn distance_key(bits: u64) -> (key: Option<u64>)
    ensures
        key == spec_distance_key(bits),
{
    if bits >= SIGN_BIT {
        let magnitude = bits - SIGN_BIT;
        if magnitude > INFINITY_BITS {
            None
        } else {
            Some(SIGN_BIT - magnitude)
        }
    } else if bits >= INFINITY_BITS {
        None
    } else {
        Some(SIGN_BIT + bits)
    }
}

/// The binary64 pattern of the distance that a key belongs to, or `None`
/// where no distance has that key.
pub open spec fn spec_key_bits(key: u64) -> Option<u64> {
    if key >= SIGN_BIT + INFINITY_BITS || key < SIGN_BIT - INFINITY_BITS {
        None
    } else if key >= SIGN_BIT {
        Some((key - SIGN_BIT) as u64)
    } else {
        Some((SIGN_BIT + (SIGN_BIT - key)) as u64)
    }
}

#[verifier::when_used_as_spec(spec_key_bits)]
pub fn key_bits(key: u64) -> (bits: Option<u64>)
    ensures
        bits == spec_key_bits(key),
{
    if key >= SIGN_BIT + INFINITY_BITS || key < SIGN_BIT - INFINITY_BITS {
        None
    } else if key >= SIGN_BIT {
        Some(key - SIGN_BIT)
    } else {
        Some(SIGN_BIT + (SIGN_BIT - key))
    }
}

/// Keys compare as the distances do: the key of one hit is below that of
/// another exactly if its distance is less, and the keys are the same
/// exactly if the distances are equal.
pub proof fn lemma_keys_order(a: u64, b: u64)
    requires
        is_hit(a),
        is_hit(b),
    ensures
        spec_distance_key(a).unwrap() < spec_distance_key(b).unwrap() <==> less(a, b),
        spec_distance_key(a).unwrap() == spec_distance_key(b).unwrap() <==> rank(a) == rank(b),
{
}

/// A key gives its distance back: the same pattern, but that zero comes back
/// without a sign.  What is no key of a distance gives nothing.
pub proof fn lemma_key_gives_distance(bits: u64)
    requires
        is_hit(bits),
    ensures
        spec_key_bits(spec_distance_key(bits).unwrap()) == Some(
            if bits == SIGN_BIT {
                0
            } else {
                bits
            },
        ),
{
}

/// Each key that gives a distance is the key of that distance.
pub proof fn lemma_distance_gives_key(key: u64)
    ensures
        (match spec_key_bits(key) {
            Some(bits) => spec_distance_key(bits) == Some(key),
            None => forall|bits: u64| spec_distance_key(bits) != Some(key),
        }),
{
}

} // verus!
