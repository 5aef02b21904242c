use vstd::prelude::*;
use crate::material::Material;

verus! {

/// Up to this depth every path goes on; beyond it a path goes on by chance.
pub const ROULETTE_DEPTH: i32 = 5;

/// No path goes on at this depth or beyond it, whatever chance says.
pub const MAX_DEPTH: i32 = 500;

/// Up to this depth glass follows both the reflected and the transmitted ray;
/// beyond it chance picks one of the two.
pub const SPLIT_DEPTH: i32 = 2;

/// The depth of a hit on a ray that was sent out at depth `depth`.
pub fn enter(depth: i32) -> (d: i32)
    requires
        depth < i32::MAX,
    ensures
        d == depth + 1,
{
    depth + 1
}

/// Whether a hit at depth `depth` decides by chance if its path goes on.
///
/// Where it does, one uniform number is drawn and compared with the largest
/// channel of the surface colour.
pub open spec fn spec_roulette_applies(depth: i32) -> bool {
    depth > ROULETTE_DEPTH
}

#[verifier::when_used_as_spec(spec_roulette_applies)]
pub fn roulette_applies(depth: i32) -> (b: bool)
    ensures
        b == spec_roulette_applies(depth),
{
    depth > ROULETTE_DEPTH
}

/// Whether a path that decides by chance goes on: the number drawn was below
/// the largest channel of the colour, and the depth is below the cutoff.
pub open spec fn spec_survives(depth: i32, below_reflectance: bool) -> bool {
    below_reflectance && depth < MAX_DEPTH
}

#[verifier::when_used_as_spec(spec_survives)]
pub fn survives(depth: i32, below_reflectance: bool) -> (b: bool)
    ensures
        b == spec_survives(depth, below_reflectance),
{
    below_reflectance && depth < MAX_DEPTH
}

/// Whether the path goes on after a hit at depth `depth`, where
/// `below_reflectance` says how the draw came out if there was one.
pub open spec fn goes_on(depth: i32, below_reflectance: bool) -> bool {
    !spec_roulette_applies(depth) || spec_survives(depth, below_reflectance)
}

/// How a path goes on from a surface.
#[derive(Clone, Copy, Debug, PartialEq, Eq, Structural)]
pub enum Bounce {
    /// One ray into a random direction of the hemisphere, after the lights
    /// were sampled directly.
    Scatter,
    /// The mirrored ray alone.
    Reflect,
    /// The mirrored and the transmitted ray, each weighted by its share.
    ReflectAndTransmit,
    /// One of the two, picked by one more draw and weighted to make up for
    /// the other.
    ReflectOrTransmit,
}

/// How the path goes on from a surface of material `material` that was hit
/// at depth `depth`; `total_reflection` says whether the angle is such that
/// glass transmits nothing, and is not looked at for other materials.
pub open spec fn spec_bounce(material: Material, depth: i32, total_reflection: bool) -> Bounce {
    match material {
        Material::Diffuse => Bounce::Scatter,
        Material::Specular => Bounce::Reflect,
        Material::Refractive => if total_reflection {
            Bounce::Reflect
        } else if depth > SPLIT_DEPTH {
            Bounce::ReflectOrTransmit
        } else {
            Bounce::ReflectAndTransmit
        },
    }
}

#[verifier::when_used_as_spec(spec_bounce)]
pub fn bounce(material: Material, depth: i32, total_reflection: bool) -> (b: Bounce)
    ensures
        b == spec_bounce(material, depth, total_reflection),
{
    match material {
        Material::Diffuse => Bounce::Scatter,
        Material::Specular => Bounce::Reflect,
        Material::Refractive => {
            if total_reflection {
                Bounce::Reflect
            } else if depth > SPLIT_DEPTH {
                Bounce::ReflectOrTransmit
            } else {
                Bounce::ReflectAndTransmit
            }
        },
    }
}

impl Bounce {
    /// Whether the rays that continue the path count the light that the
    /// surface they hit emits.
    ///
    /// After scattering they do not: that light was sampled directly, and
    /// would be counted twice.
    pub open spec fn spec_sees_emission(self) -> bool {
        self != Bounce::Scatter
    }

    #[verifier::when_used_as_spec(spec_sees_emission)]
    pub fn sees_emission(self) -> (b: bool)
        ensures
            b == self.spec_sees_emission(),
    {
        match self {
            Bounce::Scatter => false,
            _ => true,
        }
    }

    /// The number of rays that continue the path.
    pub open spec fn spec_rays(self) -> usize {
        if self == Bounce::ReflectAndTransmit {
            2
        } else {
            1
        }
    }

    #[verifier::when_used_as_spec(spec_rays)]
    pub fn rays(self) -> (n: usize)
        ensures
            n == self.spec_rays(),
    {
        match self {
            Bounce::ReflectAndTransmit => 2,
            _ => 1,
        }
    }

    /// The number of uniform draws that picking the rays takes: two for a
    /// random direction, one to pick between reflection and transmission.
    pub open spec fn spec_draws(self) -> usize {
        match self {
            Bounce::Scatter => 2,
            Bounce::ReflectOrTransmit => 1,
            _ => 0,
        }
    }

    #[verifier::when_used_as_spec(spec_draws)]
    pub fn draws(self) -> (n: usize)
        ensures
            n == self.spec_draws(),
    {
        match self {
            Bounce::Scatter => 2,
            Bounce::ReflectOrTransmit => 1,
            _ => 0,
        }
    }
}

/// No path goes on after a hit at the cutoff or beyond it.
///
/// A path that is sent out at depth `start` has its hits at the depths
/// `start + 1`, `start + 2` and so on.  If it went on after each of
/// `outcomes.len()` hits, `outcomes` being how the draws came out, the last
/// of them lies below `MAX_DEPTH`: a path from the camera has fewer than
/// `MAX_DEPTH` hits after which it is continued.
pub proof fn lemma_paths_end(start: i32, outcomes: Seq<bool>)
    requires
        0 <= start,
        start + outcomes.len() <= i32::MAX,
        forall|k: int|
            0 <= k < outcomes.len() ==> goes_on((start + k + 1) as i32, #[trigger] outcomes[k]),
    ensures
        outcomes.len() > 0 ==> start + outcomes.len() < MAX_DEPTH,
{
    if outcomes.len() > 0 {
        let k = outcomes.len() - 1;
        assert(goes_on((start + k + 1) as i32, outcomes[k]));
    }
}

/// The most rays that continue a path from one hit at depth `depth`.
pub open spec fn most_rays(depth: int) -> nat {
    if depth <= SPLIT_DEPTH {
        2
    } else {
        1
    }
}

/// The most hits at depth `depth` that can come of one ray from the camera.
pub open spec fn most_hits(depth: nat) -> nat
    decreases depth,
{
    if depth <= 1 {
        1
    } else {
        most_hits((depth - 1) as nat) * most_rays(depth - 1)
    }
}

/// No hit continues its path by more rays than `most_rays` allows at its
/// depth.
pub proof fn lemma_rays_within(material: Material, depth: i32, total_reflection: bool)
    ensures
        spec_bounce(material, depth, total_reflection).spec_rays() <= most_rays(depth as int),
{
}

/// Splitting does not run away: at no depth does one ray from the camera
/// come to more than four hits.
pub proof fn lemma_paths_stay_few(depth: nat)
    ensures
        most_hits(depth) <= 4,
        depth > SPLIT_DEPTH ==> most_hits(depth) == 4,
    decreases depth,
{
    if depth > 1 {
        lemma_paths_stay_few((depth - 1) as nat);
        if depth == 2 {
            assert(most_hits(1) == 1);
            assert(most_hits(2) == most_hits(1) * most_rays(1));
        } else if depth == 3 {
            assert(most_hits(1) == 1);
            assert(most_hits(2) == most_hits(1) * most_rays(1));
            assert(most_hits(3) == most_hits(2) * most_rays(2));
        } else {
            assert(most_hits(depth) == most_hits((depth - 1) as nat) * most_rays(depth - 1));
        }
    }
}

} // verus!
