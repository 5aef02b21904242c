use vstd::prelude::*;

verus! {

/// The three ways a surface sends light on.
#[derive(Clone, Copy, Debug, PartialEq, Eq, Structural)]
pub enum Material {
    /// Scatters light evenly over the hemisphere around the normal.
    Diffuse,
    /// Reflects like a mirror.
    Specular,
    /// Reflects and transmits like glass.
    Refractive,
}

} // verus!
