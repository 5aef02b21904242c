use vstd::prelude::*;

verus! {

/// The width of a render that was given none.
pub const DEFAULT_WIDTH: usize = 1024;

/// The height of a render that was given none.
pub const DEFAULT_HEIGHT: usize = 768;

/// The number of samples of a render that was given none.
pub const DEFAULT_SAMPLES: i32 = 1;

/// Each pixel is sampled in four parts, two by two.
pub const SUBPIXELS: usize = 4;

/// The name of the file that a finished image goes to if none was given.
pub const IMAGE_NAME: &'static str = "image.png";

/// The name of the file that a partial render goes to if none was given.
pub const PARTIAL_NAME: &'static str = "image.part";

/// The number of samples that each of the four parts of a pixel gets where
/// `requested` samples were asked for to the pixel: a quarter of them,
/// rounded down, and at least one.
pub open spec fn spec_samples_per_subpixel(requested: i32) -> usize {
    if requested < 8 {
        1
    } else {
        (requested / 4) as usize
    }
}

#[verifier::when_used_as_spec(spec_samples_per_subpixel)]
pub fn samples_per_subpixel(requested: i32) -> (n: usize)
    ensures
        n == spec_samples_per_subpixel(requested),
        1 <= n,
        requested >= 4 ==> SUBPIXELS * n <= requested,
{
    if requested < 8 {
        1
    } else {
        (requested / 4) as usize
    }
}

/// The number of samples that a pixel holds where each of its four parts got
/// `per_subpixel`: the count that a partial render states in its header.
pub open spec fn spec_raw_samples(per_subpixel: usize) -> Option<usize> {
    if SUBPIXELS * per_subpixel <= usize::MAX {
        Some((SUBPIXELS * per_subpixel) as usize)
    } else {
        None
    }
}

#[verifier::when_used_as_spec(spec_raw_samples)]
pub fn raw_samples(per_subpixel: usize) -> (n: Option<usize>)
    ensures
        n == spec_raw_samples(per_subpixel),
{
    per_subpixel.checked_mul(SUBPIXELS)
}

/// The name of the file that the render goes to: the one that was given, or,
/// where that is empty, the one that goes with the kind of render.
pub fn output_name<'a>(given: &'a str, partial: bool) -> (name: &'a str)
    ensures
        name@ == (if given@.len() != 0 {
            given@
        } else if partial {
            PARTIAL_NAME@
        } else {
            IMAGE_NAME@
        }),
{
    if !given.is_empty() {
        given
    } else if partial {
        PARTIAL_NAME
    } else {
        IMAGE_NAME
    }
}

} // verus!
