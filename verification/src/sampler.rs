use vstd::prelude::*;

verus! {

/// The seed of a render that was given none.
pub const DEFAULT_SEED: u32 = 0x193a6754;

/// The third word of every row's seed.
pub const SEED_THIRD: u32 = 0x15aac60d;

/// The fourth word of every row's seed.
pub const SEED_FOURTH: u32 = 0xb017f00d;

/// The generator of uniform numbers that `rand` provides.
#[verifier::external_type_specification]
#[verifier::external_body]
pub struct ExXorShiftRng(rand::XorShiftRng);

/// The four words that a generator holds: its state, from which all that it
/// draws follows.
pub uninterp spec fn generator_state(rng: rand::XorShiftRng) -> Seq<u32>;

/// The four words that seed the generator of row `row` in a render with seed
/// `seed`: one more than the low 32 bits of the row's square, the seed of the
/// render, and two fixed words.
pub open spec fn spec_row_seed(row: u32, seed: u32) -> Seq<u32> {
    seq![first_word(row), seed, SEED_THIRD, SEED_FOURTH]
}

/// The first word of the seed of a row: one more than the low 32 bits of
/// the row's square.
pub open spec fn first_word(row: u32) -> u32 {
    (1 + (row * row) % 0x1_0000_0000) as u32
}

/// The low 32 bits of a square are never all set, so that one more still fits
/// into 32 bits and is not zero.
pub proof fn lemma_square_low_bits(row: u32)
    ensures
        0 < 1 + (row * row) % 0x1_0000_0000 <= u32::MAX,
{
    let r = row as u64;
    assert(r * r <= 0xFFFF_FFFF * 0xFFFF_FFFF) by (nonlinear_arith)
        requires
            0 <= r <= 0xFFFF_FFFF,
    ;
    let sq = (r * r) as u64;
    assert(sq & 3 != 3) by (bit_vector)
        requires
            sq == r * r,
    ;
    assert(sq % 0x1_0000_0000 != 0xFFFF_FFFF) by (bit_vector)
        requires
            sq & 3 != 3,
    ;
}

/// The rows of an image of up to 65536 rows have seeds that differ, so that
/// no two rows of one render draw the same samples.
pub proof fn lemma_rows_differ(first: u32, second: u32, seed: u32)
    requires
        first != second,
        first < 0x1_0000,
        second < 0x1_0000,
    ensures
        spec_row_seed(first, seed) != spec_row_seed(second, seed),
{
    let a = first as int;
    let b = second as int;
    assert(a * a < 0xFFFF_FFFF && b * b < 0xFFFF_FFFF && a * a != b * b) by (nonlinear_arith)
        requires
            0 <= a < 0x1_0000,
            0 <= b < 0x1_0000,
            a != b,
    ;
    assert((first * first) % 0x1_0000_0000 == a * a);
    assert((second * second) % 0x1_0000_0000 == b * b);
    assert(first_word(first) == 1 + a * a);
    assert(first_word(second) == 1 + b * b);
    assert(spec_row_seed(first, seed)[0] == first_word(first));
    assert(spec_row_seed(second, seed)[0] == first_word(second));
}

/// Computes the seed of a row.
pub fn row_seed(row: u32, seed: u32) -> (words: [u32; 4])
    ensures
        words@ == spec_row_seed(row, seed),
        words[0] != 0,
{
    proof {
        lemma_square_low_bits(row);
    }
    let r = row as u64;
    assert(r * r <= 0xFFFF_FFFF * 0xFFFF_FFFF) by (nonlinear_arith)
        requires
            0 <= r <= 0xFFFF_FFFF,
    ;
    let square: u64 = r * r;
    let low: u32 = (square % 0x1_0000_0000) as u32;
    let words = [1 + low, seed, SEED_THIRD, SEED_FOURTH];
    assert(words@ =~= spec_row_seed(row, seed));
    words
}

/// Makes a generator of a seed by `XorShiftRng::from_seed` of `rand`, which
/// takes the four words as the generator's state and panics on a seed of
/// four zeros.
#[verifier::external_body]
fn seeded(seed: [u32; 4]) -> (rng: rand::XorShiftRng)
    requires
        seed[0] != 0 || seed[1] != 0 || seed[2] != 0 || seed[3] != 0,
    ensures
        generator_state(rng) == seed@,
{
    <rand::XorShiftRng as rand::SeedableRng<[u32; 4]>>::from_seed(seed)
}

/// The generator that draws the samples of row `row`.
///
/// It starts from the seed of the row, which depends on the row and on the
/// seed of the render and on nothing else: which worker renders the row, and
/// when, makes no difference to what the row's samples are.
pub fn row_generator(row: u32, seed: u32) -> (rng: rand::XorShiftRng)
    ensures
        generator_state(rng) == spec_row_seed(row, seed),
{
    seeded(row_seed(row, seed))
}

} // verus!
