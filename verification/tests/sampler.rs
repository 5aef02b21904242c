use path_tracer::sampler::{row_generator, row_seed, DEFAULT_SEED};
use rand::Rng;

fn xorshift(state: &mut [u32; 4]) -> u32 {
    let t = state[0] ^ (state[0] << 11);
    state[0] = state[1];
    state[1] = state[2];
    state[2] = state[3];
    state[3] = state[3] ^ (state[3] >> 19) ^ (t ^ (t >> 8));
    state[3]
}

#[test]
fn row_seed_of_the_first_rows() {
    assert_eq!(row_seed(0, 7), [1, 7, 0x15aac60d, 0xb017f00d]);
    assert_eq!(row_seed(1, 7), [2, 7, 0x15aac60d, 0xb017f00d]);
    assert_eq!(row_seed(767, DEFAULT_SEED), [588290, 0x193a6754, 0x15aac60d, 0xb017f00d]);
}

#[test]
fn row_seed_wraps_the_square() {
    assert_eq!(row_seed(65536, 0)[0], 1);
    assert_eq!(row_seed(65537, 0)[0], 131074);
    assert_eq!(row_seed(u32::MAX, 0)[0], 2);
}

#[test]
fn row_seed_is_never_all_zero() {
    for row in [0u32, 1, 2, 3, 255, 65535, 65536, 0x8000_0000, u32::MAX] {
        assert_ne!(row_seed(row, 0)[0], 0);
    }
}

#[test]
fn row_generator_starts_from_the_row_seed() {
    let mut rng = row_generator(5, 0x193a6754);
    let mut state = [26u32, 0x193a6754, 0x15aac60d, 0xb017f00d];
    for _ in 0..8 {
        assert_eq!(rng.next_u32(), xorshift(&mut state));
    }
}

#[test]
fn row_generator_depends_on_row_and_seed_alone() {
    let mut a = row_generator(12, 99);
    let mut b = row_generator(12, 99);
    let mut c = row_generator(13, 99);
    let mut d = row_generator(12, 98);
    let first: Vec<u32> = (0..4).map(|_| a.next_u32()).collect();
    assert_eq!(first, (0..4).map(|_| b.next_u32()).collect::<Vec<u32>>());
    assert_ne!(first, (0..4).map(|_| c.next_u32()).collect::<Vec<u32>>());
    assert_ne!(first, (0..4).map(|_| d.next_u32()).collect::<Vec<u32>>());
}
