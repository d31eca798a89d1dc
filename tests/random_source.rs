use flappy_evolution::random::{seed_from_entropy, Random, ENTROPY_BYTES};

#[test]
fn seed_from_zero_entropy_is_zero() {
    assert_eq!(seed_from_entropy(&vec![0u8; ENTROPY_BYTES]), 0);
}

#[test]
fn seed_from_high_entropy_sets_every_bit() {
    assert_eq!(seed_from_entropy(&vec![255u8; ENTROPY_BYTES]), u32::MAX);
}

#[test]
fn seed_bit_follows_byte_position() {
    let mut bytes = vec![0u8; ENTROPY_BYTES];
    bytes[0] = 200;
    assert_eq!(seed_from_entropy(&bytes), 1);
    bytes[0] = 0;
    bytes[1] = 128;
    assert_eq!(seed_from_entropy(&bytes), 2);
    bytes[31] = 129;
    assert_eq!(seed_from_entropy(&bytes), 2 + (1u32 << 31));
}

#[test]
fn seed_threshold_is_above_127() {
    let mut bytes = vec![0u8; ENTROPY_BYTES];
    bytes[3] = 127;
    assert_eq!(seed_from_entropy(&bytes), 0);
    bytes[3] = 128;
    assert_eq!(seed_from_entropy(&bytes), 8);
}

#[test]
fn seed_from_short_buffer() {
    assert_eq!(seed_from_entropy(&vec![]), 0);
    assert_eq!(seed_from_entropy(&vec![130, 5, 140]), 5);
}

#[test]
fn same_seed_gives_same_draws() {
    let mut a = Random::new().with_seed(1234);
    let mut b = Random::new().with_seed(1234);
    for _ in 0..100 {
        assert_eq!(a.rand_u32(), b.rand_u32());
        assert_eq!(a.rand_i32(), b.rand_i32());
    }
}

#[test]
fn different_seeds_give_different_draws() {
    let mut a = Random::new().with_seed(1);
    let mut b = Random::new().with_seed(2);
    let xs: Vec<u32> = (0..8).map(|_| a.rand_u32()).collect();
    let ys: Vec<u32> = (0..8).map(|_| b.rand_u32()).collect();
    assert_ne!(xs, ys);
}

#[test]
fn rand_range_stays_in_range() {
    let mut random = Random::new().with_seed(7);
    let mut seen = [false; 4];
    for _ in 0..1000 {
        let r = random.rand_range(5..9);
        assert!((5..9).contains(&r));
        seen[(r - 5) as usize] = true;
    }
    assert!(seen.iter().all(|s| *s));
}

#[test]
fn rand_range_of_one_value() {
    let mut random = Random::new().with_seed(99);
    for _ in 0..50 {
        assert_eq!(random.rand_range(41..42), 41);
    }
}

#[test]
fn widened_draws_stay_in_narrow_range() {
    let mut random = Random::new().with_seed(3);
    for _ in 0..200 {
        assert!(random.rand_usize() <= u32::MAX as usize);
        let i = random.rand_isize();
        assert!(i >= i32::MIN as isize && i <= i32::MAX as isize);
    }
}

#[test]
fn widened_draws_follow_the_generator() {
    let mut a = Random::new().with_seed(11);
    let mut b = Random::new().with_seed(11);
    assert_eq!(a.rand_usize(), b.rand_u32() as usize);
    assert_eq!(a.rand_isize(), b.rand_i32() as isize);
}

#[test]
fn entropy_seeded_generator_draws() {
    let mut random = Random::new();
    let r = random.rand_range(0..10);
    assert!(r < 10);
}
