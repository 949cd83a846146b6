use quicksort::prng::{make_random_vec, Prng};

#[test]
fn next_u32_from_zero_seed() {
    let mut prng = Prng { seed: 0 };
    assert_eq!(prng.next_u32(), 12345);
    assert_eq!(prng.next_u32(), 1406932606);
    assert_eq!(prng.next_u32(), 654583775);
    assert_eq!(prng.next_u32(), 1449466924);
    assert_eq!(prng.next_u32(), 229283573);
    assert_eq!(prng.next_u32(), 1109335178);
}

#[test]
fn next_u32_from_fixed_seed() {
    let mut prng = Prng { seed: 42 };
    assert_eq!(prng.next_u32(), 1250496027);
    assert_eq!(prng.next_u32(), 1116302264);
    assert_eq!(prng.next_u32(), 1000676753);
    assert_eq!(prng.next_u32(), 1668674806);
}

#[test]
fn next_u32_matches_recurrence() {
    let mut prng = Prng { seed: 0xDEAD_BEEF };
    let mut seed: u64 = 0xDEAD_BEEF;
    for _ in 0..1000 {
        seed = (seed * 1103515245 + 12345) % (1 << 31);
        assert_eq!(prng.next_u32() as u64, seed);
    }
}

#[test]
fn next_u32_stays_below_two_to_the_31() {
    let mut prng = Prng { seed: u32::MAX };
    for _ in 0..1000 {
        assert!(prng.next_u32() < 1 << 31);
    }
}

#[test]
fn next_i32_exact_value() {
    // From seed 42 the first raw draw is 1250496027, so the bounded
    // value is -3 + (10 * 1250496027) / 2^31 = 2.
    let mut prng = Prng { seed: 42 };
    assert_eq!(prng.next_i32(-3, 7), 2);
}

#[test]
fn next_i32_bounds_ten_thousand_draws() {
    let mut prng = Prng { seed: 123456789 };
    for _ in 0..10_000 {
        let v = prng.next_i32(-50, 75);
        assert!(-50 <= v && v < 75);
    }
}

#[test]
fn next_i32_width_one_range_is_constant() {
    let mut prng = Prng { seed: 31415 };
    for _ in 0..100 {
        assert_eq!(prng.next_i32(9, 10), 9);
    }
}

#[test]
fn next_i32_full_width_range() {
    let mut prng = Prng { seed: 271828 };
    for _ in 0..1000 {
        let v = prng.next_i32(i32::MIN, i32::MAX);
        assert!(v < i32::MAX);
    }
}

#[test]
fn prng_determinism_raw_draws() {
    let mut a = Prng { seed: 987654321 };
    let mut b = Prng { seed: 987654321 };
    for _ in 0..1000 {
        assert_eq!(a.next_u32(), b.next_u32());
    }
}

#[test]
fn prng_determinism_bounded_draws() {
    let mut a = Prng { seed: 24601 };
    let mut b = Prng { seed: 24601 };
    for _ in 0..1000 {
        assert_eq!(a.next_i32(-1000, 1000), b.next_i32(-1000, 1000));
    }
}

#[test]
fn new_generator_draws_in_range() {
    let mut prng = Prng::new();
    for _ in 0..100 {
        let v = prng.next_i32(0, 50);
        assert!(0 <= v && v < 50);
    }
}

#[test]
fn randomize_then_draw_in_range() {
    let mut prng = Prng { seed: 5 };
    prng.randomize();
    for _ in 0..100 {
        assert!(prng.next_u32() < 1 << 31);
    }
}

#[test]
fn make_random_vec_length_and_bounds() {
    let vec = make_random_vec(200, 10);
    assert_eq!(vec.len(), 200);
    for &x in vec.iter() {
        assert!(0 <= x && x < 10);
    }
}

#[test]
fn make_random_vec_empty() {
    let vec = make_random_vec(0, 1000);
    assert!(vec.is_empty());
}
