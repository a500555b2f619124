use queens::rng::Rng;

#[test]
fn first_numbers_of_seed_zero() {
    let mut rng = Rng::new(0);
    assert_eq!(rng.next_u64(), 0xE220_A839_7B1D_CDAF);
    assert_eq!(rng.next_u64(), 0x6E78_9E6A_A1B9_65F4);
    assert_eq!(rng.next_u64(), 0x06C4_5D18_8009_454F);
    assert_eq!(rng.next_u64(), 0xF88B_B8A8_724C_81EC);
}

#[test]
fn first_numbers_of_another_seed() {
    let mut rng = Rng::new(1_234_567);
    assert_eq!(rng.next_u64(), 6_457_827_717_110_365_317);
    assert_eq!(rng.next_u64(), 3_203_168_211_198_807_973);
    assert_eq!(rng.next_u64(), 9_817_491_932_198_370_423);
}

#[test]
fn same_seed_same_numbers() {
    let mut a = Rng::new(42);
    let mut b = Rng::new(42);
    for _ in 0..100 {
        assert_eq!(a.next_u64(), b.next_u64());
    }
}

#[test]
fn below_is_the_remainder_of_the_draw() {
    let mut a = Rng::new(0);
    let mut b = Rng::new(0);
    for bound in 1..50usize {
        let drawn = a.next_u64();
        assert_eq!(b.below(bound) as u64, drawn % bound as u64);
    }
    let mut c = Rng::new(0);
    assert_eq!(c.below(10), 5);
    assert_eq!(c.below(1), 0);
}

#[test]
fn below_stays_below() {
    let mut rng = Rng::new(99);
    for bound in 1..200usize {
        assert!(rng.below(bound) < bound);
    }
}
