use kasidin::prng::{step, PCG32};

#[test]
fn first_draws_of_seed_zero() {
    let mut gen = PCG32::new(0);
    assert_eq!(gen.state, 1876011003808476466);
    assert_eq!(gen.next_u32(), 3894649422);
    assert_eq!(gen.next_u32(), 2055130073);
    assert_eq!(gen.next_u32(), 2315086854);
    assert_eq!(gen.next_u32(), 2925816488);
    assert_eq!(gen.next_u32(), 3443325253);
}

#[test]
fn first_draws_of_seed_forty_two() {
    let mut gen = PCG32::new(42);
    assert_eq!(gen.state, 10915315373440060052);
    assert_eq!(gen.next_u32(), 3270867926);
    assert_eq!(gen.next_u32(), 1795671209);
    assert_eq!(gen.next_u32(), 1924641435);
}

#[test]
fn draw_from_state_zero_is_zero_and_advances_by_the_increment() {
    let mut gen = PCG32 { state: 0 };
    assert_eq!(gen.next_u32(), 0);
    assert_eq!(gen.state, 1442695040888963407);
    assert_eq!(gen.next_u32(), 1613493245);
    assert_eq!(gen.state, 1876011003808476466);
}

#[test]
fn draw_from_the_greatest_state_rotates() {
    let mut gen = PCG32 { state: u64::MAX };
    assert_eq!(gen.next_u32(), 4293918721);
    assert_eq!(gen.state, 13525302890751722018);
}

#[test]
fn roll_spreads_the_raw_draw_over_the_range() {
    let mut gen = PCG32::new(1);
    // raw draws 1412771199, 1791099446, 124312908
    assert_eq!(gen.roll(1, 100), 33);
    assert_eq!(gen.roll(1, 100), 42);
    assert_eq!(gen.roll(1, 100), 3);
    let mut low = PCG32 { state: 0 };
    assert_eq!(low.roll(1, 100), 1);
    let mut high = PCG32 { state: u64::MAX };
    assert_eq!(high.roll(1, 100), 100);
    let mut high = PCG32 { state: u64::MAX };
    assert_eq!(high.roll(0, 49), 49);
}

#[test]
fn roll_of_a_single_value_is_that_value_and_still_draws() {
    let mut gen = PCG32::new(9);
    let before = gen;
    assert_eq!(gen.roll(5, 5), 5);
    assert_ne!(gen, before);
}

#[test]
fn roll_over_the_whole_range_is_the_raw_draw() {
    let mut gen = PCG32::new(0);
    assert_eq!(gen.roll(0, u32::MAX), 3894649422);
}

#[test]
fn roll_stays_in_range() {
    let mut gen = PCG32::new(2018);
    for _ in 0..2000 {
        let r = gen.roll(3, 9);
        assert!(3 <= r && r <= 9);
    }
}

#[test]
fn step_is_a_die_of_n_sides() {
    let mut gen = PCG32::new(0);
    assert_eq!(step(&mut gen, 8), 8);
    assert_eq!(step(&mut gen, 8), 4);
    assert_eq!(step(&mut gen, 8), 5);
    let mut gen = PCG32::new(77);
    for _ in 0..500 {
        let r = step(&mut gen, 3);
        assert!(1 <= r && r <= 3);
    }
    assert_eq!(step(&mut gen, 1), 1);
}

#[test]
fn same_state_same_draws() {
    let mut a = PCG32::new(31337);
    for _ in 0..17 {
        a.next_u32();
    }
    // a generator rebuilt from the stored state goes on where the first is
    let mut b = PCG32 { state: a.state };
    for _ in 0..100 {
        assert_eq!(a.next_u32(), b.next_u32());
    }
}

#[test]
fn default_generator_is_seed_zero() {
    assert_eq!(PCG32::default(), PCG32::new(0));
}
