use skip_list::level::{promotes, random_level, DRAW_MASK, MAX_LEVEL, PROMOTE_BELOW};

#[test]
fn test_rand_level() {
    for _ in 0..=100 {
        println!("{}", random_level());
    }
}

#[test]
fn random_level_stays_within_bounds() {
    for _ in 0..10_000 {
        let level = random_level();
        assert!(level >= 1);
        assert!(level <= MAX_LEVEL);
    }
}

#[test]
fn random_level_is_mostly_one() {
    // one draw in four promotes, so about three heights in four are 1
    let mut ones: u32 = 0;
    let mut above: u32 = 0;
    for _ in 0..20_000 {
        if random_level() == 1 {
            ones += 1;
        } else {
            above += 1;
        }
    }
    assert!(ones > 13_000, "ones = {}", ones);
    assert!(above > 3_000, "above = {}", above);
}

#[test]
fn constants_have_their_values() {
    assert_eq!(MAX_LEVEL, 32);
    assert_eq!(DRAW_MASK, 0xFFFF);
    assert_eq!(PROMOTE_BELOW, 0x4000);
}

#[test]
fn promotes_reads_the_low_sixteen_bits() {
    assert!(promotes(0));
    assert!(promotes(1));
    assert!(promotes(0x3FFF));
    assert!(!promotes(0x4000));
    assert!(!promotes(0x8000));
    assert!(!promotes(0xFFFF));
    assert!(promotes(0x1_0000));
    assert!(promotes(0x7_3FFF));
    assert!(!promotes(0x7_4000));
    assert!(!promotes(usize::MAX));
}

#[test]
fn promotes_one_draw_in_four() {
    let mut promoted: u32 = 0;
    for draw in 0..0x1_0000usize {
        if promotes(draw) {
            promoted += 1;
        }
    }
    assert_eq!(promoted, 0x4000);
}
