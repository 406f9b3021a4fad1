use fly_sim_core::rng::{Lcg, Xorshift64, UNIT_DENOMINATOR, XORSHIFT_FALLBACK};

fn xorshift_by_hand(x: u64) -> u64 {
    let mut x = x;
    x ^= x << 13;
    x ^= x >> 7;
    x ^= x << 17;
    x
}

#[test]
fn a_zero_seed_is_replaced() {
    let mut a = Xorshift64::new(0);
    assert_eq!(a.state, XORSHIFT_FALLBACK);
    let mut b = Xorshift64::new(XORSHIFT_FALLBACK);
    assert_eq!(a.next_u64(), b.next_u64());
}

#[test]
fn xorshift_follows_its_shifts() {
    let mut a = Xorshift64::new(1);
    let mut x = 1u64;
    for _ in 0..1000 {
        x = xorshift_by_hand(x);
        assert_eq!(a.next_u64(), x);
        assert_ne!(x, 0);
    }
    assert_eq!(Xorshift64::new(1).next_u64(), 1082269761);
}

#[test]
fn xorshift_numerators_are_the_upper_bits() {
    let mut a = Xorshift64::new(42);
    let mut b = Xorshift64::new(42);
    for _ in 0..100 {
        let n = a.next_numerator();
        assert_eq!(n, b.next_u64() >> 11);
        assert!(n < UNIT_DENOMINATOR);
    }
}

#[test]
fn lcg_follows_its_mixing() {
    let mut a = Lcg::new(7);
    let mut s = 7u64.wrapping_add(0x9E37_79B9_7F4A_7C15);
    for _ in 0..1000 {
        s = s
            .wrapping_mul(6364136223846793005)
            .wrapping_add(1442695040888963407);
        let mut x = s;
        x ^= x >> 33;
        x = x.wrapping_mul(0xDA94_2042_E4DD_58B5);
        x ^= x >> 32;
        assert_eq!(a.next_numerator(), x >> 11);
        assert_eq!(a.state, s);
    }
}

#[test]
fn the_same_seed_gives_the_same_sequence() {
    let mut a = Lcg::new(99);
    let mut b = Lcg::new(99);
    let mut c = Lcg::new(100);
    let mut differs = false;
    for _ in 0..10 {
        let x = a.next_numerator();
        assert_eq!(x, b.next_numerator());
        differs = differs || x != c.next_numerator();
    }
    assert!(differs);
}
