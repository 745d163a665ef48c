use berlekamp_massey::{BerlekampMassey, LFSR16};

#[test]
fn first_states_from_seed() {
    let mut r = LFSR16::default();
    assert_eq!(r.next(), Some(0x653a));
    assert_eq!(r.next(), Some(0x329d));
    assert_eq!(r.next(), Some(0x994e));
    assert_eq!(r.next(), Some(0x4ca7));
    assert_eq!(r.next(), Some(0x2653));
}

#[test]
fn run_ends_back_at_seed() {
    let mut r = LFSR16::default();
    let mut steps = 0u32;
    while r.next().is_some() {
        steps += 1;
    }
    // The state after the last `Some` is followed by the seed itself.
    assert_eq!(steps + 1, 13335);
}

#[test]
fn synthesis_recovers_the_register() {
    let mut r = LFSR16::default();
    let bits: Vec<i32> = (0..64).map(|_| (r.next().unwrap() >> 15) as i32).collect();
    let bm = BerlekampMassey::new(bits);
    let (c, l) = bm.compute().unwrap();
    assert_eq!(l, 16);
    assert_eq!(c.exponents(), vec![16, 13, 4, 2, 0]);
    assert_eq!(bm.to_string(&c), "x^16 + x^13 + x^4 + x^2 + 1");
}
