use berlekamp_massey::{synthesize, BerlekampMassey, BmError, Polynomial};

fn run(s: &[i32]) -> (Vec<usize>, usize) {
    let (c, l) = BerlekampMassey::new(s.to_vec()).compute().expect("binary input");
    (c.exponents(), l)
}

/// Whether `s[n]` is the XOR of `s[n - i]` over the exponents `i >= 1`, for `l <= n`.
fn recurrence_holds(exps: &[usize], l: usize, s: &[i32]) -> bool {
    if exps.iter().any(|&e| e > l) {
        return false;
    }
    (l..s.len()).all(|n| {
        let predicted = exps.iter().filter(|&&i| i >= 1).fold(0, |acc, &i| acc ^ s[n - i]);
        predicted == s[n]
    })
}

/// The length of the shortest LFSR producing `s`, by trying every tap set in turn.
fn brute_force_complexity(s: &[i32]) -> usize {
    for l in 0..=s.len() {
        for mask in 0u32..(1u32 << l) {
            let taps: Vec<usize> = (1..=l).filter(|i| mask & (1 << (i - 1)) != 0).collect();
            if recurrence_holds(&taps, l, s) {
                return l;
            }
        }
    }
    s.len()
}

fn all_sequences(n: usize) -> Vec<Vec<i32>> {
    (0u32..(1u32 << n)).map(|m| (0..n).map(|i| ((m >> i) & 1) as i32).collect()).collect()
}

#[test]
fn empty_sequence() {
    assert_eq!(run(&[]), (vec![0], 0));
}

#[test]
fn single_zero() {
    assert_eq!(run(&[0]), (vec![0], 0));
}

#[test]
fn single_one() {
    assert_eq!(run(&[1]), (vec![1, 0], 1));
}

#[test]
fn late_first_one() {
    let s = [0, 0, 0, 1];
    let (c, l) = run(&s);
    assert_eq!((c.clone(), l), (vec![4, 0], 4));
    assert!(recurrence_holds(&c, l, &s));
    assert_eq!(l, brute_force_complexity(&s));
}

#[test]
fn periodic_looking_sequence() {
    let s = [1, 1, 0, 0, 1, 1];
    let (c, l) = run(&s);
    assert_eq!((c.clone(), l), (vec![3, 2, 1, 0], 3));
    assert!(recurrence_holds(&c, l, &s));
    assert_eq!(l, brute_force_complexity(&s));
}

#[test]
fn polynomial_degree_below_length() {
    assert_eq!(run(&[1, 0, 1, 0, 1, 0, 1, 1]), (vec![5, 2, 0], 6));
    assert_eq!(run(&[0, 1, 1, 0, 1, 0, 1, 1, 1, 0]), (vec![6, 5, 3, 0], 6));
}

#[test]
fn all_zero_sequence() {
    assert_eq!(run(&[0; 20]), (vec![0], 0));
}

#[test]
fn invalid_element_is_refused() {
    let r = BerlekampMassey::new(vec![0, 1, 2, 1]).compute();
    assert_eq!(r.err(), Some(BmError::InvalidInput { index: 2, value: 2 }));
}

#[test]
fn first_invalid_element_is_reported() {
    let r = synthesize(&vec![1, -1, 0, 3]);
    assert_eq!(r.err(), Some(BmError::InvalidInput { index: 1, value: -1 }));
}

#[test]
fn recurrence_holds_on_every_short_sequence() {
    for n in 0..=10 {
        for s in all_sequences(n) {
            let (c, l) = run(&s);
            assert!(c.contains(&0));
            assert!(recurrence_holds(&c, l, &s), "{:?}", s);
        }
    }
}

#[test]
fn length_is_minimal_on_every_short_sequence() {
    for n in 0..=10 {
        for s in all_sequences(n) {
            let (_, l) = run(&s);
            assert_eq!(l, brute_force_complexity(&s), "{:?}", s);
        }
    }
}

#[test]
fn prefix_lengths_never_decrease() {
    let s = [1, 1, 0, 0, 1, 1];
    let lengths: Vec<usize> = (0..=s.len()).map(|k| run(&s[..k]).1).collect();
    assert_eq!(lengths, vec![0, 1, 1, 2, 2, 3, 3]);
    for s in all_sequences(9) {
        let lengths: Vec<usize> = (0..=s.len()).map(|k| run(&s[..k]).1).collect();
        assert!(lengths.windows(2).all(|w| w[0] <= w[1]), "{:?}", s);
    }
}

#[test]
fn same_input_same_result() {
    let s = vec![0, 1, 1, 0, 1, 0, 1, 1, 1, 0];
    let bm = BerlekampMassey::new(s.clone());
    let (c1, l1) = bm.compute().unwrap();
    let (c2, l2) = bm.compute().unwrap();
    let (c3, l3) = synthesize(&s).unwrap();
    assert_eq!((c1.exponents(), l1), (c2.exponents(), l2));
    assert_eq!((c1.exponents(), l1), (c3.exponents(), l3));
}

#[test]
fn sequence_is_kept() {
    let bm = BerlekampMassey::new(vec![1, 0, 1]);
    assert_eq!(bm.sequence(), &vec![1, 0, 1]);
}

#[test]
fn result_text() {
    let bm = BerlekampMassey::new(vec![0, 0, 0, 1]);
    let (c, _) = bm.compute().unwrap();
    assert_eq!(bm.to_string(&c), "x^4 + 1");
    let bm = BerlekampMassey::new(vec![1, 1, 0, 0, 1, 1]);
    let (c, _) = bm.compute().unwrap();
    assert_eq!(bm.to_string(&c), "x^3 + x^2 + x^1 + 1");
    assert_eq!(bm.to_string(&Polynomial::from_exponents(&vec![])), "0");
}
