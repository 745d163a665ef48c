use berlekamp_massey::Polynomial;

fn poly(exps: &[usize]) -> Polynomial {
    Polynomial::from_exponents(&exps.to_vec())
}

#[test]
fn one_is_the_constant() {
    assert_eq!(Polynomial::one().exponents(), vec![0]);
    assert_eq!(Polynomial::one().degree(), Some(0));
}

#[test]
fn exponents_are_listed_highest_first() {
    assert_eq!(poly(&[0, 4, 1, 4]).exponents(), vec![4, 1, 0]);
    assert_eq!(poly(&[]).exponents(), Vec::<usize>::new());
}

#[test]
fn degree_of_zero_and_others() {
    assert_eq!(poly(&[]).degree(), None);
    assert_eq!(poly(&[3, 7, 0]).degree(), Some(7));
}

#[test]
fn contains_reports_coefficients() {
    let p = poly(&[5, 2]);
    assert!(p.contains(5));
    assert!(p.contains(2));
    assert!(!p.contains(0));
    assert!(!p.contains(100));
}

#[test]
fn add_is_symmetric_difference() {
    let p = poly(&[4, 2, 0]);
    let q = poly(&[4, 3, 0]);
    assert_eq!(p.add(&q).exponents(), vec![3, 2]);
    assert_eq!(q.add(&p).exponents(), vec![3, 2]);
}

#[test]
fn add_to_itself_is_zero() {
    let p = poly(&[9, 1, 0]);
    let z = p.add(&p);
    assert_eq!(z.exponents(), Vec::<usize>::new());
    assert_eq!(z.degree(), None);
}

#[test]
fn add_is_associative() {
    let p = poly(&[5, 1]);
    let q = poly(&[5, 2, 0]);
    let r = poly(&[2, 1, 7]);
    assert_eq!(p.add(&q).add(&r).exponents(), p.add(&q.add(&r)).exponents());
    assert_eq!(p.add(&q).add(&r).exponents(), vec![7, 0]);
}

#[test]
fn shift_multiplies_by_monomial() {
    assert_eq!(poly(&[3, 0]).shift(2).exponents(), vec![5, 2]);
    assert_eq!(poly(&[3, 0]).shift(0).exponents(), vec![3, 0]);
    assert_eq!(poly(&[]).shift(4).exponents(), Vec::<usize>::new());
}

#[test]
fn discrepancy_xors_the_tapped_bits() {
    let s = vec![1, 0, 1, 1];
    // s[3] ^ s[2] ^ s[0] = 1 ^ 1 ^ 1
    assert!(poly(&[0, 1, 3]).evaluate_discrepancy(&s, 3));
    // s[3] ^ s[1] = 1 ^ 0
    assert!(poly(&[0, 2]).evaluate_discrepancy(&s, 3));
    // s[2] ^ s[0] = 1 ^ 1
    assert!(!poly(&[0, 2]).evaluate_discrepancy(&s, 2));
    assert!(!poly(&[]).evaluate_discrepancy(&s, 2));
}

#[test]
fn display_text() {
    assert_eq!(poly(&[4, 1, 0]).to_display(), "x^4 + x^1 + 1");
    assert_eq!(poly(&[0]).to_display(), "1");
    assert_eq!(poly(&[12]).to_display(), "x^12");
    assert_eq!(poly(&[]).to_display(), "0");
    assert_eq!(poly(&[0, 105, 30]).to_display(), "x^105 + x^30 + 1");
}
