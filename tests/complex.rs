use complex_eval::complex::Complex;
use complex_eval::ratio::Ratio;

fn complex_of(names: &[&str]) -> Complex {
    Complex::new(names.iter().map(|n| n.to_string()).collect())
}

#[test]
fn test_os() {
    let a = complex_of(&["A", "B", "C"]);
    let b = complex_of(&["A", "B", "D"]);
    let os_ab = a.os(&b);
    println!("{:?}", os_ab);
    assert_eq!(os_ab, (Ratio { num: 4, den: 9 }, 2));
}

#[test]
fn os_of_complex_with_itself_is_one() {
    let a = complex_of(&["P1", "P2", "P3", "P4"]);
    let (score, shared) = a.os(&a);
    assert_eq!(shared, 4);
    assert_eq!(score.num, score.den);
    assert_eq!(score, Ratio { num: 16, den: 16 });
}

#[test]
fn os_is_symmetric() {
    let a = complex_of(&["A", "B", "C", "E", "F"]);
    let b = complex_of(&["B", "C", "X"]);
    assert_eq!(a.os(&b), b.os(&a));
    assert_eq!(a.os(&b), (Ratio { num: 4, den: 15 }, 2));
}

#[test]
fn os_with_empty_complex_is_zero() {
    let a = complex_of(&["A", "B"]);
    let e = complex_of(&[]);
    assert!(e.is_empty());
    assert_eq!(e.size(), 0);
    assert_eq!(a.os(&e), (Ratio { num: 0, den: 1 }, 0));
    assert_eq!(e.os(&a), (Ratio { num: 0, den: 1 }, 0));
    assert_eq!(e.os(&e), (Ratio { num: 0, den: 1 }, 0));
}

#[test]
fn os_is_between_zero_and_one() {
    let a = complex_of(&["A", "B", "C"]);
    let b = complex_of(&["D", "E"]);
    let c = complex_of(&["A", "B", "C", "D"]);
    for (x, y) in [(&a, &b), (&a, &c), (&b, &c), (&c, &c)] {
        let (score, _) = x.os(y);
        assert!(score.den > 0);
        assert!(score.num <= score.den);
    }
    assert_eq!(a.os(&b), (Ratio { num: 0, den: 6 }, 0));
    assert_eq!(a.os(&c), (Ratio { num: 9, den: 12 }, 3));
}

#[test]
fn repeated_identifiers_count_once() {
    let a = complex_of(&["A", "B", "A", "B", "C"]);
    assert_eq!(a.size(), 3);
    assert!(!a.is_empty());
}

#[test]
fn exceeds_compares_by_value() {
    let quarter = Ratio { num: 1, den: 4 };
    assert!(Ratio { num: 4, den: 9 }.exceeds(&quarter));
    assert!(!Ratio { num: 2, den: 8 }.exceeds(&quarter));
    assert!(!Ratio { num: 1, den: 5 }.exceeds(&quarter));
    assert!(Ratio { num: u128::MAX, den: u128::MAX - 1 }.exceeds(&Ratio { num: 1, den: 1 }));
    assert!(!Ratio { num: u128::MAX - 1, den: u128::MAX }.exceeds(&Ratio { num: 1, den: 1 }));
    assert!(!Ratio { num: 0, den: 3 }.exceeds(&Ratio { num: 0, den: 7 }));
}
