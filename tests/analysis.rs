use complex_eval::analysis::{evaluate, Analysis};
use complex_eval::loader::{read_complexes, read_ppi_proteins, LoadError};
use complex_eval::metrics::{IndexError, IndexResult};
use complex_eval::ratio::Ratio;

const PPI: &str = "A B\nB C\nC D\nD E\nE F\nF G\nG H\n";
const COMPLEXES: &str = "A B C\nD E F G\nB C\nF G H\n";

fn quarter() -> Ratio {
    Ratio { num: 1, den: 4 }
}

#[test]
fn test_read_complex() {
    let analysis = Analysis::new(PPI, COMPLEXES, COMPLEXES, 3).unwrap();
    assert_eq!(analysis.reference_len(), 3);
    assert_eq!(analysis.predicted_len(), 3);
    for i in 0..3 {
        for j in 0..3 {
            println!("{:?} {}", analysis.os_at(i, j), analysis.overlap_at(i, j));
        }
    }
    let index_result = analysis.calculate_index(quarter()).unwrap();
    println!("{:?}", index_result);
    assert_eq!(index_result.precision, Ratio { num: 3, den: 3 });
    assert_eq!(index_result.recall, Ratio { num: 3, den: 3 });
    assert_eq!(index_result.f_measure, Some(Ratio { num: 18, den: 18 }));
    // Sizes 3, 4, 3; each reference complex is best matched by itself.
    assert_eq!(index_result.sn, Some(Ratio { num: 10, den: 10 }));
    // Row maxima 3, 4, 3; entries 3+0+0, 0+4+2, 0+2+3.
    assert_eq!(index_result.ppv, Some(Ratio { num: 10, den: 14 }));
}

#[test]
fn end_to_end_single_pair() {
    let r = evaluate("A B\nC D\n", "A B C\n", "A B D\n", 3, quarter());
    let expected = IndexResult {
        precision: Ratio { num: 1, den: 1 },
        recall: Ratio { num: 1, den: 1 },
        f_measure: Some(Ratio { num: 2, den: 2 }),
        sn: Some(Ratio { num: 2, den: 3 }),
        ppv: Some(Ratio { num: 2, den: 2 }),
    };
    assert_eq!(r, Ok(Ok(expected)));
    let acc = ((2.0f64 / 3.0) * 1.0).sqrt();
    assert!((acc - 0.816496580927726).abs() < 1e-12);
}

#[test]
fn evaluation_is_repeatable() {
    let first = evaluate(PPI, COMPLEXES, "A B D\nE F G H\n", 3, quarter());
    let second = evaluate(PPI, COMPLEXES, "A B D\nE F G H\n", 3, quarter());
    assert_eq!(first, second);
    assert!(matches!(first, Ok(Ok(_))));
}

fn names(ids: &[&str]) -> Vec<String> {
    ids.iter().map(|n| n.to_string()).collect()
}

#[test]
fn short_lines_are_dropped() {
    let known = names(&["A", "B", "C", "D", "E", "F", "G"]);
    let cs = read_complexes("A B\nC D E\nF G\n", &known, 3);
    assert_eq!(cs.len(), 1);
    assert_eq!(cs[0].size(), 3);
    let a = Analysis::new("A B\nC D\nE F\n", "A B\nC D E\n", "A B\nC D F\nX Y\n", 3).unwrap();
    assert_eq!(a.reference_len(), 1);
    assert_eq!(a.predicted_len(), 1);
    assert_eq!(a.overlap_at(0, 0), 2);
}

#[test]
fn min_size_counts_distinct_members() {
    let known = names(&["A", "B", "C"]);
    assert_eq!(read_complexes("A A B\n", &known, 3).len(), 0);
    let cs = read_complexes("A A B\n", &known, 2);
    assert_eq!(cs.len(), 1);
    assert_eq!(cs[0].size(), 2);
}

#[test]
fn members_are_filtered_by_interaction_proteins() {
    let known = names(&["A", "B", "C"]);
    let cs = read_complexes("A B C Z\nA Y Z\n", &known, 2);
    assert_eq!(cs.len(), 1);
    assert_eq!(cs[0].size(), 3);
    let abc = complex_eval::complex::Complex::new(names(&["A", "B", "C"]));
    assert_eq!(cs[0].os(&abc), (Ratio { num: 9, den: 9 }, 3));
    // Z is named by no interaction line, so the predicted line has two members.
    let a = Analysis::new("A B\nB C\n", "A B C\n", "A B Z\n", 3).unwrap();
    assert_eq!(a.predicted_len(), 0);
}

#[test]
fn words_split_on_any_white_space() {
    let known = names(&["A", "B", "C", "D", "E", "F"]);
    let cs = read_complexes("  A\tB \u{3000}C\r\n\n\u{a0}D  E F\n", &known, 3);
    assert_eq!(cs.len(), 2);
    assert_eq!(cs[0].size(), 3);
    assert_eq!(cs[1].size(), 3);
    let empty_lines = read_complexes("\n\nA\n", &known, 0);
    assert_eq!(empty_lines.len(), 3);
    assert!(empty_lines[0].is_empty());
    assert_eq!(empty_lines[2].size(), 1);
    assert_eq!(read_complexes("", &known, 0).len(), 0);
}

#[test]
fn identifiers_keep_their_characters() {
    let known = names(&["Prot\u{e9}ine-1", "YAL001C", "Abc", "abc", "Proteine-1"]);
    let cs = read_complexes("Prot\u{e9}ine-1 YAL001C Abc\n", &known, 3);
    let same = complex_eval::complex::Complex::new(names(&["YAL001C", "Abc", "Prot\u{e9}ine-1"]));
    assert_eq!(cs[0].os(&same), (Ratio { num: 9, den: 9 }, 3));
    let other = complex_eval::complex::Complex::new(names(&["abc", "Proteine-1"]));
    assert_eq!(cs[0].os(&other), (Ratio { num: 0, den: 6 }, 0));
}

#[test]
fn ppi_lines_give_two_identifiers() {
    let ids = read_ppi_proteins("A B\nC D extra\n").unwrap();
    assert_eq!(ids, vec!["A".to_string(), "B".to_string(), "C".to_string(), "D".to_string()]);
}

#[test]
fn malformed_ppi_line_is_an_error() {
    assert_eq!(read_ppi_proteins("A B\nC\nD E\n"), Err(LoadError::MalformedLine(1)));
    assert_eq!(read_ppi_proteins("A B\n\n"), Err(LoadError::MalformedLine(1)));
    assert!(Analysis::new("A\n", "A B C\n", "A B C\n", 3).is_err());
    assert_eq!(
        evaluate("A B\nX\n", "A B C\n", "A B C\n", 3, quarter()),
        Err(LoadError::MalformedLine(1))
    );
}

const PPI_A_TO_G: &str = "A B\nC D\nE F\nG A\n";

#[test]
fn degenerate_inputs_are_errors() {
    let t = quarter();
    assert_eq!(evaluate(PPI_A_TO_G, "A B C\n", "A B\n", 3, t), Ok(Err(IndexError::NoPredicted)));
    assert_eq!(evaluate(PPI_A_TO_G, "A B\n", "A B C\n", 3, t), Ok(Err(IndexError::NoReference)));
}

#[test]
fn sensitivity_undefined_without_reference_proteins() {
    let r = evaluate(PPI_A_TO_G, "\n", "A B C\n", 0, quarter()).unwrap().unwrap();
    assert_eq!(r.sn, None);
    assert_eq!(r.ppv, None);
    assert_eq!(r.precision, Ratio { num: 0, den: 1 });
    assert_eq!(r.recall, Ratio { num: 0, den: 1 });
}

#[test]
fn no_overlap_leaves_other_metrics_defined() {
    let r = evaluate(PPI_A_TO_G, "A B C\n", "D E F\n", 3, quarter()).unwrap().unwrap();
    assert_eq!(r.ppv, None);
    assert_eq!(r.sn, Some(Ratio { num: 0, den: 3 }));
    assert_eq!(r.precision, Ratio { num: 0, den: 1 });
    assert_eq!(r.recall, Ratio { num: 0, den: 1 });
    assert_eq!(r.f_measure, None);
}

#[test]
fn f_measure_undefined_without_matches() {
    let r = evaluate(PPI_A_TO_G, "A B C D\n", "A E F G\n", 3, quarter()).unwrap().unwrap();
    assert_eq!(r.precision, Ratio { num: 0, den: 1 });
    assert_eq!(r.recall, Ratio { num: 0, den: 1 });
    assert_eq!(r.f_measure, None);
    assert_eq!(r.sn, Some(Ratio { num: 1, den: 4 }));
    assert_eq!(r.ppv, Some(Ratio { num: 1, den: 1 }));
}

#[test]
fn threshold_is_strict() {
    // Score 2*2 / (4*4) = 1/4, not above a threshold of 1/4.
    let r = evaluate(PPI_A_TO_G, "A B C D\n", "A B E F\n", 3, quarter()).unwrap().unwrap();
    assert_eq!(r.precision, Ratio { num: 0, den: 1 });
    let r = evaluate(PPI_A_TO_G, "A B C D\n", "A B E F\n", 3, Ratio { num: 1, den: 5 }).unwrap().unwrap();
    assert_eq!(r.precision, Ratio { num: 1, den: 1 });
}

#[test]
fn metrics_lie_in_unit_interval() {
    let r = evaluate(PPI, COMPLEXES, "A B D\nE F G H\nA C\nC D E F\n", 2, quarter()).unwrap().unwrap();
    for m in [r.precision, r.recall, r.sn.unwrap(), r.ppv.unwrap(), r.f_measure.unwrap()] {
        assert!(m.den > 0);
        assert!(m.num <= m.den);
    }
    // Reference: {A,B,C} {D,E,F,G} {B,C} {F,G,H}; predicted: {A,B,D} {E,F,G,H} {A,C} {C,D,E,F}.
    assert_eq!(r.precision, Ratio { num: 4, den: 4 });
    // {B,C} shares one protein at most, scoring at most 1/4.
    assert_eq!(r.recall, Ratio { num: 3, den: 4 });
    assert_eq!(r.f_measure, Some(Ratio { num: 24, den: 28 }));
    assert_eq!(r.sn, Some(Ratio { num: 2 + 3 + 1 + 3, den: 12 }));
}
