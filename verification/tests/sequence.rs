use endo::base::Base;
use endo::base::Base::{C, F, I, P};
use endo::dna::Dna;
use endo::error::InterpreterError;

fn dna(s: &str) -> Dna {
    Dna::from_string(s).unwrap()
}

fn symbols(d: &Dna) -> Vec<Base> {
    d.to_vec(0..d.len())
}

#[test]
fn slice_pattern_test() {
    let icfp = dna("ICFP");
    let front = icfp.prefix(4);
    let branch = match front.as_slice() {
        [C, ..] => 1,
        [I] => 2,
        [I, ..] => 3,
        _ => 4,
    };
    assert_eq!(branch, 3);
}

#[test]
fn subseq() {
    let icfp = dna("ICFP");
    assert_eq!(symbols(&icfp.subseq(0..2)), symbols(&dna("IC")));
    assert_eq!(symbols(&icfp.subseq(2..0)), symbols(&Dna::empty()));
    assert_eq!(symbols(&icfp.subseq(2..2)), symbols(&Dna::empty()));
    assert_eq!(symbols(&icfp.subseq(2..3)), symbols(&dna("F")));
    assert_eq!(icfp.nth(2), Some(Base::F));
    assert_eq!(symbols(&icfp.subseq(2..6)), symbols(&dna("FP")));
    assert_eq!(symbols(&icfp.subseq(2..icfp.len())), symbols(&dna("FP")));
    assert_eq!(icfp.nth(6), None);
    assert_eq!(symbols(&icfp.subseq(3..icfp.len())), symbols(&dna("P")));
    assert_eq!(symbols(&icfp.subseq(4..icfp.len())), symbols(&Dna::empty()));
}

#[test]
fn skip_test() {
    let mut sample = dna("ICFPICPF");
    sample.skip(2);
    assert_eq!(sample.nth(0), Some(F));
    assert_eq!(symbols(&sample), [F, P, I, C, P, F]);
    assert_eq!(symbols(&sample.subseq(0..100)), symbols(&dna("FPICPF")));
    assert_eq!(symbols(&sample.subseq(100..0)), symbols(&Dna::empty()));
    let sample = sample.concat(&sample.clone());
    assert_eq!(symbols(&sample), symbols(&dna("FPICPFFPICPF")));
}

#[test]
fn from_string_refuses_other_characters() {
    assert!(matches!(Dna::from_string("ICxFP"), Err(InterpreterError::UnexpectedSymbol('x'))));
    assert!(matches!(Dna::from_string("icfp"), Err(InterpreterError::UnexpectedSymbol('i'))));
    assert!(matches!(Dna::from_string("IC P"), Err(InterpreterError::UnexpectedSymbol(' '))));
    assert_eq!(Dna::from_string("").unwrap().len(), 0);
}

#[test]
fn letters_map_to_symbols_and_back() {
    for (c, b) in [('I', I), ('C', C), ('F', F), ('P', P)] {
        assert_eq!(Base::from_char(c), Ok(b));
        assert_eq!(b.to_char(), c);
    }
    assert_eq!(Base::from_char('i'), Err(InterpreterError::UnexpectedSymbol('i')));
    assert_eq!(Base::default(), I);
}

#[test]
fn length_counts_what_is_left_after_a_skip() {
    let mut d = dna("ICFPICFP");
    assert_eq!(d.len(), 8);
    d.skip(3);
    assert_eq!(d.len(), 5);
    assert_eq!(d.nth(4), Some(P));
    assert_eq!(d.nth(5), None);
    d.skip(5);
    assert_eq!(d.len(), 0);
    assert_eq!(d.nth(0), None);
    assert_eq!(d.prefix(3), vec![]);
}

#[test]
fn many_skips_read_the_symbol_that_stood_there() {
    let text: String = (0..5000).map(|i| ['I', 'C', 'F', 'P'][(i * 7 + i / 3) % 4]).collect();
    let whole = dna(&text);
    let mut d = whole.clone();
    let mut taken = 0;
    for step in [1usize, 2, 3, 500, 600, 1, 1200, 7, 1024, 1] {
        d.skip(step);
        taken += step;
        assert_eq!(d.nth(0), whole.nth(taken));
        assert_eq!(d.len(), whole.len() - taken);
        assert_eq!(d.prefix(5), whole.to_vec(taken..taken + 5));
    }
}

#[test]
fn concat_keeps_both_parts_in_order() {
    let mut a = dna("ICFPP");
    a.skip(1);
    let mut b = dna("FFIC");
    b.skip(2);
    let joined = a.concat(&b);
    assert_eq!(joined.len(), a.len() + b.len());
    assert_eq!(symbols(&joined.subseq(0..a.len())), symbols(&a));
    assert_eq!(symbols(&joined.subseq(a.len()..joined.len())), symbols(&b));
    assert_eq!(symbols(&joined), [C, F, P, P, I, C]);
}

#[test]
fn subseq_matches_skip_then_take() {
    let text: String = (0..3000).map(|i| ['I', 'C', 'F', 'P'][(i * 5 + i / 7) % 4]).collect();
    let d = dna(&text);
    let all = symbols(&d);
    for (a, b) in [(0usize, 0usize), (0, 3000), (10, 20), (1000, 2500), (1023, 1025), (2999, 3000)] {
        let piece = d.subseq(a..b);
        assert_eq!(piece.len(), b - a);
        let expected: Vec<Base> = all.iter().skip(a).take(b - a).cloned().collect();
        assert_eq!(symbols(&piece), expected);
    }
}

#[test]
fn text_spells_what_is_left() {
    let mut d = dna("ICFPPFCI");
    assert_eq!(d.to_text(), "ICFPPFCI");
    d.skip(3);
    assert_eq!(d.to_text(), "PPFCI");
    assert_eq!(Dna::empty().to_text(), "");
}
