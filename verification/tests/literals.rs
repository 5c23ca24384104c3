use endo::base::Base;
use endo::base::Base::{C, F, I, P};
use endo::dna::Dna;
use endo::error::InterpreterError;
use endo::interpreter::Context;
use endo::literals::{asnat, consts, protect, quote, read_nat};

fn check_quote_unquote(s: &str) {
    let origin = Dna::from_string(s).unwrap();
    let plain = origin.to_vec(0..origin.len());
    let quoted = quote(plain.as_slice());
    let mut context = Context::new(Dna::from_slice(quoted.as_slice()));
    let transformed = consts(&mut context);
    assert_eq!(plain.as_slice(), transformed.as_slice());
    assert_eq!(context.dna.len(), 0);
}

#[test]
fn const_test() {
    check_quote_unquote("IIPIPICPIICICIIFICCIFPPIICCFPC");
    check_quote_unquote("IIPIPICPIICICIIFICCIFCCCPPIICCFPC");
    check_quote_unquote("IIPIPIICPIICIICCIICFCFC");
}

fn check_asnat_nat(n: usize) {
    let origin = asnat(n);
    let mut context = Context::new(Dna::from_slice(origin.as_slice()));
    let transformed = read_nat(&mut context);
    assert_eq!(Ok(n), transformed);
    assert_eq!(context.dna.len(), 0);
}

#[test]
fn num_test() {
    check_asnat_nat(42);
    check_asnat_nat(100);
    check_asnat_nat(0);
    check_asnat_nat(1);
}

#[test]
fn asnat_test() {
    println!("{:?}", asnat(42));
    assert_eq!(asnat(42), vec![I, C, I, C, I, C, P]);
}

#[test]
fn asnat_of_small_numbers() {
    assert_eq!(asnat(0), vec![P]);
    assert_eq!(asnat(1), vec![C, P]);
    assert_eq!(asnat(2), vec![I, C, P]);
    assert_eq!(asnat(5), vec![C, I, C, P]);
    check_asnat_nat(usize::MAX);
}

#[test]
fn nat_reads_f_as_zero_and_leaves_the_rest() {
    let mut context = Context::new(Dna::from_string("FCIFCPICFP").unwrap());
    assert_eq!(read_nat(&mut context), Ok(2 + 16));
    assert_eq!(context.dna.to_vec(0..10), vec![I, C, F, P]);
    assert!(context.rna.is_empty());
}

#[test]
fn nat_without_its_end_fails_and_uses_up_everything() {
    let mut context = Context::new(Dna::from_string("ICFCI").unwrap());
    assert_eq!(read_nat(&mut context), Err(InterpreterError::Nat));
    assert_eq!(context.dna.len(), 0);
    let mut context = Context::new(Dna::empty());
    assert_eq!(read_nat(&mut context), Err(InterpreterError::Nat));
}

#[test]
fn nat_too_large_for_the_machine_is_the_largest_word() {
    let mut text = String::new();
    for _ in 0..200 {
        text.push('I');
    }
    text.push('C');
    text.push('P');
    let mut context = Context::new(Dna::from_string(&text).unwrap());
    assert_eq!(read_nat(&mut context), Ok(usize::MAX));
    assert_eq!(context.dna.len(), 0);
    let mut zeros = String::new();
    for _ in 0..5000 {
        zeros.push('I');
    }
    zeros.push('P');
    let mut context = Context::new(Dna::from_string(&("C".to_string() + &zeros)).unwrap());
    assert_eq!(read_nat(&mut context), Ok(1));
}

#[test]
fn quote_maps_each_symbol() {
    assert_eq!(quote(&[I, C, F, P]), vec![C, F, P, I, C]);
    assert_eq!(quote(&[]), Vec::<Base>::new());
}

#[test]
fn protect_quotes_again_and_again() {
    let xs = [I, C, F, P];
    assert_eq!(protect(0, &xs), xs.to_vec());
    assert_eq!(protect(1, &xs), quote(&xs));
    assert_eq!(protect(2, &xs), quote(&quote(&xs)));
    assert_eq!(protect(3, &xs), quote(&protect(2, &xs)));
    assert_eq!(protect(2, &[P]), vec![C, F]);
}

#[test]
fn consts_stops_at_what_is_no_escape() {
    let mut context = Context::new(Dna::from_string("CFPICIIC").unwrap());
    assert_eq!(consts(&mut context), vec![I, C, F, P]);
    assert_eq!(context.dna.to_vec(0..9), vec![I, I, C]);
    let mut context = Context::new(Dna::from_string("IP").unwrap());
    assert_eq!(consts(&mut context), Vec::<Base>::new());
    assert_eq!(context.dna.len(), 2);
    let mut context = Context::new(Dna::from_string("CI").unwrap());
    assert_eq!(consts(&mut context), vec![I]);
    assert_eq!(context.dna.to_vec(0..3), vec![I]);
}
