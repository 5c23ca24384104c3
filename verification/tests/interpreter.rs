use endo::base::Base;
use endo::base::Base::{C, F, I, P};
use endo::dna::Dna;
use endo::error::InterpreterError;
use endo::interpreter::{do_step, do_steps, Context};
use endo::match_replace::{find_subseq, match_pat, replace, try_replace};
use endo::pattern::{pattern, PItem};
use endo::pattern::PItem::{Close, Open, PBase, Search, Skip};
use endo::template::{template, TItem};

fn dna(s: &str) -> Dna {
    Dna::from_string(s).unwrap()
}

fn text(d: &Dna) -> String {
    d.to_vec(0..d.len()).iter().map(|b| b.to_char()).collect()
}

fn pattern_by_str(s: &str) -> Vec<PItem> {
    let mut context = Context::new(dna(s));
    pattern(&mut context).unwrap()
}

#[test]
fn pattern_test() {
    assert_eq!(pattern_by_str("CIIC"), vec![PBase(I)]);
    assert_eq!(pattern_by_str("IIPIPICPIICICIIF"), vec![Open, Skip { n: 2 }, Close, PBase(P)]);
}

fn do_step_by_str(s: &str) -> Dna {
    let mut context = Context::new(dna(s));
    do_step(&mut context).expect("Step failed");
    context.dna
}

#[test]
fn find_subseq_test() {
    let source = Dna::from_slice(&[I, C, F, P, I, C, F, P]);
    assert_eq!(find_subseq(&source, 0, &[F, P, I]), Some(5));
    assert_eq!(find_subseq(&source, 0, &[F, F, I]), None);
    assert_eq!(find_subseq(&source, 0, &[F, P, C]), None);
    assert_eq!(find_subseq(&source, 0, &[F, I, C]), None);
    assert_eq!(find_subseq(&source, 0, &[I, C]), Some(2));
    assert_eq!(find_subseq(&source, 0, &[I, C, F, P, I, C, F, P]), Some(8));
}

#[test]
fn find_subseq_from_a_later_start() {
    let source = Dna::from_slice(&[I, C, F, P, I, C, F, P]);
    assert_eq!(find_subseq(&source, 1, &[I, C]), Some(5));
    assert_eq!(find_subseq(&source, 5, &[I, C]), None);
    assert_eq!(find_subseq(&source, 6, &[F, P]), Some(2));
    assert_eq!(find_subseq(&source, 8, &[P]), None);
    assert_eq!(find_subseq(&source, 100, &[P]), None);
    assert_eq!(find_subseq(&source, 0, &[I, C, F, P, I, C, F, P, I]), None);
}

#[test]
fn do_step_test() {
    assert_eq!(text(&do_step_by_str("IIPIPICPIICICIIFICCIFPPIICCFPC")), "PICFC");
    assert_eq!(text(&do_step_by_str("IIPIPICPIICICIIFICCIFCCCPPIICCFPC")), "PIICCFCFFPC");
    assert_eq!(text(&do_step_by_str("IIPIPIICPIICIICCIICFCFC")), "I");
}

#[test]
fn pattern_reads_every_kind_of_item() {
    assert_eq!(
        pattern_by_str("CFPICIPCPIFICFPICIIPIICIIF"),
        vec![
            PBase(I),
            PBase(C),
            PBase(F),
            PBase(P),
            Skip { n: 1 },
            Search { s: vec![I, C, F, P] },
            Open,
            Close,
        ]
    );
}

#[test]
fn pattern_sets_words_aside() {
    let mut context = Context::new(dna("IIIPIPIIICCIICFF"));
    assert_eq!(pattern(&mut context), Ok(vec![PBase(I)]));
    assert_eq!(context.rna, vec![vec![P, I, P, I, I, I, C]]);
    assert_eq!(text(&context.dna), "FF");
}

#[test]
fn pattern_fails_on_what_is_no_pattern() {
    let mut context = Context::new(dna("CFII"));
    assert_eq!(pattern(&mut context), Err(InterpreterError::Pattern));
    assert_eq!(text(&context.dna), "II");
    let mut context = Context::new(dna(""));
    assert_eq!(pattern(&mut context), Err(InterpreterError::Pattern));
    let mut context = Context::new(dna("IIIPIPII"));
    assert_eq!(pattern(&mut context), Err(InterpreterError::Pattern));
    assert!(context.rna.is_empty());
    assert_eq!(text(&context.dna), "IIIPIPII");
    let mut context = Context::new(dna("CIPCCI"));
    assert_eq!(pattern(&mut context), Err(InterpreterError::Pattern));
    assert_eq!(context.dna.len(), 0);
    let mut context = Context::new(dna("IF"));
    assert_eq!(pattern(&mut context), Err(InterpreterError::Pattern));
}

#[test]
fn template_reads_every_kind_of_item() {
    let mut context = Context::new(dna("CFPICIFCPICPIPPPIIPCCPIIIPCCCCCPIICF"));
    assert_eq!(
        template(&mut context),
        Ok(vec![
            TItem::TBase(I),
            TItem::TBase(C),
            TItem::TBase(F),
            TItem::TBase(P),
            TItem::Ref { n: 2, l: 1 },
            TItem::Ref { n: 0, l: 0 },
            TItem::Len { n: 3 },
        ])
    );
    assert_eq!(context.rna, vec![vec![P, C, C, C, C, C, P]]);
    assert_eq!(text(&context.dna), "F");
}

#[test]
fn template_fails_on_what_is_no_template() {
    let mut context = Context::new(dna("CII"));
    assert_eq!(template(&mut context), Err(InterpreterError::Template));
    assert_eq!(text(&context.dna), "II");
    let mut context = Context::new(dna("IFCPCC"));
    assert_eq!(template(&mut context), Err(InterpreterError::Template));
    assert_eq!(context.dna.len(), 0);
    let mut context = Context::new(dna("IIPC"));
    assert_eq!(template(&mut context), Err(InterpreterError::Template));
}

#[test]
fn match_captures_in_the_order_of_closing() {
    let mut context = Context::new(dna("ICFPICFPCC"));
    let pat = vec![Open, PBase(I), Open, Skip { n: 2 }, Close, Search { s: vec![F, P] }, Close, PBase(C)];
    let env = match_pat(&mut context, pat).unwrap();
    assert_eq!(env.len(), 2);
    assert_eq!(text(&env[0]), "CF");
    assert_eq!(text(&env[1]), "ICFPICFP");
    assert_eq!(text(&context.dna), "C");
}

#[test]
fn match_failure_leaves_the_sequence() {
    for pat in [
        vec![PBase(C)],
        vec![Skip { n: 5 }],
        vec![PBase(I), Search { s: vec![P, P] }],
        vec![Skip { n: 4 }, PBase(I)],
        vec![Skip { n: usize::MAX }],
        vec![PBase(I), Skip { n: usize::MAX }],
    ] {
        let mut context = Context::new(dna("ICFP"));
        assert!(match_pat(&mut context, pat).is_none());
        assert_eq!(text(&context.dna), "ICFP");
    }
    let mut context = Context::new(dna("ICFP"));
    assert!(match_pat(&mut context, vec![Skip { n: 4 }]).is_some());
    assert_eq!(context.dna.len(), 0);
}

#[test]
fn replace_builds_the_new_front() {
    let mut context = Context::new(dna("FF"));
    let env = vec![dna("ICFP"), dna("")];
    let t = vec![
        TItem::TBase(P),
        TItem::Ref { n: 0, l: 0 },
        TItem::Ref { n: 0, l: 1 },
        TItem::Ref { n: 0, l: 2 },
        TItem::Ref { n: 7, l: 0 },
        TItem::Ref { n: 1, l: usize::MAX },
        TItem::Len { n: 0 },
        TItem::Len { n: 1 },
        TItem::Len { n: 9 },
        TItem::TBase(I),
    ];
    replace(&mut context, t, env);
    assert_eq!(text(&context.dna), "PICFPCFPICFPICCFIICPPPIFF");
}

#[test]
fn try_replace_says_that_it_fitted() {
    let mut context = Context::new(dna("C"));
    let env = vec![dna("PP")];
    assert!(try_replace(&mut context, &vec![TItem::Ref { n: 0, l: 1 }], &env));
    assert_eq!(text(&context.dna), "ICICC");
}

#[test]
fn step_without_a_match_keeps_what_is_left() {
    let mut context = Context::new(dna("CIICPIICFFF"));
    assert_eq!(do_step(&mut context), Ok(()));
    assert_eq!(text(&context.dna), "FFF");
    let mut context = Context::new(dna("FIICPIICCCC"));
    assert_eq!(do_step(&mut context), Ok(()));
    assert_eq!(text(&context.dna), "FCC");
}

#[test]
fn step_reports_the_phase_that_failed() {
    let mut context = Context::new(dna("CCII"));
    assert_eq!(do_step(&mut context), Err(InterpreterError::Pattern));
    let mut context = Context::new(dna("CIICCII"));
    assert_eq!(do_step(&mut context), Err(InterpreterError::Template));
    let mut context = Context::new(dna("IIIPIPIIICIICIIIPCCCCCPII"));
    assert_eq!(do_step(&mut context), Err(InterpreterError::Template));
    assert_eq!(context.rna, vec![vec![P, I, P, I, I, I, C], vec![P, C, C, C, C, C, P]]);
}

#[test]
fn step_refuses_a_search_for_nothing() {
    let mut context = Context::new(dna("IFIIICIICCC"));
    assert_eq!(do_step(&mut context), Err(InterpreterError::EmptySearch));
    assert_eq!(text(&context.dna), "CC");
}

#[test]
fn steps_run_until_one_fails_or_the_limit() {
    let mut context = Context::new(dna("IICIICIICIICCIICIIC"));
    assert_eq!(do_steps(&mut context, 2), (2, None));
    assert_eq!(text(&context.dna), "CIICIIC");
    let mut context = Context::new(dna("IICIICIICIICCIICIIC"));
    assert_eq!(do_steps(&mut context, 100), (3, Some(InterpreterError::Pattern)));
    assert_eq!(context.dna.len(), 0);
    let mut context = Context::new(dna("IICIIC"));
    assert_eq!(do_steps(&mut context, 0), (0, None));
    assert_eq!(context.dna.len(), 6);
}

#[test]
fn errors_say_what_went_wrong() {
    assert_eq!(InterpreterError::Pattern.message(), "unexpected DNA while decoding pattern");
    assert_eq!(InterpreterError::Template.message(), "unexpected DNA while decoding template");
    assert_eq!(InterpreterError::Nat.message(), "unexpected DNA while decoding nat");
    assert_eq!(InterpreterError::UnexpectedSymbol('x').message(), "unexpected symbol x");
    assert_eq!(InterpreterError::EmptySearch.message(), "pattern searches for the empty word");
    assert_eq!(InterpreterError::TooLong.message(), "sequence too long");
}

#[test]
fn long_sequences_step_like_short_ones() {
    let mut body = String::new();
    for i in 0..20000 {
        body.push(['I', 'C', 'F', 'P'][(i * 3 + i / 11) % 4]);
    }
    let step = "IIPIPICCCCCCCCCCCPIICIICIPPPIIC";
    let mut context = Context::new(dna(&(step.to_string() + &body)));
    assert_eq!(do_step(&mut context), Ok(()));
    assert_eq!(context.dna.len(), body.len());
    assert_eq!(text(&context.dna), body);
    let drop = "IIPIPICCCCCCCCCCCPIICIICIPPCPIIC";
    let mut context = Context::new(dna(&(drop.to_string() + &body)));
    assert_eq!(do_step(&mut context), Ok(()));
    assert_eq!(text(&context.dna), body[4094..].to_string());
    let first: Vec<Base> = context.dna.prefix(3);
    assert_eq!(first.len(), 3);
}
