use vstd::prelude::*;
use crate::base::{Base, ShortDna};
use crate::error::{InterpreterError, InterpreterResult};
use crate::interpreter::Context;

verus! {

/// What the front of `s` says as a number literal: the number, and how many
/// symbols spell it. `P` ends the literal; before it `C` is a one and `I` or
/// `F` a zero, lowest bit first. A run without a `P` spells no number.
pub open spec fn nat_decode(s: Seq<Base>) -> Option<(nat, nat)>
    decreases s.len(),
{
    if s.len() == 0 {
        None
    } else if s[0] == Base::P {
        Some((0, 1))
    } else {
        match nat_decode(s.drop_first()) {
            Some((value, used)) => Some(
                (
                    2 * value + if s[0] == Base::C {
                        1nat
                    } else {
                        0nat
                    },
                    used + 1,
                ),
            ),
            None => None,
        }
    }
}

/// The literal that spells `n`: its bits, lowest first, `I` for a zero and
/// `C` for a one, and then `P`. Zero is the single `P`.
pub open spec fn nat_code(n: nat) -> Seq<Base>
    decreases n,
{
    if n == 0 {
        seq![Base::P]
    } else {
        seq![
            if n % 2 == 0 {
                Base::I
            } else {
                Base::C
            },
        ] + nat_code(n / 2)
    }
}

/// A number as a machine word holds it: one too large counts as the largest
/// word.
pub open spec fn saturated(n: nat) -> usize {
    if n <= usize::MAX {
        n as usize
    } else {
        usize::MAX
    }
}

/// What one symbol becomes when it is quoted.
pub open spec fn quote_symbol(b: Base) -> Seq<Base> {
    match b {
        Base::I => seq![Base::C],
        Base::C => seq![Base::F],
        Base::F => seq![Base::P],
        Base::P => seq![Base::I, Base::C],
    }
}

/// A run of symbols quoted: each symbol quoted, in order.
pub open spec fn quoted(xs: Seq<Base>) -> Seq<Base>
    decreases xs.len(),
{
    if xs.len() == 0 {
        Seq::<Base>::empty()
    } else {
        quote_symbol(xs[0]) + quoted(xs.drop_first())
    }
}

/// A run of symbols quoted `l` times over.
pub open spec fn protected(l: nat, xs: Seq<Base>) -> Seq<Base>
    decreases l,
{
    if l == 0 {
        xs
    } else {
        quoted(protected((l - 1) as nat, xs))
    }
}

/// What the front of `s` says as a quoted word: the word, and how many
/// symbols spell it. `C`, `F` and `P` stand for `I`, `C` and `F`, the pair
/// `I C` stands for `P`, and the word ends before anything else.
pub open spec fn consts_decode(s: Seq<Base>) -> (Seq<Base>, nat)
    decreases s.len(),
{
    if s.len() >= 1 && s[0] != Base::I {
        let (word, used) = consts_decode(s.skip(1));
        (
            seq![
                match s[0] {
                    Base::C => Base::I,
                    Base::F => Base::C,
                    _ => Base::F,
                },
            ] + word,
            used + 1,
        )
    } else if s.len() >= 2 && s[1] == Base::C {
        let (word, used) = consts_decode(s.skip(2));
        (seq![Base::P] + word, used + 2)
    } else {
        (Seq::<Base>::empty(), 0)
    }
}

/// Decoding the literal of a number gives the number back and uses up the
/// literal exactly, whatever follows it.
pub proof fn lemma_nat_round_trip(n: nat, rest: Seq<Base>)
    ensures
        nat_decode(nat_code(n) + rest) == Some((n, nat_code(n).len())),
    decreases n,
{
    let s = nat_code(n) + rest;
    if n == 0 {
        assert(s[0] == Base::P);
    } else {
        lemma_nat_round_trip(n / 2, rest);
        assert(s[0] != Base::P);
        assert(s.drop_first() == nat_code(n / 2) + rest);
    }
}

/// Decoding a quoted run gives the run back and uses up the quoted symbols
/// exactly; decoding then goes on with what follows.
pub proof fn lemma_consts_round_trip_then(xs: Seq<Base>, rest: Seq<Base>)
    ensures
        consts_decode(quoted(xs) + rest) == (
            xs + consts_decode(rest).0,
            quoted(xs).len() + consts_decode(rest).1,
        ),
    decreases xs.len(),
{
    if xs.len() == 0 {
        assert(quoted(xs) + rest == rest);
        assert(xs + consts_decode(rest).0 == consts_decode(rest).0);
    } else {
        let tail = xs.drop_first();
        let s = quoted(xs) + rest;
        lemma_consts_round_trip_then(tail, rest);
        let after = consts_decode(quoted(tail) + rest);
        if xs[0] == Base::P {
            assert(s[0] == Base::I && s[1] == Base::C);
            assert(s.skip(2) == quoted(tail) + rest);
            assert(seq![Base::P] + (tail + consts_decode(rest).0) == xs + consts_decode(rest).0);
        } else {
            assert(s[0] != Base::I);
            assert(s.skip(1) == quoted(tail) + rest);
            assert(seq![xs[0]] + (tail + consts_decode(rest).0) == xs + consts_decode(rest).0);
        }
    }
}

/// Decoding a quoted run, with nothing after it, gives the run back and uses
/// up every quoted symbol.
pub proof fn lemma_consts_round_trip(xs: Seq<Base>)
    ensures
        consts_decode(quoted(xs)) == (xs, quoted(xs).len()),
{
    lemma_consts_round_trip_then(xs, Seq::<Base>::empty());
    assert(quoted(xs) + Seq::<Base>::empty() == quoted(xs));
    assert(xs + Seq::<Base>::empty() == xs);
}

/// Quoting no times changes nothing, and quoting once more quotes what the
/// quotings before gave.
pub proof fn lemma_protected_steps(l: nat, xs: Seq<Base>)
    ensures
        protected(0, xs) == xs,
        protected(l + 1, xs) == quoted(protected(l, xs)),
{
}

/// Reads a number literal off the front of the sequence. Without a closing
/// `P` the whole sequence is used up and the read fails.
pub fn read_nat(context: &mut Context) -> (r: InterpreterResult<usize>)
    requires
        old(context).wf(),
    ensures
        final(context).wf(),
        final(context).rna == old(context).rna,
        match nat_decode(old(context).dna@) {
            Some((value, used)) => r == Ok::<usize, InterpreterError>(saturated(value))
                && final(context).dna@ == old(context).dna@.skip(used as int),
            None => r == Err::<usize, InterpreterError>(InterpreterError::Nat)
                && final(context).dna@ == Seq::<Base>::empty(),
        },
{
    let ghost s = context.dna@;
    let n = context.dna.len();
    let mut i: usize = 0;
    let mut acc: usize = 0;
    let mut over = false;
    let mut weight: Option<usize> = Some(1);
    let ghost mut value: nat = 0;
    let ghost mut unit: nat = 1;
    assert(s.skip(0) == s);
    while i < n
        invariant
            context.wf(),
            context.dna@ == s,
            context.rna == old(context).rna,
            s == old(context).dna@,
            n == s.len(),
            i <= n,
            value < unit,
            !over ==> acc == value,
            over ==> value > usize::MAX,
            weight matches Some(w) ==> w == unit,
            weight is None ==> unit > usize::MAX,
            nat_decode(s) == match nat_decode(s.skip(i as int)) {
                Some((v, k)) => Some((value + unit * v, (k + i) as nat)),
                None => None,
            },
        decreases n - i,
    {
        let b = context.dna.nth(i);
        let ghost tail = s.skip(i as int);
        assert(tail.drop_first() == s.skip(i + 1));
        assert(tail[0] == s[i as int]);
        match b {
            Some(Base::P) => {
                assert(nat_decode(tail) == Some((0nat, 1nat)));
                assert(unit * 0 == 0) by (nonlinear_arith);
                context.dna.skip(i + 1);
                return Ok(
                    if over {
                        usize::MAX
                    } else {
                        acc
                    },
                );
            },
            Some(Base::C) => {
                match weight {
                    Some(w) => {
                        if !over && w <= usize::MAX - acc {
                            acc = acc + w;
                        } else {
                            over = true;
                        }
                    },
                    None => {
                        over = true;
                    },
                }
                proof {
                    if let Some((v, _)) = nat_decode(s.skip(i + 1)) {
                        assert(unit * (2 * v + 1) == unit + (2 * unit) * v) by (nonlinear_arith);
                    }
                    value = value + unit;
                }
            },
            _ => {
                proof {
                    if let Some((v, _)) = nat_decode(s.skip(i + 1)) {
                        assert(unit * (2 * v + 0) == (2 * unit) * v) by (nonlinear_arith);
                    }
                }
            },
        }
        weight = match weight {
            Some(w) => if w <= usize::MAX / 2 {
                Some(2 * w)
            } else {
                None
            },
            None => None,
        };
        proof {
            unit = 2 * unit;
        }
        i += 1;
    }
    assert(s.skip(n as int).len() == 0);
    context.dna.skip(n);
    Err(InterpreterError::Nat)
}

/// The literal that spells `n`.
pub fn asnat(n: usize) -> (code: ShortDna)
    ensures
        code@ == nat_code(n as nat),
{
    let mut n = n;
    let ghost whole = n as nat;
    let mut code: Vec<Base> = Vec::new();
    while n != 0
        invariant
            nat_code(whole) == code@ + nat_code(n as nat),
        decreases n,
    {
        let ghost before = code@;
        if n % 2 == 0 {
            code.push(Base::I);
        } else {
            code.push(Base::C);
        }
        assert(before + nat_code(n as nat) == code@ + nat_code((n / 2) as nat));
        n = n / 2;
    }
    code.push(Base::P);
    code
}

/// Reads a quoted word off the front of the sequence, as far as it goes.
pub fn consts(context: &mut Context) -> (word: ShortDna)
    requires
        old(context).wf(),
    ensures
        final(context).wf(),
        final(context).rna == old(context).rna,
        word@ == consts_decode(old(context).dna@).0,
        final(context).dna@ == old(context).dna@.skip(consts_decode(old(context).dna@).1 as int),
{
    let ghost s = context.dna@;
    let n = context.dna.len();
    let mut word: Vec<Base> = Vec::new();
    let mut i: usize = 0;
    assert(s.skip(0) == s);
    loop
        invariant
            context.wf(),
            context.dna@ == s,
            context.rna == old(context).rna,
            s == old(context).dna@,
            n == s.len(),
            i <= n,
            consts_decode(s) == (
                word@ + consts_decode(s.skip(i as int)).0,
                (i + consts_decode(s.skip(i as int)).1) as nat,
            ),
        ensures
            i <= n,
            context.wf(),
            context.dna@ == s,
            context.rna == old(context).rna,
            consts_decode(s) == (word@, i as nat),
        decreases n - i,
    {
        let ghost tail = s.skip(i as int);
        let ghost before = word@;
        let first = context.dna.nth(i);
        match first {
            Some(Base::I) => {
                if i + 1 < n {
                    let second = context.dna.nth(i + 1);
                    assert(tail[1] == s[i + 1]);
                    match second {
                        Some(Base::C) => {
                            word.push(Base::P);
                            assert(tail.skip(2) == s.skip(i + 2));
                            assert(before + (seq![Base::P] + consts_decode(tail.skip(2)).0)
                                == word@ + consts_decode(tail.skip(2)).0);
                            i += 2;
                        },
                        _ => {
                            assert(before + Seq::<Base>::empty() == before);
                            break ;
                        },
                    }
                } else {
                    assert(before + Seq::<Base>::empty() == before);
                    break ;
                }
            },
            Some(b) => {
                let plain = match b {
                    Base::C => Base::I,
                    Base::F => Base::C,
                    _ => Base::F,
                };
                word.push(plain);
                assert(tail.skip(1) == s.skip(i + 1));
                assert(before + (seq![plain] + consts_decode(tail.skip(1)).0) == word@
                    + consts_decode(tail.skip(1)).0);
                i += 1;
            },
            None => {
                assert(before + Seq::<Base>::empty() == before);
                break ;
            },
        }
    }
    context.dna.skip(i);
    word
}

/// Quotes a run of symbols: `I` becomes `C`, `C` becomes `F`, `F` becomes
/// `P`, and `P` becomes the pair `I C`.
pub fn quote(dna: &[Base]) -> (r: ShortDna)
    ensures
        r@ == quoted(dna@),
{
    let n = dna.len();
    let mut r: Vec<Base> = Vec::new();
    let mut i: usize = 0;
    assert(dna@.skip(0) == dna@);
    while i < n
        invariant
            n == dna@.len(),
            i <= n,
            quoted(dna@) == r@ + quoted(dna@.skip(i as int)),
        decreases n - i,
    {
        let ghost before = r@;
        let ghost tail = dna@.skip(i as int);
        assert(tail.drop_first() == dna@.skip(i + 1));
        match dna[i] {
            Base::I => {
                r.push(Base::C);
            },
            Base::C => {
                r.push(Base::F);
            },
            Base::F => {
                r.push(Base::P);
            },
            Base::P => {
                r.push(Base::I);
                r.push(Base::C);
            },
        }
        assert(before + (quote_symbol(tail[0]) + quoted(tail.drop_first())) == r@ + quoted(
            tail.drop_first(),
        ));
        i += 1;
    }
    assert(r@ + Seq::<Base>::empty() == r@);
    r
}

/// Quotes a run of symbols `l` times over.
pub fn protect(l: usize, dna: &[Base]) -> (r: ShortDna)
    ensures
        r@ == protected(l as nat, dna@),
{
    let mut r = vstd::slice::slice_to_vec(dna);
    let mut done: usize = 0;
    while done < l
        invariant
            done <= l,
            r@ == protected(done as nat, dna@),
        decreases l - done,
    {
        r = quote(r.as_slice());
        done += 1;
    }
    r
}

} // verus!
