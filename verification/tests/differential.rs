use endo::base::Base;
use endo::base::Base::{C, F, I, P};
use endo::dna::Dna;
use endo::error::InterpreterError;
use endo::interpreter::{do_step, Context};

// A plain interpreter on flat buffers, to hold the library against.

#[derive(Debug, Clone, PartialEq)]
enum Pat {
    Sym(Base),
    Skip(usize),
    Search(Vec<Base>),
    Open,
    Close,
}

#[derive(Debug, Clone, PartialEq)]
enum Tpl {
    Sym(Base),
    Ref(usize, usize),
    Len(usize),
}

fn plain_nat(d: &[Base], pos: &mut usize) -> Option<usize> {
    let mut value: usize = 0;
    let mut over = false;
    let mut bit = 0u32;
    loop {
        if *pos >= d.len() {
            *pos = d.len();
            return None;
        }
        let b = d[*pos];
        *pos += 1;
        match b {
            P => return Some(if over { usize::MAX } else { value }),
            C => {
                if bit >= usize::BITS {
                    over = true;
                } else {
                    value |= 1usize << bit;
                }
            }
            _ => {}
        }
        bit = bit.saturating_add(1);
    }
}

fn plain_consts(d: &[Base], pos: &mut usize) -> Vec<Base> {
    let mut word = Vec::new();
    loop {
        match d.get(*pos) {
            Some(C) => {
                word.push(I);
                *pos += 1;
            }
            Some(F) => {
                word.push(C);
                *pos += 1;
            }
            Some(P) => {
                word.push(F);
                *pos += 1;
            }
            Some(I) if d.get(*pos + 1) == Some(&C) => {
                word.push(P);
                *pos += 2;
            }
            _ => return word,
        }
    }
}

fn plain_pattern(d: &[Base], pos: &mut usize, rna: &mut Vec<Vec<Base>>) -> Option<Vec<Pat>> {
    let mut p = Vec::new();
    let mut lvl = 0usize;
    loop {
        let rest = &d[*pos..];
        match rest {
            [C, ..] => {
                *pos += 1;
                p.push(Pat::Sym(I));
            }
            [F, ..] => {
                *pos += 1;
                p.push(Pat::Sym(C));
            }
            [P, ..] => {
                *pos += 1;
                p.push(Pat::Sym(F));
            }
            [I, C, ..] => {
                *pos += 2;
                p.push(Pat::Sym(P));
            }
            [I, P, ..] => {
                *pos += 2;
                p.push(Pat::Skip(plain_nat(d, pos)?));
            }
            [I, F, _, ..] => {
                *pos += 3;
                p.push(Pat::Search(plain_consts(d, pos)));
            }
            [I, I, P, ..] => {
                *pos += 3;
                lvl += 1;
                p.push(Pat::Open);
            }
            [I, I, C, ..] | [I, I, F, ..] => {
                *pos += 3;
                if lvl == 0 {
                    return Some(p);
                }
                lvl -= 1;
                p.push(Pat::Close);
            }
            [I, I, I, ..] if rest.len() >= 10 => {
                rna.push(rest[3..10].to_vec());
                *pos += 10;
            }
            _ => return None,
        }
    }
}

fn plain_template(d: &[Base], pos: &mut usize, rna: &mut Vec<Vec<Base>>) -> Option<Vec<Tpl>> {
    let mut t = Vec::new();
    loop {
        let rest = &d[*pos..];
        match rest {
            [C, ..] => {
                *pos += 1;
                t.push(Tpl::Sym(I));
            }
            [F, ..] => {
                *pos += 1;
                t.push(Tpl::Sym(C));
            }
            [P, ..] => {
                *pos += 1;
                t.push(Tpl::Sym(F));
            }
            [I, C, ..] => {
                *pos += 2;
                t.push(Tpl::Sym(P));
            }
            [I, F, ..] | [I, P, ..] => {
                *pos += 2;
                let l = plain_nat(d, pos)?;
                let n = plain_nat(d, pos)?;
                t.push(Tpl::Ref(n, l));
            }
            [I, I, C, ..] | [I, I, F, ..] => {
                *pos += 3;
                return Some(t);
            }
            [I, I, P, ..] => {
                *pos += 3;
                t.push(Tpl::Len(plain_nat(d, pos)?));
            }
            [I, I, I, ..] if rest.len() >= 10 => {
                rna.push(rest[3..10].to_vec());
                *pos += 10;
            }
            _ => return None,
        }
    }
}

fn plain_quote(xs: &[Base]) -> Vec<Base> {
    let mut out = Vec::new();
    for b in xs {
        match b {
            I => out.push(C),
            C => out.push(F),
            F => out.push(P),
            P => {
                out.push(I);
                out.push(C);
            }
        }
    }
    out
}

fn plain_asnat(mut n: usize) -> Vec<Base> {
    let mut out = Vec::new();
    while n != 0 {
        out.push(if n % 2 == 0 { I } else { C });
        n /= 2;
    }
    out.push(P);
    out
}

fn plain_match(d: &[Base], pat: &[Pat]) -> Option<(usize, Vec<Vec<Base>>)> {
    let mut i = 0usize;
    let mut env = Vec::new();
    let mut stack = Vec::new();
    for p in pat {
        match p {
            Pat::Sym(b) => {
                if d.get(i) == Some(b) {
                    i += 1;
                } else {
                    return None;
                }
            }
            Pat::Skip(n) => {
                i = i.checked_add(*n)?;
                if i > d.len() {
                    return None;
                }
            }
            Pat::Search(w) => {
                let mut found = None;
                let mut j = i;
                while j + w.len() <= d.len() {
                    if &d[j..j + w.len()] == w.as_slice() {
                        found = Some(j + w.len());
                        break;
                    }
                    j += 1;
                }
                i = found?;
            }
            Pat::Open => stack.push(i),
            Pat::Close => {
                let start = stack.pop().unwrap();
                env.push(d[start..i].to_vec());
            }
        }
    }
    Some((i, env))
}

fn plain_step(dna: &mut Vec<Base>, rna: &mut Vec<Vec<Base>>) -> Result<(), InterpreterError> {
    let mut pos = 0;
    let p = match plain_pattern(dna, &mut pos, rna) {
        Some(p) => p,
        None => {
            dna.drain(..pos);
            return Err(InterpreterError::Pattern);
        }
    };
    let t = match plain_template(dna, &mut pos, rna) {
        Some(t) => t,
        None => {
            dna.drain(..pos);
            return Err(InterpreterError::Template);
        }
    };
    dna.drain(..pos);
    if p.iter().any(|item| matches!(item, Pat::Search(w) if w.is_empty())) {
        return Err(InterpreterError::EmptySearch);
    }
    if let Some((i, env)) = plain_match(dna, &p) {
        let mut front = Vec::new();
        for item in &t {
            match item {
                Tpl::Sym(b) => front.push(*b),
                Tpl::Ref(n, l) => {
                    if let Some(v) = env.get(*n) {
                        let mut piece = v.clone();
                        for _ in 0..*l {
                            if piece.is_empty() {
                                break;
                            }
                            piece = plain_quote(&piece);
                        }
                        front.extend(piece);
                    }
                }
                Tpl::Len(n) => front.extend(plain_asnat(env.get(*n).map(|v| v.len()).unwrap_or(0))),
            }
        }
        front.extend_from_slice(&dna[i..]);
        *dna = front;
    }
    Ok(())
}

struct Random(u64);

impl Random {
    fn next(&mut self) -> u64 {
        self.0 = self.0.wrapping_mul(6364136223846793005).wrapping_add(1442695040888963407);
        self.0 >> 33
    }

    fn below(&mut self, n: usize) -> usize {
        (self.next() % n as u64) as usize
    }

    fn symbol(&mut self) -> Base {
        [I, C, F, P][self.below(4)]
    }

    fn symbols(&mut self, n: usize) -> Vec<Base> {
        (0..n).map(|_| self.symbol()).collect()
    }
}

fn write_pattern(p: &[Pat]) -> Vec<Base> {
    let mut out = Vec::new();
    for item in p {
        match item {
            Pat::Sym(b) => out.extend(plain_quote(&[*b])),
            Pat::Skip(n) => {
                out.extend([I, P]);
                out.extend(plain_asnat(*n));
            }
            Pat::Search(w) => {
                out.extend([I, F, F]);
                out.extend(plain_quote(w));
            }
            Pat::Open => out.extend([I, I, P]),
            Pat::Close => out.extend([I, I, C]),
        }
    }
    out.extend([I, I, C]);
    out
}

fn write_template(t: &[Tpl]) -> Vec<Base> {
    let mut out = Vec::new();
    for item in t {
        match item {
            Tpl::Sym(b) => out.extend(plain_quote(&[*b])),
            Tpl::Ref(n, l) => {
                out.extend([I, F]);
                out.extend(plain_asnat(*l));
                out.extend(plain_asnat(*n));
            }
            Tpl::Len(n) => {
                out.extend([I, I, P]);
                out.extend(plain_asnat(*n));
            }
        }
    }
    out.extend([I, I, F]);
    out
}

fn run_both(start: Vec<Base>, steps: usize) {
    let mut plain_dna = start.clone();
    let mut plain_rna = Vec::new();
    let mut context = Context::new(Dna::from_slice(&start));
    for _ in 0..steps {
        let expected = plain_step(&mut plain_dna, &mut plain_rna);
        let got = do_step(&mut context);
        assert_eq!(got, expected);
        assert_eq!(context.dna.len(), plain_dna.len());
        assert_eq!(context.dna.to_vec(0..context.dna.len()), plain_dna);
        assert_eq!(context.rna, plain_rna);
        if expected.is_err() {
            break;
        }
    }
}

#[test]
fn random_sequences_step_like_the_plain_interpreter() {
    let mut random = Random(7);
    for round in 0..300 {
        let n = random.below(400 + 10 * round);
        let start = random.symbols(n);
        run_both(start, 30);
    }
}

#[test]
fn built_steps_match_and_rewrite_like_the_plain_interpreter() {
    let mut random = Random(2007);
    for _ in 0..60 {
        let body_len = 2000 + random.below(6000);
        let body = random.symbols(body_len);
        let mut pat = Vec::new();
        let mut depth = 0;
        let mut opened = 0;
        for _ in 0..(1 + random.below(8)) {
            match random.below(5) {
                0 => {
                    pat.push(Pat::Open);
                    depth += 1;
                    opened += 1;
                }
                1 if depth > 0 => {
                    pat.push(Pat::Close);
                    depth -= 1;
                }
                2 => pat.push(Pat::Skip(random.below(1500))),
                3 => {
                    let at = random.below(body_len - 8);
                    let len = 1 + random.below(6);
                    pat.push(Pat::Search(body[at..at + len].to_vec()));
                }
                _ => pat.push(Pat::Skip(random.below(3))),
            }
        }
        while depth > 0 {
            pat.push(Pat::Close);
            depth -= 1;
        }
        let mut tpl = Vec::new();
        for _ in 0..random.below(6) {
            match random.below(3) {
                0 => tpl.push(Tpl::Sym(random.symbol())),
                1 => tpl.push(Tpl::Ref(random.below(opened + 2), random.below(3))),
                _ => tpl.push(Tpl::Len(random.below(opened + 2))),
            }
        }
        let mut start = write_pattern(&pat);
        start.extend(write_template(&tpl));
        start.extend(body);
        run_both(start, 4);
    }
}

#[test]
fn many_small_steps_move_the_front_across_leaves() {
    let mut start = Vec::new();
    for _ in 0..700 {
        start.extend([I, I, P, I, P, C, P, I, I, C, I, I, C, I, P, P, P, I, I, C]);
    }
    let mut random = Random(5);
    start.extend(random.symbols(5000));
    run_both(start, 720);
}
