use vstd::prelude::*;
use crate::base::{Base, ShortDna};
use crate::error::{InterpreterError, InterpreterResult};
use crate::interpreter::{Context, RNA_WORD};
use crate::literals::{asnat, nat_code, nat_decode, quote_symbol, read_nat, saturated};
use crate::pattern::{
    lemma_item_read, lemma_nat_decode_used, lemma_nothing_read, lemma_word_read, whole_words, Decoded,
    Front,
};

verus! {

/// One item of a template.
#[derive(Debug, Clone, Copy, PartialEq, Eq, Structural)]
pub enum TItem {
    /// Put this symbol.
    TBase(Base),
    /// Put capture `n`, quoted `l` times.
    Ref { n: usize, l: usize },
    /// Put the length of capture `n`, as a number literal.
    Len { n: usize },
}

pub type Template = Vec<TItem>;

/// What the front of `s` says to the template decoder.
///
/// | front | symbols used | read as |
/// |---|---|---|
/// | `C` | 1 | put `I` |
/// | `F` | 1 | put `C` |
/// | `P` | 1 | put `F` |
/// | `I C` | 2 | put `P` |
/// | `I F`, `I P` | 2 and two numbers | put a capture: first how often to quote it, then which |
/// | `I I C`, `I I F` | 3 | the mark that ends the template |
/// | `I I P` | 3 and a number | put the length of that capture |
/// | `I I I` | 10 | the last seven of them are a word for the log |
///
/// Anything else, and a front too short for its row, is nothing a template
/// can go on with. A number without its end is nothing either, and uses up
/// all there is.
pub open spec fn template_front(s: Seq<Base>) -> Front<TItem> {
    if s.len() >= 1 && s[0] != Base::I {
        let plain = match s[0] {
            Base::C => Base::I,
            Base::F => Base::C,
            _ => Base::F,
        };
        Front::Item { item: TItem::TBase(plain), used: 1 }
    } else if s.len() >= 2 && s[1] == Base::C {
        Front::Item { item: TItem::TBase(Base::P), used: 2 }
    } else if s.len() >= 2 && s[1] != Base::I {
        match nat_decode(s.skip(2)) {
            Some((l, used_l)) => match nat_decode(s.skip(2 + used_l as int)) {
                Some((n, used_n)) => Front::Item {
                    item: TItem::Ref { n: saturated(n), l: saturated(l) },
                    used: 2 + used_l + used_n,
                },
                None => Front::Fail { used: s.len() },
            },
            None => Front::Fail { used: s.len() },
        }
    } else if s.len() >= 3 && s[1] == Base::I && s[2] == Base::P {
        match nat_decode(s.skip(3)) {
            Some((n, used)) => Front::Item { item: TItem::Len { n: saturated(n) }, used: 3 + used },
            None => Front::Fail { used: s.len() },
        }
    } else if s.len() >= 3 && s[1] == Base::I && s[2] != Base::I {
        Front::End { used: 3 }
    } else if s.len() >= 3 + RNA_WORD && s[1] == Base::I && s[2] == Base::I {
        Front::Word { word: s.subrange(3, 3 + RNA_WORD as int), used: 3 + RNA_WORD as nat }
    } else {
        Front::Fail { used: 0 }
    }
}

/// What the front says uses at least one symbol, unless it is nothing, and
/// never more symbols than there are. A word for the log has seven symbols.
pub proof fn lemma_template_front_used(s: Seq<Base>)
    ensures
        match template_front(s) {
            Front::Item { item, used } => 1 <= used <= s.len(),
            Front::Word { word, used } => 1 <= used <= s.len() && word.len() == RNA_WORD,
            Front::End { used } => 1 <= used <= s.len(),
            Front::Fail { used } => used <= s.len(),
        },
{
    if s.len() >= 2 {
        lemma_nat_decode_used(s.skip(2));
        if let Some((l, used_l)) = nat_decode(s.skip(2)) {
            lemma_nat_decode_used(s.skip(2 + used_l as int));
        }
    }
    if s.len() >= 3 {
        lemma_nat_decode_used(s.skip(3));
    }
}

/// The template at the front of `s`: item after item as `template_front`
/// says, up to the mark that ends the template.
#[verifier::opaque]
pub open spec fn template_decode(s: Seq<Base>) -> Decoded<TItem>
    decreases s.len(),
{
    match template_front(s) {
        Front::Item { item, used } => {
            proof {
                lemma_template_front_used(s);
            }
            template_decode(s.skip(used as int)).after_item(item, used)
        },
        Front::Word { word, used } => {
            proof {
                lemma_template_front_used(s);
            }
            template_decode(s.skip(used as int)).after_word(word, used)
        },
        Front::End { used } => Decoded::finished(used),
        Front::Fail { used } => Decoded::failed(used),
    }
}

/// Decoding uses no more symbols than there are, and every word that it
/// sets aside for the log has seven symbols.
pub proof fn lemma_template_decode_used(s: Seq<Base>)
    ensures
        template_decode(s).used <= s.len(),
        whole_words(template_decode(s).rna),
    decreases s.len(),
{
    reveal(template_decode);
    lemma_template_front_used(s);
    let d = template_decode(s);
    match template_front(s) {
        Front::Item { item, used } => {
            lemma_template_decode_used(s.skip(used as int));
            assert(d.rna == template_decode(s.skip(used as int)).rna);
        },
        Front::Word { word, used } => {
            let rest = template_decode(s.skip(used as int));
            lemma_template_decode_used(s.skip(used as int));
            assert forall|i: int| 0 <= i < d.rna.len() implies (#[trigger] d.rna[i]).len()
                == RNA_WORD by {
                if i > 0 {
                    assert(d.rna[i] == rest.rna[i - 1]);
                }
            }
        },
        Front::End { used } => {},
        Front::Fail { used } => {},
    }
}

/// Decoding, seen one step at a time: what the front says, and then what
/// decoding gives from behind it.
pub proof fn lemma_template_decode_step(s: Seq<Base>)
    ensures
        template_decode(s) == match template_front(s) {
            Front::Item { item, used } => template_decode(s.skip(used as int)).after_item(
                item,
                used,
            ),
            Front::Word { word, used } => template_decode(s.skip(used as int)).after_word(
                word,
                used,
            ),
            Front::End { used } => Decoded::finished(used),
            Front::Fail { used } => Decoded::failed(used),
        },
{
    reveal(template_decode);
}

/// Reads a template off the front of the sequence, as `template_decode`
/// says, and puts the words it sets aside at the end of the log. Where
/// decoding stops short, what was used up stays used up and the words stay
/// in the log.
pub fn template(context: &mut Context) -> (r: InterpreterResult<Template>)
    requires
        old(context).wf(),
    ensures
        final(context).wf(),
        ({
            let d = template_decode(old(context).dna@);
            &&& d.used <= old(context).dna@.len()
            &&& final(context).dna@ == old(context).dna@.skip(d.used as int)
            &&& final(context).log() == old(context).log() + d.rna
            &&& match r {
                Ok(t) => d.ok && t@ == d.items,
                Err(e) => !d.ok && e == InterpreterError::Template,
            }
        }),
{
    let ghost s0 = context.dna@;
    let ghost log0 = context.log();
    let mut t: Template = Vec::new();
    let ghost mut used: nat = 0;
    let ghost mut words: Seq<Seq<Base>> = Seq::empty();
    proof {
        lemma_template_decode_used(s0);
        assert(s0.skip(0) == s0);
        assert(log0 + words == log0);
        assert(t@ + template_decode(s0).items == template_decode(s0).items);
        assert(words + template_decode(s0).rna == template_decode(s0).rna);
    }
    loop
        invariant
            context.wf(),
            s0 == old(context).dna@,
            log0 == old(context).log(),
            used <= s0.len(),
            context.dna@ == s0.skip(used as int),
            context.log() == log0 + words,
            template_decode(s0) == template_decode(context.dna@).after(t@, words, used),
            template_decode(s0).used <= s0.len(),
        decreases s0.len() - used,
    {
        let ghost cur = context.dna@;
        let ghost items = t@;
        let n = context.dna.len();
        let front = context.dna.prefix(3);
        proof {
            assert(forall|i: int| 0 <= i < front@.len() ==> front@[i] == cur[i]);
            lemma_template_decode_step(cur);
            lemma_template_front_used(cur);
        }
        let item = if n >= 1 && front[0] != Base::I {
            let plain = match front[0] {
                Base::C => Base::I,
                Base::F => Base::C,
                _ => Base::F,
            };
            context.dna.skip(1);
            TItem::TBase(plain)
        } else if n >= 2 && front[1] == Base::C {
            context.dna.skip(2);
            TItem::TBase(Base::P)
        } else if n >= 2 && front[1] != Base::I {
            context.dna.skip(2);
            let l = match read_nat(context) {
                Ok(l) => l,
                Err(_) => {
                    proof {
                        lemma_nothing_read(Decoded::<TItem>::failed(cur.len()), items, words, used);
                        assert(context.dna@ == s0.skip((used + cur.len()) as int));
                    }
                    return Err(InterpreterError::Template);
                },
            };
            let ghost used_l = nat_decode(cur.skip(2)).unwrap().1;
            proof {
                lemma_nat_decode_used(cur.skip(2));
                assert(cur.skip(2).skip(used_l as int) == cur.skip(2 + used_l as int));
            }
            let n = match read_nat(context) {
                Ok(n) => n,
                Err(_) => {
                    proof {
                        lemma_nothing_read(Decoded::<TItem>::failed(cur.len()), items, words, used);
                        assert(context.dna@ == s0.skip((used + cur.len()) as int));
                    }
                    return Err(InterpreterError::Template);
                },
            };
            proof {
                let used_n = nat_decode(cur.skip(2 + used_l as int)).unwrap().1;
                assert(cur.skip(2 + used_l as int).skip(used_n as int) == cur.skip(
                    (2 + used_l + used_n) as int,
                ));
            }
            TItem::Ref { n, l }
        } else if n >= 3 && front[1] == Base::I && front[2] == Base::P {
            context.dna.skip(3);
            match read_nat(context) {
                Ok(n) => {
                    proof {
                        let step = nat_decode(cur.skip(3)).unwrap().1;
                        assert(cur.skip(3).skip(step as int) == cur.skip(3 + step as int));
                    }
                    TItem::Len { n }
                },
                Err(_) => {
                    proof {
                        lemma_nothing_read(Decoded::<TItem>::failed(cur.len()), items, words, used);
                        assert(context.dna@ == s0.skip((used + cur.len()) as int));
                    }
                    return Err(InterpreterError::Template);
                },
            }
        } else if n >= 3 && front[1] == Base::I && front[2] != Base::I {
            context.dna.skip(3);
            proof {
                lemma_nothing_read(Decoded::<TItem>::finished(3), items, words, used);
                assert(cur.skip(3) == s0.skip((used + 3) as int));
            }
            return Ok(t);
        } else if n >= 3 + RNA_WORD && front[1] == Base::I && front[2] == Base::I {
            let start: usize = 3;
            let word = context.dna.to_vec(start..start + RNA_WORD);
            context.dna.skip(3 + RNA_WORD);
            context.append_rna(word);
            proof {
                let step = 3 + RNA_WORD as nat;
                lemma_word_read(
                    template_decode(cur.skip(step as int)),
                    word@,
                    step,
                    items,
                    words,
                    used,
                );
                assert(cur.skip(step as int) == s0.skip((used + step) as int));
                assert((log0 + words).push(word@) == log0 + words.push(word@));
                words = words.push(word@);
                used = used + step;
            }
            continue ;
        } else {
            proof {
                lemma_nothing_read(Decoded::<TItem>::failed(0), items, words, used);
            }
            return Err(InterpreterError::Template);
        };
        proof {
            let step = (cur.len() - context.dna@.len()) as nat;
            lemma_item_read(template_decode(cur.skip(step as int)), item, step, items, words, used);
            assert(cur.skip(step as int) == s0.skip((used + step) as int));
            used = used + step;
        }
        t.push(item);
    }
}

/// How one template item is written down as symbols.
pub open spec fn titem_code(item: TItem) -> Seq<Base> {
    match item {
        TItem::TBase(b) => quote_symbol(b),
        TItem::Ref { n, l } => seq![Base::I, Base::F] + nat_code(n as nat) + nat_code(l as nat),
        TItem::Len { n } => seq![Base::I, Base::I, Base::P] + nat_code(n as nat),
    }
}

/// How the items of a template are written down, one after the other.
pub open spec fn template_code(t: Seq<TItem>) -> Seq<Base>
    decreases t.len(),
{
    if t.len() == 0 {
        Seq::<Base>::empty()
    } else {
        template_code(t.drop_last()) + titem_code(t.last())
    }
}

impl TItem {
    /// Writes the item down as symbols.
    pub fn encode(&self) -> (code: ShortDna)
        ensures
            code@ == titem_code(*self),
    {
        let mut code: Vec<Base> = Vec::new();
        match self {
            TItem::TBase(b) => {
                match b {
                    Base::I => {
                        code.push(Base::C);
                    },
                    Base::C => {
                        code.push(Base::F);
                    },
                    Base::F => {
                        code.push(Base::P);
                    },
                    Base::P => {
                        code.push(Base::I);
                        code.push(Base::C);
                    },
                }
                assert(code@ == quote_symbol(*b));
            },
            TItem::Ref { n, l } => {
                code.push(Base::I);
                code.push(Base::F);
                let mut which = asnat(*n);
                code.append(&mut which);
                let mut level = asnat(*l);
                code.append(&mut level);
                assert(code@ == seq![Base::I, Base::F] + nat_code(*n as nat) + nat_code(
                    *l as nat,
                ));
            },
            TItem::Len { n } => {
                code.push(Base::I);
                code.push(Base::I);
                code.push(Base::P);
                let mut which = asnat(*n);
                code.append(&mut which);
                assert(code@ == seq![Base::I, Base::I, Base::P] + nat_code(*n as nat));
            },
        }
        code
    }
}

/// Writes a template down as symbols, item by item.
pub fn encode(t: &Template) -> (code: ShortDna)
    ensures
        code@ == template_code(t@),
{
    let mut code: Vec<Base> = Vec::new();
    let mut i: usize = 0;
    assert(t@.take(0) == Seq::<TItem>::empty());
    while i < t.len()
        invariant
            i <= t.len(),
            code@ == template_code(t@.take(i as int)),
        decreases t.len() - i,
    {
        let mut piece = t[i].encode();
        code.append(&mut piece);
        proof {
            assert(t@.take(i + 1).drop_last() == t@.take(i as int));
            assert(t@.take(i + 1).last() == t@[i as int]);
        }
        i += 1;
    }
    assert(t@.take(t.len() as int) == t@);
    code
}

} // verus!
