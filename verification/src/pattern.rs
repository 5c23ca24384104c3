use vstd::prelude::*;
use crate::base::{Base, ShortDna};
use crate::error::{InterpreterError, InterpreterResult};
use crate::interpreter::{Context, RNA_WORD};
use crate::literals::{
    asnat, consts, consts_decode, nat_code, nat_decode, quote, quote_symbol, quoted, read_nat,
    saturated,
};

verus! {

/// One item of a pattern.
#[derive(Debug, Clone, PartialEq, Eq)]
pub enum PItem {
    /// Match this symbol.
    PBase(Base),
    /// Step over `n` symbols.
    Skip { n: usize },
    /// Go to just past the next place where the word `s` stands.
    Search { s: Vec<Base> },
    /// Start a capture here.
    Open,
    /// End the capture that was started last.
    Close,
}

/// A pattern item as a value of the model.
pub enum PItemView {
    PBase(Base),
    Skip { n: usize },
    Search { s: Seq<Base> },
    Open,
    Close,
}

impl View for PItem {
    type V = PItemView;

    open spec fn view(&self) -> PItemView {
        match self {
            PItem::PBase(b) => PItemView::PBase(*b),
            PItem::Skip { n } => PItemView::Skip { n: *n },
            PItem::Search { s } => PItemView::Search { s: s@ },
            PItem::Open => PItemView::Open,
            PItem::Close => PItemView::Close,
        }
    }
}

pub type Pattern = Vec<PItem>;

/// The items of a pattern as values of the model.
pub open spec fn pattern_view(p: Seq<PItem>) -> Seq<PItemView> {
    p.map_values(|item: PItem| item@)
}

/// How many captures a pattern starts.
pub open spec fn opens(p: Seq<PItemView>) -> nat
    decreases p.len(),
{
    if p.len() == 0 {
        0
    } else {
        opens(p.drop_last()) + if p.last() is Open {
            1nat
        } else {
            0nat
        }
    }
}

/// How many captures a pattern ends.
pub open spec fn closes(p: Seq<PItemView>) -> nat
    decreases p.len(),
{
    if p.len() == 0 {
        0
    } else {
        closes(p.drop_last()) + if p.last() is Close {
            1nat
        } else {
            0nat
        }
    }
}

/// A pattern entered with `depth` captures under way is balanced when none
/// of its beginnings ends more captures than were under way or started.
pub open spec fn balanced_from(p: Seq<PItemView>, depth: nat) -> bool {
    forall|k: int| 0 <= k <= p.len() ==> closes(#[trigger] p.take(k)) <= opens(p.take(k)) + depth
}

/// A pattern is balanced when none of its beginnings ends more captures than
/// it starts.
pub open spec fn balanced(p: Seq<PItemView>) -> bool {
    balanced_from(p, 0)
}

/// What the front of a sequence says to a decoder.
pub enum Front<T> {
    /// An item of the program, spelled by the first `used` symbols.
    Item { item: T, used: nat },
    /// A word for the log, spelled by the first `used` symbols.
    Word { word: Seq<Base>, used: nat },
    /// The mark that ends a capture or the program, `used` symbols long.
    End { used: nat },
    /// Nothing a program can go on with. The first `used` symbols are lost.
    Fail { used: nat },
}

/// What came of decoding a program from the front of a sequence: the items
/// read, the words set aside for the log, how many symbols were used up, and
/// whether the program was read to its end.
pub struct Decoded<T> {
    pub items: Seq<T>,
    pub rna: Seq<Seq<Base>>,
    pub used: nat,
    pub ok: bool,
}

impl<T> Decoded<T> {
    /// Decoding stopped short, after `used` symbols.
    pub open spec fn failed(used: nat) -> Self {
        Decoded { items: Seq::empty(), rna: Seq::empty(), used, ok: false }
    }

    /// Decoding came to the end of the program, after `used` symbols.
    pub open spec fn finished(used: nat) -> Self {
        Decoded { items: Seq::empty(), rna: Seq::empty(), used, ok: true }
    }

    /// This outcome, reached after `items` and `rna` had been read from
    /// `used` symbols.
    pub open spec fn after(self, items: Seq<T>, rna: Seq<Seq<Base>>, used: nat) -> Self {
        Decoded {
            items: items + self.items,
            rna: rna + self.rna,
            used: used + self.used,
            ok: self.ok,
        }
    }

    /// This outcome, reached after one item read from `used` symbols.
    pub open spec fn after_item(self, item: T, used: nat) -> Self {
        self.after(seq![item], Seq::empty(), used)
    }

    /// This outcome, reached after one word set aside from `used` symbols.
    pub open spec fn after_word(self, word: Seq<Base>, used: nat) -> Self {
        self.after(Seq::empty(), seq![word], used)
    }
}

/// What follows in one go what was read before it.
pub proof fn lemma_after_after<T>(
    d: Decoded<T>,
    items1: Seq<T>,
    rna1: Seq<Seq<Base>>,
    used1: nat,
    items2: Seq<T>,
    rna2: Seq<Seq<Base>>,
    used2: nat,
)
    ensures
        d.after(items2, rna2, used2).after(items1, rna1, used1) == d.after(
            items1 + items2,
            rna1 + rna2,
            used1 + used2,
        ),
{
    assert(items1 + (items2 + d.items) == (items1 + items2) + d.items);
    assert(rna1 + (rna2 + d.rna) == (rna1 + rna2) + d.rna);
}

/// One more item read: what decoding gives from here on, behind what was
/// read so far.
pub proof fn lemma_item_read<T>(
    rest: Decoded<T>,
    item: T,
    step: nat,
    items: Seq<T>,
    rna: Seq<Seq<Base>>,
    used: nat,
)
    ensures
        rest.after_item(item, step).after(items, rna, used) == rest.after(
            items.push(item),
            rna,
            used + step,
        ),
{
    lemma_after_after(rest, items, rna, used, seq![item], Seq::empty(), step);
    assert(items + seq![item] == items.push(item));
    assert(rna + Seq::<Seq<Base>>::empty() == rna);
}

/// One more word set aside: what decoding gives from here on, behind what
/// was read so far.
pub proof fn lemma_word_read<T>(
    rest: Decoded<T>,
    word: Seq<Base>,
    step: nat,
    items: Seq<T>,
    rna: Seq<Seq<Base>>,
    used: nat,
)
    ensures
        rest.after_word(word, step).after(items, rna, used) == rest.after(
            items,
            rna.push(word),
            used + step,
        ),
{
    lemma_after_after(rest, items, rna, used, Seq::empty(), seq![word], step);
    assert(rna + seq![word] == rna.push(word));
    assert(items + Seq::<T>::empty() == items);
}

/// The end of a program: nothing more is read.
pub proof fn lemma_nothing_read<T>(last: Decoded<T>, items: Seq<T>, rna: Seq<Seq<Base>>, used: nat)
    requires
        last.items.len() == 0,
        last.rna.len() == 0,
    ensures
        last.after(items, rna, used) == (Decoded {
            items,
            rna,
            used: used + last.used,
            ok: last.ok,
        }),
{
    assert(items + last.items == items);
    assert(rna + last.rna == rna);
}

/// Every word of a log has seven symbols.
pub open spec fn whole_words(rna: Seq<Seq<Base>>) -> bool {
    forall|i: int| 0 <= i < rna.len() ==> (#[trigger] rna[i]).len() == RNA_WORD
}

/// A number literal that can be read uses at least its closing symbol and no
/// more symbols than there are.
pub proof fn lemma_nat_decode_used(s: Seq<Base>)
    ensures
        nat_decode(s) matches Some((_, used)) ==> 1 <= used <= s.len(),
    decreases s.len(),
{
    if s.len() > 0 && s[0] != Base::P {
        lemma_nat_decode_used(s.drop_first());
    }
}

/// A quoted word uses no more symbols than there are, and is no longer than
/// what spells it.
pub proof fn lemma_consts_decode_used(s: Seq<Base>)
    ensures
        consts_decode(s).1 <= s.len(),
        consts_decode(s).0.len() <= consts_decode(s).1,
    decreases s.len(),
{
    if s.len() >= 1 && s[0] != Base::I {
        lemma_consts_decode_used(s.skip(1));
    } else if s.len() >= 2 && s[1] == Base::C {
        lemma_consts_decode_used(s.skip(2));
    }
}

/// What the front of `s` says to the pattern decoder.
///
/// | front | symbols used | read as |
/// |---|---|---|
/// | `C` | 1 | match `I` |
/// | `F` | 1 | match `C` |
/// | `P` | 1 | match `F` |
/// | `I C` | 2 | match `P` |
/// | `I P` | 2 and a number | step over that many symbols |
/// | `I F` | 3 and a quoted word | search for the word |
/// | `I I P` | 3 | start a capture |
/// | `I I C`, `I I F` | 3 | the mark that ends a capture or the pattern |
/// | `I I I` | 10 | the last seven of them are a word for the log |
///
/// Anything else, and a front too short for its row, is nothing a pattern
/// can go on with. A number without its end is nothing either, and uses up
/// all there is.
pub open spec fn pattern_front(s: Seq<Base>) -> Front<PItemView> {
    if s.len() >= 1 && s[0] != Base::I {
        let plain = match s[0] {
            Base::C => Base::I,
            Base::F => Base::C,
            _ => Base::F,
        };
        Front::Item { item: PItemView::PBase(plain), used: 1 }
    } else if s.len() >= 2 && s[1] == Base::C {
        Front::Item { item: PItemView::PBase(Base::P), used: 2 }
    } else if s.len() >= 2 && s[1] == Base::P {
        match nat_decode(s.skip(2)) {
            Some((n, used)) => Front::Item {
                item: PItemView::Skip { n: saturated(n) },
                used: 2 + used,
            },
            None => Front::Fail { used: s.len() },
        }
    } else if s.len() >= 3 && s[1] == Base::F {
        let (word, used) = consts_decode(s.skip(3));
        Front::Item { item: PItemView::Search { s: word }, used: 3 + used }
    } else if s.len() >= 3 && s[1] == Base::I && s[2] == Base::P {
        Front::Item { item: PItemView::Open, used: 3 }
    } else if s.len() >= 3 && s[1] == Base::I && s[2] != Base::I {
        Front::End { used: 3 }
    } else if s.len() >= 3 + RNA_WORD && s[1] == Base::I && s[2] == Base::I {
        Front::Word { word: s.subrange(3, 3 + RNA_WORD as int), used: 3 + RNA_WORD as nat }
    } else {
        Front::Fail { used: 0 }
    }
}

/// What the front says uses at least one symbol, unless it is nothing, and
/// never more symbols than there are. A word for the log has seven symbols,
/// and the front never says `Close`.
pub proof fn lemma_pattern_front_used(s: Seq<Base>)
    ensures
        match pattern_front(s) {
            Front::Item { item, used } => 1 <= used <= s.len() && !(item is Close),
            Front::Word { word, used } => 1 <= used <= s.len() && word.len() == RNA_WORD,
            Front::End { used } => 1 <= used <= s.len(),
            Front::Fail { used } => used <= s.len(),
        },
{
    if s.len() >= 2 {
        lemma_nat_decode_used(s.skip(2));
    }
    if s.len() >= 3 {
        lemma_consts_decode_used(s.skip(3));
    }
}

/// The pattern at the front of `s`, read with `depth` captures under way:
/// item after item as `pattern_front` says, up to the mark that ends the
/// pattern. The mark ends a capture while one is under way, and the pattern
/// when none is.
#[verifier::opaque]
pub open spec fn pattern_decode(s: Seq<Base>, depth: nat) -> Decoded<PItemView>
    decreases s.len(),
{
    match pattern_front(s) {
        Front::Item { item, used } => {
            proof {
                lemma_pattern_front_used(s);
            }
            pattern_decode(
                s.skip(used as int),
                if item is Open {
                    depth + 1
                } else {
                    depth
                },
            ).after_item(item, used)
        },
        Front::Word { word, used } => {
            proof {
                lemma_pattern_front_used(s);
            }
            pattern_decode(s.skip(used as int), depth).after_word(word, used)
        },
        Front::End { used } => if depth == 0 {
            Decoded::finished(used)
        } else {
            proof {
                lemma_pattern_front_used(s);
            }
            pattern_decode(s.skip(used as int), (depth - 1) as nat).after_item(
                PItemView::Close,
                used,
            )
        },
        Front::Fail { used } => Decoded::failed(used),
    }
}

/// Decoding uses no more symbols than there are, and every word that it
/// sets aside for the log has seven symbols.
pub proof fn lemma_pattern_decode_used(s: Seq<Base>, depth: nat)
    ensures
        pattern_decode(s, depth).used <= s.len(),
        whole_words(pattern_decode(s, depth).rna),
    decreases s.len(),
{
    reveal(pattern_decode);
    lemma_pattern_front_used(s);
    let d = pattern_decode(s, depth);
    match pattern_front(s) {
        Front::Item { item, used } => {
            let then = if item is Open {
                depth + 1
            } else {
                depth
            };
            lemma_pattern_decode_used(s.skip(used as int), then);
            assert(d.rna == pattern_decode(s.skip(used as int), then).rna);
        },
        Front::Word { word, used } => {
            let rest = pattern_decode(s.skip(used as int), depth);
            lemma_pattern_decode_used(s.skip(used as int), depth);
            assert forall|i: int| 0 <= i < d.rna.len() implies (#[trigger] d.rna[i]).len()
                == RNA_WORD by {
                if i > 0 {
                    assert(d.rna[i] == rest.rna[i - 1]);
                }
            }
        },
        Front::End { used } => {
            if depth > 0 {
                lemma_pattern_decode_used(s.skip(used as int), (depth - 1) as nat);
                assert(d.rna == pattern_decode(s.skip(used as int), (depth - 1) as nat).rna);
            }
        },
        Front::Fail { used } => {},
    }
}

/// The captures that two patterns in a row start and end are those of the
/// first and those of the second.
pub proof fn lemma_counts_concat(a: Seq<PItemView>, b: Seq<PItemView>)
    ensures
        opens(a + b) == opens(a) + opens(b),
        closes(a + b) == closes(a) + closes(b),
    decreases b.len(),
{
    if b.len() == 0 {
        assert(a + b == a);
    } else {
        lemma_counts_concat(a, b.drop_last());
        assert((a + b).drop_last() == a + b.drop_last());
    }
}

/// A balanced pattern stays balanced behind an item that leaves as many
/// captures under way as the pattern is entered with.
proof fn lemma_balanced_behind(item: PItemView, rest: Seq<PItemView>, depth: nat, then: nat)
    requires
        balanced_from(rest, then),
        item is Close ==> depth > 0,
        then == depth + (if item is Open {
            1int
        } else {
            0int
        }) - (if item is Close {
            1int
        } else {
            0int
        }),
    ensures
        balanced_from(seq![item] + rest, depth),
{
    let p = seq![item] + rest;
    let none = Seq::<PItemView>::empty();
    assert(seq![item].drop_last() == none);
    assert(opens(none) == 0 && closes(none) == 0);
    assert(opens(seq![item]) == if item is Open { 1nat } else { 0nat });
    assert(closes(seq![item]) == if item is Close { 1nat } else { 0nat });
    assert forall|k: int| 0 <= k <= p.len() implies closes(#[trigger] p.take(k)) <= opens(
        p.take(k),
    ) + depth by {
        if k == 0 {
            assert(p.take(0) == none);
        } else {
            assert(p.take(k) == seq![item] + rest.take(k - 1));
            lemma_counts_concat(seq![item], rest.take(k - 1));
            assert(closes(rest.take(k - 1)) <= opens(rest.take(k - 1)) + then);
        }
    }
}

/// A pattern that was read to its end is balanced: no beginning of it ends
/// more captures than were under way or started.
pub proof fn lemma_pattern_decode_balanced(s: Seq<Base>, depth: nat)
    ensures
        pattern_decode(s, depth).ok ==> balanced_from(pattern_decode(s, depth).items, depth),
    decreases s.len(),
{
    reveal(pattern_decode);
    lemma_pattern_front_used(s);
    let d = pattern_decode(s, depth);
    let none = Seq::<PItemView>::empty();
    if d.ok {
        match pattern_front(s) {
            Front::Item { item, used } => {
                let then = if item is Open {
                    depth + 1
                } else {
                    depth
                };
                lemma_pattern_decode_balanced(s.skip(used as int), then);
                lemma_balanced_behind(
                    item,
                    pattern_decode(s.skip(used as int), then).items,
                    depth,
                    then,
                );
            },
            Front::Word { word, used } => {
                lemma_pattern_decode_balanced(s.skip(used as int), depth);
                assert(d.items == pattern_decode(s.skip(used as int), depth).items);
            },
            Front::End { used } => {
                if depth == 0 {
                    assert forall|k: int| 0 <= k <= none.len() implies closes(
                        #[trigger] none.take(k),
                    ) <= opens(none.take(k)) + depth by {
                        assert(none.take(k) == none);
                    }
                } else {
                    let then = (depth - 1) as nat;
                    lemma_pattern_decode_balanced(s.skip(used as int), then);
                    lemma_balanced_behind(
                        PItemView::Close,
                        pattern_decode(s.skip(used as int), then).items,
                        depth,
                        then,
                    );
                }
            },
            Front::Fail { used } => {},
        }
    }
}

/// Decoding, seen one step at a time: what the front says, and then what
/// decoding gives from behind it.
pub proof fn lemma_pattern_decode_step(s: Seq<Base>, depth: nat)
    ensures
        pattern_decode(s, depth) == match pattern_front(s) {
            Front::Item { item, used } => pattern_decode(
                s.skip(used as int),
                if item is Open {
                    depth + 1
                } else {
                    depth
                },
            ).after_item(item, used),
            Front::Word { word, used } => pattern_decode(s.skip(used as int), depth).after_word(
                word,
                used,
            ),
            Front::End { used } => if depth == 0 {
                Decoded::finished(used)
            } else {
                pattern_decode(s.skip(used as int), (depth - 1) as nat).after_item(
                    PItemView::Close,
                    used,
                )
            },
            Front::Fail { used } => Decoded::failed(used),
        },
{
    reveal(pattern_decode);
}

/// Reads a pattern off the front of the sequence, as `pattern_decode` says,
/// and puts the words it sets aside at the end of the log. Where decoding
/// stops short, what was used up stays used up and the words stay in the log.
pub fn pattern(context: &mut Context) -> (r: InterpreterResult<Pattern>)
    requires
        old(context).wf(),
    ensures
        final(context).wf(),
        ({
            let d = pattern_decode(old(context).dna@, 0);
            &&& d.used <= old(context).dna@.len()
            &&& final(context).dna@ == old(context).dna@.skip(d.used as int)
            &&& final(context).log() == old(context).log() + d.rna
            &&& match r {
                Ok(p) => d.ok && pattern_view(p@) == d.items,
                Err(e) => !d.ok && e == InterpreterError::Pattern,
            }
        }),
        r matches Ok(p) ==> balanced(pattern_view(p@)),
{
    let ghost s0 = context.dna@;
    let ghost log0 = context.log();
    let mut p: Pattern = Vec::new();
    let mut lvl: usize = 0;
    let ghost mut used: nat = 0;
    let ghost mut words: Seq<Seq<Base>> = Seq::empty();
    let whole = context.dna.len();
    proof {
        lemma_pattern_decode_used(s0, 0);
        lemma_pattern_decode_balanced(s0, 0);
        assert(s0.skip(0) == s0);
        assert(log0 + words == log0);
        assert(pattern_view(p@) + pattern_decode(s0, 0).items == pattern_decode(s0, 0).items);
        assert(words + pattern_decode(s0, 0).rna == pattern_decode(s0, 0).rna);
    }
    loop
        invariant
            context.wf(),
            s0 == old(context).dna@,
            log0 == old(context).log(),
            used <= s0.len() == whole,
            lvl <= used,
            context.dna@ == s0.skip(used as int),
            context.log() == log0 + words,
            pattern_decode(s0, 0) == pattern_decode(context.dna@, lvl as nat).after(
                pattern_view(p@),
                words,
                used,
            ),
            pattern_decode(s0, 0).used <= s0.len(),
            pattern_decode(s0, 0).ok ==> balanced(pattern_decode(s0, 0).items),
        decreases s0.len() - used,
    {
        let ghost cur = context.dna@;
        let ghost items = pattern_view(p@);
        let n = context.dna.len();
        let front = context.dna.prefix(3);
        proof {
            assert(forall|i: int| 0 <= i < front@.len() ==> front@[i] == cur[i]);
            lemma_pattern_decode_step(cur, lvl as nat);
            lemma_pattern_front_used(cur);
        }
        let item = if n >= 1 && front[0] != Base::I {
            let plain = match front[0] {
                Base::C => Base::I,
                Base::F => Base::C,
                _ => Base::F,
            };
            context.dna.skip(1);
            PItem::PBase(plain)
        } else if n >= 2 && front[1] == Base::C {
            context.dna.skip(2);
            PItem::PBase(Base::P)
        } else if n >= 2 && front[1] == Base::P {
            context.dna.skip(2);
            match read_nat(context) {
                Ok(count) => {
                    proof {
                        let step = nat_decode(cur.skip(2)).unwrap().1;
                        assert(cur.skip(2).skip(step as int) == cur.skip(2 + step as int));
                    }
                    PItem::Skip { n: count }
                },
                Err(_) => {
                    proof {
                        lemma_nothing_read(
                            Decoded::<PItemView>::failed(cur.len()),
                            items,
                            words,
                            used,
                        );
                        assert(context.dna@ == s0.skip((used + cur.len()) as int));
                    }
                    return Err(InterpreterError::Pattern);
                },
            }
        } else if n >= 3 && front[1] == Base::F {
            context.dna.skip(3);
            let word = consts(context);
            proof {
                let step = consts_decode(cur.skip(3)).1;
                assert(cur.skip(3).skip(step as int) == cur.skip(3 + step as int));
            }
            PItem::Search { s: word }
        } else if n >= 3 && front[1] == Base::I && front[2] == Base::P {
            context.dna.skip(3);
            lvl = lvl + 1;
            PItem::Open
        } else if n >= 3 && front[1] == Base::I && front[2] != Base::I {
            context.dna.skip(3);
            if lvl == 0 {
                proof {
                    lemma_nothing_read(Decoded::<PItemView>::finished(3), items, words, used);
                    assert(cur.skip(3) == s0.skip((used + 3) as int));
                }
                return Ok(p);
            }
            lvl = lvl - 1;
            PItem::Close
        } else if n >= 3 + RNA_WORD && front[1] == Base::I && front[2] == Base::I {
            let start: usize = 3;
            let word = context.dna.to_vec(start..start + RNA_WORD);
            context.dna.skip(3 + RNA_WORD);
            context.append_rna(word);
            proof {
                let step = 3 + RNA_WORD as nat;
                lemma_word_read(
                    pattern_decode(cur.skip(step as int), lvl as nat),
                    word@,
                    step,
                    items,
                    words,
                    used,
                );
                assert(cur.skip(step as int) == s0.skip((used + step) as int));
                assert((log0 + words).push(word@) == log0 + words.push(word@));
                words = words.push(word@);
                used = used + step;
            }
            continue ;
        } else {
            proof {
                lemma_nothing_read(Decoded::<PItemView>::failed(0), items, words, used);
            }
            return Err(InterpreterError::Pattern);
        };
        proof {
            let step = (cur.len() - context.dna@.len()) as nat;
            lemma_item_read(
                pattern_decode(cur.skip(step as int), lvl as nat),
                item@,
                step,
                items,
                words,
                used,
            );
            assert(cur.skip(step as int) == s0.skip((used + step) as int));
            used = used + step;
        }
        p.push(item);
        assert(pattern_view(p@) == items.push(item@));
    }
}

/// How one pattern item is written down as symbols. `Open` and `Close` are
/// written alike.
pub open spec fn pitem_code(item: PItemView) -> Seq<Base> {
    match item {
        PItemView::PBase(b) => quote_symbol(b),
        PItemView::Skip { n } => seq![Base::I, Base::P] + nat_code(n as nat),
        PItemView::Search { s } => seq![Base::I, Base::F, Base::F] + quoted(s),
        PItemView::Open => seq![Base::I, Base::I, Base::P],
        PItemView::Close => seq![Base::I, Base::I, Base::P],
    }
}

/// How the items of a pattern are written down, one after the other.
pub open spec fn pattern_code(p: Seq<PItemView>) -> Seq<Base>
    decreases p.len(),
{
    if p.len() == 0 {
        Seq::<Base>::empty()
    } else {
        pattern_code(p.drop_last()) + pitem_code(p.last())
    }
}

impl PItem {
    /// Writes the item down as symbols.
    pub fn encode(&self) -> (code: ShortDna)
        ensures
            code@ == pitem_code(self@),
    {
        let mut code: Vec<Base> = Vec::new();
        match self {
            PItem::PBase(b) => {
                match b {
                    Base::I => {
                        code.push(Base::C);
                    },
                    Base::C => {
                        code.push(Base::F);
                    },
                    Base::F => {
                        code.push(Base::P);
                    },
                    Base::P => {
                        code.push(Base::I);
                        code.push(Base::C);
                    },
                }
                assert(code@ == quote_symbol(*b));
            },
            PItem::Skip { n } => {
                code.push(Base::I);
                code.push(Base::P);
                let mut number = asnat(*n);
                code.append(&mut number);
                assert(code@ == seq![Base::I, Base::P] + nat_code(*n as nat));
            },
            PItem::Search { s } => {
                code.push(Base::I);
                code.push(Base::F);
                code.push(Base::F);
                let mut word = quote(s.as_slice());
                code.append(&mut word);
                assert(code@ == seq![Base::I, Base::F, Base::F] + quoted(s@));
            },
            PItem::Open => {
                code.push(Base::I);
                code.push(Base::I);
                code.push(Base::P);
                assert(code@ == seq![Base::I, Base::I, Base::P]);
            },
            PItem::Close => {
                code.push(Base::I);
                code.push(Base::I);
                code.push(Base::P);
                assert(code@ == seq![Base::I, Base::I, Base::P]);
            },
        }
        code
    }
}

/// Writes a pattern down as symbols, item by item.
pub fn encode(t: &Pattern) -> (code: ShortDna)
    ensures
        code@ == pattern_code(pattern_view(t@)),
{
    let mut code: Vec<Base> = Vec::new();
    let mut i: usize = 0;
    assert(pattern_view(t@).take(0) == Seq::<PItemView>::empty());
    while i < t.len()
        invariant
            i <= t.len(),
            code@ == pattern_code(pattern_view(t@).take(i as int)),
        decreases t.len() - i,
    {
        let mut piece = t[i].encode();
        code.append(&mut piece);
        proof {
            let items = pattern_view(t@);
            assert(items.take(i + 1).drop_last() == items.take(i as int));
            assert(items.take(i + 1).last() == t@[i as int]@);
        }
        i += 1;
    }
    assert(pattern_view(t@).take(t.len() as int) == pattern_view(t@));
    code
}

} // verus!
