use std::ops::Range;
use vstd::prelude::*;
use vstd::string::StringExecFns;
use crate::base::{letters, Base};
use crate::error::InterpreterError;
use crate::rope::{part, symbol_at, Rope, MAX_LEAF};

verus! {

/// The live sequence of a run: a rope, of which a prefix counts as already
/// taken away. Taking symbols off the front only moves that mark; the rope
/// is cut down once the mark has passed `MAX_LEAF`.
pub struct Dna {
    skipped: usize,
    seq: Rope,
}

impl View for Dna {
    type V = Seq<Base>;

    /// The symbols still in the sequence, in order.
    closed spec fn view(&self) -> Seq<Base> {
        self.seq@.skip(self.skipped as int)
    }
}

/// Whether every character of a text is one of the four letters.
pub open spec fn all_letters(text: Seq<char>) -> bool {
    forall|i: int| 0 <= i < text.len() ==> (#[trigger] Base::of_letter(text[i])) is Some
}

/// The symbols that a text of letters spells.
pub open spec fn symbols_of(text: Seq<char>) -> Seq<Base> {
    text.map_values(|c: char| Base::of_letter(c).unwrap())
}

impl Clone for Dna {
    fn clone(&self) -> (r: Self)
        ensures
            r@ == self@,
            r.wf() == self.wf(),
            r.deferred() == self.deferred(),
    {
        Dna { skipped: self.skipped, seq: self.seq.clone() }
    }
}

impl Dna {
    /// The mark of the taken prefix lies inside the rope, and no further
    /// from its front than `MAX_LEAF`.
    pub closed spec fn wf(&self) -> bool {
        self.skipped <= self.seq@.len() && self.skipped <= MAX_LEAF
    }

    /// How many symbols at the front of the rope count as taken away.
    pub closed spec fn deferred(&self) -> nat {
        self.skipped as nat
    }

    /// In a well-formed sequence at most `MAX_LEAF` symbols are taken away
    /// without the rope being cut down.
    pub proof fn lemma_deferred_bound(&self)
        requires
            self.wf(),
        ensures
            self.deferred() <= MAX_LEAF,
    {
    }

    pub fn empty() -> (r: Self)
        ensures
            r.wf(),
            r.deferred() == 0,
            r@ == Seq::<Base>::empty(),
    {
        let v: Vec<Base> = Vec::new();
        Dna { skipped: 0, seq: Rope::from_slice(v.as_slice()) }
    }

    /// Reads a sequence from its text. A text of the four letters gives the
    /// symbols it spells; any other text is refused, with the first character
    /// that is no letter.
    pub fn from_string(s: &str) -> (r: Result<Self, InterpreterError>)
        ensures
            match r {
                Ok(dna) => all_letters(s@) && dna.wf() && dna.deferred() == 0 && dna@ == symbols_of(
                    s@,
                ),
                Err(e) => exists|i: int|
                    0 <= i < s@.len() && all_letters(s@.take(i)) && Base::of_letter(s@[i]) is None
                        && e == InterpreterError::UnexpectedSymbol(#[trigger] s@[i]),
            },
    {
        let mut data: Vec<Base> = Vec::new();
        for c in it: s.chars()
            invariant
                it.seq() == s@,
                data@.len() == it.index(),
                forall|j: int|
                    0 <= j < it.index() ==> Base::of_letter(#[trigger] s@[j]) == Some(data@[j]),
        {
            match Base::from_char(c) {
                Ok(b) => {
                    data.push(b);
                },
                Err(e) => {
                    assert(s@[it.index()] == c);
                    return Err(e);
                },
            }
        }
        assert(data@ =~= symbols_of(s@));
        Ok(Dna { skipped: 0, seq: Rope::from_slice(data.as_slice()) })
    }

    pub fn from_slice(s: &[Base]) -> (r: Self)
        ensures
            r.wf(),
            r.deferred() == 0,
            r@ == s@,
    {
        Dna { skipped: 0, seq: Rope::from_slice(s) }
    }

    /// How many symbols are still in the sequence.
    pub fn len(&self) -> (n: usize)
        requires
            self.wf(),
        ensures
            n == self@.len(),
    {
        self.seq.len() - self.skipped
    }

    /// The symbol at `idx`, counted from the front of what is still there.
    pub fn nth(&self, idx: usize) -> (r: Option<Base>)
        requires
            self.wf(),
        ensures
            r == symbol_at(self@, idx as int),
    {
        if idx < self.seq.len() - self.skipped {
            self.seq.nth(idx + self.skipped)
        } else {
            None
        }
    }

    /// The symbols from `range.start` up to `range.end` in a flat buffer. An
    /// end past the sequence counts as its end; a range that is empty or runs
    /// backwards gives nothing.
    pub fn to_vec(&self, range: Range<usize>) -> (v: Vec<Base>)
        requires
            self.wf(),
        ensures
            v@ == part(self@, range.start as int, range.end as int),
    {
        let n = self.len();
        let hi = if range.end < n {
            range.end
        } else {
            n
        };
        let lo = if range.start < hi {
            range.start
        } else {
            hi
        };
        let mut v: Vec<Base> = Vec::new();
        let mut i: usize = lo;
        while i < hi
            invariant
                self.wf(),
                lo <= i <= hi <= self@.len(),
                v@ == self@.subrange(lo as int, i as int),
            decreases hi - i,
        {
            match self.nth(i) {
                Some(b) => {
                    v.push(b);
                },
                None => {},
            }
            i += 1;
        }
        v
    }

    /// The sequence as a text of letters.
    pub fn to_text(&self) -> (text: String)
        requires
            self.wf(),
        ensures
            text@ == letters(self@),
    {
        let n = self.len();
        let mut text = String::from_str("");
        proof {
            reveal_strlit("");
            reveal_strlit("I");
            reveal_strlit("C");
            reveal_strlit("F");
            reveal_strlit("P");
        }
        let mut i: usize = 0;
        while i < n
            invariant
                self.wf(),
                n == self@.len(),
                i <= n,
                text@ == letters(self@.take(i as int)),
                "I"@ == seq!['I'],
                "C"@ == seq!['C'],
                "F"@ == seq!['F'],
                "P"@ == seq!['P'],
            decreases n - i,
        {
            match self.nth(i) {
                Some(Base::I) => {
                    text.append("I");
                },
                Some(Base::C) => {
                    text.append("C");
                },
                Some(Base::F) => {
                    text.append("F");
                },
                Some(Base::P) => {
                    text.append("P");
                },
                None => {},
            }
            assert(letters(self@.take(i + 1)) =~= letters(self@.take(i as int)) + seq![
                self@[i as int].letter(),
            ]);
            i += 1;
        }
        assert(self@.take(n as int) == self@);
        text
    }

    /// Up to `size` symbols from the front.
    pub fn prefix(&self, size: usize) -> (v: Vec<Base>)
        requires
            self.wf(),
        ensures
            v@ == part(self@, 0, size as int),
    {
        self.to_vec(0..size)
    }

    /// Takes `count` symbols off the front. The rope is left alone while no
    /// more than `MAX_LEAF` symbols count as taken away; past that it is cut
    /// down to what is still there.
    pub fn skip(&mut self, count: usize)
        requires
            old(self).wf(),
            count <= old(self)@.len(),
        ensures
            final(self).wf(),
            final(self)@ == old(self)@.skip(count as int),
            final(self).deferred() == if old(self).deferred() + count > MAX_LEAF {
                0
            } else {
                old(self).deferred() + count
            },
    {
        let n = self.seq.len();
        let skipped = self.skipped + count;
        if skipped > MAX_LEAF {
            self.seq = self.seq.subseq(skipped..n);
            self.skipped = 0;
            assert(self@ =~= old(self)@.skip(count as int));
        } else {
            self.skipped = skipped;
            assert(self@ =~= old(self)@.skip(count as int));
        }
    }

    /// The symbols from `range.start` up to `range.end` as a sequence of
    /// their own. An end past the sequence counts as its end; a range that is
    /// empty or runs backwards gives the empty sequence.
    pub fn subseq(&self, range: Range<usize>) -> (r: Dna)
        requires
            self.wf(),
        ensures
            r.wf(),
            r.deferred() == 0,
            r@ == part(self@, range.start as int, range.end as int),
    {
        let n = self.seq.len() - self.skipped;
        let hi = if range.end < n {
            range.end
        } else {
            n
        };
        let lo = if range.start < hi {
            range.start
        } else {
            hi
        };
        let seq = self.seq.subseq((lo + self.skipped)..(hi + self.skipped));
        let r = Dna { skipped: 0, seq };
        assert(r@ =~= self@.subrange(lo as int, hi as int));
        r
    }

    /// The symbols of this sequence followed by those of `other`.
    pub fn concat(&self, other: &Self) -> (r: Dna)
        requires
            self.wf(),
            other.wf(),
            self@.len() + other@.len() <= usize::MAX,
        ensures
            r.wf(),
            r.deferred() == 0,
            r@ == self@ + other@,
    {
        let left = self.seq.subseq(self.skipped..self.seq.len());
        let right = other.seq.subseq(other.skipped..other.seq.len());
        Dna { skipped: 0, seq: left.concat(&right) }
    }
}

/// A sequence built from a run of symbols holds as many symbols as the run,
/// and reads at every position the symbol that the run has there, and
/// nothing at or past its end.
pub proof fn lemma_read_what_was_built(xs: Seq<Base>, i: int)
    requires
        0 <= i,
    ensures
        symbol_at(xs, i) == if i < xs.len() {
            Some(xs[i])
        } else {
            None
        },
{
}

/// A part taken from inside a sequence has the length of its range, and
/// holds what is left when the symbols before the range are passed over and
/// as many symbols taken as the range is long.
pub proof fn lemma_part_is_skip_then_take(s: Seq<Base>, a: int, b: int)
    requires
        0 <= a <= b <= s.len(),
    ensures
        part(s, a, b).len() == b - a,
        part(s, a, b) == s.skip(a).take(b - a),
{
    assert(part(s, a, b) =~= s.skip(a).take(b - a));
}

/// A range that is empty or runs backwards gives the empty part, and an end
/// past the sequence counts as the end of the sequence.
pub proof fn lemma_part_at_the_edges(s: Seq<Base>, a: int, b: int)
    requires
        0 <= a,
        0 <= b,
    ensures
        b <= a ==> part(s, a, b) == Seq::<Base>::empty(),
        b >= s.len() ==> part(s, a, b) == part(s, a, s.len() as int),
{
    if b <= a {
        assert(part(s, a, b) =~= Seq::<Base>::empty());
    }
}

/// Two sequences joined are as long as both together; the joined sequence
/// begins with the symbols of the first and goes on with those of the
/// second.
pub proof fn lemma_joined_parts(a: Seq<Base>, b: Seq<Base>)
    ensures
        (a + b).len() == a.len() + b.len(),
        part(a + b, 0, a.len() as int) == a,
        part(a + b, a.len() as int, (a + b).len() as int) == b,
{
    assert(part(a + b, 0, a.len() as int) =~= a);
    assert(part(a + b, a.len() as int, (a + b).len() as int) =~= b);
}

/// How many symbols a row of skips takes off in all.
pub open spec fn skipped_in_all(counts: Seq<nat>) -> nat
    decreases counts.len(),
{
    if counts.len() == 0 {
        0
    } else {
        skipped_in_all(counts.drop_last()) + counts.last()
    }
}

/// What is left of a sequence after a row of skips, one after the other.
pub open spec fn after_skips(s: Seq<Base>, counts: Seq<nat>) -> Seq<Base>
    decreases counts.len(),
{
    if counts.len() == 0 {
        s
    } else {
        after_skips(s, counts.drop_last()).skip(counts.last() as int)
    }
}

/// After any row of skips that take off `k` symbols in all, no more than
/// there are, the sequence is what one skip of `k` leaves, and its first
/// symbol is the symbol that stood at position `k` before.
pub proof fn lemma_skips_add_up(s: Seq<Base>, counts: Seq<nat>)
    requires
        skipped_in_all(counts) <= s.len(),
    ensures
        after_skips(s, counts) == s.skip(skipped_in_all(counts) as int),
        symbol_at(after_skips(s, counts), 0) == symbol_at(s, skipped_in_all(counts) as int),
    decreases counts.len(),
{
    if counts.len() == 0 {
        assert(s.skip(0) =~= s);
    } else {
        let before = counts.drop_last();
        lemma_skips_add_up(s, before);
        assert(s.skip(skipped_in_all(before) as int).skip(counts.last() as int) =~= s.skip(
            skipped_in_all(counts) as int,
        ));
    }
}

} // verus!
