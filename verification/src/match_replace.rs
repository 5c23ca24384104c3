use vstd::prelude::*;
use crate::base::Base;
use crate::dna::Dna;
use crate::interpreter::Context;
use crate::literals::{asnat, nat_code, protect, protected, quoted};
use crate::pattern::{balanced, closes, lemma_counts_concat, opens, PItem, PItemView, Pattern, pattern_view};
use crate::template::{TItem, Template};

verus! {

/// The captures of a match, in the order in which they were ended.
pub type Environment = Vec<Dna>;

/// Whether the word `w` stands in `s` at position `at`.
pub open spec fn occurs_at(s: Seq<Base>, w: Seq<Base>, at: int) -> bool {
    0 <= at && at + w.len() <= s.len() && s.subrange(at, at + w.len()) == w
}

/// The position just past the first place, at or after `from`, where the
/// word `w` stands in `s`; nothing if it stands nowhere from there on.
pub open spec fn search_end(s: Seq<Base>, w: Seq<Base>, from: int) -> Option<int>
    decreases s.len() + 1 - from,
{
    if from < 0 || from + w.len() > s.len() {
        None
    } else if occurs_at(s, w, from) {
        Some(from + w.len())
    } else {
        search_end(s, w, from + 1)
    }
}

/// A search ends just past the first place where the word stands: the word
/// stands there and at no place between the start of the search and there.
/// A search that finds nothing had no place to find.
pub proof fn lemma_search_end_first(s: Seq<Base>, w: Seq<Base>, from: int)
    requires
        0 <= from,
    ensures
        match search_end(s, w, from) {
            Some(end) => {
                &&& from <= end - w.len()
                &&& occurs_at(s, w, end - w.len())
                &&& forall|k: int| from <= k < end - w.len() ==> !occurs_at(s, w, k)
            },
            None => forall|k: int| from <= k ==> !occurs_at(s, w, k),
        },
    decreases s.len() + 1 - from,
{
    if from + w.len() <= s.len() && !occurs_at(s, w, from) {
        lemma_search_end_first(s, w, from + 1);
    }
}

/// Whether the word `target` stands in the sequence at position `at`.
fn stands_at(source: &Dna, at: usize, target: &[Base]) -> (found: bool)
    requires
        source.wf(),
        at + target@.len() <= source@.len() <= usize::MAX,
    ensures
        found == occurs_at(source@, target@, at as int),
{
    let m = target.len();
    let mut k: usize = 0;
    while k < m
        invariant
            source.wf(),
            m == target@.len(),
            k <= m,
            at + m <= source@.len() <= usize::MAX,
            source@.subrange(at as int, at + k) == target@.take(k as int),
        decreases m - k,
    {
        let here = source.nth(at + k);
        if here != Some(target[k]) {
            assert(source@.subrange(at as int, at + m)[k as int] != target@[k as int]);
            return false;
        }
        assert(source@.subrange(at as int, at + k + 1) == source@.subrange(at as int, at + k).push(
            source@[at + k],
        ));
        assert(target@.take(k + 1) == target@.take(k as int).push(target@[k as int]));
        k += 1;
    }
    assert(target@.take(m as int) == target@);
    true
}

/// Looks for the first place, at or after `from`, where the word `target`
/// stands in the sequence, and says how far it is from `from` to just past
/// that place.
pub fn find_subseq(source: &Dna, from: usize, target: &[Base]) -> (r: Option<usize>)
    requires
        source.wf(),
        target@.len() > 0,
    ensures
        r == match search_end(source@, target@, from as int) {
            Some(end) => Some((end - from) as usize),
            None => None,
        },
        r matches Some(n) ==> from + n <= source@.len(),
{
    let n = source.len();
    let m = target.len();
    if m > n || from > n - m {
        return None;
    }
    let last = n - m;
    let mut at: usize = from;
    while at <= last
        invariant
            source.wf(),
            n == source@.len(),
            m == target@.len(),
            m > 0,
            last == n - m,
            from <= at <= last + 1,
            search_end(source@, target@, from as int) == search_end(source@, target@, at as int),
        decreases last + 1 - at,
    {
        if stands_at(source, at, target) {
            return Some(at - from + m);
        }
        at += 1;
    }
    None
}

/// How far a match has come: the position of the cursor, the positions
/// where the captures under way were started, innermost last, and the
/// ranges of the captures already ended, in the order in which they ended.
pub struct MatchState {
    pub pos: nat,
    pub stack: Seq<nat>,
    pub env: Seq<(nat, nat)>,
}

impl MatchState {
    /// The state before the first item: at the front, with no capture under
    /// way and none ended.
    pub open spec fn start() -> Self {
        MatchState { pos: 0, stack: Seq::empty(), env: Seq::empty() }
    }

    /// The cursor lies inside `s`, no capture under way starts behind the
    /// cursor, and every ended capture is a range in front of the cursor.
    pub open spec fn inside(self, s: Seq<Base>) -> bool {
        &&& self.pos <= s.len()
        &&& forall|i: int| 0 <= i < self.stack.len() ==> #[trigger] self.stack[i] <= self.pos
        &&& forall|i: int|
            0 <= i < self.env.len() ==> (#[trigger] self.env[i]).0 <= self.env[i].1 <= self.pos
    }
}

/// What one pattern item does to a match over `s`, or nothing where the
/// item does not match:
/// a symbol must stand at the cursor, which then moves on by one;
/// a skip moves the cursor on, but not past the end;
/// a search moves the cursor to just past the next place where the word
/// stands;
/// `Open` puts the cursor position on the stack;
/// `Close` takes the last position off the stack and adds the range from
/// there to the cursor to the captures.
pub open spec fn match_item(s: Seq<Base>, item: PItemView, st: MatchState) -> Option<MatchState> {
    match item {
        PItemView::PBase(b) => if st.pos < s.len() && s[st.pos as int] == b {
            Some(MatchState { pos: st.pos + 1, ..st })
        } else {
            None
        },
        PItemView::Skip { n } => if st.pos + n <= s.len() {
            Some(MatchState { pos: st.pos + n as nat, ..st })
        } else {
            None
        },
        PItemView::Search { s: word } => match search_end(s, word, st.pos as int) {
            Some(end) => Some(MatchState { pos: end as nat, ..st }),
            None => None,
        },
        PItemView::Open => Some(MatchState { stack: st.stack.push(st.pos), ..st }),
        PItemView::Close => if st.stack.len() > 0 {
            Some(
                MatchState {
                    stack: st.stack.drop_last(),
                    env: st.env.push((st.stack.last(), st.pos)),
                    ..st
                },
            )
        } else {
            None
        },
    }
}

/// What the items of `p`, one after the other, do to a match over `s` that
/// has come to `st`.
pub open spec fn match_from(s: Seq<Base>, p: Seq<PItemView>, st: MatchState) -> Option<
    MatchState,
>
    decreases p.len(),
{
    if p.len() == 0 {
        Some(st)
    } else {
        match match_item(s, p[0], st) {
            Some(next) => match_from(s, p.drop_first(), next),
            None => None,
        }
    }
}

/// The match of the pattern `p` against `s`: where it ends and what it
/// captured, or nothing where it does not match.
pub open spec fn match_pattern(s: Seq<Base>, p: Seq<PItemView>) -> Option<MatchState> {
    match_from(s, p, MatchState::start())
}

/// The parts of `s` that the ranges cover.
pub open spec fn captures(s: Seq<Base>, ranges: Seq<(nat, nat)>) -> Seq<Seq<Base>> {
    ranges.map_values(|r: (nat, nat)| s.subrange(r.0 as int, r.1 as int))
}

/// The symbols of each capture.
pub open spec fn env_view(env: Seq<Dna>) -> Seq<Seq<Base>> {
    env.map_values(|capture: Dna| capture@)
}

/// Every capture is a well-formed sequence.
pub open spec fn env_wf(env: Seq<Dna>) -> bool {
    forall|i: int| 0 <= i < env.len() ==> (#[trigger] env[i]).wf()
}

/// No item of the pattern searches for the empty word.
pub open spec fn no_empty_search(p: Seq<PItemView>) -> bool {
    forall|i: int| 0 <= i < p.len() ==> ((#[trigger] p[i]) matches PItemView::Search { s } ==> s.len() > 0)
}

/// An item leaves the cursor, the captures under way and the captures ended
/// inside the sequence.
pub proof fn lemma_match_item_inside(s: Seq<Base>, item: PItemView, st: MatchState)
    requires
        st.inside(s),
    ensures
        match_item(s, item, st) matches Some(next) ==> next.inside(s) && st.pos <= next.pos,
{
    if let PItemView::Search { s: word } = item {
        lemma_search_end_first(s, word, st.pos as int);
    }
}

/// A match ends inside the sequence, and all it captured lies in front of
/// where it ends.
pub proof fn lemma_match_from_inside(s: Seq<Base>, p: Seq<PItemView>, st: MatchState)
    requires
        st.inside(s),
    ensures
        match_from(s, p, st) matches Some(end) ==> end.inside(s) && st.pos <= end.pos,
    decreases p.len(),
{
    if p.len() > 0 {
        lemma_match_item_inside(s, p[0], st);
        if let Some(next) = match_item(s, p[0], st) {
            lemma_match_from_inside(s, p.drop_first(), next);
        }
    }
}

/// Where a pattern matches, the captures under way afterwards are those
/// from before and those it started, less those it ended; and it ended as
/// many captures as it has `Close` items.
pub proof fn lemma_match_depth(s: Seq<Base>, p: Seq<PItemView>, st: MatchState)
    ensures
        match_from(s, p, st) matches Some(end) ==> end.stack.len() + closes(p) == st.stack.len()
            + opens(p) && end.env.len() == st.env.len() + closes(p),
    decreases p.len(),
{
    let none = Seq::<PItemView>::empty();
    if p.len() == 0 {
    } else {
        assert(seq![p[0]].drop_last() == none);
        assert(opens(none) == 0 && closes(none) == 0);
        assert(opens(seq![p[0]]) == if p[0] is Open { 1nat } else { 0nat });
        assert(closes(seq![p[0]]) == if p[0] is Close { 1nat } else { 0nat });
        assert(seq![p[0]] + p.drop_first() == p);
        lemma_counts_concat(seq![p[0]], p.drop_first());
        if let Some(next) = match_item(s, p[0], st) {
            lemma_match_depth(s, p.drop_first(), next);
        }
    }
}

/// While a balanced pattern is matched, no `Close` finds the stack empty:
/// where the match has come as far as a `Close` item, a capture is under
/// way.
pub proof fn lemma_close_finds_open(s: Seq<Base>, p: Seq<PItemView>, k: int)
    requires
        balanced(p),
        0 <= k < p.len(),
        p[k] is Close,
    ensures
        match_pattern(s, p.take(k)) matches Some(st) ==> st.stack.len() > 0,
{
    lemma_match_depth(s, p.take(k), MatchState::start());
    assert(p.take(k + 1).drop_last() == p.take(k));
    assert(p.take(k + 1).last() == p[k]);
    assert(closes(p.take(k + 1)) <= opens(p.take(k + 1)) + 0);
}

/// What a match captured is what stands in the sequence between the start
/// and the end of each capture, and all of it lies in the matched part.
pub proof fn lemma_captures_in_matched_part(s: Seq<Base>, p: Seq<PItemView>, i: int)
    ensures
        match_pattern(s, p) matches Some(end) ==> (0 <= i < end.env.len() ==> {
            &&& end.env[i].0 <= end.env[i].1 <= end.pos <= s.len()
            &&& captures(s, end.env)[i] == s.subrange(end.env[i].0 as int, end.env[i].1 as int)
            &&& captures(s, end.env)[i].len() == end.env[i].1 - end.env[i].0
        }),
{
    lemma_match_from_inside(s, p, MatchState::start());
}

/// The match state that the working values of the matcher stand for.
spec fn state_of(i: usize, stack: Seq<usize>, ranges: Seq<(nat, nat)>) -> MatchState {
    MatchState { pos: i as nat, stack: stack.map_values(|at: usize| at as nat), env: ranges }
}

/// Matches a pattern against the sequence, as `match_pattern` says. Where it
/// matches, the matched part is taken off the front of the sequence and the
/// captures are handed back; where it does not, the sequence stays as it is.
pub fn match_pat(context: &mut Context, pat: Pattern) -> (r: Option<Environment>)
    requires
        old(context).wf(),
        balanced(pattern_view(pat@)),
        no_empty_search(pattern_view(pat@)),
    ensures
        final(context).wf(),
        final(context).rna == old(context).rna,
        match match_pattern(old(context).dna@, pattern_view(pat@)) {
            Some(end) => {
                &&& r is Some
                &&& env_wf(r.unwrap()@)
                &&& env_view(r.unwrap()@) == captures(old(context).dna@, end.env)
                &&& end.pos <= old(context).dna@.len()
                &&& final(context).dna@ == old(context).dna@.skip(end.pos as int)
            },
            None => r is None && final(context).dna@ == old(context).dna@,
        },
{
    let ghost s = context.dna@;
    let ghost pv = pattern_view(pat@);
    let n = context.dna.len();
    let mut i: usize = 0;
    let mut env: Environment = Vec::new();
    let mut c: Vec<usize> = Vec::new();
    let ghost mut ranges: Seq<(nat, nat)> = Seq::empty();
    let mut j: usize = 0;
    proof {
        assert(pv.skip(0) == pv);
        assert(state_of(0, c@, ranges).stack =~= Seq::<nat>::empty());
        assert(state_of(0, c@, ranges) == MatchState::start());
        assert(pv.take(0) == Seq::<PItemView>::empty());
        assert(env_view(env@) == captures(s, ranges));
    }
    while j < pat.len()
        invariant
            context.wf(),
            context.dna@ == s,
            s == old(context).dna@,
            context.rna == old(context).rna,
            n == s.len(),
            pv == pattern_view(pat@),
            balanced(pv),
            no_empty_search(pv),
            j <= pat.len(),
            state_of(i, c@, ranges).inside(s),
            match_pattern(s, pv) == match_from(s, pv.skip(j as int), state_of(i, c@, ranges)),
            c@.len() + closes(pv.take(j as int)) == opens(pv.take(j as int)),
            env_wf(env@),
            env_view(env@) == captures(s, ranges),
        decreases pat.len() - j,
    {
        let ghost st = state_of(i, c@, ranges);
        let ghost rest = pv.skip(j as int);
        proof {
            assert(rest[0] == pv[j as int]);
            assert(pv[j as int] == pat@[j as int]@);
            assert(rest.drop_first() == pv.skip(j + 1));
            assert(pv.take(j + 1).drop_last() == pv.take(j as int));
            assert(pv.take(j + 1).last() == pv[j as int]);
            assert(closes(pv.take(j + 1)) <= opens(pv.take(j + 1)) + 0);
            lemma_match_item_inside(s, pv[j as int], st);
        }
        match &pat[j] {
            PItem::PBase(b) => {
                if context.dna.nth(i) == Some(*b) {
                    i = i + 1;
                    assert(match_item(s, pv[j as int], st) == Some(state_of(i, c@, ranges)));
                } else {
                    return None;
                }
            },
            PItem::Skip { n: count } => {
                if *count <= n - i {
                    i = i + *count;
                    assert(match_item(s, pv[j as int], st) == Some(state_of(i, c@, ranges)));
                } else {
                    return None;
                }
            },
            PItem::Search { s: word } => {
                proof {
                    lemma_search_end_first(s, word@, i as int);
                }
                match find_subseq(&context.dna, i, word.as_slice()) {
                    Some(advance) => {
                        i = i + advance;
                        assert(match_item(s, pv[j as int], st) == Some(state_of(i, c@, ranges)));
                    },
                    None => {
                        return None;
                    },
                }
            },
            PItem::Open => {
                c.push(i);
                assert(state_of(i, c@, ranges).stack == st.stack.push(i as nat));
                assert(match_item(s, pv[j as int], st) == Some(state_of(i, c@, ranges)));
            },
            PItem::Close => {
                let start = c.pop().unwrap();
                let capture = context.dna.subseq(start..i);
                proof {
                    assert(st.stack.last() == start as nat);
                    assert(state_of(i, c@, ranges).stack == st.stack.drop_last());
                    assert(capture@ == s.subrange(start as int, i as int));
                    let range = (start as nat, i as nat);
                    assert(env_view(env@.push(capture)) == env_view(env@).push(capture@));
                    assert(captures(s, ranges.push(range)) == captures(s, ranges).push(
                        s.subrange(start as int, i as int),
                    ));
                    ranges = ranges.push(range);
                }
                env.push(capture);
                assert(match_item(s, pv[j as int], st) == Some(state_of(i, c@, ranges)));
            },
        }
        j += 1;
    }
    assert(pv.skip(j as int) == Seq::<PItemView>::empty());
    context.dna.skip(i);
    Some(env)
}

/// What one template item puts into the new front of the sequence: its
/// symbol; or the capture it names, quoted as often as it says, and nothing
/// if there is no such capture; or the length of the capture it names as a
/// number literal, with zero for a capture that is not there.
pub open spec fn titem_output(item: TItem, env: Seq<Seq<Base>>) -> Seq<Base> {
    match item {
        TItem::TBase(b) => seq![b],
        TItem::Ref { n, l } => if n < env.len() {
            protected(l as nat, env[n as int])
        } else {
            Seq::<Base>::empty()
        },
        TItem::Len { n } => nat_code(
            if n < env.len() {
                env[n as int].len()
            } else {
                0
            },
        ),
    }
}

/// What a template puts into the new front of the sequence: what its items
/// put there, one after the other.
pub open spec fn template_output(t: Seq<TItem>, env: Seq<Seq<Base>>) -> Seq<Base>
    decreases t.len(),
{
    if t.len() == 0 {
        Seq::<Base>::empty()
    } else {
        template_output(t.drop_last(), env) + titem_output(t.last(), env)
    }
}

/// The output of a beginning of a template is no longer than the output of
/// the whole template.
pub proof fn lemma_output_grows(t: Seq<TItem>, env: Seq<Seq<Base>>, k: int)
    requires
        0 <= k <= t.len(),
    ensures
        template_output(t.take(k), env).len() <= template_output(t, env).len(),
    decreases t.len() - k,
{
    if k == t.len() {
        assert(t.take(k) == t);
    } else {
        lemma_output_grows(t, env, k + 1);
        assert(t.take(k + 1).drop_last() == t.take(k));
    }
}

/// Quoting nothing gives nothing, however often.
pub proof fn lemma_protected_empty(l: nat)
    ensures
        protected(l, Seq::<Base>::empty()) == Seq::<Base>::empty(),
    decreases l,
{
    if l > 0 {
        lemma_protected_empty((l - 1) as nat);
    }
}

/// A capture quoted `l` times, as a sequence of its own. Quoted no times it
/// is the capture itself, with its nodes shared.
fn protect_capture(l: usize, capture: &Dna) -> (r: Dna)
    requires
        capture.wf(),
    ensures
        r.wf(),
        r@ == protected(l as nat, capture@),
{
    let n = capture.len();
    if l == 0 || n == 0 {
        proof {
            if n == 0 {
                assert(capture@ == Seq::<Base>::empty());
                lemma_protected_empty(l as nat);
            }
        }
        capture.clone()
    } else {
        let plain = capture.to_vec(0..n);
        assert(plain@ == capture@);
        let quoted_often = protect(l, plain.as_slice());
        Dna::from_slice(quoted_often.as_slice())
    }
}

/// What one template item puts into the new front, as a sequence.
fn piece_of(item: &TItem, env: &Environment) -> (piece: Dna)
    requires
        env_wf(env@),
    ensures
        piece.wf(),
        piece@ == titem_output(*item, env_view(env@)),
{
    match item {
        TItem::TBase(b) => {
            let mut one: Vec<Base> = Vec::new();
            one.push(*b);
            Dna::from_slice(one.as_slice())
        },
        TItem::Ref { n, l } => {
            if *n < env.len() {
                assert(env_view(env@)[*n as int] == env@[*n as int]@);
                protect_capture(*l, &env[*n])
            } else {
                Dna::empty()
            }
        },
        TItem::Len { n } => {
            let length = if *n < env.len() {
                assert(env_view(env@)[*n as int] == env@[*n as int]@);
                env[*n].len()
            } else {
                0
            };
            let number = asnat(length);
            Dna::from_slice(number.as_slice())
        },
    }
}

/// Puts the output of the template in front of the sequence, if the result
/// is short enough for the machine to address; if not, leaves the sequence
/// as it is. Says which of the two it did.
pub fn try_replace(context: &mut Context, template: &Template, env: &Environment) -> (done: bool)
    requires
        old(context).wf(),
        env_wf(env@),
    ensures
        final(context).wf(),
        final(context).rna == old(context).rna,
        ({
            let front = template_output(template@, env_view(env@));
            let fits = front.len() + old(context).dna@.len() <= usize::MAX;
            &&& done == fits
            &&& final(context).dna@ == if fits {
                front + old(context).dna@
            } else {
                old(context).dna@
            }
        }),
{
    let ghost envs = env_view(env@);
    let rest = context.dna.len();
    let mut front = Dna::empty();
    let mut j: usize = 0;
    assert(template@.take(0) == Seq::<TItem>::empty());
    while j < template.len()
        invariant
            context.wf(),
            context.dna == old(context).dna,
            context.rna == old(context).rna,
            envs == env_view(env@),
            env_wf(env@),
            j <= template.len(),
            front.wf(),
            front@ == template_output(template@.take(j as int), envs),
        decreases template.len() - j,
    {
        let piece = piece_of(&template[j], env);
        proof {
            assert(template@.take(j + 1).drop_last() == template@.take(j as int));
            assert(template@.take(j + 1).last() == template@[j as int]);
            lemma_output_grows(template@, envs, j + 1);
        }
        let so_far = front.len();
        if piece.len() > usize::MAX - so_far {
            return false;
        }
        front = front.concat(&piece);
        j += 1;
    }
    assert(template@.take(j as int) == template@);
    let so_far = front.len();
    if rest > usize::MAX - so_far {
        return false;
    }
    context.dna = front.concat(&context.dna);
    true
}

/// Puts the output of the template in front of the sequence.
pub fn replace(context: &mut Context, template: Template, env: Environment)
    requires
        old(context).wf(),
        env_wf(env@),
        template_output(template@, env_view(env@)).len() + old(context).dna@.len() <= usize::MAX,
    ensures
        final(context).wf(),
        final(context).rna == old(context).rna,
        final(context).dna@ == template_output(template@, env_view(env@)) + old(context).dna@,
{
    let _ = try_replace(context, &template, &env);
}

} // verus!
