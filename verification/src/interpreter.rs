use vstd::prelude::*;
use crate::base::{Base, ShortDna};
use crate::dna::Dna;
use crate::error::{InterpreterError, InterpreterResult};
use crate::image::{commands_of, DrawCommand};
use crate::match_replace::{
    captures, match_pat, match_pattern, no_empty_search, template_output, try_replace,
};
use crate::pattern::{
    lemma_pattern_decode_used, pattern, pattern_decode, pattern_view, whole_words, PItem, PItemView,
    Pattern,
};
use crate::template::{lemma_template_decode_used, template, template_decode};

verus! {

/// How many symbols a word of the log holds.
pub const RNA_WORD: usize = 7;

/// The state of a run: the live sequence and the log of words set aside so
/// far, oldest first.
pub struct Context {
    pub dna: Dna,
    pub rna: Vec<ShortDna>,
}

impl Context {
    /// The live sequence is well formed.
    pub open spec fn wf(&self) -> bool {
        self.dna.wf()
    }

    /// The words of the log, oldest first.
    pub open spec fn log(&self) -> Seq<Seq<Base>> {
        self.rna@.map_values(|word: ShortDna| word@)
    }

    pub fn new(dna: Dna) -> (context: Self)
        ensures
            context.dna == dna,
            context.rna@.len() == 0,
    {
        Context { dna, rna: Vec::new() }
    }

    /// The commands that the words of the log stand for, in the order of
    /// the log. Words that stand for no command are passed over.
    pub fn draw_commands(&self) -> (commands: Vec<DrawCommand>)
        ensures
            commands@ == commands_of(self.log()),
    {
        let mut commands: Vec<DrawCommand> = Vec::new();
        let mut i: usize = 0;
        assert(self.log().take(0) == Seq::<Seq<Base>>::empty());
        while i < self.rna.len()
            invariant
                i <= self.rna.len(),
                commands@ == commands_of(self.log().take(i as int)),
            decreases self.rna.len() - i,
        {
            proof {
                assert(self.log().take(i + 1).drop_last() == self.log().take(i as int));
                assert(self.log().take(i + 1).last() == self.rna@[i as int]@);
            }
            match DrawCommand::decode(self.rna[i].as_slice()) {
                Some(command) => {
                    commands.push(command);
                },
                None => {},
            }
            i += 1;
        }
        assert(self.log().take(i as int) == self.log());
        commands
    }

    /// Puts a word at the end of the log.
    pub fn append_rna(&mut self, rna: ShortDna)
        ensures
            final(self).dna == old(self).dna,
            final(self).rna@ == old(self).rna@.push(rna),
            final(self).log() == old(self).log().push(rna@),
    {
        self.rna.push(rna);
        assert(self.log() =~= old(self).log().push(rna@));
    }
}

/// What one step makes of a sequence: the sequence after it, the words it
/// adds to the log, and whether the run can go on.
pub struct StepOutcome {
    pub dna: Seq<Base>,
    pub rna: Seq<Seq<Base>>,
    pub result: Result<(), InterpreterError>,
}

/// One step on the sequence `s`. A pattern is read off the front, then a
/// template. The pattern is matched against what is left. Where it matches,
/// the matched part gives way to the output of the template; where it does
/// not, what is left stays as it is. The step fails, and the run ends, where
/// the pattern or the template cannot be read, where the pattern searches
/// for the empty word, and where the new sequence would be too long for the
/// machine. Words set aside while reading stay in the log in every case.
pub open spec fn step_outcome(s: Seq<Base>) -> StepOutcome {
    let p = pattern_decode(s, 0);
    let after_pattern = s.skip(p.used as int);
    if !p.ok {
        StepOutcome { dna: after_pattern, rna: p.rna, result: Err(InterpreterError::Pattern) }
    } else {
        let t = template_decode(after_pattern);
        let rest = after_pattern.skip(t.used as int);
        let rna = p.rna + t.rna;
        if !t.ok {
            StepOutcome { dna: rest, rna, result: Err(InterpreterError::Template) }
        } else if !no_empty_search(p.items) {
            StepOutcome { dna: rest, rna, result: Err(InterpreterError::EmptySearch) }
        } else {
            match match_pattern(rest, p.items) {
                None => StepOutcome { dna: rest, rna, result: Ok(()) },
                Some(end) => {
                    let unmatched = rest.skip(end.pos as int);
                    let front = template_output(t.items, captures(rest, end.env));
                    if front.len() + unmatched.len() <= usize::MAX {
                        StepOutcome { dna: front + unmatched, rna, result: Ok(()) }
                    } else {
                        StepOutcome {
                            dna: unmatched,
                            rna,
                            result: Err(InterpreterError::TooLong),
                        }
                    }
                },
            }
        }
    }
}

/// Every word that a step adds to the log has seven symbols, whatever comes
/// of the step.
pub proof fn lemma_step_words(s: Seq<Base>)
    ensures
        whole_words(step_outcome(s).rna),
{
    let p = pattern_decode(s, 0);
    lemma_pattern_decode_used(s, 0);
    if p.ok {
        let t = template_decode(s.skip(p.used as int));
        lemma_template_decode_used(s.skip(p.used as int));
        let rna = p.rna + t.rna;
        assert forall|i: int| 0 <= i < rna.len() implies (#[trigger] rna[i]).len() == RNA_WORD by {
            if i < p.rna.len() {
                assert(rna[i] == p.rna[i]);
            } else {
                assert(rna[i] == t.rna[i - p.rna.len()]);
            }
        }
    }
}

/// Whether some item of the pattern searches for the empty word.
fn searches_for_nothing(p: &Pattern) -> (found: bool)
    ensures
        found == !no_empty_search(pattern_view(p@)),
{
    let mut i: usize = 0;
    while i < p.len()
        invariant
            i <= p.len(),
            no_empty_search(pattern_view(p@).take(i as int)),
        decreases p.len() - i,
    {
        match &p[i] {
            PItem::Search { s } => {
                if s.len() == 0 {
                    assert(pattern_view(p@)[i as int] == PItemView::Search { s: s@ });
                    return true;
                }
            },
            _ => {},
        }
        assert forall|k: int| 0 <= k < i + 1 implies ((#[trigger] pattern_view(p@).take(i + 1)[k])
            matches PItemView::Search { s } ==> s.len() > 0) by {
            if k < i {
                assert(pattern_view(p@).take(i + 1)[k] == pattern_view(p@).take(i as int)[k]);
            }
        }
        i += 1;
    }
    assert(pattern_view(p@).take(p.len() as int) == pattern_view(p@));
    false
}

/// Does one step of the run, as `step_outcome` says.
pub fn do_step(context: &mut Context) -> (r: InterpreterResult<()>)
    requires
        old(context).wf(),
    ensures
        final(context).wf(),
        final(context).dna@ == step_outcome(old(context).dna@).dna,
        final(context).log() == old(context).log() + step_outcome(old(context).dna@).rna,
        r == step_outcome(old(context).dna@).result,
{
    let ghost log0 = context.log();
    let ghost read = pattern_decode(context.dna@, 0);
    let p = match pattern(context) {
        Ok(p) => p,
        Err(e) => {
            return Err(e);
        },
    };
    let ghost read_too = template_decode(context.dna@);
    let t = match template(context) {
        Ok(t) => t,
        Err(e) => {
            assert(log0 + read.rna + read_too.rna == log0 + (read.rna + read_too.rna));
            return Err(e);
        },
    };
    assert(log0 + read.rna + read_too.rna == log0 + (read.rna + read_too.rna));
    if searches_for_nothing(&p) {
        return Err(InterpreterError::EmptySearch);
    }
    match match_pat(context, p) {
        Some(env) => {
            if try_replace(context, &t, &env) {
                Ok(())
            } else {
                Err(InterpreterError::TooLong)
            }
        },
        None => Ok(()),
    }
}

/// What a run of at most `limit` steps makes of a sequence: the sequence
/// after it, the words it adds to the log, how many steps went through, and
/// why it ended before the limit, if it did.
pub struct RunOutcome {
    pub dna: Seq<Base>,
    pub rna: Seq<Seq<Base>>,
    pub steps: nat,
    pub stopped: Option<InterpreterError>,
}

/// A run of at most `limit` steps on the sequence `s`: step after step,
/// until one fails or the limit is reached.
pub open spec fn run_outcome(s: Seq<Base>, limit: nat) -> RunOutcome
    decreases limit,
{
    if limit == 0 {
        RunOutcome { dna: s, rna: Seq::empty(), steps: 0, stopped: None }
    } else {
        let first = step_outcome(s);
        match first.result {
            Err(e) => RunOutcome { dna: first.dna, rna: first.rna, steps: 0, stopped: Some(e) },
            Ok(_) => {
                let rest = run_outcome(first.dna, (limit - 1) as nat);
                RunOutcome {
                    dna: rest.dna,
                    rna: first.rna + rest.rna,
                    steps: rest.steps + 1,
                    stopped: rest.stopped,
                }
            },
        }
    }
}

/// Every word that a run adds to the log has seven symbols.
pub proof fn lemma_run_words(s: Seq<Base>, limit: nat)
    ensures
        whole_words(run_outcome(s, limit).rna),
    decreases limit,
{
    if limit > 0 {
        let first = step_outcome(s);
        lemma_step_words(s);
        if first.result is Ok {
            let rest = run_outcome(first.dna, (limit - 1) as nat);
            lemma_run_words(first.dna, (limit - 1) as nat);
            let rna = first.rna + rest.rna;
            assert forall|i: int| 0 <= i < rna.len() implies (#[trigger] rna[i]).len()
                == RNA_WORD by {
                if i < first.rna.len() {
                    assert(rna[i] == first.rna[i]);
                } else {
                    assert(rna[i] == rest.rna[i - first.rna.len()]);
                }
            }
        }
    }
}

/// A run that has gone through `done` steps and set aside `rna` goes on as
/// a run of the steps that are left.
proof fn lemma_run_goes_on(s: Seq<Base>, limit: nat, done: nat, rna: Seq<Seq<Base>>, cur: Seq<Base>)
    requires
        done < limit,
        run_outcome(s, limit) == (RunOutcome {
            dna: run_outcome(cur, (limit - done) as nat).dna,
            rna: rna + run_outcome(cur, (limit - done) as nat).rna,
            steps: done + run_outcome(cur, (limit - done) as nat).steps,
            stopped: run_outcome(cur, (limit - done) as nat).stopped,
        }),
        step_outcome(cur).result is Ok,
    ensures
        ({
            let next = step_outcome(cur);
            let rest = run_outcome(next.dna, (limit - done - 1) as nat);
            run_outcome(s, limit) == (RunOutcome {
                dna: rest.dna,
                rna: (rna + next.rna) + rest.rna,
                steps: done + 1 + rest.steps,
                stopped: rest.stopped,
            })
        }),
{
    let next = step_outcome(cur);
    let rest = run_outcome(next.dna, (limit - done - 1) as nat);
    assert(rna + (next.rna + rest.rna) == (rna + next.rna) + rest.rna);
}

/// Runs step after step until one fails or `limit` steps went through. Says
/// how many went through, and why the run ended before the limit, if it did.
pub fn do_steps(context: &mut Context, limit: usize) -> (r: (usize, Option<InterpreterError>))
    requires
        old(context).wf(),
    ensures
        final(context).wf(),
        ({
            let run = run_outcome(old(context).dna@, limit as nat);
            &&& final(context).dna@ == run.dna
            &&& final(context).log() == old(context).log() + run.rna
            &&& r.0 == run.steps
            &&& r.1 == run.stopped
        }),
{
    let ghost s0 = context.dna@;
    let ghost log0 = context.log();
    let ghost mut rna: Seq<Seq<Base>> = Seq::empty();
    let mut done: usize = 0;
    proof {
        assert(rna + run_outcome(s0, limit as nat).rna == run_outcome(s0, limit as nat).rna);
        assert(log0 + rna == log0);
    }
    while done < limit
        invariant
            context.wf(),
            s0 == old(context).dna@,
            log0 == old(context).log(),
            done <= limit,
            context.log() == log0 + rna,
            run_outcome(s0, limit as nat) == (RunOutcome {
                dna: run_outcome(context.dna@, (limit - done) as nat).dna,
                rna: rna + run_outcome(context.dna@, (limit - done) as nat).rna,
                steps: (done + run_outcome(context.dna@, (limit - done) as nat).steps) as nat,
                stopped: run_outcome(context.dna@, (limit - done) as nat).stopped,
            }),
        decreases limit - done,
    {
        let ghost cur = context.dna@;
        let ghost next = step_outcome(cur);
        match do_step(context) {
            Ok(_) => {
                proof {
                    lemma_run_goes_on(s0, limit as nat, done as nat, rna, cur);
                    assert(log0 + rna + next.rna == log0 + (rna + next.rna));
                    rna = rna + next.rna;
                }
                done += 1;
            },
            Err(e) => {
                proof {
                    let left = run_outcome(cur, (limit - done) as nat);
                    assert(left == RunOutcome {
                        dna: next.dna,
                        rna: next.rna,
                        steps: 0,
                        stopped: Some(e),
                    });
                    assert(log0 + rna + next.rna == log0 + (rna + next.rna));
                }
                return (done, Some(e));
            },
        }
    }
    proof {
        assert(rna + Seq::<Seq<Base>>::empty() == rna);
    }
    (done, None)
}

} // verus!
