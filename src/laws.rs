use vstd::prelude::*;

use crate::parser::{extended, Outcome, OutputView, Parser, StateView, Step};
use crate::integer::{count_up, integer_outcome, is_digit, IntegerParser};
use crate::repeat::RepeatParser;
use crate::sequence::{SequenceParser, SequenceProgress};

verus! {

/// The bytes of `chunks`, joined in order.
pub open spec fn concat(chunks: Seq<Seq<u8>>) -> Seq<u8>
    decreases chunks.len(),
{
    if chunks.len() == 0 {
        Seq::empty()
    } else {
        chunks[0] + concat(chunks.drop_first())
    }
}

/// Feeding `chunks` to `p` one call at a time from `state`, each call resuming
/// from the state the one before left. Once a call decides the parse, the chunks
/// after it are left over with its remaining bytes.
pub open spec fn feed<P: Parser>(p: P, state: StateView<P>, chunks: Seq<Seq<u8>>) -> Outcome<P>
    decreases chunks.len(),
{
    if chunks.len() == 0 {
        Ok(Step::Incomplete(state))
    } else {
        match p.outcome(state, chunks[0]) {
            Ok(Step::Incomplete(next)) => feed(p, next, chunks.drop_first()),
            decided => extended(decided, concat(chunks.drop_first())),
        }
    }
}

/// At no boundary between two chunks does a repetition that began before the
/// boundary, and consumed bytes there, get given up after it.
pub open spec fn feeds_cleanly<P: Parser>(p: P, state: StateView<P>, chunks: Seq<Seq<u8>>) -> bool
    decreases chunks.len(),
{
    chunks.len() == 0 || match p.outcome(state, chunks[0]) {
        Ok(Step::Incomplete(next)) => {
            &&& p.splits_cleanly(state, chunks[0], concat(chunks.drop_first()))
            &&& feeds_cleanly(p, next, chunks.drop_first())
        },
        _ => true,
    }
}

proof fn lemma_feed_from<P: Parser>(p: &P, state: StateView<P>, chunks: Seq<Seq<u8>>)
    requires
        p.resumable(state),
        feeds_cleanly(*p, state, chunks),
        feed(*p, state, chunks) is Ok,
        feed(*p, state, chunks)->Ok_0 is Finished,
    ensures
        p.outcome(state, concat(chunks)) == feed(*p, state, chunks),
    decreases chunks.len(),
{
    let rest = concat(chunks.drop_first());
    match p.outcome(state, chunks[0]) {
        Ok(Step::Incomplete(next)) => {
            p.lemma_outcome_well_formed(state, chunks[0]);
            lemma_feed_from(p, next, chunks.drop_first());
            p.lemma_resume(state, chunks[0], rest);
        },
        _ => {
            p.lemma_extend(state, chunks[0], rest);
        },
    }
}

/// Chunk invariance: feeding a parser its input in chunks, each call resuming
/// from the state the previous one left, finishes with the same output and the
/// same remaining bytes as feeding the whole input in one call. This holds unless
/// a repetition that began before a chunk boundary and consumed bytes there is
/// given up after it: the call that gives it up can only hand back its own bytes.
pub proof fn lemma_chunk_invariance<P: Parser>(p: &P, chunks: Seq<Seq<u8>>)
    requires
        feeds_cleanly(*p, p.initial_state(), chunks),
        feed(*p, p.initial_state(), chunks) is Ok,
        feed(*p, p.initial_state(), chunks)->Ok_0 is Finished,
    ensures
        p.outcome(p.initial_state(), concat(chunks)) == feed(*p, p.initial_state(), chunks),
{
    p.lemma_initial_resumable();
    lemma_feed_from(p, p.initial_state(), chunks);
}

proof fn lemma_integer_range_from(min: u64, max: u64, value: u64, digits: usize, input: Seq<u8>)
    requires
        value * 10 <= max,
    ensures
        integer_outcome(min, max, value, digits, input) is Ok && integer_outcome(min, max, value, digits, input)->Ok_0 is Finished
            ==> min <= integer_outcome(min, max, value, digits, input)->Ok_0->Finished_0 <= max,
    decreases input.len(),
{
    if input.len() > 0 && is_digit(input[0]) {
        let next = value * 10 + (input[0] - 48);
        if next <= max && next * 10 <= max {
            lemma_integer_range_from(min, max, next as u64, count_up(digits), input.drop_first());
        }
    }
}

/// An integer parser finishes only with a number in its range.
pub proof fn lemma_integer_in_range(p: &IntegerParser, state: (u64, usize), input: Seq<u8>)
    requires
        p.resumable(state),
        p.outcome(state, input) is Ok,
        p.outcome(state, input)->Ok_0 is Finished,
    ensures
        p.min_value() <= p.outcome(state, input)->Ok_0->Finished_0 <= p.max_value(),
{
    lemma_integer_range_from(p.min_value(), p.max_value(), state.0, state.1, input);
}

proof fn lemma_repeat_count_from<P: Parser>(
    p: &RepeatParser<P>,
    last: StateView<P>,
    outputs: Seq<OutputView<P>>,
    input: Seq<u8>,
)
    requires
        p.min_count() <= p.max_count(),
        outputs.len() <= p.max_count(),
        p.repeat_outcome(last, outputs, input) is Ok,
        p.repeat_outcome(last, outputs, input)->Ok_0 is Finished,
    ensures
        p.min_count() <= p.repeat_outcome(last, outputs, input)->Ok_0->Finished_0.len() <= p.max_count(),
    decreases p.max_count() - outputs.len(),
{
    if outputs.len() < p.max_count() {
        if let Ok(Step::Finished(v, rest)) = p.inner().outcome(last, input) {
            lemma_repeat_count_from(p, p.inner().initial_state(), outputs.push(v), rest);
        }
    }
}

/// A repeat parser finishes with at least its lower and at most its upper
/// number of outputs.
pub proof fn lemma_repeat_count_in_range<P: Parser>(p: &RepeatParser<P>, input: Seq<u8>)
    requires
        p.min_count() <= p.max_count(),
        p.outcome(p.initial_state(), input) is Ok,
        p.outcome(p.initial_state(), input)->Ok_0 is Finished,
    ensures
        p.min_count() <= p.outcome(p.initial_state(), input)->Ok_0->Finished_0.len() <= p.max_count(),
{
    lemma_repeat_count_from(p, p.inner().initial_state(), Seq::empty(), input);
}

/// A repeat parser with at most zero repetitions finishes at once with no
/// outputs, on any input, consuming nothing.
pub proof fn lemma_repeat_zero_times<P: Parser>(p: &RepeatParser<P>, input: Seq<u8>)
    requires
        p.max_count() == 0,
    ensures
        ({
            let expected: Outcome<RepeatParser<P>> = Ok(Step::Finished(Seq::empty(), input));
            p.outcome(p.initial_state(), input) == expected
        }),
{
}

/// When the first repetition finishes and the second fails, a repeat parser
/// that allows two or more repetitions fails with the inner error if it needs
/// more than one; otherwise it finishes with the one output, leaving the bytes
/// of the failed repetition unconsumed.
pub proof fn lemma_repeat_stops_at_failure<P: Parser>(p: &RepeatParser<P>, input: Seq<u8>)
    requires
        p.max_count() >= 2,
        p.inner().outcome(p.inner().initial_state(), input) is Ok,
        p.inner().outcome(p.inner().initial_state(), input)->Ok_0 is Finished,
        p.inner().outcome(
            p.inner().initial_state(),
            p.inner().outcome(p.inner().initial_state(), input)->Ok_0->Finished_1,
        ) is Err,
    ensures
        ({
            let first = p.inner().outcome(p.inner().initial_state(), input)->Ok_0;
            let failed = p.inner().outcome(p.inner().initial_state(), first->Finished_1);
            let expected: Outcome<RepeatParser<P>> = if p.min_count() > 1 {
                Err(failed->Err_0)
            } else {
                Ok(Step::Finished(seq![first->Finished_0], first->Finished_1))
            };
            p.outcome(p.initial_state(), input) == expected
        }),
{
    let fresh = p.inner().initial_state();
    let first = p.inner().outcome(fresh, input)->Ok_0;
    let one = Seq::empty().push(first->Finished_0);
    assert(one =~= seq![first->Finished_0]);
    assert(p.outcome(p.initial_state(), input) == p.repeat_outcome(fresh, one, first->Finished_1));
}

/// While the first parser of a sequence has not finished, the sequence is
/// incomplete with the first parser's state, and the second parser has not run.
pub proof fn lemma_sequence_waits_for_first<P1: Parser, P2: Parser>(
    p: &SequenceParser<P1, P2>,
    state: StateView<P1>,
    input: Seq<u8>,
)
    requires
        p.first().outcome(state, input) is Ok,
        p.first().outcome(state, input)->Ok_0 is Incomplete,
    ensures
        ({
            let next = p.first().outcome(state, input)->Ok_0->Incomplete_0;
            let expected: Outcome<SequenceParser<P1, P2>> = Ok(
                Step::Incomplete(SequenceProgress::FirstParser(next)),
            );
            p.outcome(SequenceProgress::FirstParser(state), input) == expected
        }),
{
}

} // verus!
