use vstd::prelude::*;

use crate::parser::{
    extended, is_suffix, lemma_suffix_trans, range_bounds, resumed, Outcome, OutputView,
    ParseResult, Parser, StateView, Step,
};

verus! {

/// State of a repeat parser: the state of the repetition in progress and the
/// outputs of the repetitions already completed, in order.
#[derive(Debug, PartialEq, Eq, Clone)]
pub struct RepeatParserState<P: Parser> {
    pub(crate) last_state: P::PartialState,
    pub(crate) outputs: Vec<P::Output>,
}

impl<P: Parser> View for RepeatParserState<P> {
    type V = (StateView<P>, Seq<OutputView<P>>);

    closed spec fn view(&self) -> (StateView<P>, Seq<OutputView<P>>) {
        (self.last_state@, self.outputs.deep_view())
    }
}

impl<P: Parser> RepeatParserState<P> {
    /// Create a new repeat parser state.
    pub fn new(state: P::PartialState, outputs: Vec<P::Output>) -> (r: Self)
        ensures
            r@ == (state@, outputs.deep_view()),
    {
        RepeatParserState { last_state: state, outputs }
    }
}

impl<P: Parser> Default for RepeatParserState<P> where P::PartialState: Default {
    /// A state with the inner parser's default state and no completed repetitions.
    fn default() -> (r: Self)
        ensures
            r@.1 == Seq::<OutputView<P>>::empty(),
    {
        let r = RepeatParserState { last_state: P::PartialState::default(), outputs: Vec::new() };
        assert(r.outputs.deep_view() =~= Seq::<OutputView<P>>::empty());
        r
    }
}

/// A parser that applies an inner parser between a lower and an upper number of
/// times, one repetition after the other.
#[derive(Debug, PartialEq, Eq, Clone)]
pub struct RepeatParser<P> {
    pub(crate) parser: P,
    min: usize,
    max: usize,
}

/// An independent copy of a sequence of outputs.
fn clone_outputs<P: Parser>(outputs: &Vec<P::Output>) -> (r: Vec<P::Output>)
    ensures
        r.deep_view() == outputs.deep_view(),
{
    let mut copy: Vec<P::Output> = Vec::new();
    let mut i: usize = 0;
    while i < outputs.len()
        invariant
            i <= outputs@.len(),
            copy@.len() == i,
            forall|k: int| 0 <= k < i ==> #[trigger] copy@[k].deep_view() == outputs@[k].deep_view(),
        decreases outputs@.len() - i,
    {
        copy.push(P::clone_output(&outputs[i]));
        i = i + 1;
    }
    assert(copy.deep_view() =~= outputs.deep_view());
    copy
}

impl<P> RepeatParser<P> {
    /// Create a new repeat parser that matches `parser` between the
    /// lower and the upper bound of `length_range` times.
    pub fn new(parser: P, length_range: std::ops::RangeInclusive<usize>) -> (r: Self)
        requires
            length_range@.start <= length_range@.end,
        ensures
            r.inner() == parser,
            r.min_count() == length_range@.start,
            r.max_count() == length_range@.end,
    {
        let (min, max) = range_bounds(length_range);
        RepeatParser { parser, min, max }
    }

    /// The parser that is repeated.
    pub closed spec fn inner(&self) -> P {
        self.parser
    }

    /// The fewest repetitions that make a match.
    pub closed spec fn min_count(&self) -> usize {
        self.min
    }

    /// The most repetitions; the match ends as soon as this many have completed.
    pub closed spec fn max_count(&self) -> usize {
        self.max
    }
}

impl<P: Default> Default for RepeatParser<P> {
    /// The inner parser's default, repeated any number of times.
    fn default() -> (r: Self)
        ensures
            r.min_count() == 0,
            r.max_count() == usize::MAX,
    {
        RepeatParser { parser: P::default(), min: 0, max: usize::MAX }
    }
}

impl<P: Parser> RepeatParser<P> {
    /// Repeating on `input`, with `last` the state of the repetition in progress and
    /// `outputs` those of the completed ones. Each repetition starts from a fresh
    /// state; a repetition that fails ends the match if enough have completed,
    /// leaving its bytes unconsumed.
    pub open spec fn repeat_outcome(
        &self,
        last: StateView<P>,
        outputs: Seq<OutputView<P>>,
        input: Seq<u8>,
    ) -> Outcome<Self>
        decreases self.max_count() - outputs.len(),
    {
        if outputs.len() >= self.max_count() {
            Ok(Step::Finished(outputs, input))
        } else {
            match self.inner().outcome(last, input) {
                Ok(Step::Finished(v, rest)) => self.repeat_outcome(
                    self.inner().initial_state(),
                    outputs.push(v),
                    rest,
                ),
                Ok(Step::Incomplete(next)) => Ok(Step::Incomplete((next, outputs))),
                Err(e) => if outputs.len() >= self.min_count() {
                    Ok(Step::Finished(outputs, input))
                } else {
                    Err(e)
                },
            }
        }
    }

    /// No repetition that was in progress at the end of `first` and had consumed
    /// bytes of it fails in `rest` once enough repetitions have completed.
    pub open spec fn repeat_splits_cleanly(
        &self,
        last: StateView<P>,
        outputs: Seq<OutputView<P>>,
        first: Seq<u8>,
        rest: Seq<u8>,
    ) -> bool
        decreases self.max_count() - outputs.len(),
    {
        if outputs.len() >= self.max_count() {
            true
        } else {
            match self.inner().outcome(last, first) {
                Ok(Step::Finished(v, r)) => self.repeat_splits_cleanly(
                    self.inner().initial_state(),
                    outputs.push(v),
                    r,
                    rest,
                ),
                Ok(Step::Incomplete(next)) => {
                    &&& self.inner().splits_cleanly(last, first, rest)
                    &&& (self.inner().outcome(next, rest) is Err && outputs.len()
                        >= self.min_count() ==> first.len() == 0)
                },
                Err(_) => true,
            }
        }
    }

    proof fn lemma_repeat_well_formed(
        &self,
        last: StateView<P>,
        outputs: Seq<OutputView<P>>,
        input: Seq<u8>,
    )
        requires
            self.inner().resumable(last),
        ensures
            match self.repeat_outcome(last, outputs, input) {
                Ok(Step::Finished(_, remaining)) => is_suffix(remaining, input),
                Ok(Step::Incomplete(next)) => self.inner().resumable(next.0),
                Err(_) => true,
            },
        decreases self.max_count() - outputs.len(),
    {
        if outputs.len() >= self.max_count() {
            assert(input =~= input.subrange(0, input.len() as int));
        } else {
            self.inner().lemma_outcome_well_formed(last, input);
            match self.inner().outcome(last, input) {
                Ok(Step::Finished(v, rest)) => {
                    self.inner().lemma_initial_resumable();
                    self.lemma_repeat_well_formed(self.inner().initial_state(), outputs.push(v), rest);
                    if let Ok(Step::Finished(_, remaining)) = self.repeat_outcome(last, outputs, input) {
                        lemma_suffix_trans(remaining, rest, input);
                    }
                },
                _ => {
                    assert(input =~= input.subrange(0, input.len() as int));
                },
            }
        }
    }

    proof fn lemma_repeat_extend(
        &self,
        last: StateView<P>,
        outputs: Seq<OutputView<P>>,
        first: Seq<u8>,
        rest: Seq<u8>,
    )
        requires
            self.inner().resumable(last),
            !(self.repeat_outcome(last, outputs, first) is Ok && self.repeat_outcome(
                last,
                outputs,
                first,
            )->Ok_0 is Incomplete),
        ensures
            self.repeat_outcome(last, outputs, first + rest) == extended(
                self.repeat_outcome(last, outputs, first),
                rest,
            ),
        decreases self.max_count() - outputs.len(),
    {
        if outputs.len() < self.max_count() {
            match self.inner().outcome(last, first) {
                Ok(Step::Finished(v, r)) => {
                    self.inner().lemma_extend(last, first, rest);
                    self.inner().lemma_initial_resumable();
                    self.lemma_repeat_extend(self.inner().initial_state(), outputs.push(v), r, rest);
                },
                Ok(Step::Incomplete(_)) => {},
                Err(_) => {
                    self.inner().lemma_extend(last, first, rest);
                },
            }
        }
    }

    proof fn lemma_repeat_resume(
        &self,
        last: StateView<P>,
        outputs: Seq<OutputView<P>>,
        first: Seq<u8>,
        rest: Seq<u8>,
    )
        requires
            self.inner().resumable(last),
            self.repeat_outcome(last, outputs, first) is Ok,
            self.repeat_outcome(last, outputs, first)->Ok_0 is Incomplete,
            self.repeat_splits_cleanly(last, outputs, first, rest),
        ensures
            resumed(
                self.repeat_outcome(last, outputs, first + rest),
                ({
                    let next = self.repeat_outcome(last, outputs, first)->Ok_0->Incomplete_0;
                    self.repeat_outcome(next.0, next.1, rest)
                }),
            ),
        decreases self.max_count() - outputs.len(),
    {
        match self.inner().outcome(last, first) {
            Ok(Step::Finished(v, r)) => {
                self.inner().lemma_extend(last, first, rest);
                self.inner().lemma_initial_resumable();
                self.lemma_repeat_resume(self.inner().initial_state(), outputs.push(v), r, rest);
            },
            Ok(Step::Incomplete(next)) => {
                self.inner().lemma_resume(last, first, rest);
                if first.len() == 0 {
                    assert(first + rest =~= rest);
                }
            },
            Err(_) => {},
        }
    }
}

impl<P: Parser> Parser for RepeatParser<P> {
    type Output = Vec<P::Output>;
    type PartialState = RepeatParserState<P>;
    type Error = P::Error;

    open spec fn initial_state(&self) -> (StateView<P>, Seq<OutputView<P>>) {
        (self.inner().initial_state(), Seq::empty())
    }

    open spec fn resumable(&self, state: (StateView<P>, Seq<OutputView<P>>)) -> bool {
        self.inner().resumable(state.0)
    }

    open spec fn outcome(&self, state: (StateView<P>, Seq<OutputView<P>>), input: Seq<u8>) -> Outcome<
        Self,
    > {
        self.repeat_outcome(state.0, state.1, input)
    }

    open spec fn splits_cleanly(
        &self,
        state: (StateView<P>, Seq<OutputView<P>>),
        first: Seq<u8>,
        rest: Seq<u8>,
    ) -> bool {
        self.repeat_splits_cleanly(state.0, state.1, first, rest)
    }

    proof fn lemma_initial_resumable(&self) {
        self.inner().lemma_initial_resumable();
    }

    proof fn lemma_outcome_well_formed(
        &self,
        state: (StateView<P>, Seq<OutputView<P>>),
        input: Seq<u8>,
    ) {
        self.lemma_repeat_well_formed(state.0, state.1, input);
    }

    proof fn lemma_extend(
        &self,
        state: (StateView<P>, Seq<OutputView<P>>),
        first: Seq<u8>,
        rest: Seq<u8>,
    ) {
        self.lemma_repeat_extend(state.0, state.1, first, rest);
    }

    proof fn lemma_resume(
        &self,
        state: (StateView<P>, Seq<OutputView<P>>),
        first: Seq<u8>,
        rest: Seq<u8>,
    ) {
        self.lemma_repeat_resume(state.0, state.1, first, rest);
    }

    fn create_parser_state(&self) -> (r: RepeatParserState<P>) {
        let r = RepeatParserState { last_state: self.parser.create_parser_state(), outputs: Vec::new() };
        assert(r.outputs.deep_view() =~= Seq::<OutputView<P>>::empty());
        r
    }

    fn parse<'a>(&self, state: &RepeatParserState<P>, input: &'a [u8]) -> (r: Result<
        ParseResult<'a, RepeatParserState<P>, Vec<P::Output>>,
        P::Error,
    >) {
        let mut outputs = clone_outputs::<P>(&state.outputs);
        let mut last = P::clone_state(&state.last_state);
        let mut remaining: &'a [u8] = input;
        loop
            invariant
                self.parser.resumable(last@),
                self.repeat_outcome(last@, outputs.deep_view(), remaining@) == self.outcome(
                    state@,
                    input@,
                ),
            decreases self.max - outputs@.len(),
        {
            if outputs.len() >= self.max {
                return Ok(ParseResult::Finished { result: outputs, remaining });
            }
            match self.parser.parse(&last, remaining) {
                Ok(ParseResult::Finished { result, remaining: rest }) => {
                    proof {
                        self.parser.lemma_initial_resumable();
                    }
                    let ghost before = outputs.deep_view();
                    outputs.push(result);
                    assert(outputs.deep_view() =~= before.push(result.deep_view()));
                    remaining = rest;
                    last = self.parser.create_parser_state();
                },
                Ok(ParseResult::Incomplete(next)) => {
                    return Ok(ParseResult::Incomplete(RepeatParserState { last_state: next, outputs }));
                },
                Err(e) => {
                    if outputs.len() >= self.min {
                        return Ok(ParseResult::Finished { result: outputs, remaining });
                    } else {
                        return Err(e);
                    }
                },
            }
        }
    }

    fn clone_state(state: &RepeatParserState<P>) -> (r: RepeatParserState<P>) {
        RepeatParserState {
            last_state: P::clone_state(&state.last_state),
            outputs: clone_outputs::<P>(&state.outputs),
        }
    }

    fn clone_output(output: &Vec<P::Output>) -> (r: Vec<P::Output>) {
        clone_outputs::<P>(output)
    }
}

} // verus!
