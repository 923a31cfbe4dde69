use vstd::prelude::*;

use crate::parser::{
    lemma_suffix_trans, outcome_of, Outcome, OutputView, ParseResult, Parser, StateView, Step,
};

verus! {

/// A parser for one parser followed by another: the bytes the first leaves over
/// are fed to the second.
#[derive(Debug, PartialEq, Eq, Clone)]
pub struct SequenceParser<P1, P2> {
    parser1: P1,
    parser2: P2,
}

/// State of a sequence parser: the first parser is running, or it has finished
/// with an output and the second is running.
#[derive(Debug, PartialEq, Eq, Clone)]
pub enum SequenceParserState<P1: Parser, P2: Parser> {
    FirstParser(P1::PartialState),
    SecondParser(P2::PartialState, P1::Output),
}

/// The abstract value of a [`SequenceParserState`].
pub enum SequenceProgress<S1, S2, O1> {
    FirstParser(S1),
    SecondParser(S2, O1),
}

/// Which of the two parsers failed.
#[derive(Debug, PartialEq, Eq, Clone, Copy)]
pub enum SequenceParserError<E1, E2> {
    FirstParser(E1),
    SecondParser(E2),
}

/// The abstract state of a sequence of `P1` then `P2`.
pub type SequenceView<P1, P2> = SequenceProgress<StateView<P1>, StateView<P2>, OutputView<P1>>;

impl<P1: Parser, P2: Parser> View for SequenceParserState<P1, P2> {
    type V = SequenceView<P1, P2>;

    closed spec fn view(&self) -> SequenceView<P1, P2> {
        match self {
            SequenceParserState::FirstParser(s) => SequenceProgress::FirstParser(s@),
            SequenceParserState::SecondParser(s, o) => SequenceProgress::SecondParser(s@, o.deep_view()),
        }
    }
}

impl<P1: Parser, P2: Parser> SequenceParserState<P1, P2> {
    /// A state where the first parser is running from `state`.
    pub fn first(state: P1::PartialState) -> (r: Self)
        ensures
            r@ == SequenceProgress::<StateView<P1>, StateView<P2>, OutputView<P1>>::FirstParser(state@),
    {
        SequenceParserState::FirstParser(state)
    }

    /// A state where the first parser finished with `output` and the second is
    /// running from `state`.
    pub fn second(state: P2::PartialState, output: P1::Output) -> (r: Self)
        ensures
            r@ == SequenceProgress::<StateView<P1>, StateView<P2>, OutputView<P1>>::SecondParser(
                state@,
                output.deep_view(),
            ),
    {
        SequenceParserState::SecondParser(state, output)
    }
}

impl<P1: Parser, P2: Parser> SequenceParser<P1, P2> {
    /// A parser for `parser1` followed by `parser2`.
    pub fn new(parser1: P1, parser2: P2) -> (r: Self)
        ensures
            r.first() == parser1,
            r.second() == parser2,
    {
        SequenceParser { parser1, parser2 }
    }

    /// The parser that runs first.
    pub closed spec fn first(&self) -> P1 {
        self.parser1
    }

    /// The parser that runs second.
    pub closed spec fn second(&self) -> P2 {
        self.parser2
    }

    /// Running the second parser from `state` on `input`, the first having
    /// finished with `output`.
    pub open spec fn second_outcome(&self, state: StateView<P2>, output: OutputView<P1>, input: Seq<u8>) -> Outcome<Self> {
        match self.second().outcome(state, input) {
            Ok(Step::Finished(v, rest)) => Ok(Step::Finished((output, v), rest)),
            Ok(Step::Incomplete(next)) => Ok(Step::Incomplete(SequenceProgress::SecondParser(next, output))),
            Err(e) => Err(SequenceParserError::SecondParser(e)),
        }
    }
}

impl<P1: Parser, P2: Parser> Parser for SequenceParser<P1, P2> {
    type Output = (P1::Output, P2::Output);
    type PartialState = SequenceParserState<P1, P2>;
    type Error = SequenceParserError<P1::Error, P2::Error>;

    open spec fn initial_state(&self) -> SequenceView<P1, P2> {
        SequenceProgress::FirstParser(self.first().initial_state())
    }

    open spec fn resumable(&self, state: SequenceView<P1, P2>) -> bool {
        match state {
            SequenceProgress::FirstParser(s) => self.first().resumable(s),
            SequenceProgress::SecondParser(s, _) => self.second().resumable(s),
        }
    }

    open spec fn outcome(&self, state: SequenceView<P1, P2>, input: Seq<u8>) -> Outcome<Self> {
        match state {
            SequenceProgress::FirstParser(s) => match self.first().outcome(s, input) {
                Ok(Step::Finished(v, rest)) => self.second_outcome(self.second().initial_state(), v, rest),
                Ok(Step::Incomplete(next)) => Ok(Step::Incomplete(SequenceProgress::FirstParser(next))),
                Err(e) => Err(SequenceParserError::FirstParser(e)),
            },
            SequenceProgress::SecondParser(s, v) => self.second_outcome(s, v, input),
        }
    }

    open spec fn splits_cleanly(&self, state: SequenceView<P1, P2>, first: Seq<u8>, rest: Seq<u8>) -> bool {
        match state {
            SequenceProgress::FirstParser(s) => match self.first().outcome(s, first) {
                Ok(Step::Finished(_, r)) => self.second().splits_cleanly(self.second().initial_state(), r, rest),
                Ok(Step::Incomplete(_)) => self.first().splits_cleanly(s, first, rest),
                Err(_) => true,
            },
            SequenceProgress::SecondParser(s, _) => self.second().splits_cleanly(s, first, rest),
        }
    }

    proof fn lemma_initial_resumable(&self) {
        self.first().lemma_initial_resumable();
    }

    proof fn lemma_outcome_well_formed(&self, state: SequenceView<P1, P2>, input: Seq<u8>) {
        match state {
            SequenceProgress::FirstParser(s) => {
                self.first().lemma_outcome_well_formed(s, input);
                if let Ok(Step::Finished(v, rest)) = self.first().outcome(s, input) {
                    self.second().lemma_initial_resumable();
                    self.second().lemma_outcome_well_formed(self.second().initial_state(), rest);
                    if let Ok(Step::Finished(_, remaining)) = self.outcome(state, input) {
                        lemma_suffix_trans(remaining, rest, input);
                    }
                }
            },
            SequenceProgress::SecondParser(s, _) => {
                self.second().lemma_outcome_well_formed(s, input);
            },
        }
    }

    proof fn lemma_extend(&self, state: SequenceView<P1, P2>, first: Seq<u8>, rest: Seq<u8>) {
        match state {
            SequenceProgress::FirstParser(s) => {
                self.first().lemma_extend(s, first, rest);
                if let Ok(Step::Finished(v, r)) = self.first().outcome(s, first) {
                    self.second().lemma_initial_resumable();
                    self.second().lemma_extend(self.second().initial_state(), r, rest);
                }
            },
            SequenceProgress::SecondParser(s, _) => {
                self.second().lemma_extend(s, first, rest);
            },
        }
    }

    proof fn lemma_resume(&self, state: SequenceView<P1, P2>, first: Seq<u8>, rest: Seq<u8>) {
        match state {
            SequenceProgress::FirstParser(s) => {
                match self.first().outcome(s, first) {
                    Ok(Step::Finished(v, r)) => {
                        self.first().lemma_extend(s, first, rest);
                        self.second().lemma_initial_resumable();
                        self.second().lemma_resume(self.second().initial_state(), r, rest);
                    },
                    Ok(Step::Incomplete(_)) => {
                        self.first().lemma_resume(s, first, rest);
                    },
                    Err(_) => {},
                }
            },
            SequenceProgress::SecondParser(s, _) => {
                self.second().lemma_resume(s, first, rest);
            },
        }
    }

    fn create_parser_state(&self) -> (r: SequenceParserState<P1, P2>) {
        SequenceParserState::FirstParser(self.parser1.create_parser_state())
    }

    fn parse<'a>(&self, state: &SequenceParserState<P1, P2>, input: &'a [u8]) -> (r: Result<
        ParseResult<'a, SequenceParserState<P1, P2>, (P1::Output, P2::Output)>,
        SequenceParserError<P1::Error, P2::Error>,
    >) {
        match state {
            SequenceParserState::FirstParser(s) => match self.parser1.parse(s, input) {
                Ok(ParseResult::Finished { result, remaining }) => {
                    let second = self.parser2.create_parser_state();
                    proof {
                        self.parser2.lemma_initial_resumable();
                    }
                    self.parse_second(&second, result, remaining)
                },
                Ok(ParseResult::Incomplete(next)) => Ok(ParseResult::Incomplete(SequenceParserState::FirstParser(next))),
                Err(e) => Err(SequenceParserError::FirstParser(e)),
            },
            SequenceParserState::SecondParser(s, output) => {
                self.parse_second(s, P1::clone_output(output), input)
            },
        }
    }

    fn clone_state(state: &SequenceParserState<P1, P2>) -> (r: SequenceParserState<P1, P2>) {
        match state {
            SequenceParserState::FirstParser(s) => SequenceParserState::FirstParser(P1::clone_state(s)),
            SequenceParserState::SecondParser(s, output) => SequenceParserState::SecondParser(
                P2::clone_state(s),
                P1::clone_output(output),
            ),
        }
    }

    fn clone_output(output: &(P1::Output, P2::Output)) -> (r: (P1::Output, P2::Output)) {
        (P1::clone_output(&output.0), P2::clone_output(&output.1))
    }
}

impl<P1: Parser, P2: Parser> SequenceParser<P1, P2> {
    /// Runs the second parser from `state` on `input`, the first having finished
    /// with `output`.
    fn parse_second<'a>(&self, state: &P2::PartialState, output: P1::Output, input: &'a [u8]) -> (r: Result<
        ParseResult<'a, SequenceParserState<P1, P2>, (P1::Output, P2::Output)>,
        SequenceParserError<P1::Error, P2::Error>,
    >)
        requires
            self.second().resumable(state@),
        ensures
            outcome_of(r) == self.second_outcome(state@, output.deep_view(), input@),
    {
        match self.parser2.parse(state, input) {
            Ok(ParseResult::Finished { result, remaining }) => Ok(ParseResult::Finished { result: (output, result), remaining }),
            Ok(ParseResult::Incomplete(next)) => Ok(ParseResult::Incomplete(SequenceParserState::SecondParser(next, output))),
            Err(e) => Err(SequenceParserError::SecondParser(e)),
        }
    }
}

} // verus!
