use vstd::prelude::*;

verus! {

/// What one call of [`Parser::parse`] produced, when it did not fail.
#[derive(Debug, PartialEq, Eq)]
pub enum ParseResult<'a, S, O> {
    /// Every byte was consistent with the grammar, but the match is not decided yet:
    /// parsing resumes from this state once more bytes arrive.
    Incomplete(S),
    /// The match is complete; `remaining` holds the bytes of this call that
    /// came after it.
    Finished { result: O, remaining: &'a [u8] },
}

/// The mathematical counterpart of [`ParseResult`]: the remaining bytes are a sequence.
pub enum Step<S, O> {
    Incomplete(S),
    Finished(O, Seq<u8>),
}

/// The abstract value of a parser's partial state.
pub type StateView<P> = <<P as Parser>::PartialState as View>::V;

/// The abstract value of a parser's output.
pub type OutputView<P> = <<P as Parser>::Output as DeepView>::V;

/// The abstract outcome of one call of `parse`.
pub type Outcome<P> = Result<Step<StateView<P>, OutputView<P>>, <P as Parser>::Error>;

/// An incremental parser: it is handed its input a chunk at a time and keeps its
/// progress in a partial state that callers thread from one call to the next.
///
/// `outcome` is the meaning of `parse`: what a call returns is a function of the
/// parser, the state and the bytes alone.
pub trait Parser: Sized {
    type Output: DeepView;
    type PartialState: View;
    type Error;

    /// The state a parse session starts from.
    spec fn initial_state(&self) -> StateView<Self>;

    /// States that `parse` accepts: the initial state and those it hands back.
    spec fn resumable(&self, state: StateView<Self>) -> bool;

    /// What `parse` returns on `state` and `input`.
    spec fn outcome(&self, state: StateView<Self>, input: Seq<u8>) -> Outcome<Self>;

    /// Feeding `first` and then, from the state it left, `rest` ends as feeding
    /// `first + rest` would, unless a repetition that began in `first` is given up
    /// in `rest` (its bytes in `first` were consumed by the earlier call and
    /// cannot be handed back as remaining input).
    spec fn splits_cleanly(&self, state: StateView<Self>, first: Seq<u8>, rest: Seq<u8>) -> bool;

    proof fn lemma_initial_resumable(&self)
        ensures
            self.resumable(self.initial_state()),
    ;

    /// The remaining bytes of a finished parse are a suffix of its input, and an
    /// incomplete parse leaves a resumable state.
    proof fn lemma_outcome_well_formed(&self, state: StateView<Self>, input: Seq<u8>)
        requires
            self.resumable(state),
        ensures
            match self.outcome(state, input) {
                Ok(Step::Finished(_, remaining)) => is_suffix(remaining, input),
                Ok(Step::Incomplete(next)) => self.resumable(next),
                Err(_) => true,
            },
    ;

    /// A decided outcome does not depend on the bytes after the ones it looked at.
    proof fn lemma_extend(&self, state: StateView<Self>, first: Seq<u8>, rest: Seq<u8>)
        requires
            self.resumable(state),
            !(self.outcome(state, first) is Ok && self.outcome(state, first)->Ok_0 is Incomplete),
        ensures
            self.outcome(state, first + rest) == extended(self.outcome(state, first), rest),
    ;

    /// Resuming from an incomplete parse ends as one parse of the joined input.
    proof fn lemma_resume(&self, state: StateView<Self>, first: Seq<u8>, rest: Seq<u8>)
        requires
            self.resumable(state),
            self.outcome(state, first) is Ok,
            self.outcome(state, first)->Ok_0 is Incomplete,
            self.splits_cleanly(state, first, rest),
        ensures
            resumed(
                self.outcome(state, first + rest),
                self.outcome(self.outcome(state, first)->Ok_0->Incomplete_0, rest),
            ),
    ;

    /// Creates the state a parse session starts from.
    fn create_parser_state(&self) -> (r: Self::PartialState)
        ensures
            r@ == self.initial_state(),
    ;

    /// Extends the match with the bytes of `input`.
    fn parse<'a>(&self, state: &Self::PartialState, input: &'a [u8]) -> (r: Result<
        ParseResult<'a, Self::PartialState, Self::Output>,
        Self::Error,
    >)
        requires
            self.resumable(state@),
        ensures
            outcome_of(r) == self.outcome(state@, input@),
    ;

    /// An independent copy of a partial state.
    fn clone_state(state: &Self::PartialState) -> (r: Self::PartialState)
        ensures
            r@ == state@,
    ;

    /// An independent copy of an output.
    fn clone_output(output: &Self::Output) -> (r: Self::Output)
        ensures
            r.deep_view() == output.deep_view(),
    ;
}

/// The abstract outcome of what `parse` returned.
pub open spec fn outcome_of<S: View, O: DeepView, E>(r: Result<ParseResult<S, O>, E>) -> Result<
    Step<S::V, O::V>,
    E,
> {
    match r {
        Ok(ParseResult::Incomplete(s)) => Ok(Step::Incomplete(s@)),
        Ok(ParseResult::Finished { result, remaining }) => Ok(
            Step::Finished(result.deep_view(), remaining@),
        ),
        Err(e) => Err(e),
    }
}

/// `suffix` is what is left of `input` after some prefix of it.
pub open spec fn is_suffix(suffix: Seq<u8>, input: Seq<u8>) -> bool {
    &&& suffix.len() <= input.len()
    &&& suffix == input.subrange(input.len() - suffix.len(), input.len() as int)
}

/// A suffix of a suffix is a suffix.
pub proof fn lemma_suffix_trans(a: Seq<u8>, b: Seq<u8>, c: Seq<u8>)
    requires
        is_suffix(a, b),
        is_suffix(b, c),
    ensures
        is_suffix(a, c),
{
    assert(a =~= c.subrange(c.len() - a.len(), c.len() as int));
}

/// A decided outcome with `rest` appended to its remaining bytes.
pub open spec fn extended<S, O, E>(o: Result<Step<S, O>, E>, rest: Seq<u8>) -> Result<
    Step<S, O>,
    E,
> {
    match o {
        Ok(Step::Finished(v, remaining)) => Ok(Step::Finished(v, remaining + rest)),
        _ => o,
    }
}

/// `joined` (one parse of the joined input) agrees with `split` (the second of two
/// calls): the same finished value, the same state, and a failure where it failed.
pub open spec fn resumed<S, O, E>(joined: Result<Step<S, O>, E>, split: Result<Step<S, O>, E>) -> bool {
    match split {
        Ok(_) => joined == split,
        Err(_) => joined is Err,
    }
}

/// Relies on `RangeInclusive::into_inner`: it returns the lower and the upper bound.
#[verifier::external_body]
pub(crate) fn range_bounds<T>(range: std::ops::RangeInclusive<T>) -> (r: (T, T))
    ensures
        r.0 == range@.start,
        r.1 == range@.end,
{
    range.into_inner()
}

} // verus!
