use vstd::prelude::*;
use vstd::slice::slice_subrange;
use vstd::string::StringSliceAdditionalSpecFns;

use crate::parser::{extended, is_suffix, ParseResult, Parser, Step};

verus! {

/// Matches a fixed sequence of bytes.
#[derive(Debug, PartialEq, Eq, Clone)]
pub struct LiteralParser {
    literal: Vec<u8>,
}

/// How many bytes of the literal have matched so far.
#[derive(Debug, PartialEq, Eq, Clone, Copy, Default)]
pub struct LiteralParserOffset {
    offset: usize,
}

/// The input differs from the literal; `index` is the position in the literal of
/// the byte that did not match.
#[derive(Debug, PartialEq, Eq, Clone, Copy)]
pub struct LiteralMismatchError {
    pub index: usize,
}

impl View for LiteralParserOffset {
    type V = usize;

    closed spec fn view(&self) -> usize {
        self.offset
    }
}

impl LiteralParserOffset {
    /// A state that has matched the first `offset` bytes of its literal.
    pub fn new(offset: usize) -> (r: Self)
        ensures
            r@ == offset,
    {
        LiteralParserOffset { offset }
    }
}

/// Matching `input` against `literal` when its first `offset` bytes have matched.
pub open spec fn literal_outcome(literal: Seq<u8>, offset: usize, input: Seq<u8>) -> Result<
    Step<usize, ()>,
    LiteralMismatchError,
>
    decreases input.len(),
{
    if offset >= literal.len() {
        Ok(Step::Finished((), input))
    } else if input.len() == 0 {
        Ok(Step::Incomplete(offset))
    } else if input[0] != literal[offset as int] {
        Err(LiteralMismatchError { index: offset })
    } else {
        literal_outcome(literal, (offset + 1) as usize, input.drop_first())
    }
}

proof fn lemma_literal_well_formed(literal: Seq<u8>, offset: usize, input: Seq<u8>)
    requires
        offset <= literal.len(),
    ensures
        match literal_outcome(literal, offset, input) {
            Ok(Step::Finished(_, remaining)) => is_suffix(remaining, input),
            Ok(Step::Incomplete(next)) => next <= literal.len(),
            Err(_) => true,
        },
    decreases input.len(),
{
    if offset < literal.len() && input.len() > 0 && input[0] == literal[offset as int] {
        lemma_literal_well_formed(literal, (offset + 1) as usize, input.drop_first());
        if let Ok(Step::Finished(_, remaining)) = literal_outcome(literal, offset, input) {
            assert(remaining == input.subrange(input.len() - remaining.len(), input.len() as int));
        }
    } else if offset >= literal.len() {
        assert(input == input.subrange(0, input.len() as int));
    }
}

proof fn lemma_literal_join(literal: Seq<u8>, offset: usize, first: Seq<u8>, rest: Seq<u8>)
    ensures
        literal_outcome(literal, offset, first) is Ok && literal_outcome(literal, offset, first)->Ok_0 is Incomplete
            ==> literal_outcome(literal, offset, first + rest) == literal_outcome(
            literal,
            literal_outcome(literal, offset, first)->Ok_0->Incomplete_0,
            rest,
        ),
        !(literal_outcome(literal, offset, first) is Ok && literal_outcome(literal, offset, first)->Ok_0 is Incomplete)
            ==> literal_outcome(literal, offset, first + rest) == extended(
            literal_outcome(literal, offset, first),
            rest,
        ),
    decreases first.len(),
{
    if first.len() == 0 {
        assert(first + rest =~= rest);
    } else {
        assert((first + rest)[0] == first[0]);
        assert((first + rest).drop_first() =~= first.drop_first() + rest);
        if offset < literal.len() && first[0] == literal[offset as int] {
            lemma_literal_join(literal, (offset + 1) as usize, first.drop_first(), rest);
        }
    }
}

impl LiteralParser {
    /// A parser that matches the bytes of `literal`.
    pub fn new(literal: &str) -> (r: Self)
        ensures
            r.literal_bytes() == literal.spec_bytes(),
    {
        LiteralParser { literal: vstd::slice::slice_to_vec(literal.as_bytes()) }
    }

    /// The bytes this parser matches.
    pub closed spec fn literal_bytes(&self) -> Seq<u8> {
        self.literal@
    }
}

impl<'s> From<&'s str> for LiteralParser {
    /// A parser that matches the bytes of `literal`.
    fn from(literal: &'s str) -> (r: Self)
        ensures
            r.literal_bytes() == literal.spec_bytes(),
    {
        LiteralParser::new(literal)
    }
}

impl<'s> vstd::std_specs::convert::FromSpecImpl<&'s str> for LiteralParser {
    open spec fn obeys_from_spec() -> bool {
        false
    }

    open spec fn from_spec(literal: &'s str) -> Self {
        arbitrary()
    }
}

impl Parser for LiteralParser {
    type Output = ();
    type PartialState = LiteralParserOffset;
    type Error = LiteralMismatchError;

    open spec fn initial_state(&self) -> usize {
        0
    }

    open spec fn resumable(&self, state: usize) -> bool {
        state <= self.literal_bytes().len()
    }

    open spec fn outcome(&self, state: usize, input: Seq<u8>) -> Result<
        Step<usize, ()>,
        LiteralMismatchError,
    > {
        literal_outcome(self.literal_bytes(), state, input)
    }

    open spec fn splits_cleanly(&self, state: usize, first: Seq<u8>, rest: Seq<u8>) -> bool {
        true
    }

    proof fn lemma_initial_resumable(&self) {
    }

    proof fn lemma_outcome_well_formed(&self, state: usize, input: Seq<u8>) {
        lemma_literal_well_formed(self.literal_bytes(), state, input);
    }

    proof fn lemma_extend(&self, state: usize, first: Seq<u8>, rest: Seq<u8>) {
        lemma_literal_join(self.literal_bytes(), state, first, rest);
    }

    proof fn lemma_resume(&self, state: usize, first: Seq<u8>, rest: Seq<u8>) {
        lemma_literal_join(self.literal_bytes(), state, first, rest);
    }

    fn create_parser_state(&self) -> (r: LiteralParserOffset) {
        LiteralParserOffset { offset: 0 }
    }

    fn parse<'a>(&self, state: &LiteralParserOffset, input: &'a [u8]) -> (r: Result<
        ParseResult<'a, LiteralParserOffset, ()>,
        LiteralMismatchError,
    >) {
        let mut offset: usize = state.offset;
        let mut j: usize = 0;
        assert(input@.subrange(0, input@.len() as int) =~= input@);
        while j < input.len()
            invariant
                offset <= self.literal@.len(),
                j <= input@.len(),
                self.outcome(state@, input@) == literal_outcome(
                    self.literal@,
                    offset,
                    input@.subrange(j as int, input@.len() as int),
                ),
            decreases input@.len() - j,
        {
            if offset == self.literal.len() {
                return Ok(ParseResult::Finished { result: (), remaining: slice_subrange(input, j, input.len()) });
            }
            assert(input@.subrange(j as int, input@.len() as int).drop_first() =~= input@.subrange(
                j + 1,
                input@.len() as int,
            ));
            if input[j] != self.literal[offset] {
                return Err(LiteralMismatchError { index: offset });
            }
            offset = offset + 1;
            j = j + 1;
        }
        if offset == self.literal.len() {
            Ok(ParseResult::Finished { result: (), remaining: slice_subrange(input, j, input.len()) })
        } else {
            Ok(ParseResult::Incomplete(LiteralParserOffset { offset }))
        }
    }

    fn clone_state(state: &LiteralParserOffset) -> (r: LiteralParserOffset) {
        LiteralParserOffset { offset: state.offset }
    }

    fn clone_output(output: &()) -> (r: ()) {
        ()
    }
}

} // verus!
