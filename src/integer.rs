use vstd::prelude::*;
use vstd::slice::slice_subrange;

use crate::parser::{extended, is_suffix, range_bounds, ParseResult, Parser, Step};

verus! {

/// Matches a decimal integer, written in ASCII digits, whose value lies in an
/// inclusive range.
///
/// Digits are read greedily. The number ends at the first byte that is not a
/// digit, or right after a digit when no further digit could keep the value in
/// range.
#[derive(Debug, PartialEq, Eq, Clone, Copy)]
pub struct IntegerParser {
    min: u64,
    max: u64,
}

/// The value of the digits read so far, and how many were read (the count stops
/// growing at `usize::MAX`).
#[derive(Debug, PartialEq, Eq, Clone, Copy, Default)]
pub struct IntegerParserState {
    value: u64,
    digits: usize,
}

/// The input does not start with a number in range.
#[derive(Debug, PartialEq, Eq, Clone, Copy)]
pub struct IntegerParseError;

impl View for IntegerParserState {
    type V = (u64, usize);

    closed spec fn view(&self) -> (u64, usize) {
        (self.value, self.digits)
    }
}

pub open spec fn is_digit(b: u8) -> bool {
    48 <= b <= 57
}

/// The digit count after one more digit.
pub open spec fn count_up(digits: usize) -> usize {
    if digits < usize::MAX {
        (digits + 1) as usize
    } else {
        digits
    }
}

/// Reading `input` for a number in `min..=max` after digits of value `value`.
pub open spec fn integer_outcome(min: u64, max: u64, value: u64, digits: usize, input: Seq<u8>) -> Result<
    Step<(u64, usize), u64>,
    IntegerParseError,
>
    decreases input.len(),
{
    if input.len() == 0 {
        Ok(Step::Incomplete((value, digits)))
    } else if is_digit(input[0]) {
        let next = value * 10 + (input[0] - 48);
        if next > max {
            Err(IntegerParseError)
        } else if next * 10 > max {
            if next >= min {
                Ok(Step::Finished(next as u64, input.drop_first()))
            } else {
                Err(IntegerParseError)
            }
        } else {
            integer_outcome(min, max, next as u64, count_up(digits), input.drop_first())
        }
    } else if digits == 0 {
        Err(IntegerParseError)
    } else if value >= min {
        Ok(Step::Finished(value, input))
    } else {
        Err(IntegerParseError)
    }
}

proof fn lemma_integer_well_formed(min: u64, max: u64, value: u64, digits: usize, input: Seq<u8>)
    requires
        value * 10 <= max,
    ensures
        match integer_outcome(min, max, value, digits, input) {
            Ok(Step::Finished(_, remaining)) => is_suffix(remaining, input),
            Ok(Step::Incomplete(next)) => next.0 * 10 <= max,
            Err(_) => true,
        },
    decreases input.len(),
{
    if input.len() > 0 {
        if is_digit(input[0]) {
            let next = value * 10 + (input[0] - 48);
            if next <= max && next * 10 <= max {
                lemma_integer_well_formed(min, max, next as u64, count_up(digits), input.drop_first());
                if let Ok(Step::Finished(_, remaining)) = integer_outcome(min, max, value, digits, input) {
                    assert(remaining =~= input.subrange(input.len() - remaining.len(), input.len() as int));
                }
            } else {
                assert(input.drop_first() =~= input.subrange(1, input.len() as int));
            }
        } else {
            assert(input =~= input.subrange(0, input.len() as int));
        }
    }
}

proof fn lemma_integer_join(min: u64, max: u64, value: u64, digits: usize, first: Seq<u8>, rest: Seq<u8>)
    ensures
        ({
            let o = integer_outcome(min, max, value, digits, first);
            let joined = integer_outcome(min, max, value, digits, first + rest);
            if o is Ok && o->Ok_0 is Incomplete {
                let next = o->Ok_0->Incomplete_0;
                joined == integer_outcome(min, max, next.0, next.1, rest)
            } else {
                joined == extended(o, rest)
            }
        }),
    decreases first.len(),
{
    if first.len() == 0 {
        assert(first + rest =~= rest);
    } else {
        assert((first + rest)[0] == first[0]);
        assert((first + rest).drop_first() =~= first.drop_first() + rest);
        if is_digit(first[0]) {
            let next = value * 10 + (first[0] - 48);
            if next <= max && next * 10 <= max {
                lemma_integer_join(min, max, next as u64, count_up(digits), first.drop_first(), rest);
            }
        }
    }
}

impl IntegerParser {
    /// A parser for the numbers in `range`.
    pub fn new(range: std::ops::RangeInclusive<u64>) -> (r: Self)
        ensures
            r.min_value() == range@.start,
            r.max_value() == range@.end,
    {
        let (min, max) = range_bounds(range);
        IntegerParser { min, max }
    }

    /// The least number matched.
    pub closed spec fn min_value(&self) -> u64 {
        self.min
    }

    /// The greatest number matched.
    pub closed spec fn max_value(&self) -> u64 {
        self.max
    }
}

impl Parser for IntegerParser {
    type Output = u64;
    type PartialState = IntegerParserState;
    type Error = IntegerParseError;

    open spec fn initial_state(&self) -> (u64, usize) {
        (0, 0)
    }

    open spec fn resumable(&self, state: (u64, usize)) -> bool {
        state.0 * 10 <= self.max_value()
    }

    open spec fn outcome(&self, state: (u64, usize), input: Seq<u8>) -> Result<
        Step<(u64, usize), u64>,
        IntegerParseError,
    > {
        integer_outcome(self.min_value(), self.max_value(), state.0, state.1, input)
    }

    open spec fn splits_cleanly(&self, state: (u64, usize), first: Seq<u8>, rest: Seq<u8>) -> bool {
        true
    }

    proof fn lemma_initial_resumable(&self) {
    }

    proof fn lemma_outcome_well_formed(&self, state: (u64, usize), input: Seq<u8>) {
        lemma_integer_well_formed(self.min_value(), self.max_value(), state.0, state.1, input);
    }

    proof fn lemma_extend(&self, state: (u64, usize), first: Seq<u8>, rest: Seq<u8>) {
        lemma_integer_join(self.min_value(), self.max_value(), state.0, state.1, first, rest);
    }

    proof fn lemma_resume(&self, state: (u64, usize), first: Seq<u8>, rest: Seq<u8>) {
        lemma_integer_join(self.min_value(), self.max_value(), state.0, state.1, first, rest);
    }

    fn create_parser_state(&self) -> (r: IntegerParserState) {
        IntegerParserState { value: 0, digits: 0 }
    }

    fn parse<'a>(&self, state: &IntegerParserState, input: &'a [u8]) -> (r: Result<
        ParseResult<'a, IntegerParserState, u64>,
        IntegerParseError,
    >) {
        let mut value: u64 = state.value;
        let mut digits: usize = state.digits;
        let mut j: usize = 0;
        assert(input@.subrange(0, input@.len() as int) =~= input@);
        while j < input.len()
            invariant
                value * 10 <= self.max,
                j <= input@.len(),
                self.outcome(state@, input@) == integer_outcome(
                    self.min,
                    self.max,
                    value,
                    digits,
                    input@.subrange(j as int, input@.len() as int),
                ),
            decreases input@.len() - j,
        {
            assert(input@.subrange(j as int, input@.len() as int).drop_first() =~= input@.subrange(
                j + 1,
                input@.len() as int,
            ));
            let b = input[j];
            if b >= 48 && b <= 57 {
                let shifted = value * 10;
                let digit = (b - 48) as u64;
                if digit > self.max - shifted {
                    return Err(IntegerParseError);
                }
                let next = shifted + digit;
                if next > self.max / 10 {
                    if next >= self.min {
                        return Ok(ParseResult::Finished { result: next, remaining: slice_subrange(input, j + 1, input.len()) });
                    } else {
                        return Err(IntegerParseError);
                    }
                }
                value = next;
                digits = if digits < usize::MAX { digits + 1 } else { digits };
            } else if digits == 0 {
                return Err(IntegerParseError);
            } else if value >= self.min {
                return Ok(ParseResult::Finished { result: value, remaining: slice_subrange(input, j, input.len()) });
            } else {
                return Err(IntegerParseError);
            }
            j = j + 1;
        }
        Ok(ParseResult::Incomplete(IntegerParserState { value, digits }))
    }

    fn clone_state(state: &IntegerParserState) -> (r: IntegerParserState) {
        *state
    }

    fn clone_output(output: &u64) -> (r: u64) {
        *output
    }
}

} // verus!
