//! An incremental, resumable parser-combinator engine for constraining generated
//! text to a grammar: literals, bounded integers, bounded repetitions and
//! sequences, fed a chunk of bytes at a time.
//!
//! Every parser implements [`Parser`]. Its `outcome` spec function states what
//! `parse` returns; the proof functions of the trait and of [`laws`] state how
//! outcomes on split input relate to the outcome on the joined input.
pub mod integer;
pub mod laws;
pub mod literal;
pub mod parser;
pub mod repeat;
pub mod sequence;

pub use integer::{IntegerParseError, IntegerParser, IntegerParserState};
pub use literal::{LiteralMismatchError, LiteralParser, LiteralParserOffset};
pub use parser::{ParseResult, Parser, Step};
pub use repeat::{RepeatParser, RepeatParserState};
pub use sequence::{SequenceParser, SequenceParserError, SequenceParserState, SequenceProgress};
