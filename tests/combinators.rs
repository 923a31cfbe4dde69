use kalosm_sample::{
    IntegerParseError, IntegerParser, LiteralMismatchError, LiteralParser, LiteralParserOffset,
    ParseResult, Parser, SequenceParser, SequenceParserError, SequenceParserState,
};

#[test]
fn literal_mismatch_reports_index() {
    let parser = LiteralParser::from("abc");
    let state = parser.create_parser_state();
    assert_eq!(
        parser.parse(&state, b"abd"),
        Err(LiteralMismatchError { index: 2 })
    );
    assert_eq!(
        parser.parse(&state, b"ab"),
        Ok(ParseResult::Incomplete(LiteralParserOffset::new(2)))
    );
}

#[test]
fn literal_leaves_following_bytes() {
    let parser = LiteralParser::new("abc");
    let state = parser.create_parser_state();
    assert_eq!(
        parser.parse(&state, b"abcdef"),
        Ok(ParseResult::Finished {
            result: (),
            remaining: b"def",
        })
    );
    let state = LiteralParserOffset::new(1);
    assert_eq!(
        parser.parse(&state, b"bc"),
        Ok(ParseResult::Finished {
            result: (),
            remaining: b"",
        })
    );
}

#[test]
fn empty_literal_finishes_at_once() {
    let parser = LiteralParser::from("");
    let state = parser.create_parser_state();
    assert_eq!(
        parser.parse(&state, b"xy"),
        Ok(ParseResult::Finished {
            result: (),
            remaining: b"xy",
        })
    );
}

#[test]
fn integer_ends_at_non_digit() {
    let parser = IntegerParser::new(0..=10000);
    let state = parser.create_parser_state();
    assert_eq!(
        parser.parse(&state, b"123;"),
        Ok(ParseResult::Finished {
            result: 123,
            remaining: b";",
        })
    );
    let state = match parser.parse(&state, b"123") {
        Ok(ParseResult::Incomplete(s)) => s,
        other => panic!("unexpected {:?}", other),
    };
    assert_eq!(
        parser.parse(&state, b";"),
        Ok(ParseResult::Finished {
            result: 123,
            remaining: b";",
        })
    );
}

#[test]
fn integer_ends_when_no_digit_fits() {
    let parser = IntegerParser::new(0..=25);
    let state = parser.create_parser_state();
    assert_eq!(
        parser.parse(&state, b"39"),
        Ok(ParseResult::Finished {
            result: 3,
            remaining: b"9",
        })
    );
    assert_eq!(
        parser.parse(&state, b"25x"),
        Ok(ParseResult::Finished {
            result: 25,
            remaining: b"x",
        })
    );
}

#[test]
fn integer_errors() {
    let parser = IntegerParser::new(10..=25);
    let state = parser.create_parser_state();
    assert_eq!(parser.parse(&state, b"x"), Err(IntegerParseError));
    assert_eq!(parser.parse(&state, b"27"), Err(IntegerParseError));
    assert_eq!(parser.parse(&state, b"5;"), Err(IntegerParseError));
    assert_eq!(parser.parse(&state, b"9"), Err(IntegerParseError));
}

#[test]
fn integer_largest_value() {
    let parser = IntegerParser::new(0..=u64::MAX);
    let state = parser.create_parser_state();
    assert_eq!(
        parser.parse(&state, b"18446744073709551615"),
        Ok(ParseResult::Finished {
            result: u64::MAX,
            remaining: b"",
        })
    );
    assert_eq!(
        parser.parse(&state, b"18446744073709551616"),
        Err(IntegerParseError)
    );
}

#[test]
fn integer_empty_input_is_incomplete() {
    let parser = IntegerParser::new(0..=9);
    let state = parser.create_parser_state();
    assert_eq!(
        parser.parse(&state, b""),
        Ok(ParseResult::Incomplete(parser.create_parser_state()))
    );
}

#[test]
fn sequence_waits_for_first() {
    let parser = SequenceParser::new(LiteralParser::from("abc"), IntegerParser::new(0..=100));
    let state = parser.create_parser_state();
    let result = parser.parse(&state, b"ab");
    assert_eq!(
        result,
        Ok(ParseResult::Incomplete(SequenceParserState::first(
            LiteralParserOffset::new(2)
        )))
    );
    let state = match result {
        Ok(ParseResult::Incomplete(s)) => s,
        other => panic!("unexpected {:?}", other),
    };
    assert_eq!(
        parser.parse(&state, b"c42x"),
        Ok(ParseResult::Finished {
            result: ((), 42),
            remaining: b"x",
        })
    );
}

#[test]
fn sequence_second_in_progress() {
    let parser = SequenceParser::new(LiteralParser::from("n="), IntegerParser::new(0..=1000));
    let state = parser.create_parser_state();
    let result = parser.parse(&state, b"n=12");
    let expected_inner = match IntegerParser::new(0..=1000).parse(&IntegerParser::new(0..=1000).create_parser_state(), b"12") {
        Ok(ParseResult::Incomplete(s)) => s,
        other => panic!("unexpected {:?}", other),
    };
    assert_eq!(
        result,
        Ok(ParseResult::Incomplete(SequenceParserState::second(expected_inner, ())))
    );
}

#[test]
fn sequence_errors() {
    let parser = SequenceParser::new(LiteralParser::from("a"), LiteralParser::from("b"));
    let state = parser.create_parser_state();
    assert_eq!(
        parser.parse(&state, b"x"),
        Err(SequenceParserError::FirstParser(LiteralMismatchError { index: 0 }))
    );
    assert_eq!(
        parser.parse(&state, b"ax"),
        Err(SequenceParserError::SecondParser(LiteralMismatchError { index: 0 }))
    );
}

#[test]
fn sequence_chunks_match_whole_input() {
    let parser = SequenceParser::new(LiteralParser::from("n="), IntegerParser::new(0..=1000));
    let fresh = parser.create_parser_state();
    let whole = parser.parse(&fresh, b"n=123;");
    let mut state = fresh;
    for chunk in [&b"n"[..], &b"=1"[..]] {
        state = match parser.parse(&state, chunk) {
            Ok(ParseResult::Incomplete(s)) => s,
            other => panic!("unexpected {:?}", other),
        };
    }
    assert_eq!(parser.parse(&state, b"23;"), whole);
    assert_eq!(
        whole,
        Ok(ParseResult::Finished {
            result: ((), 123),
            remaining: b";",
        })
    );
}
