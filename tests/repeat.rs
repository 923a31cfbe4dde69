use kalosm_sample::{
    IntegerParser, LiteralMismatchError, LiteralParser, ParseResult, Parser, RepeatParser,
    RepeatParserState,
};

#[test]
fn repeat_parser() {
    let parser = RepeatParser::new(LiteralParser::from("a"), 1..=3);
    let state = parser.create_parser_state();
    let result = parser.parse(&state, b"aaa");
    assert_eq!(
        result,
        Ok(ParseResult::Finished {
            result: vec![(); 3],
            remaining: b"",
        })
    );

    let parser = RepeatParser::new(IntegerParser::new(1..=3), 1..=3);
    let state = parser.create_parser_state();
    let result = parser.parse(&state, b"123");
    assert_eq!(
        result,
        Ok(ParseResult::Finished {
            result: vec![1, 2, 3],
            remaining: b"",
        })
    );

    let parser = RepeatParser::new(IntegerParser::new(1..=3), 1..=3);
    let state = parser.create_parser_state();
    let result = parser.parse(&state, b"12");
    assert_eq!(
        result,
        Ok(ParseResult::Incomplete(RepeatParserState::new(
            IntegerParser::new(1..=3).create_parser_state(),
            vec![1, 2],
        )))
    );
}

#[test]
fn repeat_stops_at_upper_bound() {
    let parser = RepeatParser::new(LiteralParser::from("a"), 1..=3);
    let state = parser.create_parser_state();
    assert_eq!(
        parser.parse(&state, b"aaaaa"),
        Ok(ParseResult::Finished {
            result: vec![(); 3],
            remaining: b"aa",
        })
    );
}

#[test]
fn repeat_zero_times_consumes_nothing() {
    let parser = RepeatParser::new(LiteralParser::from("a"), 0..=0);
    let state = parser.create_parser_state();
    assert_eq!(
        parser.parse(&state, b"aaa"),
        Ok(ParseResult::Finished {
            result: vec![],
            remaining: b"aaa",
        })
    );
    assert_eq!(
        parser.parse(&state, b""),
        Ok(ParseResult::Finished {
            result: vec![],
            remaining: b"",
        })
    );
}

#[test]
fn repeat_fails_below_minimum() {
    let parser = RepeatParser::new(LiteralParser::from("ab"), 2..=3);
    let state = parser.create_parser_state();
    assert_eq!(
        parser.parse(&state, b"abx"),
        Err(LiteralMismatchError { index: 0 })
    );
    assert_eq!(
        parser.parse(&state, b"abax"),
        Err(LiteralMismatchError { index: 1 })
    );
}

#[test]
fn repeat_leaves_failed_repetition_unconsumed() {
    let parser = RepeatParser::new(LiteralParser::from("ab"), 1..=3);
    let state = parser.create_parser_state();
    assert_eq!(
        parser.parse(&state, b"abx"),
        Ok(ParseResult::Finished {
            result: vec![()],
            remaining: b"x",
        })
    );
    assert_eq!(
        parser.parse(&state, b"abax"),
        Ok(ParseResult::Finished {
            result: vec![()],
            remaining: b"ax",
        })
    );
}

#[test]
fn repeat_below_minimum_at_end_of_input_is_incomplete() {
    let parser = RepeatParser::new(LiteralParser::from("a"), 3..=5);
    let state = parser.create_parser_state();
    assert_eq!(
        parser.parse(&state, b"aa"),
        Ok(ParseResult::Incomplete(RepeatParserState::new(
            LiteralParser::from("a").create_parser_state(),
            vec![(); 2],
        )))
    );
}

#[test]
fn repeat_resumes_across_chunks() {
    let parser = RepeatParser::new(IntegerParser::new(1..=3), 1..=3);
    let state = parser.create_parser_state();
    let state = match parser.parse(&state, b"1") {
        Ok(ParseResult::Incomplete(s)) => s,
        other => panic!("unexpected {:?}", other),
    };
    let state = match parser.parse(&state, b"2") {
        Ok(ParseResult::Incomplete(s)) => s,
        other => panic!("unexpected {:?}", other),
    };
    assert_eq!(
        parser.parse(&state, b"3"),
        Ok(ParseResult::Finished {
            result: vec![1, 2, 3],
            remaining: b"",
        })
    );
}

#[test]
fn repeat_straddling_repetition_resumes() {
    let parser = RepeatParser::new(LiteralParser::from("ab"), 0..=2);
    let state = parser.create_parser_state();
    let whole = parser.parse(&state, b"abab;");
    let state = match parser.parse(&state, b"aba") {
        Ok(ParseResult::Incomplete(s)) => s,
        other => panic!("unexpected {:?}", other),
    };
    assert_eq!(parser.parse(&state, b"b;"), whole);
    assert_eq!(
        whole,
        Ok(ParseResult::Finished {
            result: vec![(); 2],
            remaining: b";",
        })
    );
}

#[test]
fn repeat_given_up_across_chunks_keeps_only_its_own_bytes() {
    let parser = RepeatParser::new(LiteralParser::from("ab"), 0..=2);
    let state = parser.create_parser_state();
    assert_eq!(
        parser.parse(&state, b"ax"),
        Ok(ParseResult::Finished {
            result: vec![],
            remaining: b"ax",
        })
    );
    let state = match parser.parse(&state, b"a") {
        Ok(ParseResult::Incomplete(s)) => s,
        other => panic!("unexpected {:?}", other),
    };
    assert_eq!(
        parser.parse(&state, b"x"),
        Ok(ParseResult::Finished {
            result: vec![],
            remaining: b"x",
        })
    );
}

#[test]
fn repeat_state_copies_are_independent() {
    let parser = RepeatParser::new(LiteralParser::from("ab"), 1..=2);
    let state = parser.create_parser_state();
    let state = match parser.parse(&state, b"aba") {
        Ok(ParseResult::Incomplete(s)) => s,
        other => panic!("unexpected {:?}", other),
    };
    let probe = RepeatParser::<LiteralParser>::clone_state(&state);
    assert_eq!(
        parser.parse(&probe, b"x"),
        Ok(ParseResult::Finished {
            result: vec![()],
            remaining: b"x",
        })
    );
    assert_eq!(
        parser.parse(&state, b"b"),
        Ok(ParseResult::Finished {
            result: vec![(); 2],
            remaining: b"",
        })
    );
}

#[test]
fn repeat_default_state_is_fresh() {
    let parser = RepeatParser::new(IntegerParser::new(0..=9), 0..=4);
    let state: RepeatParserState<IntegerParser> = Default::default();
    assert_eq!(state, parser.create_parser_state());
}
