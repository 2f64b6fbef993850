use rustex::parser::grammar::Modifier;
use rustex::parser::reader::ParserImpl;
use rustex::parser::ParseError;
use rustex::parser::ParseNodeVal;
use rustex::parser::Parser;

fn parsed_text(pattern: &str) -> String {
    Parser::new().parse_str(pattern).expect("failed to parse").to_text()
}

fn parse_failure(pattern: &str) -> (ParseError, usize) {
    let err = Parser::new().parse_str(pattern).expect_err("expected parse failure");
    (err.err, err.cur)
}

#[test]
fn test_parse_alphanum() {
    let parser = Parser::new();

    let parsed = parser.parse_str("hello world 123").expect("failed to parse");

    assert_eq!(parsed.to_text(), "ParseResult { 'hello world 123' }");
}

#[test]
fn test_parse_groups() {
    let parser = Parser::new();

    let parsed = parser
        .parse_str("he(llo (1(23) wor)ld i am (?<my_group>named) (?:unnamed) groups)")
        .expect("failed to parse");

    assert_eq!(
        parsed.to_text(),
        "ParseResult { 'he'->('llo '->('1'->('23')->' wor')->'ld i am '->(<my_group>'named')->' '->(?:'unnamed')->' groups') }"
    );
}

#[test]
fn test_parse_sets() {
    let parser = Parser::new();

    let parsed = parser.parse_str("hel[^lo] (123) w[orld]").expect("failed to parse");

    assert_eq!(
        parsed.to_text(),
        "ParseResult { 'hel'->[^'l', 'o']->' '->('123')->' w'->['o', 'r', 'l', 'd'] }"
    );
}

#[test]
fn test_parse_escaped() {
    let parser = Parser::new();

    let parsed = parser.parse_str("foo\\[ bar\\\\ baz\\^").expect("failed to parse");

    assert_eq!(parsed.to_text(), "ParseResult { 'foo[ bar\\ baz^' }");
}

#[test]
fn test_parse_or() {
    let parser = Parser::new();

    let parsed = parser.parse_str("(foo)|((bar)|(baz)qux)").expect("failed to parse");

    assert_eq!(parsed.to_text(), "ParseResult { <('foo')>|<(<('bar')>|<('baz')->'qux'>)> }");
}

#[test]
fn test_parse_repitition_range() {
    let parser = Parser::new();

    let parsed = parser.parse_str("(foo){0,5}bar{1}").expect("failed to parse");

    assert_eq!(parsed.to_text(), "ParseResult { ('foo'){0,5}->'ba'->'r'{1,1} }");
}

#[test]
fn test_parse_modifiers() {
    let parser = Parser::new();

    let parsed = parser.parse_str("foo*bar+(baz)?qu?x").expect("failed to parse");

    assert_eq!(parsed.to_text(), "ParseResult { 'fo'->'o'*->'ba'->'r'+->('baz')?->'q'->'u'?->'x' }");
}

#[test]
fn test_unexpected_char_err() {
    let parser = Parser::new();

    let err = parser.parse_str("foo\\!bar").expect_err("expected parse failure");

    assert_eq!(err.err, ParseError::UnexpectedCharErr('!'));
    assert_eq!(err.cur, 5);
    assert_eq!(err.to_text(), "unexpected char '!' at :5\nfoo\\!bar\n    ^");
}

#[test]
fn empty_pattern_has_no_program() {
    let parsed = Parser::new().parse_str("").expect("failed to parse");
    assert!(parsed.head.is_none());
    assert_eq!(parsed.to_text(), "ParseResult {  }");
}

#[test]
fn quantifier_binds_to_last_character_of_a_word() {
    assert_eq!(parsed_text("abc*"), "ParseResult { 'ab'->'c'* }");
    assert_eq!(parsed_text("a*"), "ParseResult { 'a'* }");
    assert_eq!(parsed_text("ab+?"), "ParseResult { 'a'->'b'+? }");
    assert_eq!(parsed_text("ab*?c"), "ParseResult { 'a'->'b'*?->'c' }");
    assert_eq!(parsed_text("(ab)?"), "ParseResult { ('ab')? }");
    assert_eq!(parsed_text("h\u{e9}+"), "ParseResult { 'h'->'\u{e9}'+ }");
}

#[test]
fn range_forms() {
    assert_eq!(parsed_text("a{3}"), "ParseResult { 'a'{3,3} }");
    assert_eq!(parsed_text("a{3,}"), "ParseResult { 'a'{3} }");
    assert_eq!(parsed_text("a{3,12}"), "ParseResult { 'a'{3,12} }");
    assert_eq!(parsed_text("a{007}"), "ParseResult { 'a'{7,7} }");
    assert_eq!(parsed_text("a{0,4294967295}"), "ParseResult { 'a'{0,4294967295} }");
}

#[test]
fn anchors_any_and_classes() {
    assert_eq!(parsed_text("^.$"), "ParseResult { ^->.->$ }");
    assert_eq!(parsed_text("[a\\]b]"), "ParseResult { ['a', ']', 'b'] }");
    assert_eq!(parsed_text("[aab]"), "ParseResult { ['a', 'b'] }");
    assert_eq!(parsed_text("[]"), "ParseResult { [] }");
    assert_eq!(parsed_text("[^]"), "ParseResult { [^] }");
    assert_eq!(parsed_text("[(|)*]"), "ParseResult { ['(', '|', ')', '*'] }");
}

#[test]
fn alternation_takes_all_before_and_all_after() {
    assert_eq!(parsed_text("ab|cd"), "ParseResult { <'ab'>|<'cd'> }");
    assert_eq!(parsed_text("a|b|c"), "ParseResult { <'a'>|<<'b'>|<'c'>> }");
    assert_eq!(parsed_text("(a|b)c"), "ParseResult { (<'a'>|<'b'>)->'c' }");
}

#[test]
fn group_names_may_hold_escapes() {
    assert_eq!(parsed_text("(?<a\\)b>x)"), "ParseResult { (<a)b>'x') }");
}

#[test]
fn a_pattern_that_breaks_off_is_refused() {
    assert_eq!(parse_failure("(ab"), (ParseError::UnexpectedEndOfInput, 4));
    assert_eq!(parse_failure("((a)"), (ParseError::UnexpectedEndOfInput, 5));
    assert_eq!(parse_failure("x|(ab"), (ParseError::UnexpectedEndOfInput, 6));
    assert_eq!(parse_failure("a{2"), (ParseError::UnexpectedEndOfInput, 4));
    assert_eq!(parse_failure("a{2,"), (ParseError::UnexpectedEndOfInput, 5));
    assert_eq!(parse_failure("a{2,3"), (ParseError::UnexpectedEndOfInput, 6));
    assert_eq!(parse_failure("a{"), (ParseError::MissingRepetitionRangeMin, 3));
    assert_eq!(parse_failure("a{,"), (ParseError::MissingRepetitionRangeMin, 4));
}

#[test]
fn every_error_has_an_input() {
    assert_eq!(parse_failure("a\\b"), (ParseError::UnexpectedCharErr('b'), 3));
    assert_eq!(parse_failure("a)"), (ParseError::UnexpectedCharErr(')'), 2));
    assert_eq!(parse_failure("a}"), (ParseError::UnexpectedCharErr('}'), 2));
    assert_eq!(parse_failure("]"), (ParseError::UnexpectedCharErr(']'), 1));
    assert_eq!(parse_failure("|a"), (ParseError::UnexpectedCharErr('|'), 1));
    assert_eq!(parse_failure("[abc"), (ParseError::UnterminatedCharSet, 5));
    assert_eq!(parse_failure("()"), (ParseError::EmptyCaptureGroup, 1));
    assert_eq!(parse_failure("a("), (ParseError::EmptyCaptureGroup, 2));
    assert_eq!(parse_failure("(?<ab"), (ParseError::EmptyCaptureGroup, 6));
    assert_eq!(parse_failure("ab\\"), (ParseError::MissingCharacterToEscape, 4));
    assert_eq!(parse_failure("a|"), (ParseError::MissingRightSideOfOr, 2));
    assert_eq!(parse_failure("(a|)"), (ParseError::MissingRightSideOfOr, 3));
    assert_eq!(parse_failure("(?x)"), (ParseError::BadGroupConfig, 3));
    assert_eq!(parse_failure("(?"), (ParseError::BadGroupConfig, 3));
    assert_eq!(parse_failure("a{}"), (ParseError::MissingRepetitionRangeMin, 3));
    assert_eq!(parse_failure("a{,3}"), (ParseError::MissingRepetitionRangeMin, 5));
    assert_eq!(parse_failure("a{2 }"), (ParseError::UnexpectedRepetitionRangeCh(' '), 4));
    assert_eq!(parse_failure("a{2,3,4}"), (ParseError::UnexpectedRepetitionRangeCh(','), 6));
    assert_eq!(parse_failure("a{5,2}"), (ParseError::UnexpectedRepetitionRangeCh('2'), 6));
    assert_eq!(parse_failure("a{4294967296}"), (ParseError::UnexpectedRepetitionRangeCh('6'), 12));
    assert_eq!(parse_failure("*a"), (ParseError::MissingLeftSideOfModifier, 1));
    assert_eq!(parse_failure("+?"), (ParseError::MissingLeftSideOfModifier, 2));
    assert_eq!(parse_failure("?"), (ParseError::MissingLeftSideOfModifier, 1));
    assert_eq!(parse_failure("{2}"), (ParseError::MissingLeftSideOfModifier, 3));
}

#[test]
fn error_messages() {
    assert_eq!(ParseError::UnterminatedCharSet.message(), "unterminated character set");
    assert_eq!(ParseError::EmptyCaptureGroup.message(), "empty capture group");
    assert_eq!(ParseError::MissingCharacterToEscape.message(), "missing character to escape");
    assert_eq!(ParseError::MissingRightSideOfOr.message(), "missing right side of or");
    assert_eq!(ParseError::BadGroupConfig.message(), "bad group config");
    assert_eq!(ParseError::MissingRepetitionRangeMin.message(), "missing repetition range min");
    assert_eq!(
        ParseError::UnexpectedRepetitionRangeCh('x').message(),
        "unexpected char 'x' in repetition range"
    );
    assert_eq!(ParseError::MissingLeftSideOfModifier.message(), "missing left side of modifier");
    assert_eq!(ParseError::ParseGraphCycle.message(), "found reference cycle in parse graph");
    assert_eq!(ParseError::UnexpectedEndOfInput.message(), "found unexpected end of input");
    let err = Parser::new().parse_str("abcdefghijkl(").expect_err("expected parse failure");
    assert_eq!(err.to_text(), "empty capture group at :13\nabcdefghijkl(\n            ^");
}

#[test]
fn parsing_twice_gives_the_same_program() {
    let parser = Parser::new();
    let first = parser.parse_str("a(b|c)*d{2,3}").expect("failed to parse").to_text();
    let _ = parser.parse_str("zzz").expect("failed to parse");
    let second = parser.parse_str("a(b|c)*d{2,3}").expect("failed to parse").to_text();
    assert_eq!(first, second);
    assert_eq!(first, "ParseResult { 'a'->(<'b'>|<'c'>)*->'d'{2,3} }");
}

#[test]
fn the_place_of_an_error_counts_bytes() {
    assert_eq!(parse_failure("\u{e9}\\!"), (ParseError::UnexpectedCharErr('!'), 4));
    assert_eq!(parse_failure("\u{4e16}("), (ParseError::EmptyCaptureGroup, 4));
    assert_eq!(parse_failure("\u{e9}\\"), (ParseError::MissingCharacterToEscape, 4));
    assert_eq!(parse_failure("[\u{e9}"), (ParseError::UnterminatedCharSet, 4));
}

#[test]
fn a_quantifier_needs_something_to_repeat() {
    let mut nodes: Vec<ParseNodeVal> = vec![];
    assert_eq!(
        ParserImpl::decorate_node_option(&mut nodes, Modifier::Optional),
        Err(ParseError::UnexpectedEmptyParseNodeOption)
    );
    assert_eq!(
        ParserImpl::decorate_node_option_for_last_char_modifiers(&mut nodes, Modifier::Optional),
        Err(ParseError::MissingLeftSideOfModifier)
    );
    let mut nodes = vec![ParseNodeVal::Word("abc".to_string())];
    assert_eq!(
        ParserImpl::decorate_node_option_for_last_char_modifiers(
            &mut nodes,
            Modifier::RepetitionRange { min: 1, max: Some(2) }
        ),
        Ok(())
    );
    assert_eq!(nodes.len(), 2);
    assert!(matches!(&nodes[0], ParseNodeVal::Word(word) if word == "ab"));
    assert!(matches!(&nodes[1], ParseNodeVal::RepetitionRange { min: 1, max: Some(2), .. }));
    assert_eq!(
        ParseError::UnexpectedEmptyParseNodeOption.message(),
        "internal: unexpected unwrap of Option<Rc<RefCell<ParseNode>>>"
    );
}

#[test]
fn the_reader_reads_one_character_at_a_time() {
    let mut reader = ParserImpl { chars: "a\\(b".chars().collect(), index: 0, groups: 0 };
    assert_eq!(reader.peek(), Some('a'));
    assert_eq!(reader.next(), Some('a'));
    assert_eq!(reader.next_escaped(), Ok((Some('('), true)));
    assert_eq!(reader.index, 3);
    assert_eq!(reader.next_escaped(), Ok((Some('b'), false)));
    assert_eq!(reader.peek(), None);
    assert_eq!(reader.next(), None);
    assert_eq!(reader.index, 5);
    assert_eq!(reader.next(), None);
    assert_eq!(reader.index, 5);
    assert_eq!(reader.escape_next(), Err(ParseError::MissingCharacterToEscape));
    assert!(ParserImpl::is_special_char(&'$'));
    assert!(ParserImpl::is_special_char(&'\\'));
    assert!(!ParserImpl::is_special_char(&'>'));
    let mut reader = ParserImpl { chars: "?x{3,4}".chars().collect(), index: 0, groups: 0 };
    assert!(!reader.chomp_greediness());
    assert!(reader.chomp_greediness());
    assert_eq!(reader.index, 1);
    assert_eq!(reader.next(), Some('x'));
    assert_eq!(reader.parse_repetition_range_vals(), Ok((3, Some(4))));
    assert_eq!(reader.index, 7);
}
