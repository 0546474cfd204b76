use ast::lexer::{analyze_chunk, Chunk, ChunkResult, Tokens};
use ast::scan::{LexError, LexErrorKind};

fn keyword(s: &str) -> Tokens {
    Tokens::Keyword(s.to_string())
}

fn datatype(s: &str) -> Tokens {
    Tokens::Datatype(s.to_string())
}

fn iden(s: &str) -> Tokens {
    Tokens::Identifier(s.to_string())
}

fn text(s: &str) -> Tokens {
    Tokens::StringLiteral(s.to_string())
}

fn number(s: &str) -> Tokens {
    Tokens::NumberLiteral(s.to_string())
}

fn operator(s: &str) -> Tokens {
    Tokens::Operator(s.to_string())
}

fn comparison(s: &str) -> Tokens {
    Tokens::ComparisonOperator(s.to_string())
}

fn punct(c: char) -> Tokens {
    Tokens::Punctuator(c)
}

fn lex(src: &str) -> Result<Vec<Tokens>, LexError> {
    analyze_chunk(src.to_string()).map(|found| found.0)
}

fn fails(kind: LexErrorKind, offset: usize) -> Result<Vec<Tokens>, LexError> {
    Err(LexError { kind, offset })
}

#[test]
fn empty_source_has_no_tokens() {
    assert_eq!(lex(""), Ok(vec![]));
    assert_eq!(lex("\n\r\n"), Ok(vec![]));
}

#[test]
fn keyword_needs_a_space_behind_it() {
    assert_eq!(lex("bop x;"), Ok(vec![keyword("bop"), iden("x"), punct(';')]));
    assert_eq!(lex("bop:"), Ok(vec![iden("bop"), punct(':')]));
    assert_eq!(lex("beop;"), Ok(vec![iden("beop"), punct(';')]));
    assert_eq!(lex("bop\tx;"), Ok(vec![iden("bop\tx"), punct(';')]));
}

#[test]
fn type_name_needs_a_space_behind_it() {
    assert_eq!(lex("string s;"), Ok(vec![datatype("string"), iden("s"), punct(';')]));
    assert_eq!(lex("string;"), Ok(vec![iden("string"), punct(';')]));
    assert_eq!(lex("func("), Ok(vec![iden("func"), punct('(')]));
}

#[test]
fn every_reserved_word_is_a_keyword() {
    for word in ["beop", "bop", "boop", "beep", "booop"] {
        let src = format!("{} x;", word);
        assert_eq!(lex(&src), Ok(vec![keyword(word), iden("x"), punct(';')]));
    }
}

#[test]
fn every_declarable_type_name_is_a_datatype() {
    for word in ["func", "number", "void", "string"] {
        let src = format!("{} x;", word);
        assert_eq!(lex(&src), Ok(vec![datatype(word), iden("x"), punct(';')]));
    }
}

#[test]
fn bool_is_no_type_name_for_the_scanner() {
    assert_eq!(
        lex("bop bool b : 1;"),
        Ok(vec![keyword("bop"), iden("bool b"), punct(':'), number("1"), punct(';')])
    );
}

#[test]
fn unknown_type_name_is_an_error() {
    assert_eq!(lex("bop char c : 'x';"), fails(LexErrorKind::UnknownDatatype, 8));
    assert_eq!(lex("char "), fails(LexErrorKind::UnknownDatatype, 4));
}

#[test]
fn text_left_in_the_feed_at_the_end_is_dropped() {
    assert_eq!(lex("bop"), Ok(vec![]));
    assert_eq!(lex("beop std; rest"), Ok(vec![keyword("beop"), iden("std"), punct(';')]));
}

#[test]
fn every_punctuator_is_a_token() {
    assert_eq!(
        lex("{};:=()."),
        Ok(vec![
            punct('{'),
            punct('}'),
            punct(';'),
            punct(':'),
            punct('='),
            punct('('),
            punct(')'),
            punct('.'),
        ])
    );
}

#[test]
fn comma_is_no_punctuator() {
    assert_eq!(lex("f(a, b)"), Ok(vec![iden("f"), punct('('), iden("a, b"), punct(')')]));
}

#[test]
fn identifier_is_trimmed() {
    assert_eq!(lex("\t x \t;"), Ok(vec![iden("x"), punct(';')]));
    assert_eq!(lex("  ;"), Ok(vec![punct(';')]));
}

#[test]
fn line_breaks_are_skipped_without_ending_the_feed() {
    assert_eq!(lex("ab\ncd;"), Ok(vec![iden("abcd"), punct(';')]));
    assert_eq!(lex("ab\r\ncd;"), Ok(vec![iden("abcd"), punct(';')]));
}

#[test]
fn comment_runs_to_the_end_of_the_line() {
    assert_eq!(
        lex("// hello; 'x\nbeop std;"),
        Ok(vec![keyword("beop"), iden("std"), punct(';')])
    );
    assert_eq!(
        lex("beop std; // the rest\r\nx;"),
        Ok(vec![keyword("beop"), iden("std"), punct(';'), iden("x"), punct(';')])
    );
}

#[test]
fn comment_at_the_end_of_the_text() {
    assert_eq!(lex("x;// no line break"), Ok(vec![iden("x"), punct(';')]));
    assert_eq!(lex("x;// line break\n"), Ok(vec![iden("x"), punct(';')]));
    assert_eq!(lex("//"), Ok(vec![]));
}

#[test]
fn comment_keeps_the_feed() {
    assert_eq!(lex("ab//c\nd;"), Ok(vec![iden("abd"), punct(';')]));
}

#[test]
fn single_slash_is_no_comment() {
    assert_eq!(lex("a /"), Ok(vec![]));
    assert_eq!(lex("a / b;"), Ok(vec![iden("a / b"), punct(';')]));
    assert_eq!(lex("/ 2;"), Ok(vec![operator("/"), number("2"), punct(';')]));
}

#[test]
fn string_literal_with_each_quote() {
    assert_eq!(lex("\"hello\";"), Ok(vec![text("hello"), punct(';')]));
    assert_eq!(lex("'a' `b`"), Ok(vec![text("a"), text("b")]));
    assert_eq!(lex("'a\"b`c'"), Ok(vec![text("a\"b`c")]));
    assert_eq!(lex("''"), Ok(vec![text("")]));
}

#[test]
fn string_literal_keeps_what_stands_between_the_quotes() {
    assert_eq!(lex("' a; b\n//c '"), Ok(vec![text(" a; b\n//c ")]));
    assert_eq!(lex("x\"s\";"), Ok(vec![iden("x"), text("s"), punct(';')]));
}

#[test]
fn escaped_quote_does_not_end_the_literal() {
    assert_eq!(lex("'it\\'s'"), Ok(vec![text("it\\'s")]));
    assert_eq!(lex("'\\''"), Ok(vec![text("\\'")]));
    assert_eq!(
        lex("\"say \\\"hi\\\"\";"),
        Ok(vec![text("say \\\"hi\\\""), punct(';')])
    );
    assert_eq!(lex("'it\\'s"), fails(LexErrorKind::UnterminatedLiteral, 0));
}

#[test]
fn backslash_stays_in_the_literal() {
    assert_eq!(lex("\"a\\\\\";"), Ok(vec![text("a\\\\"), punct(';')]));
    let tokens = lex("'x\\'y\\\\z'").unwrap();
    match &tokens[0] {
        Tokens::StringLiteral(s) => {
            assert_eq!(s.len(), 7);
            assert_eq!(s.chars().filter(|c| *c == '\\').count(), 3);
        }
        other => panic!("expected a string literal, found {:?}", other),
    }
}

#[test]
fn escaped_backslash_does_not_escape_the_quote() {
    assert_eq!(lex("'a\\\\' b;"), Ok(vec![text("a\\\\"), iden("b"), punct(';')]));
}

#[test]
fn other_quotes_are_plain_characters() {
    assert_eq!(lex("'a\"b' \"c'd\""), Ok(vec![text("a\"b"), text("c'd")]));
    assert_eq!(lex("'a\\\"b'c'"), Ok(vec![text("a\\\"b'c")]));
}

#[test]
fn escape_waits_for_the_next_quote_of_the_literal() {
    assert_eq!(lex("'a\\nb'c';"), Ok(vec![text("a\\nb'c"), punct(';')]));
    assert_eq!(lex("'a\\nb';"), fails(LexErrorKind::UnterminatedLiteral, 0));
}

#[test]
fn unterminated_literal_is_an_error() {
    assert_eq!(lex("\"abc"), fails(LexErrorKind::UnterminatedLiteral, 0));
    assert_eq!(lex(" x 'abc\""), fails(LexErrorKind::UnterminatedLiteral, 3));
    assert_eq!(lex("beop std; `"), fails(LexErrorKind::UnterminatedLiteral, 10));
}

#[test]
fn number_is_read_up_to_the_character_that_ends_it() {
    assert_eq!(lex("12.5;"), Ok(vec![number("12.5"), punct(';')]));
    assert_eq!(lex("x 1;"), Ok(vec![iden("x"), number("1"), punct(';')]));
    assert_eq!(lex("7.;"), Ok(vec![number("7."), punct(';')]));
    assert_eq!(lex("3 4 "), Ok(vec![number("3"), number("4")]));
}

#[test]
fn number_text_is_the_decimal_form_of_a_float() {
    match &lex("12.5;").unwrap()[0] {
        Tokens::NumberLiteral(s) => assert_eq!(s.parse::<f64>(), Ok(12.5)),
        other => panic!("expected a number, found {:?}", other),
    }
    match &lex("7.;").unwrap()[0] {
        Tokens::NumberLiteral(s) => assert_eq!(s.parse::<f64>(), Ok(7.0)),
        other => panic!("expected a number, found {:?}", other),
    }
}

#[test]
fn number_with_two_dots_is_an_error() {
    assert_eq!(lex("1.2.3;"), fails(LexErrorKind::MalformedNumber, 0));
    assert_eq!(lex("x : 1..2 "), fails(LexErrorKind::MalformedNumber, 4));
}

#[test]
fn number_at_the_end_of_the_text_is_dropped() {
    assert_eq!(lex("42"), Ok(vec![]));
    assert_eq!(lex("x 42"), Ok(vec![iden("x")]));
    assert_eq!(lex("1.2.3"), Ok(vec![]));
}

#[test]
fn digit_ends_the_feed() {
    assert_eq!(lex("a1;"), Ok(vec![iden("a"), number("1"), punct(';')]));
}

#[test]
fn operator_is_found_when_it_is_the_whole_feed() {
    assert_eq!(lex("+ 1;"), Ok(vec![operator("+"), number("1"), punct(';')]));
    assert_eq!(lex("- x;"), Ok(vec![operator("-"), iden("x"), punct(';')]));
    assert_eq!(lex("a + b;"), Ok(vec![iden("a + b"), punct(';')]));
    for word in ["+", "-", "*", "/", "|", "^"] {
        let src = format!("{} ;", word);
        assert_eq!(lex(&src), Ok(vec![operator(word), punct(';')]));
    }
}

#[test]
fn comparison_is_found_when_it_is_the_whole_feed() {
    assert_eq!(lex("> x;"), Ok(vec![comparison(">"), iden("x"), punct(';')]));
    assert_eq!(lex("&& x;"), Ok(vec![comparison("&&"), iden("x"), punct(';')]));
    assert_eq!(lex("|| x;"), Ok(vec![operator("|"), operator("|"), iden("x"), punct(';')]));
}

#[test]
fn punctuator_comes_before_a_longer_operator() {
    assert_eq!(lex(">= 1;"), Ok(vec![iden(">"), punct('='), number("1"), punct(';')]));
    assert_eq!(lex("== "), Ok(vec![punct('='), punct('=')]));
    assert_eq!(lex("!= "), Ok(vec![iden("!"), punct('=')]));
}

#[test]
fn one_character_operator_comes_before_a_longer_one() {
    assert_eq!(lex("<< 1;"), Ok(vec![comparison("<"), comparison("<"), number("1"), punct(';')]));
    assert_eq!(lex(">> ;"), Ok(vec![comparison(">"), comparison(">"), punct(';')]));
}

#[test]
fn bytes_are_read_as_characters_one_by_one() {
    assert_eq!(lex("\u{e9};"), Ok(vec![iden("\u{c3}\u{a9}"), punct(';')]));
    assert_eq!(lex("'\u{e9}'"), Ok(vec![text("\u{c3}\u{a9}")]));
}

#[test]
fn white_space_above_ascii_is_trimmed() {
    assert_eq!(lex("x\u{a0};"), Ok(vec![iden("x\u{c2}"), punct(';')]));
    assert_eq!(lex("x\u{85};"), Ok(vec![iden("x\u{c2}"), punct(';')]));
}

#[test]
fn scanner_can_be_stepped() {
    let src = "beop std;".to_string();
    let mut chunk = Chunk::new(&src);
    assert_eq!(chunk.offset(), 0);
    assert!(chunk.has_next());
    assert_eq!(chunk.current(), 'b');
    assert_eq!(chunk.peak_next(), 'e');
    assert!(!chunk.is_newline());
    for _ in 0..4 {
        assert_eq!(chunk.advance(), Ok(()));
    }
    assert_eq!(chunk.offset(), 4);
    assert_eq!(chunk.feed(), "beop");
    assert_eq!(chunk.advance(), Ok(()));
    assert_eq!(chunk.offset(), 4);
    assert_eq!(chunk.feed(), "");
    assert_eq!(chunk.tokenize(), Ok(()));
    assert!(!chunk.has_next());
    assert_eq!(chunk.offset(), 9);
    assert_eq!(chunk.finish(), ChunkResult(vec![keyword("beop"), iden("std"), punct(';')]));
}

#[test]
fn scanner_parts() {
    let src = "abc\ncd".to_string();
    let mut chunk = Chunk::new(&src);
    chunk.consume();
    chunk.skip();
    assert_eq!(chunk.offset(), 2);
    assert!(!chunk.is_newline());
    assert_eq!(chunk.feed(), "a");
    assert_eq!(chunk.clean(), "a");
    assert_eq!(chunk.feed(), "");
    chunk.add_token(punct('.'));
    chunk.skip_line();
    assert_eq!(chunk.offset(), 4);
    chunk.skip_line();
    assert_eq!(chunk.offset(), 6);
    assert!(!chunk.has_next());
    assert_eq!(chunk.finish(), ChunkResult(vec![punct('.')]));
}

#[test]
fn chunk_result_grows_at_the_end() {
    let mut found = ChunkResult::new();
    assert_eq!(found.0.len(), 0);
    found.add(iden("a"));
    found.add(punct(';'));
    assert_eq!(found, ChunkResult(vec![iden("a"), punct(';')]));
}

#[test]
fn token_is_described_by_kind_and_text() {
    assert_eq!(keyword("bop").describe(), "Keyword\tbop");
    assert_eq!(datatype("func").describe(), "Datatype\tfunc");
    assert_eq!(iden("x").describe(), "Iden\tx");
    assert_eq!(text("hi").describe(), "String\thi");
    assert_eq!(number("1.5").describe(), "Number\t1.5");
    assert_eq!(operator("+").describe(), "Operation\t+");
    assert_eq!(comparison("<").describe(), "Comparison\t<");
    assert_eq!(punct(';').describe(), "Punctuator\t;");
}

#[test]
fn token_clone_is_equal() {
    for token in [keyword("bop"), text("a b"), number("1."), punct('{')] {
        assert_eq!(token.clone(), token);
    }
}
