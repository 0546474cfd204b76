use ast::ast::{AstChunk, AstError};
use ast::grammar::AstErrorKind;
use ast::lexer::{ChunkResult, Tokens};

fn iden(s: &str) -> Tokens {
    Tokens::Identifier(s.to_string())
}

fn punct(c: char) -> Tokens {
    Tokens::Punctuator(c)
}

fn puncts(s: &str) -> Vec<Tokens> {
    s.chars().filter(|c| *c != ' ').map(Tokens::Punctuator).collect()
}

fn missing() -> AstError {
    AstError { kind: AstErrorKind::MissingPunctuator, token: None }
}

#[test]
fn new_chunk_starts_at_the_first_token() {
    let chunk = AstChunk::new(ChunkResult(vec![iden("a")]));
    assert!(chunk.tree.is_empty());
    assert_eq!(chunk.lexed, ChunkResult(vec![iden("a")]));
    assert_eq!(chunk.idx, 0);
    let chunk = AstChunk::from_tokens(vec![iden("b")]);
    assert!(chunk.tree.is_empty());
    assert_eq!(chunk.lexed, ChunkResult(vec![iden("b")]));
    assert_eq!(chunk.idx, 0);
}

#[test]
fn next_moves_forward_and_stops_at_the_end() {
    let mut chunk = AstChunk::from_tokens(vec![iden("a"), punct(';')]);
    assert_eq!(chunk.next(), Some(iden("a")));
    assert_eq!(chunk.idx, 1);
    assert_eq!(chunk.next(), Some(punct(';')));
    assert_eq!(chunk.idx, 2);
    assert_eq!(chunk.next(), None);
    assert_eq!(chunk.idx, 2);
    assert_eq!(chunk.lexed, ChunkResult(vec![iden("a"), punct(';')]));
}

#[test]
fn check_puncuator_takes_one_token() {
    let mut chunk = AstChunk::from_tokens(vec![punct('('), punct(')'), iden("a")]);
    assert_eq!(chunk.check_puncuator('('), Ok(true));
    assert_eq!(chunk.idx, 1);
    assert_eq!(chunk.check_puncuator('('), Err(Some(punct(')'))));
    assert_eq!(chunk.idx, 2);
    assert_eq!(chunk.check_puncuator('a'), Err(Some(iden("a"))));
    assert_eq!(chunk.idx, 3);
    assert_eq!(chunk.check_puncuator('('), Err(None));
    assert_eq!(chunk.idx, 3);
}

#[test]
fn check_puncuators_takes_one_token() {
    let mut chunk = AstChunk::from_tokens(vec![punct('('), punct(')'), iden("="), punct(';')]);
    let set = ['=', '(', ';'];
    assert_eq!(chunk.check_puncuators(&set), Ok('('));
    assert_eq!(chunk.check_puncuators(&set), Err(Some(punct(')'))));
    assert_eq!(chunk.check_puncuators(&set), Err(Some(iden("="))));
    assert_eq!(chunk.idx, 3);
    assert_eq!(chunk.check_puncuators(&[]), Err(Some(punct(';'))));
    assert_eq!(chunk.check_puncuators(&set), Err(None));
    assert_eq!(chunk.idx, 4);
}

#[test]
fn till_char_stops_behind_the_first_such_punctuator() {
    let mut chunk =
        AstChunk::from_tokens(vec![iden("a"), punct('('), punct(')'), iden("b"), punct(')')]);
    assert_eq!(chunk.till_char(')'), Ok(vec![iden("a"), punct('(')]));
    assert_eq!(chunk.idx, 3);
    assert_eq!(chunk.till_char(')'), Ok(vec![iden("b")]));
    assert_eq!(chunk.idx, 5);
    assert_eq!(chunk.till_char(')'), Err(missing()));
    assert_eq!(chunk.idx, 5);
}

#[test]
fn till_char_without_the_punctuator_runs_to_the_end() {
    let mut chunk = AstChunk::from_tokens(vec![iden("a"), punct('('), iden(")")]);
    assert_eq!(chunk.till_char(')'), Err(missing()));
    assert_eq!(chunk.idx, 3);
    assert!(chunk.tree.is_empty());
}

#[test]
fn till_seperator_stops_behind_the_semicolon() {
    let mut chunk = AstChunk::from_tokens(vec![iden("a"), punct(':'), punct(';'), punct(';')]);
    assert_eq!(chunk.till_seperator(), Ok(vec![iden("a"), punct(':')]));
    assert_eq!(chunk.idx, 3);
    assert_eq!(chunk.till_seperator(), Ok(vec![]));
    assert_eq!(chunk.idx, 4);
    assert_eq!(chunk.till_seperator(), Err(missing()));
}

#[test]
fn matching_body_of_a_flat_region() {
    let mut chunk = AstChunk::from_tokens(vec![iden("a"), iden("b"), punct('}'), iden("c")]);
    assert_eq!(chunk.get_matching_body('{', '}'), Ok(vec![iden("a"), iden("b")]));
    assert_eq!(chunk.idx, 3);
}

#[test]
fn matching_body_of_an_empty_region() {
    let mut chunk = AstChunk::from_tokens(puncts("} }"));
    assert_eq!(chunk.get_matching_body('{', '}'), Ok(vec![]));
    assert_eq!(chunk.idx, 1);
}

#[test]
fn matching_body_passes_three_nested_pairs() {
    let mut chunk = AstChunk::from_tokens(puncts("{ { { } } } } }"));
    assert_eq!(chunk.get_matching_body('{', '}'), Ok(puncts("{ { { } } }")));
    assert_eq!(chunk.idx, 7);
}

#[test]
fn matching_body_passes_pairs_side_by_side() {
    let mut tokens = puncts("{ } { { } }");
    tokens.insert(1, iden("a"));
    tokens.push(iden("b"));
    let body = tokens.clone();
    tokens.push(punct('}'));
    tokens.push(iden("c"));
    let mut chunk = AstChunk::from_tokens(tokens);
    assert_eq!(chunk.get_matching_body('{', '}'), Ok(body));
    assert_eq!(chunk.idx, 9);
    assert_eq!(chunk.next(), Some(iden("c")));
}

#[test]
fn matching_body_counts_only_its_own_pair() {
    let mut chunk = AstChunk::from_tokens(puncts("( { ) } ) } )"));
    assert_eq!(chunk.get_matching_body('{', '}'), Ok(puncts("( { ) } )")));
    assert_eq!(chunk.idx, 6);
    let mut chunk = AstChunk::from_tokens(puncts("( { ) } ) } )"));
    assert_eq!(chunk.get_matching_body('(', ')'), Ok(puncts("( { ) }")));
    assert_eq!(chunk.idx, 5);
}

#[test]
fn matching_body_without_its_closer_runs_to_the_end() {
    let mut chunk = AstChunk::from_tokens(puncts("{ { } }"));
    assert_eq!(chunk.get_matching_body('{', '}'), Err(missing()));
    assert_eq!(chunk.idx, 4);
    let mut chunk = AstChunk::from_tokens(vec![]);
    assert_eq!(chunk.get_matching_body('{', '}'), Err(missing()));
    assert_eq!(chunk.idx, 0);
}

#[test]
fn matching_body_with_one_punctuator_for_both_never_closes() {
    let mut chunk = AstChunk::from_tokens(puncts("| | |"));
    assert_eq!(chunk.get_matching_body('|', '|'), Err(missing()));
    assert_eq!(chunk.idx, 3);
}
