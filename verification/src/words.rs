//! The fixed tables of the language: character classes, reserved words,
//! type names and operators.

use vstd::prelude::*;
use crate::text::spells;

verus! {

/// The two characters that break a line.
pub open spec fn is_newline(c: char) -> bool {
    c == '\n' || c == '\r'
}

/// The eight structural punctuators.
pub open spec fn is_punctuation(c: char) -> bool {
    c == '{' || c == '}' || c == ';' || c == ':' || c == '=' || c == '(' || c == ')' || c == '.'
}

/// The three characters that open and close a string literal.
pub open spec fn is_quote(c: char) -> bool {
    c == '\'' || c == '"' || c == '`'
}

/// The ten decimal digits.
pub open spec fn is_digit(c: char) -> bool {
    '0' <= c <= '9'
}

/// The import keyword.
pub open spec fn import_keyword() -> Seq<char> {
    "beop"@
}

/// The declare keyword.
pub open spec fn declare_keyword() -> Seq<char> {
    "bop"@
}

/// The reserved words: the two keywords in use and three held back.
pub open spec fn is_keyword(t: Seq<char>) -> bool {
    t == "beop"@ || t == "bop"@ || t == "boop"@ || t == "beep"@ || t == "booop"@
}

/// The names that the scanner takes for the name of a type.
pub open spec fn is_type_name(t: Seq<char>) -> bool {
    t == "func"@ || t == "char"@ || t == "number"@ || t == "void"@ || t == "string"@
}

/// The names of the types that a declaration can have.
pub open spec fn is_datatype(t: Seq<char>) -> bool {
    t == "string"@ || t == "number"@ || t == "bool"@ || t == "void"@ || t == "func"@
}

/// The comparison operators.
pub open spec fn is_comparison(t: Seq<char>) -> bool {
    t == "=="@ || t == ">="@ || t == "<="@ || t == ">"@ || t == "<"@ || t == "!="@ || t == "&&"@
        || t == "||"@
}

/// The arithmetic operators.
pub open spec fn is_operation(t: Seq<char>) -> bool {
    t == "+"@ || t == "-"@ || t == "*"@ || t == "/"@ || t == "<<"@ || t == ">>"@ || t == "|"@
        || t == "^"@
}

/// No entry of a table is the empty text.
pub proof fn lemma_words_not_empty(t: Seq<char>)
    requires
        is_keyword(t) || is_type_name(t) || is_datatype(t) || is_comparison(t) || is_operation(t),
    ensures
        t.len() > 0,
{
    reveal_strlit("beop");
    reveal_strlit("bop");
    reveal_strlit("boop");
    reveal_strlit("beep");
    reveal_strlit("booop");
    reveal_strlit("func");
    reveal_strlit("char");
    reveal_strlit("number");
    reveal_strlit("void");
    reveal_strlit("string");
    reveal_strlit("bool");
    reveal_strlit("==");
    reveal_strlit(">=");
    reveal_strlit("<=");
    reveal_strlit(">");
    reveal_strlit("<");
    reveal_strlit("!=");
    reveal_strlit("&&");
    reveal_strlit("||");
    reveal_strlit("+");
    reveal_strlit("-");
    reveal_strlit("*");
    reveal_strlit("/");
    reveal_strlit("<<");
    reveal_strlit(">>");
    reveal_strlit("|");
    reveal_strlit("^");
}

/// Whether `c` breaks a line.
pub fn is_newline_char(c: char) -> (r: bool)
    ensures
        r == is_newline(c),
{
    c == '\n' || c == '\r'
}

/// Whether `c` is a structural punctuator.
pub fn is_punctuation_char(c: char) -> (r: bool)
    ensures
        r == is_punctuation(c),
{
    c == '{' || c == '}' || c == ';' || c == ':' || c == '=' || c == '(' || c == ')' || c == '.'
}

/// Whether `c` opens a string literal.
pub fn is_quote_char(c: char) -> (r: bool)
    ensures
        r == is_quote(c),
{
    c == '\'' || c == '"' || c == '`'
}

/// Whether `c` is a decimal digit.
pub fn is_digit_char(c: char) -> (r: bool)
    ensures
        r == is_digit(c),
{
    '0' <= c && c <= '9'
}

/// Whether `feed[lo..hi]` is a reserved word.
pub fn spells_keyword(feed: &Vec<char>, lo: usize, hi: usize) -> (r: bool)
    requires
        lo <= hi <= feed.len(),
    ensures
        r == is_keyword(feed@.subrange(lo as int, hi as int)),
{
    spells(feed, lo, hi, "beop") || spells(feed, lo, hi, "bop") || spells(feed, lo, hi, "boop")
        || spells(feed, lo, hi, "beep") || spells(feed, lo, hi, "booop")
}

/// Whether `feed[lo..hi]` is a type name of the scanner.
pub fn spells_type_name(feed: &Vec<char>, lo: usize, hi: usize) -> (r: bool)
    requires
        lo <= hi <= feed.len(),
    ensures
        r == is_type_name(feed@.subrange(lo as int, hi as int)),
{
    spells(feed, lo, hi, "func") || spells(feed, lo, hi, "char") || spells(feed, lo, hi, "number")
        || spells(feed, lo, hi, "void") || spells(feed, lo, hi, "string")
}

/// Whether `feed[lo..hi]` names a type that a declaration can have.
pub fn spells_datatype(feed: &Vec<char>, lo: usize, hi: usize) -> (r: bool)
    requires
        lo <= hi <= feed.len(),
    ensures
        r == is_datatype(feed@.subrange(lo as int, hi as int)),
{
    spells(feed, lo, hi, "string") || spells(feed, lo, hi, "number") || spells(feed, lo, hi, "bool")
        || spells(feed, lo, hi, "void") || spells(feed, lo, hi, "func")
}

/// Whether `feed[lo..hi]` is a comparison operator.
pub fn spells_comparison(feed: &Vec<char>, lo: usize, hi: usize) -> (r: bool)
    requires
        lo <= hi <= feed.len(),
    ensures
        r == is_comparison(feed@.subrange(lo as int, hi as int)),
{
    spells(feed, lo, hi, "==") || spells(feed, lo, hi, ">=") || spells(feed, lo, hi, "<=")
        || spells(feed, lo, hi, ">") || spells(feed, lo, hi, "<") || spells(feed, lo, hi, "!=")
        || spells(feed, lo, hi, "&&") || spells(feed, lo, hi, "||")
}

/// Whether `feed[lo..hi]` is an arithmetic operator.
pub fn spells_operation(feed: &Vec<char>, lo: usize, hi: usize) -> (r: bool)
    requires
        lo <= hi <= feed.len(),
    ensures
        r == is_operation(feed@.subrange(lo as int, hi as int)),
{
    spells(feed, lo, hi, "+") || spells(feed, lo, hi, "-") || spells(feed, lo, hi, "*") || spells(
        feed,
        lo,
        hi,
        "/",
    ) || spells(feed, lo, hi, "<<") || spells(feed, lo, hi, ">>") || spells(feed, lo, hi, "|")
        || spells(feed, lo, hi, "^")
}

} // verus!
