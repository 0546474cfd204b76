//! The model of tokenisation: what the scanner emits for a source text,
//! defined one scan step at a time.

use vstd::prelude::*;
use crate::text::{lemma_trim_len, trim};
use crate::words::{
    is_comparison, is_datatype, is_digit, is_keyword, is_newline, is_operation, is_punctuation,
    is_quote, is_type_name, lemma_words_not_empty,
};

verus! {

/// A token as a mathematical value.
pub enum Lexeme {
    Keyword(Seq<char>),
    Datatype(Seq<char>),
    Identifier(Seq<char>),
    StringLiteral(Seq<char>),
    /// A number, held as its decimal text.
    NumberLiteral(Seq<char>),
    Operator(Seq<char>),
    ComparisonOperator(Seq<char>),
    Punctuator(char),
}

/// The name of the kind of a token, as diagnostics show it.
pub open spec fn kind_name(token: Lexeme) -> Seq<char> {
    match token {
        Lexeme::Keyword(_) => "Keyword"@,
        Lexeme::Datatype(_) => "Datatype"@,
        Lexeme::Identifier(_) => "Iden"@,
        Lexeme::StringLiteral(_) => "String"@,
        Lexeme::NumberLiteral(_) => "Number"@,
        Lexeme::Operator(_) => "Operation"@,
        Lexeme::ComparisonOperator(_) => "Comparison"@,
        Lexeme::Punctuator(_) => "Punctuator"@,
    }
}

/// The text that a token holds.
pub open spec fn payload(token: Lexeme) -> Seq<char> {
    match token {
        Lexeme::Keyword(t) => t,
        Lexeme::Datatype(t) => t,
        Lexeme::Identifier(t) => t,
        Lexeme::StringLiteral(t) => t,
        Lexeme::NumberLiteral(t) => t,
        Lexeme::Operator(t) => t,
        Lexeme::ComparisonOperator(t) => t,
        Lexeme::Punctuator(c) => seq![c],
    }
}

/// The kinds of fault that end a scan.
#[derive(Debug, Clone, Copy, PartialEq, Eq)]
pub enum LexErrorKind {
    /// A string literal whose closing quote never comes.
    UnterminatedLiteral,
    /// A run of digits and dots that is no decimal number.
    MalformedNumber,
    /// A type name that the scanner knows and no declaration can have.
    UnknownDatatype,
}

/// Why a source text has no tokens, and the byte offset at which the
/// scanner gave up: the opening quote of an unterminated literal, the first
/// digit of a malformed number, the separator behind an unknown type name.
#[derive(Debug, Clone, Copy, PartialEq, Eq)]
pub struct LexError {
    pub kind: LexErrorKind,
    pub offset: usize,
}

/// The effect of one scan step: the tokens it emits, and the position and
/// the feed it leaves.
pub struct Step {
    pub emitted: Seq<Lexeme>,
    pub idx: nat,
    pub feed: Seq<char>,
}

/// The pending text as an identifier, if there is any.
pub open spec fn flush(t: Seq<char>) -> Seq<Lexeme> {
    if t.len() != 0 {
        seq![Lexeme::Identifier(t)]
    } else {
        seq![]
    }
}

/// Whether a line comment starts at `idx`: two slashes in a row.
pub open spec fn opens_comment(src: Seq<char>, idx: nat) -> bool {
    idx + 1 < src.len() && src[idx as int] == '/' && src[idx as int + 1] == '/'
}

/// The number of characters from `i` up to the next line break or the end.
pub open spec fn line_rest(src: Seq<char>, i: nat) -> nat
    decreases src.len() - i,
{
    if i >= src.len() || is_newline(src[i as int]) {
        0
    } else {
        1 + line_rest(src, i + 1)
    }
}

/// Where scanning resumes after the comment that starts at `idx`: behind the
/// line break that ends it, or at the end of the text.
pub open spec fn comment_end(src: Seq<char>, idx: nat) -> nat {
    let stop = idx + 1 + line_rest(src, idx + 1);
    if stop < src.len() {
        stop + 1
    } else {
        stop
    }
}

/// `r` with `k` added to the length it holds.
pub open spec fn longer(r: Option<nat>, k: nat) -> Option<nat> {
    match r {
        Some(n) => Some(n + k),
        None => None,
    }
}

/// The escaped state behind the character `c` of a literal whose quote is
/// `quote`, when it was `escaped` in front of it: a backslash flips the
/// state, a quote ends it, and any other character leaves it as it is.
pub open spec fn next_escape(c: char, quote: char, escaped: bool) -> bool {
    if c == '\\' {
        !escaped
    } else if c == quote {
        false
    } else {
        escaped
    }
}

/// The length of the literal whose text starts at `i` and whose quote is
/// `quote`, or `None` if it never closes. The literal closes at the first
/// `quote` met outside the escaped state; a quote met in the escaped state
/// is part of the text, and so is every backslash.
pub open spec fn literal_len(src: Seq<char>, i: nat, quote: char, escaped: bool) -> Option<nat>
    decreases src.len() - i,
{
    if i >= src.len() {
        None
    } else if src[i as int] == quote && !escaped {
        Some(0)
    } else {
        longer(literal_len(src, i + 1, quote, next_escape(src[i as int], quote, escaped)), 1)
    }
}

/// The number of digits and dots in a row from `i` on.
pub open spec fn number_len(src: Seq<char>, i: nat) -> nat
    decreases src.len() - i,
{
    if i < src.len() && (is_digit(src[i as int]) || src[i as int] == '.') {
        1 + number_len(src, i + 1)
    } else {
        0
    }
}

/// The number of dots in `text`.
pub open spec fn count_dots(text: Seq<char>) -> nat
    decreases text.len(),
{
    if text.len() == 0 {
        0
    } else {
        count_dots(text.drop_last()) + if text.last() == '.' {
            1nat
        } else {
            0nat
        }
    }
}

/// The step taken when the current character `c` is none of the special
/// ones. The trimmed feed is held against the tables, each entry as a whole:
/// a reserved word or a type name counts only in front of a plain space, an
/// operator in front of any character. On a match the token is emitted and
/// the feed emptied, and `c` stays the current character; a type name that
/// no declaration can have is the error. Without a match `c` joins the feed.
pub open spec fn classify(idx: nat, feed: Seq<char>, c: char) -> Result<Step, LexError> {
    let t = trim(feed);
    if is_keyword(t) && c == ' ' {
        Ok(Step { emitted: seq![Lexeme::Keyword(t)], idx, feed: seq![] })
    } else if is_type_name(t) && c == ' ' {
        if is_datatype(t) {
            Ok(Step { emitted: seq![Lexeme::Datatype(t)], idx, feed: seq![] })
        } else {
            Err(LexError { kind: LexErrorKind::UnknownDatatype, offset: idx as usize })
        }
    } else if is_comparison(t) {
        Ok(Step { emitted: seq![Lexeme::ComparisonOperator(t)], idx, feed: seq![] })
    } else if is_operation(t) {
        Ok(Step { emitted: seq![Lexeme::Operator(t)], idx, feed: seq![] })
    } else {
        Ok(Step { emitted: seq![], idx: idx + 1, feed: feed.push(c) })
    }
}

/// One scan step at position `idx` with the pending text `feed`. The
/// current character decides, in this order:
/// - a line break is stepped over;
/// - two slashes open a comment, which is stepped over with its line;
/// - a structural punctuator ends the feed, whose trimmed text is emitted as
///   an identifier unless it is empty, and is emitted itself;
/// - a quote ends the feed in the same way and opens a string literal, which
///   is emitted with the text between the quotes, or is the error if it
///   never closes;
/// - a digit ends the feed in the same way and opens a number, which runs
///   over digits and dots and is emitted if it has at most one dot, or is the
///   error if it has more; a number that runs to the end of the text is not
///   emitted and stays in the feed;
/// - for any other character see `classify`.
pub open spec fn step(src: Seq<char>, idx: nat, feed: Seq<char>) -> Result<Step, LexError>
    recommends
        idx < src.len(),
{
    let c = src[idx as int];
    let t = trim(feed);
    if is_newline(c) {
        Ok(Step { emitted: seq![], idx: idx + 1, feed })
    } else if opens_comment(src, idx) {
        Ok(Step { emitted: seq![], idx: comment_end(src, idx), feed })
    } else if is_punctuation(c) {
        Ok(Step { emitted: flush(t).push(Lexeme::Punctuator(c)), idx: idx + 1, feed: seq![] })
    } else if is_quote(c) {
        match literal_len(src, idx + 1, c, false) {
            Some(n) => Ok(
                Step {
                    emitted: flush(t).push(
                        Lexeme::StringLiteral(src.subrange(idx as int + 1, idx as int + 1 + n)),
                    ),
                    idx: idx + n + 2,
                    feed: seq![],
                },
            ),
            None => Err(LexError { kind: LexErrorKind::UnterminatedLiteral, offset: idx as usize }),
        }
    } else if is_digit(c) {
        let end = idx + number_len(src, idx);
        let text = src.subrange(idx as int, end as int);
        if end >= src.len() {
            Ok(Step { emitted: flush(t), idx: end, feed: text })
        } else if count_dots(text) > 1 {
            Err(LexError { kind: LexErrorKind::MalformedNumber, offset: idx as usize })
        } else {
            Ok(Step { emitted: flush(t).push(Lexeme::NumberLiteral(text)), idx: end, feed: seq![] })
        }
    } else {
        classify(idx, feed, c)
    }
}

/// `pre` put in front of the tokens of `rest`, if there are any.
pub open spec fn prepend(pre: Seq<Lexeme>, rest: Result<Seq<Lexeme>, LexError>) -> Result<
    Seq<Lexeme>,
    LexError,
> {
    match rest {
        Ok(tokens) => Ok(pre + tokens),
        Err(e) => Err(e),
    }
}

/// The tokens emitted from position `idx` on, with `feed` pending, or the
/// first error met. What is left in the feed at the end of the text is
/// emitted by no step.
pub open spec fn scan(src: Seq<char>, idx: nat, feed: Seq<char>) -> Result<Seq<Lexeme>, LexError>
    decreases src.len() - idx, feed.len(),
{
    if idx >= src.len() {
        Ok(seq![])
    } else {
        match step(src, idx, feed) {
            Ok(s) => {
                proof {
                    lemma_step_progress(src, idx, feed);
                }
                prepend(s.emitted, scan(src, s.idx, s.feed))
            },
            Err(e) => Err(e),
        }
    }
}

/// The tokens of a whole source text.
pub open spec fn tokens_of(src: Seq<char>) -> Result<Seq<Lexeme>, LexError> {
    scan(src, 0, seq![])
}

/// The rest of a line ends inside the text.
pub proof fn lemma_line_rest_bound(src: Seq<char>, i: nat)
    requires
        i <= src.len(),
    ensures
        i + line_rest(src, i) <= src.len(),
    decreases src.len() - i,
{
    if !(i >= src.len() || is_newline(src[i as int])) {
        lemma_line_rest_bound(src, i + 1);
    }
}

/// The quote that closes a literal stands inside the text.
pub proof fn lemma_literal_len_bound(src: Seq<char>, i: nat, quote: char, escaped: bool)
    requires
        i <= src.len(),
    ensures
        literal_len(src, i, quote, escaped) matches Some(n) ==> i + n < src.len(),
    decreases src.len() - i,
{
    if i < src.len() && !(src[i as int] == quote && !escaped) {
        lemma_literal_len_bound(src, i + 1, quote, next_escape(src[i as int], quote, escaped));
    }
}

/// A run of digits and dots ends inside the text.
pub proof fn lemma_number_len_bound(src: Seq<char>, i: nat)
    requires
        i <= src.len(),
    ensures
        i + number_len(src, i) <= src.len(),
    decreases src.len() - i,
{
    if i < src.len() && (is_digit(src[i as int]) || src[i as int] == '.') {
        lemma_number_len_bound(src, i + 1);
    }
}

/// Every step stays inside the text, and either moves forward or empties a
/// feed that was not empty.
pub proof fn lemma_step_progress(src: Seq<char>, idx: nat, feed: Seq<char>)
    requires
        idx < src.len(),
    ensures
        step(src, idx, feed) matches Ok(s) ==> s.idx <= src.len() && (s.idx > idx || (s.idx == idx
            && s.feed.len() < feed.len())),
{
    let c = src[idx as int];
    let t = trim(feed);
    lemma_line_rest_bound(src, idx + 1);
    lemma_literal_len_bound(src, idx + 1, c, false);
    lemma_number_len_bound(src, idx);
    lemma_trim_len(feed);
    if is_keyword(t) || is_type_name(t) || is_comparison(t) || is_operation(t) {
        lemma_words_not_empty(t);
    }
}

/// Whether the scanner is in the escaped state at `to` in a literal whose
/// quote is `quote`, when it was in the state `initial` at `from`.
pub open spec fn escaped_at(src: Seq<char>, from: nat, to: nat, quote: char, initial: bool)
    -> bool
    decreases to - from,
{
    if from >= to || from >= src.len() {
        initial
    } else {
        escaped_at(src, from + 1, to, quote, next_escape(src[from as int], quote, initial))
    }
}

/// The escaped state one character further on.
pub proof fn lemma_escape_step(src: Seq<char>, from: nat, to: nat, quote: char, initial: bool)
    requires
        from <= to < src.len(),
    ensures
        escaped_at(src, from, to + 1, quote, initial) == next_escape(
            src[to as int],
            quote,
            escaped_at(src, from, to, quote, initial),
        ),
    decreases to - from,
{
    if from < to {
        lemma_escape_step(src, from + 1, to, quote, next_escape(src[from as int], quote, initial));
    } else {
        let then = next_escape(src[from as int], quote, initial);
        assert(escaped_at(src, from + 1, to + 1, quote, then) == then);
    }
}

/// A string literal closes at the first quote that the scanner meets outside
/// the escaped state: it closes at no earlier such quote, and a quote met in
/// the escaped state never closes it.
pub proof fn lemma_literal_closes_at_first_free_quote(
    src: Seq<char>,
    start: nat,
    quote: char,
    escaped: bool,
    n: nat,
)
    requires
        literal_len(src, start, quote, escaped) == Some(n),
    ensures
        start + n < src.len(),
        src[start as int + n] == quote,
        !escaped_at(src, start, start + n, quote, escaped),
        forall|k: nat|
            k < n ==> !(src[start as int + k] == quote && !#[trigger] escaped_at(
                src,
                start,
                start + k,
                quote,
                escaped,
            )),
    decreases src.len() - start,
{
    if src[start as int] == quote && !escaped {
    } else {
        let then = next_escape(src[start as int], quote, escaped);
        lemma_literal_closes_at_first_free_quote(src, start + 1, quote, then, (n - 1) as nat);
        assert forall|k: nat| k < n implies !(src[start as int + k] == quote && !#[trigger] escaped_at(
            src,
            start,
            start + k,
            quote,
            escaped,
        )) by {
            if k > 0 {
                let j = (k - 1) as nat;
                assert(escaped_at(src, start + 1, start + 1 + j, quote, then) == escaped_at(
                    src,
                    start,
                    start + k,
                    quote,
                    escaped,
                ));
            }
        }
    }
}

/// The step that reads a string literal emits the source between the two
/// quotes as it stands, backslashes included, and resumes behind the
/// closing quote. A quote inside the literal that directly follows a
/// backslash met outside the escaped state is part of the text.
pub proof fn lemma_literal_keeps_escapes(src: Seq<char>, idx: nat, feed: Seq<char>, n: nat)
    requires
        idx < src.len(),
        is_quote(src[idx as int]),
        literal_len(src, idx + 1, src[idx as int], false) == Some(n),
    ensures
        step(src, idx, feed) matches Ok(s) && s.idx == idx + n + 2 && s.emitted.last()
            == Lexeme::StringLiteral(src.subrange(idx as int + 1, idx as int + 1 + n)),
        forall|k: nat|
            #![trigger src[idx as int + 1 + k]]
            idx + 2 + k < src.len() && src[idx as int + 1 + k] == '\\' && !escaped_at(
                src,
                idx + 1,
                idx + 1 + k,
                src[idx as int],
                false,
            ) && src[idx as int + 2 + k] == src[idx as int] && k < n ==> k + 1 < n && src.subrange(
                idx as int + 1,
                idx as int + 1 + n,
            )[k as int] == '\\' && src.subrange(idx as int + 1, idx as int + 1 + n)[k as int + 1]
                == src[idx as int],
{
    let quote = src[idx as int];
    lemma_literal_closes_at_first_free_quote(src, idx + 1, quote, false, n);
    assert forall|k: nat|
        #![trigger src[idx as int + 1 + k]]
        idx + 2 + k < src.len() && src[idx as int + 1 + k] == '\\' && !escaped_at(
            src,
            idx + 1,
            idx + 1 + k,
            quote,
            false,
        ) && src[idx as int + 2 + k] == quote && k < n implies k + 1 < n by {
        lemma_escape_step(src, idx + 1, idx + 1 + k, quote, false);
        assert(escaped_at(src, idx + 1, idx + 1 + (k + 1), quote, false));
    }
}

/// A keyword or a type name is emitted only by a step whose current
/// character is a plain space.
pub proof fn lemma_reserved_word_needs_space(src: Seq<char>, idx: nat, feed: Seq<char>, k: int)
    requires
        idx < src.len(),
        step(src, idx, feed) matches Ok(s) && 0 <= k < s.emitted.len() && (s.emitted[k]
            is Keyword || s.emitted[k] is Datatype),
    ensures
        src[idx as int] == ' ',
        step(src, idx, feed) matches Ok(s) && (s.emitted == seq![Lexeme::Keyword(trim(feed))]
            || s.emitted == seq![Lexeme::Datatype(trim(feed))]),
{
}

/// A reserved word that is directly followed by a structural punctuator is
/// emitted as an identifier, and the punctuator behind it.
pub proof fn lemma_reserved_word_before_punctuator(src: Seq<char>, idx: nat, feed: Seq<char>)
    requires
        idx < src.len(),
        is_punctuation(src[idx as int]),
        is_keyword(trim(feed)) || is_type_name(trim(feed)),
    ensures
        step(src, idx, feed) == Ok::<Step, LexError>(
            Step {
                emitted: seq![
                    Lexeme::Identifier(trim(feed)),
                    Lexeme::Punctuator(src[idx as int]),
                ],
                idx: idx + 1,
                feed: seq![],
            },
        ),
{
    lemma_words_not_empty(trim(feed));
    assert(flush(trim(feed)).push(Lexeme::Punctuator(src[idx as int])) =~= seq![
        Lexeme::Identifier(trim(feed)),
        Lexeme::Punctuator(src[idx as int]),
    ]);
}

/// The first error ends the scan: what a failing step reports is the result
/// of the whole scan, and so is what the rest of the scan reports.
pub proof fn lemma_scan_fails_fast(src: Seq<char>, idx: nat, feed: Seq<char>)
    requires
        idx < src.len(),
    ensures
        match step(src, idx, feed) {
            Err(e) => scan(src, idx, feed) == Err::<Seq<Lexeme>, LexError>(e),
            Ok(s) => scan(src, s.idx, s.feed) matches Err(e) ==> scan(src, idx, feed) == Err::<
                Seq<Lexeme>,
                LexError,
            >(e),
        },
{
}

/// A string literal that never closes has no tokens.
pub proof fn lemma_open_literal_fails(src: Seq<char>, idx: nat, feed: Seq<char>)
    requires
        idx < src.len(),
        is_quote(src[idx as int]),
        literal_len(src, idx + 1, src[idx as int], false) is None,
    ensures
        scan(src, idx, feed) == Err::<Seq<Lexeme>, LexError>(
            LexError { kind: LexErrorKind::UnterminatedLiteral, offset: idx as usize },
        ),
{
}

/// A number with two dots or more, read up to the character that ends it,
/// has no tokens.
pub proof fn lemma_two_dots_fail(src: Seq<char>, idx: nat, feed: Seq<char>)
    requires
        idx < src.len(),
        is_digit(src[idx as int]),
        idx + number_len(src, idx) < src.len(),
        count_dots(src.subrange(idx as int, idx as int + number_len(src, idx))) >= 2,
    ensures
        scan(src, idx, feed) == Err::<Seq<Lexeme>, LexError>(
            LexError { kind: LexErrorKind::MalformedNumber, offset: idx as usize },
        ),
{
}

/// No type name is a keyword.
pub proof fn lemma_type_name_is_no_keyword(t: Seq<char>)
    requires
        is_type_name(t),
    ensures
        !is_keyword(t),
{
    reveal_strlit("beop");
    reveal_strlit("bop");
    reveal_strlit("boop");
    reveal_strlit("beep");
    reveal_strlit("booop");
    reveal_strlit("func");
    reveal_strlit("char");
    reveal_strlit("number");
    reveal_strlit("void");
    reveal_strlit("string");
    if is_keyword(t) {
        assert(t[0] == 'b');
    }
}

/// A type name that no declaration can have, followed by a space, has no
/// tokens.
pub proof fn lemma_unknown_type_name_fails(src: Seq<char>, idx: nat, feed: Seq<char>)
    requires
        idx < src.len(),
        src[idx as int] == ' ',
        is_type_name(trim(feed)),
        !is_datatype(trim(feed)),
    ensures
        scan(src, idx, feed) == Err::<Seq<Lexeme>, LexError>(
            LexError { kind: LexErrorKind::UnknownDatatype, offset: idx as usize },
        ),
{
    lemma_type_name_is_no_keyword(trim(feed));
}

/// A decimal number as the scanner accepts it: digits with at most one dot
/// among them, the first character a digit.
pub open spec fn is_decimal(text: Seq<char>) -> bool {
    &&& text.len() > 0
    &&& is_digit(text[0])
    &&& forall|j: int| 0 <= j < text.len() ==> is_digit(#[trigger] text[j]) || text[j] == '.'
    &&& count_dots(text) <= 1
}

/// The characters that `number_len` counts are digits and dots.
pub proof fn lemma_number_run(src: Seq<char>, i: nat)
    ensures
        i + number_len(src, i) <= src.len() || number_len(src, i) == 0,
        forall|j: int|
            i <= j < i + number_len(src, i) ==> is_digit(#[trigger] src[j]) || src[j] == '.',
    decreases src.len() - i,
{
    if i < src.len() && (is_digit(src[i as int]) || src[i as int] == '.') {
        lemma_number_run(src, i + 1);
    }
}

/// Every number that a step emits is a decimal number.
pub proof fn lemma_number_is_decimal(src: Seq<char>, idx: nat, feed: Seq<char>, k: int)
    requires
        idx < src.len(),
        step(src, idx, feed) matches Ok(s) && 0 <= k < s.emitted.len() && s.emitted[k]
            is NumberLiteral,
    ensures
        step(src, idx, feed) matches Ok(s) && s.emitted[k] matches Lexeme::NumberLiteral(text)
            && is_decimal(text),
{
    lemma_number_run(src, idx);
}

} // verus!
