//! The tokenizer: a single left-to-right pass over the bytes of a source
//! text, with one buffer (the feed) for the characters not yet classified.

use vstd::prelude::*;
use vstd::string::*;
use vstd::utf8::{encode_utf8, is_ascii_chars, is_ascii_chars_encode_utf8};
use crate::scan::{
    classify, comment_end, count_dots, flush, kind_name, lemma_step_progress, line_rest,
    literal_len, longer, number_len, payload, prepend, scan, step, tokens_of, LexError,
    LexErrorKind, Lexeme,
};
use crate::text::{push_char, text_of, trim, trim_bounds, widen};
use crate::words::{
    is_newline, is_digit_char, is_newline_char, is_punctuation_char, is_quote_char,
    spells_comparison, spells_datatype, spells_keyword, spells_operation, spells_type_name,
};

verus! {

/// A token. A number holds the decimal text it was written with.
#[derive(Debug, PartialEq, Eq)]
pub enum Tokens {
    Keyword(String),
    Datatype(String),
    Identifier(String),
    StringLiteral(String),
    NumberLiteral(String),
    Operator(String),
    ComparisonOperator(String),
    Punctuator(char),
}

impl View for Tokens {
    type V = Lexeme;

    open spec fn view(&self) -> Lexeme {
        match self {
            Tokens::Keyword(s) => Lexeme::Keyword(s@),
            Tokens::Datatype(s) => Lexeme::Datatype(s@),
            Tokens::Identifier(s) => Lexeme::Identifier(s@),
            Tokens::StringLiteral(s) => Lexeme::StringLiteral(s@),
            Tokens::NumberLiteral(s) => Lexeme::NumberLiteral(s@),
            Tokens::Operator(s) => Lexeme::Operator(s@),
            Tokens::ComparisonOperator(s) => Lexeme::ComparisonOperator(s@),
            Tokens::Punctuator(c) => Lexeme::Punctuator(*c),
        }
    }
}

/// A clone of a token is equal to it.
impl Clone for Tokens {
    fn clone(&self) -> (r: Self)
        ensures
            r == *self,
    {
        match self {
            Tokens::Keyword(s) => Tokens::Keyword(s.clone()),
            Tokens::Datatype(s) => Tokens::Datatype(s.clone()),
            Tokens::Identifier(s) => Tokens::Identifier(s.clone()),
            Tokens::StringLiteral(s) => Tokens::StringLiteral(s.clone()),
            Tokens::NumberLiteral(s) => Tokens::NumberLiteral(s.clone()),
            Tokens::Operator(s) => Tokens::Operator(s.clone()),
            Tokens::ComparisonOperator(s) => Tokens::ComparisonOperator(s.clone()),
            Tokens::Punctuator(c) => Tokens::Punctuator(*c),
        }
    }
}

impl Tokens {
    /// The token as a line for diagnostics: the name of its kind, a tab,
    /// and its text.
    pub fn describe(&self) -> (s: String)
        ensures
            s@ == kind_name(self@).push('\t') + payload(self@),
    {
        match self {
            Tokens::Keyword(t) => labelled("Keyword", t.as_str()),
            Tokens::Datatype(t) => labelled("Datatype", t.as_str()),
            Tokens::Identifier(t) => labelled("Iden", t.as_str()),
            Tokens::StringLiteral(t) => labelled("String", t.as_str()),
            Tokens::NumberLiteral(t) => labelled("Number", t.as_str()),
            Tokens::Operator(t) => labelled("Operation", t.as_str()),
            Tokens::ComparisonOperator(t) => labelled("Comparison", t.as_str()),
            Tokens::Punctuator(c) => {
                let mut s = String::from_str("Punctuator");
                push_char(&mut s, '\t');
                push_char(&mut s, *c);
                assert(s@ =~= "Punctuator"@.push('\t') + seq![*c]);
                s
            },
        }
    }
}

/// `name`, a tab, and `text`.
fn labelled(name: &str, text: &str) -> (s: String)
    ensures
        s@ == name@.push('\t') + text@,
{
    let mut s = String::from_str(name);
    push_char(&mut s, '\t');
    s.append(text);
    s
}

/// The tokens in `v` as mathematical values.
pub open spec fn lexemes(v: Seq<Tokens>) -> Seq<Lexeme> {
    v.map_values(|t: Tokens| t@)
}

/// The tokens of one source unit, in the order in which they were scanned.
#[derive(Debug, PartialEq, Eq)]
pub struct ChunkResult(pub Vec<Tokens>);

impl View for ChunkResult {
    type V = Seq<Lexeme>;

    open spec fn view(&self) -> Seq<Lexeme> {
        lexemes(self.0@)
    }
}

impl ChunkResult {
    /// No tokens yet.
    pub fn new() -> (r: Self)
        ensures
            r@ == Seq::<Lexeme>::empty(),
    {
        let r = Self(Vec::new());
        assert(r@ =~= Seq::<Lexeme>::empty());
        r
    }

    /// Appends a token.
    pub fn add(&mut self, token: Tokens)
        ensures
            final(self)@ == old(self)@.push(token@),
    {
        self.0.push(token);
        assert(self@ =~= old(self)@.push(token@));
    }
}

/// The characters that the scanner reads for a text: the bytes of its UTF-8
/// form, each taken as one character.
pub open spec fn source_chars(text: Seq<char>) -> Seq<char> {
    widen(encode_utf8(text))
}

/// A text of ASCII characters is scanned as it stands.
pub proof fn lemma_ascii_source(text: Seq<char>)
    requires
        is_ascii_chars(text),
    ensures
        source_chars(text) == text,
{
    is_ascii_chars_encode_utf8(text);
    assert(source_chars(text) =~= text);
}

/// A scanner at work on one source text.
pub struct Chunk<'a> {
    bytes: &'a [u8],
    current_feed: Vec<char>,
    idx: usize,
    result: ChunkResult,
}

impl<'a> Chunk<'a> {
    /// The characters being scanned.
    pub closed spec fn source(&self) -> Seq<char> {
        widen(self.bytes@)
    }

    /// The index of the current character.
    pub closed spec fn position(&self) -> nat {
        self.idx as nat
    }

    /// The feed: the characters read and not yet classified.
    pub closed spec fn pending(&self) -> Seq<char> {
        self.current_feed@
    }

    /// The tokens emitted so far.
    pub closed spec fn emitted(&self) -> Seq<Lexeme> {
        self.result@
    }

    /// The position is inside the text or at its end.
    pub closed spec fn wf(&self) -> bool {
        self.idx <= self.bytes@.len() <= usize::MAX
    }

    /// A scanner at the start of `src`, with an empty feed and no tokens.
    pub fn new(src: &'a String) -> (c: Self)
        ensures
            c.wf(),
            c.source() == source_chars(src@),
            c.position() == 0,
            c.pending() == Seq::<char>::empty(),
            c.emitted() == Seq::<Lexeme>::empty(),
    {
        let bytes = src.as_str().as_bytes();
        // The length of a slice fits in `usize`: asking for it tells the verifier so.
        let _ = bytes.len();
        Self { bytes, current_feed: Vec::new(), idx: 0, result: ChunkResult::new() }
    }

    /// The byte offset of the current character.
    pub fn offset(&self) -> (r: usize)
        ensures
            r == self.position(),
    {
        self.idx
    }

    /// Gives up the scanner for the tokens it has emitted.
    pub fn finish(self) -> (r: ChunkResult)
        ensures
            r@ == self.emitted(),
    {
        self.result
    }

    /// Whether there is a current character.
    pub fn has_next(&self) -> (r: bool)
        ensures
            r == (self.position() < self.source().len()),
    {
        self.bytes.len() > self.idx
    }

    /// The character behind the current one.
    pub fn peak_next(&self) -> (c: char)
        requires
            self.wf(),
            self.position() + 1 < self.source().len(),
        ensures
            c == self.source()[self.position() as int + 1],
    {
        self.bytes[self.idx + 1] as char
    }

    /// The current character.
    pub fn current(&self) -> (c: char)
        requires
            self.position() < self.source().len(),
        ensures
            c == self.source()[self.position() as int],
    {
        self.bytes[self.idx] as char
    }

    /// Moves the current character into the feed.
    pub fn consume(&mut self)
        requires
            old(self).wf(),
            old(self).position() < old(self).source().len(),
        ensures
            final(self).source() == old(self).source(),
            final(self).position() == old(self).position() + 1,
            final(self).pending() == old(self).pending().push(
                old(self).source()[old(self).position() as int],
            ),
            final(self).emitted() == old(self).emitted(),
            final(self).wf(),
    {
        let c = self.current();
        self.current_feed.push(c);
        self.idx += 1;
    }

    /// Steps over the current character.
    pub fn skip(&mut self)
        requires
            old(self).wf(),
            old(self).position() < old(self).source().len(),
        ensures
            final(self).source() == old(self).source(),
            final(self).position() == old(self).position() + 1,
            final(self).pending() == old(self).pending(),
            final(self).emitted() == old(self).emitted(),
            final(self).wf(),
    {
        self.idx += 1;
    }

    /// The feed as a string.
    pub fn feed(&self) -> (s: String)
        ensures
            s@ == self.pending(),
    {
        let s = text_of(&self.current_feed, 0, self.current_feed.len());
        assert(self.current_feed@.subrange(0, self.current_feed@.len() as int)
            =~= self.current_feed@);
        s
    }

    /// Empties the feed and returns what it held.
    pub fn clean(&mut self) -> (s: String)
        ensures
            s@ == old(self).pending(),
            final(self).source() == old(self).source(),
            final(self).position() == old(self).position(),
            final(self).pending() == Seq::<char>::empty(),
            final(self).emitted() == old(self).emitted(),
            final(self).wf() == old(self).wf(),
    {
        let s = self.feed();
        self.current_feed = Vec::new();
        s
    }

    /// Whether the current character is a line break.
    pub fn is_newline(&self) -> (r: bool)
        requires
            self.position() < self.source().len(),
        ensures
            r == is_newline(self.source()[self.position() as int]),
    {
        let c = self.current();
        is_newline_char(c)
    }

    /// Leaves a line comment: moves behind the next line break, or to the
    /// end of the text if the comment has none.
    pub fn skip_line(&mut self)
        requires
            old(self).wf(),
            old(self).position() < old(self).source().len(),
        ensures
            final(self).source() == old(self).source(),
            final(self).position() == comment_end(old(self).source(), old(self).position()),
            final(self).pending() == old(self).pending(),
            final(self).emitted() == old(self).emitted(),
            final(self).wf(),
    {
        let ghost start = self.idx;
        self.skip();
        while self.has_next()
            invariant
                self.wf(),
                start == old(self).position(),
                start < self.idx,
                self.source() == old(self).source(),
                self.pending() == old(self).pending(),
                self.emitted() == old(self).emitted(),
                start + 1 + line_rest(self.source(), (start + 1) as nat) == self.idx + line_rest(
                    self.source(),
                    self.idx as nat,
                ),
            decreases self.bytes@.len() - self.idx,
        {
            if self.is_newline() {
                self.skip();
                return ;
            }
            self.skip();
        }
    }

    /// Emits a token.
    pub fn add_token(&mut self, token: Tokens)
        ensures
            final(self).source() == old(self).source(),
            final(self).position() == old(self).position(),
            final(self).pending() == old(self).pending(),
            final(self).emitted() == old(self).emitted().push(token@),
            final(self).wf() == old(self).wf(),
    {
        self.result.add(token)
    }

    /// Emits the text `feed[lo..hi]` as an identifier, unless it is empty.
    fn flush_feed(&mut self, lo: usize, hi: usize)
        requires
            lo <= hi <= old(self).pending().len(),
        ensures
            final(self).source() == old(self).source(),
            final(self).position() == old(self).position(),
            final(self).pending() == old(self).pending(),
            final(self).emitted() == old(self).emitted() + flush(
                old(self).pending().subrange(lo as int, hi as int),
            ),
            final(self).wf() == old(self).wf(),
    {
        if hi != lo {
            let text = text_of(&self.current_feed, lo, hi);
            self.add_token(Tokens::Identifier(text));
            assert(self.emitted() =~= old(self).emitted() + flush(
                old(self).pending().subrange(lo as int, hi as int),
            ));
        } else {
            assert(self.emitted() =~= old(self).emitted() + flush(
                old(self).pending().subrange(lo as int, hi as int),
            ));
        }
    }

    /// Reads a string literal whose opening quote is the current character.
    fn read_literal(&mut self, quote: char) -> (r: Result<(), LexError>)
        requires
            old(self).wf(),
            old(self).position() < old(self).source().len(),
            old(self).pending().len() == 0,
        ensures
            final(self).source() == old(self).source(),
            match literal_len(old(self).source(), old(self).position() + 1, quote, false) {
                Some(n) => {
                    &&& r is Ok
                    &&& final(self).wf()
                    &&& final(self).position() == old(self).position() + n + 2
                    &&& final(self).pending() == Seq::<char>::empty()
                    &&& final(self).emitted() == old(self).emitted().push(
                        Lexeme::StringLiteral(
                            old(self).source().subrange(
                                old(self).position() as int + 1,
                                old(self).position() as int + 1 + n,
                            ),
                        ),
                    )
                },
                None => r == Err::<(), LexError>(
                    LexError {
                        kind: LexErrorKind::UnterminatedLiteral,
                        offset: old(self).position() as usize,
                    },
                ),
            },
    {
        let start: usize = self.idx;
        let ghost src = self.source();
        self.skip();
        let mut is_escaped = false;
        while self.has_next()
            invariant
                self.wf(),
                self.source() == src,
                src == old(self).source(),
                self.emitted() == old(self).emitted(),
                start == old(self).position(),
                start + 1 <= self.idx,
                self.pending() == src.subrange(start + 1, self.idx as int),
                literal_len(src, (start + 1) as nat, quote, false) == longer(
                    literal_len(src, self.idx as nat, quote, is_escaped),
                    (self.idx - start - 1) as nat,
                ),
            decreases src.len() - self.idx,
        {
            let ch = self.current();
            if ch == quote && !is_escaped {
                let text = self.feed();
                self.add_token(Tokens::StringLiteral(text));
                self.clean();
                self.skip();
                return Ok(());
            }
            if ch == '\\' {
                is_escaped = !is_escaped;
            } else if ch == quote {
                is_escaped = false;
            }
            self.consume();
            assert(self.pending() =~= src.subrange(start + 1, self.idx as int));
        }
        Err(LexError { kind: LexErrorKind::UnterminatedLiteral, offset: start })
    }

    /// Reads a number whose first digit is the current character. A number
    /// that runs to the end of the text stays in the feed.
    fn read_number(&mut self) -> (r: Result<(), LexError>)
        requires
            old(self).wf(),
            old(self).position() < old(self).source().len(),
            old(self).pending().len() == 0,
        ensures
            final(self).source() == old(self).source(),
            ({
                let src = old(self).source();
                let start = old(self).position();
                let end = start + number_len(src, start);
                let text = src.subrange(start as int, end as int);
                if end >= src.len() {
                    &&& r is Ok
                    &&& final(self).wf()
                    &&& final(self).position() == end
                    &&& final(self).pending() == text
                    &&& final(self).emitted() == old(self).emitted()
                } else if count_dots(text) > 1 {
                    r == Err::<(), LexError>(
                        LexError { kind: LexErrorKind::MalformedNumber, offset: start as usize },
                    )
                } else {
                    &&& r is Ok
                    &&& final(self).wf()
                    &&& final(self).position() == end
                    &&& final(self).pending() == Seq::<char>::empty()
                    &&& final(self).emitted() == old(self).emitted().push(
                        Lexeme::NumberLiteral(text),
                    )
                }
            }),
    {
        let start: usize = self.idx;
        let ghost src = self.source();
        let mut dots: usize = 0;
        while self.has_next()
            invariant
                self.wf(),
                self.source() == src,
                src == old(self).source(),
                self.emitted() == old(self).emitted(),
                start == old(self).position(),
                start <= self.idx,
                self.pending() == src.subrange(start as int, self.idx as int),
                number_len(src, start as nat) == (self.idx - start) + number_len(
                    src,
                    self.idx as nat,
                ),
                dots == count_dots(self.pending()),
                dots <= self.idx - start,
            decreases src.len() - self.idx,
        {
            let c = self.current();
            if !is_digit_char(c) && c != '.' {
                if dots > 1 {
                    return Err(LexError { kind: LexErrorKind::MalformedNumber, offset: start });
                }
                let text = self.feed();
                self.add_token(Tokens::NumberLiteral(text));
                self.clean();
                return Ok(());
            }
            if c == '.' {
                dots += 1;
            }
            let ghost before = self.pending();
            self.consume();
            assert(self.pending() =~= src.subrange(start as int, self.idx as int));
            assert(self.pending().drop_last() =~= before);
        }
        Ok(())
    }

    /// Holds the trimmed feed `feed[lo..hi]` against the tables, and moves
    /// the current character `c` into the feed if it is in none of them.
    fn sort_feed(&mut self, c: char, lo: usize, hi: usize) -> (r: Result<(), LexError>)
        requires
            old(self).wf(),
            old(self).position() < old(self).source().len(),
            c == old(self).source()[old(self).position() as int],
            lo <= hi <= old(self).pending().len(),
            old(self).pending().subrange(lo as int, hi as int) == trim(old(self).pending()),
        ensures
            final(self).source() == old(self).source(),
            match classify(old(self).position(), old(self).pending(), c) {
                Ok(s) => {
                    &&& r is Ok
                    &&& final(self).wf()
                    &&& final(self).position() == s.idx
                    &&& final(self).pending() == s.feed
                    &&& final(self).emitted() == old(self).emitted() + s.emitted
                },
                Err(e) => r == Err::<(), LexError>(e),
            },
    {
        let ghost t = trim(self.pending());
        if spells_keyword(&self.current_feed, lo, hi) && c == ' ' {
            let text = text_of(&self.current_feed, lo, hi);
            self.add_token(Tokens::Keyword(text));
            self.clean();
            assert(self.emitted() =~= old(self).emitted() + seq![Lexeme::Keyword(t)]);
            Ok(())
        } else if spells_type_name(&self.current_feed, lo, hi) && c == ' ' {
            if spells_datatype(&self.current_feed, lo, hi) {
                let text = text_of(&self.current_feed, lo, hi);
                self.add_token(Tokens::Datatype(text));
                self.clean();
                assert(self.emitted() =~= old(self).emitted() + seq![Lexeme::Datatype(t)]);
                Ok(())
            } else {
                Err(LexError { kind: LexErrorKind::UnknownDatatype, offset: self.idx })
            }
        } else if spells_comparison(&self.current_feed, lo, hi) {
            let text = text_of(&self.current_feed, lo, hi);
            self.add_token(Tokens::ComparisonOperator(text));
            self.clean();
            assert(self.emitted() =~= old(self).emitted() + seq![Lexeme::ComparisonOperator(t)]);
            Ok(())
        } else if spells_operation(&self.current_feed, lo, hi) {
            let text = text_of(&self.current_feed, lo, hi);
            self.add_token(Tokens::Operator(text));
            self.clean();
            assert(self.emitted() =~= old(self).emitted() + seq![Lexeme::Operator(t)]);
            Ok(())
        } else {
            self.consume();
            assert(self.emitted() =~= old(self).emitted() + Seq::<Lexeme>::empty());
            Ok(())
        }
    }

    /// Takes one scan step.
    pub fn advance(&mut self) -> (r: Result<(), LexError>)
        requires
            old(self).wf(),
            old(self).position() < old(self).source().len(),
        ensures
            final(self).source() == old(self).source(),
            match step(old(self).source(), old(self).position(), old(self).pending()) {
                Ok(s) => {
                    &&& r is Ok
                    &&& final(self).wf()
                    &&& final(self).position() == s.idx
                    &&& final(self).pending() == s.feed
                    &&& final(self).emitted() == old(self).emitted() + s.emitted
                },
                Err(e) => r == Err::<(), LexError>(e),
            },
    {
        let c = self.current();
        if is_newline_char(c) {
            self.skip();
            assert(self.emitted() =~= old(self).emitted() + Seq::<Lexeme>::empty());
            return Ok(());
        }
        let (lo, hi) = trim_bounds(&self.current_feed);
        let ghost t = trim(self.pending());
        if c == '/' && self.idx + 1 < self.bytes.len() && self.peak_next() == '/' {
            self.skip_line();
            assert(self.emitted() =~= old(self).emitted() + Seq::<Lexeme>::empty());
            return Ok(());
        }
        if is_punctuation_char(c) {
            self.flush_feed(lo, hi);
            self.add_token(Tokens::Punctuator(c));
            self.clean();
            self.skip();
            assert(self.emitted() =~= old(self).emitted() + flush(t).push(Lexeme::Punctuator(c)));
            return Ok(());
        }
        if is_quote_char(c) {
            self.flush_feed(lo, hi);
            self.clean();
            let r = self.read_literal(c);
            proof {
                if let Some(n) = literal_len(self.source(), old(self).position() + 1, c, false) {
                    let text = self.source().subrange(
                        old(self).position() as int + 1,
                        old(self).position() as int + 1 + n,
                    );
                    assert(self.emitted() =~= old(self).emitted() + flush(t).push(
                        Lexeme::StringLiteral(text),
                    ));
                }
            }
            return r;
        }
        if is_digit_char(c) {
            self.flush_feed(lo, hi);
            self.clean();
            let r = self.read_number();
            proof {
                let src = self.source();
                let start = old(self).position();
                let end = start + number_len(src, start);
                let text = src.subrange(start as int, end as int);
                if end >= src.len() {
                } else if count_dots(text) <= 1 {
                    assert(self.emitted() =~= old(self).emitted() + flush(t).push(
                        Lexeme::NumberLiteral(text),
                    ));
                }
            }
            return r;
        }
        self.sort_feed(c, lo, hi)
    }

    /// Scans to the end of the text. On success the tokens of the rest of
    /// the text have been emitted; on failure the error is the first one
    /// that the scan meets.
    pub fn tokenize(&mut self) -> (r: Result<(), LexError>)
        requires
            old(self).wf(),
        ensures
            final(self).source() == old(self).source(),
            match scan(old(self).source(), old(self).position(), old(self).pending()) {
                Ok(tokens) => {
                    &&& r is Ok
                    &&& final(self).wf()
                    &&& final(self).position() == old(self).source().len()
                    &&& final(self).emitted() == old(self).emitted() + tokens
                },
                Err(e) => r == Err::<(), LexError>(e),
            },
    {
        let ghost src = self.source();
        let ghost goal = prepend(
            old(self).emitted(),
            scan(src, old(self).position(), old(self).pending()),
        );
        while self.has_next()
            invariant
                self.wf(),
                self.source() == src,
                src == old(self).source(),
                goal == prepend(
                    old(self).emitted(),
                    scan(src, old(self).position(), old(self).pending()),
                ),
                prepend(self.emitted(), scan(src, self.position(), self.pending())) == goal,
            decreases src.len() - self.position(), self.pending().len(),
        {
            let ghost before = self.emitted();
            let ghost here = step(src, self.position(), self.pending());
            proof {
                lemma_step_progress(src, self.position(), self.pending());
            }
            match self.advance() {
                Err(e) => {
                    return Err(e);
                },
                Ok(()) => {
                    proof {
                        let s = here->Ok_0;
                        if let Ok(rest) = scan(src, s.idx, s.feed) {
                            assert(before + (s.emitted + rest) =~= (before + s.emitted) + rest);
                        }
                    }
                },
            }
        }
        proof {
            assert(self.emitted() + Seq::<Lexeme>::empty() =~= self.emitted());
        }
        Ok(())
    }
}

/// Turns a source text into its tokens, or reports the first error.
pub fn analyze_chunk(src: String) -> (r: Result<ChunkResult, LexError>)
    ensures
        match tokens_of(source_chars(src@)) {
            Ok(tokens) => r matches Ok(found) && found@ == tokens,
            Err(e) => r == Err::<ChunkResult, LexError>(e),
        },
{
    let mut chunk = Chunk::new(&src);
    match chunk.tokenize() {
        Ok(()) => {
            proof {
                assert(Seq::<Lexeme>::empty() + chunk.emitted() =~= chunk.emitted());
            }
            Ok(chunk.finish())
        },
        Err(e) => Err(e),
    }
}

} // verus!
