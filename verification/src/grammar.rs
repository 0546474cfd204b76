//! The model of the syntax tree and of its construction: which statement
//! starts at a position of a token sequence, where it ends, and which tree
//! the whole sequence builds.

use vstd::prelude::*;
use crate::ast::AstDatatypes;
use crate::scan::{longer, Lexeme};
use crate::words::{declare_keyword, import_keyword};

verus! {

/// A node of the syntax tree as a mathematical value.
pub enum Node {
    Import { name: Seq<char> },
    Function { name: Seq<char>, parameters: Seq<Lexeme>, body: Tree },
    Assignment { name: Seq<char>, datatype: AstDatatypes, value: Seq<Lexeme> },
    Call { chunk: Box<Node>, arguments: Seq<Lexeme> },
    GetValue { name: Seq<char>, uproots: Seq<Seq<char>> },
}

/// A syntax tree as a mathematical value: the nodes built so far, the tokens
/// they are built from, and the position of the cursor in those tokens.
pub struct Tree {
    pub nodes: Seq<Node>,
    pub tokens: Seq<Lexeme>,
    pub position: nat,
}

/// The kinds of fault that end a build.
#[derive(Debug, Clone, Copy, PartialEq, Eq)]
pub enum AstErrorKind {
    /// A token of another kind than the one the statement needs here.
    UnexpectedToken,
    /// A punctuator that the statement needs is not where it must be, or
    /// the tokens end before it comes.
    MissingPunctuator,
    /// A type name that no declaration can have.
    UnknownDatatype,
    /// A token that cannot stand in an access path.
    MalformedPath,
}

/// Why a token sequence builds no tree: the kind of the first fault, and
/// the token at fault, or `None` where the tokens ended too early.
pub struct Failure {
    pub kind: AstErrorKind,
    pub token: Option<Lexeme>,
}

/// What one statement contributes to the tree. The body of a function is
/// still the tokens between its braces.
pub enum Item {
    Nothing,
    Import { name: Seq<char> },
    Assignment { name: Seq<char>, datatype: AstDatatypes, value: Seq<Lexeme> },
    Function { name: Seq<char>, parameters: Seq<Lexeme>, body: Seq<Lexeme> },
    Call { name: Seq<char>, uproots: Seq<Seq<char>>, arguments: Seq<Lexeme> },
}

/// A statement that was read: what it contributes, and the position behind
/// its last token.
pub struct Reading {
    pub item: Item,
    pub next: nat,
}

/// The token at `pos`, if there is one.
pub open spec fn peek(tokens: Seq<Lexeme>, pos: nat) -> Option<Lexeme> {
    if pos < tokens.len() {
        Some(tokens[pos as int])
    } else {
        None
    }
}

/// The type that the name `t` stands for.
pub open spec fn datatype_of(t: Seq<char>) -> Option<AstDatatypes> {
    if t == "string"@ {
        Some(AstDatatypes::String)
    } else if t == "number"@ {
        Some(AstDatatypes::Number)
    } else if t == "bool"@ {
        Some(AstDatatypes::Bool)
    } else if t == "void"@ {
        Some(AstDatatypes::Void)
    } else if t == "func"@ {
        Some(AstDatatypes::Func)
    } else {
        None
    }
}

/// The number of tokens from `pos` up to the first punctuator `c`, or `None`
/// if there is no such punctuator.
pub open spec fn distance_to(tokens: Seq<Lexeme>, pos: nat, c: char) -> Option<nat>
    decreases tokens.len() - pos,
{
    if pos >= tokens.len() {
        None
    } else if tokens[pos as int] == Lexeme::Punctuator(c) {
        Some(0)
    } else {
        longer(distance_to(tokens, pos + 1, c), 1)
    }
}

/// The number of tokens from `pos` up to the punctuator `end` that brings
/// the nesting depth from `depth` down to zero, or `None` if the tokens end
/// before. Each punctuator `begin` raises the depth by one and each `end`
/// lowers it by one.
pub open spec fn body_len(tokens: Seq<Lexeme>, pos: nat, begin: char, end: char, depth: nat)
    -> Option<nat>
    decreases tokens.len() - pos,
{
    if pos >= tokens.len() {
        None
    } else if tokens[pos as int] == Lexeme::Punctuator(begin) {
        longer(body_len(tokens, pos + 1, begin, end, depth + 1), 1)
    } else if tokens[pos as int] == Lexeme::Punctuator(end) {
        if depth <= 1 {
            Some(0)
        } else {
            longer(body_len(tokens, pos + 1, begin, end, (depth - 1) as nat), 1)
        }
    } else {
        longer(body_len(tokens, pos + 1, begin, end, depth), 1)
    }
}

/// `s` without its comma punctuators.
pub open spec fn without_commas(s: Seq<Lexeme>) -> Seq<Lexeme>
    decreases s.len(),
{
    if s.len() == 0 {
        seq![]
    } else if s.last() == Lexeme::Punctuator(',') {
        without_commas(s.drop_last())
    } else {
        without_commas(s.drop_last()).push(s.last())
    }
}

/// An import: the keyword is followed by the name of what is imported.
pub open spec fn import_statement(tokens: Seq<Lexeme>, pos: nat) -> Result<Reading, Failure> {
    match peek(tokens, pos) {
        Some(Lexeme::Identifier(name)) => Ok(Reading { item: Item::Import { name }, next: pos + 1 }),
        other => Err(Failure { kind: AstErrorKind::UnexpectedToken, token: other }),
    }
}

/// The rest of a function declaration, from its name at `pos` on: the name,
/// `(`, the parameters up to the matching `)`, `{`, and the body up to the
/// matching `}`.
pub open spec fn function_declaration(tokens: Seq<Lexeme>, pos: nat) -> Result<Reading, Failure> {
    match peek(tokens, pos) {
        Some(Lexeme::Identifier(name)) => {
            if peek(tokens, pos + 1) != Some(Lexeme::Punctuator('(')) {
                Err(
                    Failure {
                        kind: AstErrorKind::MissingPunctuator,
                        token: peek(tokens, pos + 1),
                    },
                )
            } else {
                match body_len(tokens, pos + 2, '(', ')', 1) {
                    None => Err(Failure { kind: AstErrorKind::MissingPunctuator, token: None }),
                    Some(n) => {
                        let brace = pos + 2 + n + 1;
                        if peek(tokens, brace) != Some(Lexeme::Punctuator('{')) {
                            Err(
                                Failure {
                                    kind: AstErrorKind::MissingPunctuator,
                                    token: peek(tokens, brace),
                                },
                            )
                        } else {
                            match body_len(tokens, brace + 1, '{', '}', 1) {
                                None => Err(
                                    Failure { kind: AstErrorKind::MissingPunctuator, token: None },
                                ),
                                Some(m) => Ok(
                                    Reading {
                                        item: Item::Function {
                                            name,
                                            parameters: without_commas(
                                                tokens.subrange(pos as int + 2, pos as int + 2 + n),
                                            ),
                                            body: tokens.subrange(brace as int + 1, brace as int + 1 + m),
                                        },
                                        next: brace + 1 + m + 1,
                                    },
                                ),
                            }
                        }
                    },
                }
            }
        },
        other => Err(Failure { kind: AstErrorKind::UnexpectedToken, token: other }),
    }
}

/// The rest of a variable declaration, from its name at `pos` on: the name,
/// `:`, and the tokens of the value up to the next `;`.
pub open spec fn variable_declaration(tokens: Seq<Lexeme>, pos: nat, datatype: AstDatatypes)
    -> Result<Reading, Failure> {
    match peek(tokens, pos) {
        Some(Lexeme::Identifier(name)) => {
            if peek(tokens, pos + 1) != Some(Lexeme::Punctuator(':')) {
                Err(
                    Failure {
                        kind: AstErrorKind::MissingPunctuator,
                        token: peek(tokens, pos + 1),
                    },
                )
            } else {
                match distance_to(tokens, pos + 2, ';') {
                    None => Err(Failure { kind: AstErrorKind::MissingPunctuator, token: None }),
                    Some(n) => Ok(
                        Reading {
                            item: Item::Assignment {
                                name,
                                datatype,
                                value: tokens.subrange(pos as int + 2, pos as int + 2 + n),
                            },
                            next: pos + 2 + n + 1,
                        },
                    ),
                }
            }
        },
        other => Err(Failure { kind: AstErrorKind::UnexpectedToken, token: other }),
    }
}

/// A declaration: the keyword is followed by the name of a type, and the
/// type decides between a function and a variable.
pub open spec fn declaration(tokens: Seq<Lexeme>, pos: nat) -> Result<Reading, Failure> {
    match peek(tokens, pos) {
        Some(Lexeme::Datatype(t)) => match datatype_of(t) {
            None => Err(
                Failure { kind: AstErrorKind::UnknownDatatype, token: Some(Lexeme::Datatype(t)) },
            ),
            Some(AstDatatypes::Func) => function_declaration(tokens, pos + 1),
            Some(datatype) => variable_declaration(tokens, pos + 1, datatype),
        },
        other => Err(Failure { kind: AstErrorKind::UnexpectedToken, token: other }),
    }
}

/// The statement that the keyword `key` opens, read from `pos`, the position
/// behind the keyword. A keyword other than the two in use opens nothing.
pub open spec fn keyword_statement(tokens: Seq<Lexeme>, pos: nat, key: Seq<char>) -> Result<
    Reading,
    Failure,
> {
    if key == import_keyword() {
        import_statement(tokens, pos)
    } else if key == declare_keyword() {
        declaration(tokens, pos)
    } else {
        Ok(Reading { item: Item::Nothing, next: pos })
    }
}

/// The access path of the name `name`, read from `pos` with the segments
/// `uproots` found so far. Each `.` must be followed by an identifier, the
/// next segment. The path ends at `=` or `;`, which contribute nothing, or
/// at `(`, which makes it a call with the tokens up to the matching `)` as
/// arguments.
pub open spec fn access(tokens: Seq<Lexeme>, pos: nat, name: Seq<char>, uproots: Seq<Seq<char>>)
    -> Result<Reading, Failure>
    decreases tokens.len() - pos,
{
    match peek(tokens, pos) {
        None => Err(Failure { kind: AstErrorKind::MissingPunctuator, token: None }),
        Some(Lexeme::Punctuator(c)) => {
            if c == '=' || c == ';' {
                Ok(Reading { item: Item::Nothing, next: pos + 1 })
            } else if c == '(' {
                match body_len(tokens, pos + 1, '(', ')', 1) {
                    None => Err(Failure { kind: AstErrorKind::MissingPunctuator, token: None }),
                    Some(n) => Ok(
                        Reading {
                            item: Item::Call {
                                name,
                                uproots,
                                arguments: without_commas(tokens.subrange(pos as int + 1, pos as int + 1 + n)),
                            },
                            next: pos + 1 + n + 1,
                        },
                    ),
                }
            } else if c == '.' {
                match peek(tokens, pos + 1) {
                    Some(Lexeme::Identifier(uproot)) => access(
                        tokens,
                        pos + 2,
                        name,
                        uproots.push(uproot),
                    ),
                    other => Err(Failure { kind: AstErrorKind::MalformedPath, token: other }),
                }
            } else {
                Err(
                    Failure {
                        kind: AstErrorKind::MalformedPath,
                        token: Some(Lexeme::Punctuator(c)),
                    },
                )
            }
        },
        Some(other) => Err(Failure { kind: AstErrorKind::MalformedPath, token: Some(other) }),
    }
}

/// The statement that starts at `pos`. A keyword and an identifier open
/// one; any other token is stepped over.
pub open spec fn statement(tokens: Seq<Lexeme>, pos: nat) -> Result<Reading, Failure>
    recommends
        pos < tokens.len(),
{
    match tokens[pos as int] {
        Lexeme::Keyword(key) => keyword_statement(tokens, pos + 1, key),
        Lexeme::Identifier(name) => access(tokens, pos + 1, name, seq![]),
        _ => Ok(Reading { item: Item::Nothing, next: pos + 1 }),
    }
}

/// The weight of an item for the termination of `built`.
pub open spec fn weight(item: Item) -> nat {
    match item {
        Item::Function { body, .. } => body.len() + 1,
        _ => 0,
    }
}

/// The node that an item becomes. The body of a function is built into a
/// tree of its own, over its own tokens.
pub open spec fn built(item: Item) -> Result<Option<Node>, Failure>
    decreases weight(item), 0nat,
{
    match item {
        Item::Nothing => Ok(None),
        Item::Import { name } => Ok(Some(Node::Import { name })),
        Item::Assignment { name, datatype, value } => Ok(
            Some(Node::Assignment { name, datatype, value }),
        ),
        Item::Call { name, uproots, arguments } => Ok(
            Some(Node::Call { chunk: Box::new(Node::GetValue { name, uproots }), arguments }),
        ),
        Item::Function { name, parameters, body } => match parse_from(body, 0) {
            Ok(nodes) => Ok(
                Some(
                    Node::Function {
                        name,
                        parameters,
                        body: Tree { nodes, tokens: body, position: body.len() },
                    },
                ),
            ),
            Err(f) => Err(f),
        },
    }
}

/// `node`, if there is one, put in front of the nodes of `rest`.
pub open spec fn follow(node: Option<Node>, rest: Result<Seq<Node>, Failure>) -> Result<
    Seq<Node>,
    Failure,
> {
    match rest {
        Ok(nodes) => match node {
            Some(n) => Ok(seq![n] + nodes),
            None => Ok(nodes),
        },
        Err(f) => Err(f),
    }
}

/// The nodes built from the statements from `pos` on, or the first fault.
pub open spec fn parse_from(tokens: Seq<Lexeme>, pos: nat) -> Result<Seq<Node>, Failure>
    decreases tokens.len(), 1 + tokens.len() - pos,
{
    if pos >= tokens.len() {
        Ok(seq![])
    } else {
        match statement(tokens, pos) {
            Err(f) => Err(f),
            Ok(reading) => {
                proof {
                    lemma_statement_progress(tokens, pos);
                }
                match built(reading.item) {
                    Err(f) => Err(f),
                    Ok(node) => follow(node, parse_from(tokens, reading.next)),
                }
            },
        }
    }
}

/// The nodes built from a whole token sequence.
pub open spec fn parse(tokens: Seq<Lexeme>) -> Result<Seq<Node>, Failure> {
    parse_from(tokens, 0)
}

/// The punctuator that `distance_to` finds stands inside the tokens.
pub proof fn lemma_distance_bound(tokens: Seq<Lexeme>, pos: nat, c: char)
    ensures
        distance_to(tokens, pos, c) matches Some(n) ==> pos + n < tokens.len() && tokens[pos as int + n]
            == Lexeme::Punctuator(c),
    decreases tokens.len() - pos,
{
    if pos < tokens.len() && tokens[pos as int] != Lexeme::Punctuator(c) {
        lemma_distance_bound(tokens, pos + 1, c);
    }
}

/// The punctuator that closes a region stands inside the tokens.
pub proof fn lemma_body_bound(tokens: Seq<Lexeme>, pos: nat, begin: char, end: char, depth: nat)
    ensures
        body_len(tokens, pos, begin, end, depth) matches Some(n) ==> pos + n < tokens.len()
            && tokens[pos as int + n] == Lexeme::Punctuator(end),
    decreases tokens.len() - pos,
{
    if pos < tokens.len() {
        if tokens[pos as int] == Lexeme::Punctuator(begin) {
            lemma_body_bound(tokens, pos + 1, begin, end, depth + 1);
        } else if tokens[pos as int] == Lexeme::Punctuator(end) {
            if depth > 1 {
                lemma_body_bound(tokens, pos + 1, begin, end, (depth - 1) as nat);
            }
        } else {
            lemma_body_bound(tokens, pos + 1, begin, end, depth);
        }
    }
}

/// An access path ends inside the tokens and behind where it was read from.
pub proof fn lemma_access_progress(
    tokens: Seq<Lexeme>,
    pos: nat,
    name: Seq<char>,
    uproots: Seq<Seq<char>>,
)
    ensures
        access(tokens, pos, name, uproots) matches Ok(r) ==> pos < r.next <= tokens.len() && weight(
            r.item,
        ) == 0,
    decreases tokens.len() - pos,
{
    if pos < tokens.len() {
        lemma_body_bound(tokens, pos + 1, '(', ')', 1);
        if tokens[pos as int] == Lexeme::Punctuator('.') {
            if let Some(Lexeme::Identifier(uproot)) = peek(tokens, pos + 1) {
                lemma_access_progress(tokens, pos + 2, name, uproots.push(uproot));
            }
        }
    }
}

/// A statement ends inside the tokens and behind where it starts, and the
/// body of a function is shorter than the tokens that hold it.
pub proof fn lemma_statement_progress(tokens: Seq<Lexeme>, pos: nat)
    requires
        pos < tokens.len(),
    ensures
        statement(tokens, pos) matches Ok(r) ==> pos < r.next <= tokens.len() && weight(r.item)
            <= tokens.len(),
{
    match tokens[pos as int] {
        Lexeme::Keyword(key) => {
            if key == import_keyword() {
            } else if key == declare_keyword() {
                if let Some(Lexeme::Datatype(t)) = peek(tokens, pos + 1) {
                    lemma_distance_bound(tokens, pos + 4, ';');
                    lemma_body_bound(tokens, pos + 4, '(', ')', 1);
                    if let Some(n) = body_len(tokens, pos + 4, '(', ')', 1) {
                        lemma_body_bound(tokens, pos + 4 + n + 2, '{', '}', 1);
                    }
                }
            }
        },
        Lexeme::Identifier(name) => {
            lemma_access_progress(tokens, pos + 1, name, seq![]);
        },
        _ => {},
    }
}

/// The nesting depth behind the token `t`, when it was `depth` in front of
/// it: `begin` raises it by one, `end` lowers it by one.
pub open spec fn bump(depth: int, t: Lexeme, begin: char, end: char) -> int {
    if t == Lexeme::Punctuator(begin) {
        depth + 1
    } else if t == Lexeme::Punctuator(end) {
        depth - 1
    } else {
        depth
    }
}

/// The nesting depth behind the tokens `s`, when it was `depth` in front of
/// them.
pub open spec fn depth_after(s: Seq<Lexeme>, begin: char, end: char, depth: int) -> int
    decreases s.len(),
{
    if s.len() == 0 {
        depth
    } else {
        depth_after(s.drop_first(), begin, end, bump(depth, s[0], begin, end))
    }
}

/// Every `begin` in `s` has its `end` in `s` and the other way round: the
/// depth never falls below the one in front of `s`, and behind `s` it is
/// back there.
pub open spec fn balanced(s: Seq<Lexeme>, begin: char, end: char) -> bool {
    &&& depth_after(s, begin, end, 0) == 0
    &&& forall|k: int|
        0 <= k <= s.len() ==> #[trigger] depth_after(s.subrange(0, k), begin, end, 0) >= 0
}

/// The depth behind `s` moves with the depth in front of it.
pub proof fn lemma_depth_shift(s: Seq<Lexeme>, begin: char, end: char, depth: int, by: int)
    ensures
        depth_after(s, begin, end, depth + by) == depth_after(s, begin, end, depth) + by,
    decreases s.len(),
{
    if s.len() > 0 {
        lemma_depth_shift(s.drop_first(), begin, end, bump(depth, s[0], begin, end), by);
    }
}

/// The depth behind `s` and one token more.
pub proof fn lemma_depth_push(s: Seq<Lexeme>, t: Lexeme, begin: char, end: char, depth: int)
    ensures
        depth_after(s.push(t), begin, end, depth) == bump(
            depth_after(s, begin, end, depth),
            t,
            begin,
            end,
        ),
    decreases s.len(),
{
    let longer = s.push(t);
    if s.len() == 0 {
        assert(longer[0] == t);
        assert(longer.drop_first().len() == 0);
        assert(depth_after(longer.drop_first(), begin, end, bump(depth, t, begin, end)) == bump(
            depth,
            t,
            begin,
            end,
        ));
    } else {
        assert(longer[0] == s[0]);
        assert(longer.drop_first() =~= s.drop_first().push(t));
        lemma_depth_push(s.drop_first(), t, begin, end, bump(depth, s[0], begin, end));
    }
}

/// The matching-depth scan ends at the closing punctuator at which the
/// depth comes down to zero, and the depth is zero nowhere before: in front
/// of every token of the region, and in front of the closing punctuator, it
/// is one or more.
pub proof fn lemma_body_ends_where_depth_returns(
    tokens: Seq<Lexeme>,
    pos: nat,
    begin: char,
    end: char,
    depth: nat,
    n: nat,
)
    requires
        depth >= 1,
        body_len(tokens, pos, begin, end, depth) == Some(n),
    ensures
        pos + n < tokens.len(),
        tokens[pos as int + n] == Lexeme::Punctuator(end),
        forall|k: int|
            0 <= k <= n ==> #[trigger] depth_after(
                tokens.subrange(pos as int, pos as int + k),
                begin,
                end,
                depth as int,
            ) >= 1,
        depth_after(tokens.subrange(pos as int, pos as int + n + 1), begin, end, depth as int)
            == 0,
    decreases tokens.len() - pos,
{
    lemma_body_bound(tokens, pos, begin, end, depth);
    let first = tokens[pos as int];
    let next = bump(depth as int, first, begin, end);
    let whole = tokens.subrange(pos as int, pos as int + n + 1);
    assert(whole[0] == first);
    assert(whole.drop_first() =~= tokens.subrange(pos as int + 1, pos as int + n + 1));
    if first != Lexeme::Punctuator(begin) && first == Lexeme::Punctuator(end) && depth <= 1 {
        assert(n == 0);
        assert(whole.drop_first().len() == 0);
        assert(depth_after(whole.drop_first(), begin, end, next) == next);
    } else {
        lemma_body_ends_where_depth_returns(
            tokens,
            pos + 1,
            begin,
            end,
            next as nat,
            (n - 1) as nat,
        );
    }
    assert forall|k: int| 0 <= k <= n implies #[trigger] depth_after(
        tokens.subrange(pos as int, pos as int + k),
        begin,
        end,
        depth as int,
    ) >= 1 by {
        let part = tokens.subrange(pos as int, pos as int + k);
        if k > 0 {
            assert(part[0] == first);
            assert(part.drop_first() =~= tokens.subrange(
                (pos + 1) as int,
                (pos + 1) as int + (k - 1),
            ));
            assert(depth_after(
                tokens.subrange((pos + 1) as int, (pos + 1) as int + (k - 1)),
                begin,
                end,
                next,
            ) >= 1);
        }
    }
}

/// The other way round: where the depth first comes down to zero at the
/// token at `pos + n`, the matching-depth scan finds a region of `n` tokens.
pub proof fn lemma_first_return_is_body_len(
    tokens: Seq<Lexeme>,
    pos: nat,
    begin: char,
    end: char,
    depth: nat,
    n: nat,
)
    requires
        depth >= 1,
        pos + n < tokens.len(),
        forall|k: int|
            0 <= k <= n ==> #[trigger] depth_after(
                tokens.subrange(pos as int, pos as int + k),
                begin,
                end,
                depth as int,
            ) >= 1,
        depth_after(tokens.subrange(pos as int, pos as int + n + 1), begin, end, depth as int)
            == 0,
    ensures
        body_len(tokens, pos, begin, end, depth) == Some(n),
    decreases n,
{
    let first = tokens[pos as int];
    let next = bump(depth as int, first, begin, end);
    let whole = tokens.subrange(pos as int, pos as int + n + 1);
    assert(whole[0] == first);
    assert(whole.drop_first() =~= tokens.subrange(pos as int + 1, pos as int + n + 1));
    if n == 0 {
        assert(whole.drop_first().len() == 0);
        assert(depth_after(whole.drop_first(), begin, end, next) == next);
    } else {
        let one = tokens.subrange(pos as int, pos as int + 1);
        assert(one[0] == first);
        assert(one.drop_first().len() == 0);
        assert(depth_after(one.drop_first(), begin, end, next) == next);
        assert(depth_after(one, begin, end, depth as int) >= 1);
        assert forall|k: int| 0 <= k <= n - 1 implies #[trigger] depth_after(
            tokens.subrange(pos as int + 1, pos as int + 1 + k),
            begin,
            end,
            next,
        ) >= 1 by {
            let part = tokens.subrange(pos as int, pos as int + (k + 1));
            assert(part[0] == first);
            assert(part.drop_first() =~= tokens.subrange(pos as int + 1, pos as int + 1 + k));
            assert(depth_after(part, begin, end, depth as int) >= 1);
        }
        lemma_first_return_is_body_len(tokens, pos + 1, begin, end, next as nat, (n - 1) as nat);
    }
}

/// Where the tokens behind an opening punctuator are `n` balanced tokens
/// and then the closing punctuator, the matching-depth scan finds exactly
/// those `n` tokens, however deep the pairs in them are nested.
pub proof fn lemma_balanced_body(tokens: Seq<Lexeme>, pos: nat, n: nat, begin: char, end: char)
    requires
        begin != end,
        pos + n < tokens.len(),
        balanced(tokens.subrange(pos as int, pos as int + n), begin, end),
        tokens[pos as int + n] == Lexeme::Punctuator(end),
    ensures
        body_len(tokens, pos, begin, end, 1) == Some(n),
{
    let body = tokens.subrange(pos as int, pos as int + n);
    assert forall|k: int| 0 <= k <= n implies #[trigger] depth_after(
        tokens.subrange(pos as int, pos as int + k),
        begin,
        end,
        1,
    ) >= 1 by {
        assert(body.subrange(0, k) =~= tokens.subrange(pos as int, pos as int + k));
        assert(depth_after(body.subrange(0, k), begin, end, 0) >= 0);
        lemma_depth_shift(body.subrange(0, k), begin, end, 0, 1);
    }
    assert(tokens.subrange(pos as int, pos as int + n + 1) =~= body.push(tokens[pos as int + n]));
    lemma_depth_push(body, tokens[pos as int + n], begin, end, 1);
    lemma_depth_shift(body, begin, end, 0, 1);
    lemma_first_return_is_body_len(tokens, pos, begin, end, 1, n);
}

/// Where no closing punctuator follows, the matching-depth scan finds no
/// region.
pub proof fn lemma_no_closer_no_body(
    tokens: Seq<Lexeme>,
    pos: nat,
    begin: char,
    end: char,
    depth: nat,
)
    requires
        forall|k: int| pos <= k < tokens.len() ==> tokens[k] != Lexeme::Punctuator(end),
    ensures
        body_len(tokens, pos, begin, end, depth) is None,
{
    lemma_body_bound(tokens, pos, begin, end, depth);
}

/// The first fault ends the build: the fault of a statement is the result
/// for all the tokens from that statement on, and so is a fault in the body
/// of a function and a fault in what follows the statement.
pub proof fn lemma_parse_fails_fast(tokens: Seq<Lexeme>, pos: nat)
    requires
        pos < tokens.len(),
    ensures
        match statement(tokens, pos) {
            Err(f) => parse_from(tokens, pos) == Err::<Seq<Node>, Failure>(f),
            Ok(r) => match built(r.item) {
                Err(f) => parse_from(tokens, pos) == Err::<Seq<Node>, Failure>(f),
                Ok(_) => parse_from(tokens, r.next) matches Err(f) ==> parse_from(tokens, pos)
                    == Err::<Seq<Node>, Failure>(f),
            },
        },
{
}

/// The two keywords in use are different words.
pub proof fn lemma_keywords_differ()
    ensures
        import_keyword() != declare_keyword(),
{
    reveal_strlit("beop");
    reveal_strlit("bop");
    assert("beop"@.len() != "bop"@.len());
}

/// A declared name that is not followed by `:` builds no tree.
pub proof fn lemma_missing_colon_fails(tokens: Seq<Lexeme>, pos: nat, t: Seq<char>, name: Seq<char>)
    requires
        pos + 2 < tokens.len(),
        tokens[pos as int] == Lexeme::Keyword(declare_keyword()),
        tokens[pos as int + 1] == Lexeme::Datatype(t),
        datatype_of(t) matches Some(d) && d != AstDatatypes::Func,
        tokens[pos as int + 2] == Lexeme::Identifier(name),
        peek(tokens, pos + 3) != Some(Lexeme::Punctuator(':')),
    ensures
        parse_from(tokens, pos) == Err::<Seq<Node>, Failure>(
            Failure { kind: AstErrorKind::MissingPunctuator, token: peek(tokens, pos + 3) },
        ),
{
    lemma_keywords_differ();
}

/// A value that is not closed by `;` builds no tree.
pub proof fn lemma_missing_separator_fails(
    tokens: Seq<Lexeme>,
    pos: nat,
    t: Seq<char>,
    name: Seq<char>,
)
    requires
        pos + 3 < tokens.len(),
        tokens[pos as int] == Lexeme::Keyword(declare_keyword()),
        tokens[pos as int + 1] == Lexeme::Datatype(t),
        datatype_of(t) matches Some(d) && d != AstDatatypes::Func,
        tokens[pos as int + 2] == Lexeme::Identifier(name),
        tokens[pos as int + 3] == Lexeme::Punctuator(':'),
        forall|k: int| pos + 4 <= k < tokens.len() ==> tokens[k] != Lexeme::Punctuator(';'),
    ensures
        parse_from(tokens, pos) == Err::<Seq<Node>, Failure>(
            Failure { kind: AstErrorKind::MissingPunctuator, token: None },
        ),
{
    lemma_keywords_differ();
    lemma_distance_bound(tokens, pos + 4, ';');
}

/// A parameter list that is not closed by `)` builds no tree.
pub proof fn lemma_open_parameters_fail(tokens: Seq<Lexeme>, pos: nat, t: Seq<char>, name: Seq<char>)
    requires
        pos + 3 < tokens.len(),
        tokens[pos as int] == Lexeme::Keyword(declare_keyword()),
        tokens[pos as int + 1] == Lexeme::Datatype(t),
        datatype_of(t) == Some(AstDatatypes::Func),
        tokens[pos as int + 2] == Lexeme::Identifier(name),
        tokens[pos as int + 3] == Lexeme::Punctuator('('),
        body_len(tokens, pos + 4, '(', ')', 1) is None,
    ensures
        parse_from(tokens, pos) == Err::<Seq<Node>, Failure>(
            Failure { kind: AstErrorKind::MissingPunctuator, token: None },
        ),
{
    lemma_keywords_differ();
}

/// A function body that is not closed by `}` builds no tree.
pub proof fn lemma_open_body_fails(
    tokens: Seq<Lexeme>,
    pos: nat,
    t: Seq<char>,
    name: Seq<char>,
    n: nat,
)
    requires
        pos + 3 < tokens.len(),
        tokens[pos as int] == Lexeme::Keyword(declare_keyword()),
        tokens[pos as int + 1] == Lexeme::Datatype(t),
        datatype_of(t) == Some(AstDatatypes::Func),
        tokens[pos as int + 2] == Lexeme::Identifier(name),
        tokens[pos as int + 3] == Lexeme::Punctuator('('),
        body_len(tokens, pos + 4, '(', ')', 1) == Some(n),
        peek(tokens, pos + 4 + n + 1) == Some(Lexeme::Punctuator('{')),
        body_len(tokens, pos + 4 + n + 2, '{', '}', 1) is None,
    ensures
        parse_from(tokens, pos) == Err::<Seq<Node>, Failure>(
            Failure { kind: AstErrorKind::MissingPunctuator, token: None },
        ),
{
    lemma_keywords_differ();
}

/// The arguments of a call that are not closed by `)` build no tree.
pub proof fn lemma_open_arguments_fail(tokens: Seq<Lexeme>, pos: nat, name: Seq<char>)
    requires
        pos + 1 < tokens.len(),
        tokens[pos as int] == Lexeme::Identifier(name),
        tokens[pos as int + 1] == Lexeme::Punctuator('('),
        body_len(tokens, pos + 2, '(', ')', 1) is None,
    ensures
        parse_from(tokens, pos) == Err::<Seq<Node>, Failure>(
            Failure { kind: AstErrorKind::MissingPunctuator, token: None },
        ),
{
}

/// A declaration with a type name that no declaration can have builds no
/// tree.
pub proof fn lemma_unknown_datatype_fails(tokens: Seq<Lexeme>, pos: nat, t: Seq<char>)
    requires
        pos + 1 < tokens.len(),
        tokens[pos as int] == Lexeme::Keyword(declare_keyword()),
        tokens[pos as int + 1] == Lexeme::Datatype(t),
        datatype_of(t) is None,
    ensures
        parse_from(tokens, pos) == Err::<Seq<Node>, Failure>(
            Failure { kind: AstErrorKind::UnknownDatatype, token: Some(Lexeme::Datatype(t)) },
        ),
{
    lemma_keywords_differ();
}

} // verus!
