//! The syntax tree and its builder: a forward-only cursor over a token
//! sequence, and the recursive descent that turns the tokens into nodes.

use vstd::prelude::*;
use vstd::string::*;
use crate::grammar::{
    access, body_len, built, datatype_of, declaration, distance_to, function_declaration,
    keyword_statement, lemma_body_bound, lemma_statement_progress, parse, parse_from, peek,
    statement, variable_declaration, without_commas, AstErrorKind, Failure, Node, Reading, Tree,
};
use crate::lexer::{lexemes, ChunkResult, Tokens};
use crate::scan::{longer, Lexeme};
use crate::text::same_text;

verus! {

/// The type that a declaration gives to its name.
#[derive(Debug, Clone, Copy, PartialEq, Eq)]
pub enum AstDatatypes {
    String,
    Number,
    Bool,
    Void,
    Func,
}

/// A value of the language. A number is held as its decimal text.
#[derive(Debug, PartialEq, Eq)]
pub enum AstValue {
    String(String),
    Number(String),
    Bool(bool),
    Void,
    Func(Box<AstChunk>),
}

/// A node of the syntax tree. The target of a call is always a `GetValue`;
/// the value of an assignment and the arguments of a call are the tokens as
/// they were scanned, not yet parsed.
#[derive(Debug, PartialEq, Eq)]
pub enum AstInstruction {
    Import { name: String },
    Function { name: String, parameters: Vec<Tokens>, body: AstChunk },
    Assignment { name: String, datatype: AstDatatypes, value: Vec<Tokens> },
    Call { chunk: Box<AstInstruction>, arguments: Vec<Tokens> },
    GetValue { name: String, uproots: Vec<String> },
}

/// A syntax tree in the making: the nodes built so far, the tokens they are
/// built from, and a cursor that only moves forward.
#[derive(Debug, PartialEq, Eq)]
pub struct AstChunk {
    pub tree: Vec<AstInstruction>,
    pub lexed: ChunkResult,
    pub idx: usize,
}

/// Why a token sequence builds no tree: the kind of the first fault, and
/// the token at fault, or `None` where the tokens ended too early.
#[derive(Debug, PartialEq, Eq)]
pub struct AstError {
    pub kind: AstErrorKind,
    pub token: Option<Tokens>,
}

impl View for AstError {
    type V = Failure;

    open spec fn view(&self) -> Failure {
        Failure {
            kind: self.kind,
            token: match self.token {
                Some(t) => Some(t@),
                None => None,
            },
        }
    }
}

/// The strings in `v` as character sequences.
pub open spec fn texts(v: Seq<String>) -> Seq<Seq<char>> {
    v.map_values(|s: String| s@)
}

/// The node `i` as a mathematical value.
pub open spec fn node_view(i: AstInstruction) -> Node
    decreases i,
{
    match i {
        AstInstruction::Import { name } => Node::Import { name: name@ },
        AstInstruction::Function { name, parameters, body } => Node::Function {
            name: name@,
            parameters: lexemes(parameters@),
            body: Tree {
                nodes: nodes_view(body.tree@),
                tokens: body.tokens(),
                position: body.position(),
            },
        },
        AstInstruction::Assignment { name, datatype, value } => Node::Assignment {
            name: name@,
            datatype,
            value: lexemes(value@),
        },
        AstInstruction::Call { chunk, arguments } => Node::Call {
            chunk: Box::new(node_view(*chunk)),
            arguments: lexemes(arguments@),
        },
        AstInstruction::GetValue { name, uproots } => Node::GetValue {
            name: name@,
            uproots: texts(uproots@),
        },
    }
}

/// The nodes in `v` as mathematical values.
pub open spec fn nodes_view(v: Seq<AstInstruction>) -> Seq<Node>
    decreases v,
{
    Seq::new(
        v.len(),
        |k: int|
            if 0 <= k < v.len() {
                node_view(v[k])
            } else {
                arbitrary()
            },
    )
}

impl View for AstInstruction {
    type V = Node;

    open spec fn view(&self) -> Node {
        node_view(*self)
    }
}

impl View for AstChunk {
    type V = Tree;

    open spec fn view(&self) -> Tree {
        Tree { nodes: nodes_view(self.tree@), tokens: self.tokens(), position: self.position() }
    }
}

impl AstChunk {
    /// The tokens that the tree is built from.
    pub open spec fn tokens(&self) -> Seq<Lexeme> {
        self.lexed@
    }

    /// The position of the cursor: the index of the next token.
    pub open spec fn position(&self) -> nat {
        self.idx as nat
    }

    /// The cursor is inside the tokens or at their end.
    pub open spec fn wf(&self) -> bool {
        self.position() <= self.tokens().len()
    }

    /// A tree in the making over the tokens `lexed`.
    pub fn new(lexed: ChunkResult) -> (r: Self)
        ensures
            r@ == (Tree { nodes: seq![], tokens: lexed@, position: 0 }),
            r.wf(),
    {
        let r = Self { tree: Vec::new(), lexed, idx: 0 };
        assert(nodes_view(r.tree@) =~= seq![]);
        r
    }

    /// A tree in the making over tokens of its own.
    pub fn from_tokens(tokens: Vec<Tokens>) -> (r: Self)
        ensures
            r@ == (Tree { nodes: seq![], tokens: lexemes(tokens@), position: 0 }),
            r.wf(),
    {
        let r = Self { tree: Vec::new(), lexed: ChunkResult(tokens), idx: 0 };
        assert(nodes_view(r.tree@) =~= seq![]);
        r
    }

    /// The token under the cursor, which then moves on by one; `None`, and
    /// no move, at the end of the tokens.
    pub fn next(&mut self) -> (r: Option<Tokens>)
        requires
            old(self).wf(),
        ensures
            final(self).wf(),
            final(self)@.nodes == old(self)@.nodes,
            final(self).tokens() == old(self).tokens(),
            match peek(old(self).tokens(), old(self).position()) {
                Some(t) => r matches Some(found) && found@ == t && final(self).position() == old(
                    self,
                ).position() + 1,
                None => r is None && final(self).position() == old(self).position(),
            },
    {
        if self.idx < self.lexed.0.len() {
            let token = self.lexed.0[self.idx].clone();
            self.idx += 1;
            Some(token)
        } else {
            None
        }
    }

    /// Appends a node to the tree.
    pub fn add(&mut self, instr: AstInstruction)
        ensures
            final(self)@.nodes == old(self)@.nodes.push(instr@),
            final(self).tokens() == old(self).tokens(),
            final(self).position() == old(self).position(),
    {
        self.tree.push(instr);
        assert(nodes_view(self.tree@) =~= nodes_view(old(self).tree@).push(instr@));
    }
}

/// The identifier that a token holds.
pub fn parse_iden(iden: &Tokens) -> (r: Result<&String, bool>)
    ensures
        match iden@ {
            Lexeme::Identifier(name) => r matches Ok(id) && id@ == name,
            _ => r == Err::<&String, bool>(false),
        },
{
    match iden {
        Tokens::Identifier(id) => Ok(id),
        _ => Err(false),
    }
}

/// The type that a token names: an error of kind `UnexpectedToken` for a
/// token that is no type name, of kind `UnknownDatatype` for a type name
/// that no declaration can have.
pub fn parse_datatype(dtype: &Tokens) -> (r: Result<AstDatatypes, AstErrorKind>)
    ensures
        match dtype@ {
            Lexeme::Datatype(t) => match datatype_of(t) {
                Some(d) => r == Ok::<AstDatatypes, AstErrorKind>(d),
                None => r == Err::<AstDatatypes, AstErrorKind>(AstErrorKind::UnknownDatatype),
            },
            _ => r == Err::<AstDatatypes, AstErrorKind>(AstErrorKind::UnexpectedToken),
        },
{
    match dtype {
        Tokens::Datatype(dt) => {
            let name = dt.as_str();
            if same_text(name, "string") {
                Ok(AstDatatypes::String)
            } else if same_text(name, "number") {
                Ok(AstDatatypes::Number)
            } else if same_text(name, "bool") {
                Ok(AstDatatypes::Bool)
            } else if same_text(name, "void") {
                Ok(AstDatatypes::Void)
            } else if same_text(name, "func") {
                Ok(AstDatatypes::Func)
            } else {
                Err(AstErrorKind::UnknownDatatype)
            }
        },
        _ => Err(AstErrorKind::UnexpectedToken),
    }
}

/// Whether a token is the punctuator `c`.
pub fn punctuator_check(token: &Tokens, c: char) -> (r: bool)
    ensures
        r == (token@ == Lexeme::Punctuator(c)),
{
    match token {
        Tokens::Punctuator(punc) => *punc == c,
        _ => false,
    }
}

/// Whether `c` is one of `chars`.
pub fn one_of(chars: &[char], c: char) -> (r: bool)
    ensures
        r == chars@.contains(c),
{
    let mut i: usize = 0;
    while i < chars.len()
        invariant
            i <= chars.len(),
            forall|k: int| 0 <= k < i ==> chars@[k] != c,
        decreases chars.len() - i,
    {
        if chars[i] == c {
            return true;
        }
        i += 1;
    }
    false
}

/// A copy of `tokens` without its comma punctuators.
pub fn strip_commas(tokens: &Vec<Tokens>) -> (r: Vec<Tokens>)
    ensures
        lexemes(r@) == without_commas(lexemes(tokens@)),
{
    let mut out: Vec<Tokens> = Vec::new();
    let mut i: usize = 0;
    assert(lexemes(tokens@).subrange(0, 0) =~= seq![]);
    assert(lexemes(out@) =~= seq![]);
    while i < tokens.len()
        invariant
            i <= tokens.len(),
            lexemes(out@) == without_commas(lexemes(tokens@).subrange(0, i as int)),
        decreases tokens.len() - i,
    {
        let ghost upto = lexemes(tokens@).subrange(0, i + 1);
        assert(upto.drop_last() =~= lexemes(tokens@).subrange(0, i as int));
        assert(upto.last() == tokens@[i as int]@);
        if !punctuator_check(&tokens[i], ',') {
            let token = tokens[i].clone();
            let ghost before = lexemes(out@);
            out.push(token);
            assert(lexemes(out@) =~= before.push(token@));
        }
        i += 1;
    }
    assert(lexemes(tokens@).subrange(0, tokens@.len() as int) =~= lexemes(tokens@));
    out
}

/// `node` as a sequence of no node or of one.
pub open spec fn single(node: Option<Node>) -> Seq<Node> {
    match node {
        Some(n) => seq![n],
        None => seq![],
    }
}

/// `pre` put in front of the nodes of `rest`, if there are any.
pub open spec fn attach(pre: Seq<Node>, rest: Result<Seq<Node>, Failure>) -> Result<
    Seq<Node>,
    Failure,
> {
    match rest {
        Ok(nodes) => Ok(pre + nodes),
        Err(f) => Err(f),
    }
}

/// What a statement handler leaves behind when `reading` is the statement
/// it was to read. The tokens are never touched. On success the node of the
/// statement, if it has one, is the last of the tree and the cursor stands
/// behind the statement; on failure the tree is as it was.
pub open spec fn handled(
    before: AstChunk,
    after: AstChunk,
    r: Result<(), AstError>,
    reading: Result<Reading, Failure>,
) -> bool {
    &&& after.wf()
    &&& after.tokens() == before.tokens()
    &&& match reading {
        Err(f) => r matches Err(e) && e@ == f && after@.nodes == before@.nodes,
        Ok(read) => match built(read.item) {
            Err(f) => r matches Err(e) && e@ == f && after@.nodes == before@.nodes,
            Ok(node) => r is Ok && after@.nodes == before@.nodes + single(node)
                && after.position() == read.next,
        },
    }
}

/// What a scan for a closing punctuator leaves behind when `len` is the
/// number of tokens in front of that punctuator. On success the tokens in
/// front of it are returned and the cursor stands behind it; where there is
/// no such punctuator the cursor stands at the end of the tokens.
pub open spec fn scanned(
    before: AstChunk,
    after: AstChunk,
    r: Result<Vec<Tokens>, AstError>,
    len: Option<nat>,
) -> bool {
    &&& after.wf()
    &&& after.tokens() == before.tokens()
    &&& after@.nodes == before@.nodes
    &&& match len {
        Some(n) => {
            &&& r matches Ok(found)
            &&& lexemes(found@) == before.tokens().subrange(
                before.position() as int,
                before.position() as int + n,
            )
            &&& after.position() == before.position() + n + 1
        },
        None => {
            &&& r matches Err(e)
            &&& e@ == Failure { kind: AstErrorKind::MissingPunctuator, token: None }
            &&& after.position() == before.tokens().len()
        },
    }
}

impl AstChunk {
    /// Takes the next token and tells whether it is the punctuator
    /// `puncuator`: `Ok(true)` if it is, the token itself as the error if it
    /// is another, and `Err(None)`, without a move, at the end of the tokens.
    pub fn check_puncuator(&mut self, puncuator: char) -> (r: Result<bool, Option<Tokens>>)
        requires
            old(self).wf(),
        ensures
            final(self).wf(),
            final(self).tokens() == old(self).tokens(),
            final(self)@.nodes == old(self)@.nodes,
            match peek(old(self).tokens(), old(self).position()) {
                None => r == Err::<bool, Option<Tokens>>(None) && final(self).position() == old(
                    self,
                ).position(),
                Some(t) => {
                    &&& final(self).position() == old(self).position() + 1
                    &&& if t == Lexeme::Punctuator(puncuator) {
                        r == Ok::<bool, Option<Tokens>>(true)
                    } else {
                        r matches Err(Some(token)) && token@ == t
                    }
                },
            },
    {
        match self.next() {
            None => Err(None),
            Some(punc) => {
                if punctuator_check(&punc, puncuator) {
                    Ok(true)
                } else {
                    Err(Some(punc))
                }
            },
        }
    }

    /// Takes the next token and tells whether it is one of the punctuators
    /// `puncuators`: the punctuator if it is, the token itself as the error
    /// if it is not, and `Err(None)`, without a move, at the end of the
    /// tokens.
    pub fn check_puncuators(&mut self, puncuators: &[char]) -> (r: Result<char, Option<Tokens>>)
        requires
            old(self).wf(),
        ensures
            final(self).wf(),
            final(self).tokens() == old(self).tokens(),
            final(self)@.nodes == old(self)@.nodes,
            match peek(old(self).tokens(), old(self).position()) {
                None => r == Err::<char, Option<Tokens>>(None) && final(self).position() == old(
                    self,
                ).position(),
                Some(t) => {
                    &&& final(self).position() == old(self).position() + 1
                    &&& match t {
                        Lexeme::Punctuator(c) if puncuators@.contains(c) => r == Ok::<
                            char,
                            Option<Tokens>,
                        >(c),
                        _ => r matches Err(Some(token)) && token@ == t,
                    }
                },
            },
    {
        match self.next() {
            None => Err(None),
            Some(punc) => {
                match punc {
                    Tokens::Punctuator(c) => {
                        if one_of(puncuators, c) {
                            Ok(c)
                        } else {
                            Err(Some(Tokens::Punctuator(c)))
                        }
                    },
                    other => Err(Some(other)),
                }
            },
        }
    }

    /// Collects the tokens up to the next punctuator `c`, and steps over it.
    pub fn till_char(&mut self, c: char) -> (r: Result<Vec<Tokens>, AstError>)
        requires
            old(self).wf(),
        ensures
            scanned(
                *old(self),
                *final(self),
                r,
                distance_to(old(self).tokens(), old(self).position(), c),
            ),
    {
        let mut feed: Vec<Tokens> = Vec::new();
        let ghost start = self.position();
        let ghost tokens = self.tokens();
        assert(lexemes(feed@) =~= tokens.subrange(start as int, start as int));
        loop
            invariant
                self.wf(),
                self.tokens() == tokens,
                tokens == old(self).tokens(),
                start == old(self).position(),
                self@.nodes == old(self)@.nodes,
                start <= self.position(),
                lexemes(feed@) == tokens.subrange(start as int, self.position() as int),
                distance_to(tokens, start, c) == longer(
                    distance_to(tokens, self.position(), c),
                    (self.position() - start) as nat,
                ),
            decreases tokens.len() - self.position(),
        {
            match self.check_puncuator(c) {
                Ok(_) => {
                    return Ok(feed);
                },
                Err(None) => {
                    return Err(AstError { kind: AstErrorKind::MissingPunctuator, token: None });
                },
                Err(Some(token)) => {
                    let ghost before = lexemes(feed@);
                    feed.push(token);
                    assert(lexemes(feed@) =~= before.push(token@));
                    assert(lexemes(feed@) =~= tokens.subrange(
                        start as int,
                        self.position() as int,
                    ));
                },
            }
        }
    }

    /// Collects the tokens up to the next `;`, and steps over it.
    pub fn till_seperator(&mut self) -> (r: Result<Vec<Tokens>, AstError>)
        requires
            old(self).wf(),
        ensures
            scanned(
                *old(self),
                *final(self),
                r,
                distance_to(old(self).tokens(), old(self).position(), ';'),
            ),
    {
        self.till_char(';')
    }

    /// Collects the tokens of a region whose opening punctuator
    /// `begin_match` has just been taken, up to the `end_match` that closes
    /// it, and steps over that one. Pairs nested in the region stay in it.
    pub fn get_matching_body(&mut self, begin_match: char, end_match: char) -> (r: Result<
        Vec<Tokens>,
        AstError,
    >)
        requires
            old(self).wf(),
        ensures
            scanned(
                *old(self),
                *final(self),
                r,
                body_len(old(self).tokens(), old(self).position(), begin_match, end_match, 1),
            ),
    {
        let mut body: Vec<Tokens> = Vec::new();
        let mut nested: usize = 0;
        let pair = [begin_match, end_match];
        let ghost start = self.position();
        let ghost tokens = self.tokens();
        assert(lexemes(body@) =~= tokens.subrange(start as int, start as int));
        loop
            invariant
                self.wf(),
                self.tokens() == tokens,
                tokens == old(self).tokens(),
                start == old(self).position(),
                self@.nodes == old(self)@.nodes,
                start <= self.position(),
                nested <= self.position() - start,
                pair@ == seq![begin_match, end_match],
                lexemes(body@) == tokens.subrange(start as int, self.position() as int),
                body_len(tokens, start, begin_match, end_match, 1) == longer(
                    body_len(tokens, self.position(), begin_match, end_match, (nested + 1) as nat),
                    (self.position() - start) as nat,
                ),
            decreases tokens.len() - self.position(),
        {
            let ghost before = lexemes(body@);
            match self.check_puncuators(pair.as_slice()) {
                Ok(c) => {
                    assert(pair@.contains(c) ==> c == begin_match || c == end_match);
                    if c == begin_match {
                        nested += 1;
                    } else if nested == 0 {
                        return Ok(body);
                    } else {
                        nested -= 1;
                    }
                    body.push(Tokens::Punctuator(c));
                    assert(lexemes(body@) =~= before.push(Lexeme::Punctuator(c)));
                },
                Err(None) => {
                    return Err(AstError { kind: AstErrorKind::MissingPunctuator, token: None });
                },
                Err(Some(token)) => {
                    assert(pair@[0] == begin_match && pair@[1] == end_match);
                    body.push(token);
                    assert(lexemes(body@) =~= before.push(token@));
                },
            }
            assert(lexemes(body@) =~= tokens.subrange(start as int, self.position() as int));
        }
    }
}

impl AstChunk {
    /// Reads the rest of a function declaration, builds the tree of its
    /// body, and appends the function to the tree.
    fn declare_function(&mut self) -> (r: Result<(), AstError>)
        requires
            old(self).wf(),
        ensures
            handled(
                *old(self),
                *final(self),
                r,
                function_declaration(old(self).tokens(), old(self).position()),
            ),
        decreases old(self).tokens().len(), 0nat,
    {
        let ghost tokens = self.tokens();
        let ghost pos = self.position();
        let name = match self.next() {
            Some(Tokens::Identifier(name)) => name,
            other => {
                return Err(AstError { kind: AstErrorKind::UnexpectedToken, token: other });
            },
        };
        match self.check_puncuator('(') {
            Ok(_) => {},
            Err(token) => {
                return Err(AstError { kind: AstErrorKind::MissingPunctuator, token });
            },
        }
        let found = match self.get_matching_body('(', ')') {
            Ok(found) => found,
            Err(e) => {
                return Err(e);
            },
        };
        let parameters = strip_commas(&found);
        match self.check_puncuator('{') {
            Ok(_) => {},
            Err(token) => {
                return Err(AstError { kind: AstErrorKind::MissingPunctuator, token });
            },
        }
        proof {
            lemma_body_bound(tokens, self.position(), '{', '}', 1);
        }
        let body = match self.get_matching_body('{', '}') {
            Ok(body) => body,
            Err(e) => {
                return Err(e);
            },
        };
        let mut chunk = Self::from_tokens(body);
        match chunk.create() {
            Ok(()) => {},
            Err(e) => {
                return Err(e);
            },
        }
        let instr = AstInstruction::Function { name, parameters, body: chunk };
        self.add(instr);
        proof {
            assert(old(self)@.nodes.push(instr@) =~= old(self)@.nodes + seq![instr@]);
            assert(seq![].add(chunk@.nodes) =~= chunk@.nodes);
        }
        Ok(())
    }

    /// Reads the rest of the declaration of a variable of type `datatype`,
    /// and appends the assignment to the tree.
    fn declare_variable(&mut self, datatype: AstDatatypes) -> (r: Result<(), AstError>)
        requires
            old(self).wf(),
        ensures
            handled(
                *old(self),
                *final(self),
                r,
                variable_declaration(old(self).tokens(), old(self).position(), datatype),
            ),
    {
        let name = match self.next() {
            Some(Tokens::Identifier(name)) => name,
            other => {
                return Err(AstError { kind: AstErrorKind::UnexpectedToken, token: other });
            },
        };
        match self.check_puncuator(':') {
            Ok(_) => {},
            Err(token) => {
                return Err(AstError { kind: AstErrorKind::MissingPunctuator, token });
            },
        }
        let value = match self.till_seperator() {
            Ok(value) => value,
            Err(e) => {
                return Err(e);
            },
        };
        let instr = AstInstruction::Assignment { name, datatype, value };
        self.add(instr);
        proof {
            assert(old(self)@.nodes.push(instr@) =~= old(self)@.nodes + seq![instr@]);
        }
        Ok(())
    }

    /// Reads the statement that the keyword `key` opens: the cursor stands
    /// behind the keyword. An import and a declaration append their node;
    /// any other keyword is left alone.
    pub fn handle_keyword(&mut self, key: &String) -> (r: Result<(), AstError>)
        requires
            old(self).wf(),
        ensures
            handled(
                *old(self),
                *final(self),
                r,
                keyword_statement(old(self).tokens(), old(self).position(), key@),
            ),
        decreases old(self).tokens().len(), 1nat,
    {
        if same_text(key.as_str(), "beop") {
            match self.next() {
                Some(Tokens::Identifier(name)) => {
                    let instr = AstInstruction::Import { name };
                    self.add(instr);
                    proof {
                        assert(old(self)@.nodes.push(instr@) =~= old(self)@.nodes + seq![instr@]);
                    }
                    Ok(())
                },
                other => Err(AstError { kind: AstErrorKind::UnexpectedToken, token: other }),
            }
        } else if same_text(key.as_str(), "bop") {
            match self.next() {
                None => Err(AstError { kind: AstErrorKind::UnexpectedToken, token: None }),
                Some(dtype) => match parse_datatype(&dtype) {
                    Err(kind) => Err(AstError { kind, token: Some(dtype) }),
                    Ok(AstDatatypes::Func) => self.declare_function(),
                    Ok(datatype) => self.declare_variable(datatype),
                },
            }
        } else {
            proof {
                assert(old(self)@.nodes + seq![] =~= old(self)@.nodes);
            }
            Ok(())
        }
    }

    /// Reads the access path that the identifier `iden` opens: the cursor
    /// stands behind the identifier. A path that ends in a call appends the
    /// call; one that ends at `=` or `;` appends nothing.
    pub fn handle_iden(&mut self, iden: &String) -> (r: Result<(), AstError>)
        requires
            old(self).wf(),
        ensures
            handled(
                *old(self),
                *final(self),
                r,
                access(old(self).tokens(), old(self).position(), iden@, seq![]),
            ),
    {
        let mut uproots: Vec<String> = Vec::new();
        let terminators = ['=', '(', ';'];
        let ghost tokens = self.tokens();
        let ghost goal = access(tokens, self.position(), iden@, seq![]);
        assert(texts(uproots@) =~= seq![]);
        loop
            invariant
                self.wf(),
                self.tokens() == tokens,
                tokens == old(self).tokens(),
                self@.nodes == old(self)@.nodes,
                terminators@ == seq!['=', '(', ';'],
                goal == access(tokens, old(self).position(), iden@, seq![]),
                goal == access(tokens, self.position(), iden@, texts(uproots@)),
            decreases tokens.len() - self.position(),
        {
            match self.check_puncuators(terminators.as_slice()) {
                Ok(c) => {
                    assert(terminators@.contains(c) ==> c == '=' || c == '(' || c == ';');
                    if c == '(' {
                        let found = match self.get_matching_body('(', ')') {
                            Ok(found) => found,
                            Err(e) => {
                                return Err(e);
                            },
                        };
                        let arguments = strip_commas(&found);
                        let ghost path = texts(uproots@);
                        let target = AstInstruction::GetValue { name: iden.clone(), uproots };
                        assert(target@ == Node::GetValue { name: iden@, uproots: path });
                        let instr = AstInstruction::Call { chunk: Box::new(target), arguments };
                        assert(instr@ == Node::Call {
                            chunk: Box::new(target@),
                            arguments: lexemes(arguments@),
                        });
                        self.add(instr);
                        proof {
                            assert(old(self)@.nodes.push(instr@) =~= old(self)@.nodes
                                + seq![instr@]);
                        }
                        return Ok(());
                    } else {
                        proof {
                            assert(old(self)@.nodes + seq![] =~= old(self)@.nodes);
                        }
                        return Ok(());
                    }
                },
                Err(None) => {
                    return Err(AstError { kind: AstErrorKind::MissingPunctuator, token: None });
                },
                Err(Some(token)) => {
                    assert(terminators@[0] == '=' && terminators@[1] == '(' && terminators@[2]
                        == ';');
                    if !punctuator_check(&token, '.') {
                        return Err(
                            AstError { kind: AstErrorKind::MalformedPath, token: Some(token) },
                        );
                    }
                    match self.next() {
                        Some(Tokens::Identifier(uproot)) => {
                            let ghost before = texts(uproots@);
                            uproots.push(uproot);
                            assert(texts(uproots@) =~= before.push(uproot@));
                        },
                        other => {
                            return Err(
                                AstError { kind: AstErrorKind::MalformedPath, token: other },
                            );
                        },
                    }
                },
            }
        }
    }

    /// Builds the nodes of all statements from the cursor on and appends
    /// them to the tree. On failure the tree is as it was before the call.
    pub fn create(&mut self) -> (r: Result<(), AstError>)
        requires
            old(self).wf(),
        ensures
            final(self).wf(),
            final(self).tokens() == old(self).tokens(),
            match parse_from(old(self).tokens(), old(self).position()) {
                Ok(nodes) => {
                    &&& r is Ok
                    &&& final(self)@.nodes == old(self)@.nodes + nodes
                    &&& final(self).position() == old(self).tokens().len()
                },
                Err(f) => r matches Err(e) && e@ == f && final(self)@.nodes == old(self)@.nodes,
            },
        decreases old(self).tokens().len(), 2nat,
    {
        let start: usize = self.tree.len();
        let ghost tokens = self.tokens();
        let ghost goal = parse_from(tokens, self.position());
        let ghost done: Seq<Node> = seq![];
        proof {
            assert(self@.nodes =~= old(self)@.nodes + done);
            assert(match goal {
                Ok(nodes) => seq![] + nodes =~= nodes,
                Err(_) => true,
            });
        }
        loop
            invariant
                self.wf(),
                self.tokens() == tokens,
                tokens == old(self).tokens(),
                start == old(self).tree@.len(),
                self@.nodes == old(self)@.nodes + done,
                goal == parse_from(tokens, old(self).position()),
                goal == attach(done, parse_from(tokens, self.position())),
            decreases tokens.len() - self.position(),
        {
            let ghost pos = self.position();
            let ghost before = self@.nodes;
            proof {
                if pos < tokens.len() {
                    lemma_statement_progress(tokens, pos);
                }
            }
            let outcome = match self.next() {
                None => {
                    proof {
                        assert(done + seq![] =~= done);
                    }
                    return Ok(());
                },
                Some(Tokens::Keyword(key)) => self.handle_keyword(&key),
                Some(Tokens::Identifier(iden)) => self.handle_iden(&iden),
                Some(_) => {
                    proof {
                        assert(before + seq![] =~= before);
                    }
                    Ok(())
                },
            };
            match outcome {
                Err(e) => {
                    let ghost grown = self.tree@;
                    assert(nodes_view(grown).len() == start + done.len());
                    self.tree.truncate(start);
                    proof {
                        assert(self@.nodes =~= nodes_view(grown).subrange(0, start as int));
                        assert(self@.nodes =~= old(self)@.nodes);
                    }
                    return Err(e);
                },
                Ok(()) => {
                    proof {
                        let read = statement(tokens, pos)->Ok_0;
                        let node = built(read.item)->Ok_0;
                        let rest = parse_from(tokens, read.next);
                        assert(self@.nodes =~= old(self)@.nodes + (done + single(node)));
                        if let Ok(nodes) = rest {
                            assert((done + single(node)) + nodes =~= done + (single(node)
                                + nodes));
                            assert(seq![] + nodes =~= nodes);
                        }
                        done = done + single(node);
                    }
                },
            }
        }
    }
}

/// Builds the syntax tree of a token sequence, or reports the first fault.
pub fn create_ast(lexed: ChunkResult) -> (r: Result<AstChunk, AstError>)
    ensures
        match parse(lexed@) {
            Ok(nodes) => r matches Ok(ast) && ast@ == (
            Tree { nodes, tokens: lexed@, position: lexed@.len() }),
            Err(f) => r matches Err(e) && e@ == f,
        },
{
    let mut ast = AstChunk::new(lexed);
    match ast.create() {
        Ok(()) => {
            proof {
                assert(seq![] + ast@.nodes =~= ast@.nodes);
            }
            Ok(ast)
        },
        Err(e) => Err(e),
    }
}

} // verus!
