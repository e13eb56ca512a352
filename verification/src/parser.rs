//! The instruction tree and the recursive-descent parser that builds it.

use vstd::prelude::*;
use vstd::string::StringExecFns;
use crate::lexer::Token;

verus! {

/// A node of the instruction tree.
#[derive(Debug, PartialEq)]
pub enum AstNode {
    /// The root: the top-level instruction sequence.
    Program(Vec<AstNode>),
    /// Repeat the body while the current cell is nonzero.
    Loop(Vec<AstNode>),
    /// `+`
    Increment,
    /// `-`
    Decrement,
    /// `>`
    MoveRight,
    /// `<`
    MoveLeft,
    /// `,`
    Input,
    /// `.`
    Output,
    /// A folded run of increments.
    Add(usize),
    /// A folded run of decrements.
    Sub(usize),
}

/// The mathematical instruction tree that an [`AstNode`] stands for: the
/// same variants, over sequences and natural numbers.
pub enum Instr {
    /// The root: the top-level instruction sequence.
    Program(Seq<Instr>),
    /// Repeat the body while the current cell is nonzero.
    Loop(Seq<Instr>),
    /// Add 1 to the current cell.
    Increment,
    /// Subtract 1 from the current cell.
    Decrement,
    /// Move the pointer one cell to the right.
    MoveRight,
    /// Move the pointer one cell to the left.
    MoveLeft,
    /// Read a byte into the current cell.
    Input,
    /// Emit the current cell.
    Output,
    /// Add the count to the current cell.
    Add(nat),
    /// Subtract the count from the current cell.
    Sub(nat),
}

impl View for AstNode {
    type V = Instr;

    open spec fn view(&self) -> Instr
        decreases self,
    {
        match self {
            AstNode::Program(body) => Instr::Program(view_body(body@)),
            AstNode::Loop(body) => Instr::Loop(view_body(body@)),
            AstNode::Increment => Instr::Increment,
            AstNode::Decrement => Instr::Decrement,
            AstNode::MoveRight => Instr::MoveRight,
            AstNode::MoveLeft => Instr::MoveLeft,
            AstNode::Input => Instr::Input,
            AstNode::Output => Instr::Output,
            AstNode::Add(n) => Instr::Add(*n as nat),
            AstNode::Sub(n) => Instr::Sub(*n as nat),
        }
    }
}

/// The instruction sequence that a body of nodes stands for: the views of
/// its nodes, in order.
pub open spec fn view_body(body: Seq<AstNode>) -> Seq<Instr>
    decreases body,
{
    Seq::new(body.len(), |i: int| if 0 <= i < body.len() { body[i]@ } else { Instr::Increment })
}

impl Clone for AstNode {
    fn clone(&self) -> (copy: AstNode)
        ensures
            copy@ == self@,
        decreases *self,
    {
        match self {
            AstNode::Program(body) => AstNode::Program(clone_body(body)),
            AstNode::Loop(body) => AstNode::Loop(clone_body(body)),
            AstNode::Increment => AstNode::Increment,
            AstNode::Decrement => AstNode::Decrement,
            AstNode::MoveRight => AstNode::MoveRight,
            AstNode::MoveLeft => AstNode::MoveLeft,
            AstNode::Input => AstNode::Input,
            AstNode::Output => AstNode::Output,
            AstNode::Add(n) => AstNode::Add(*n),
            AstNode::Sub(n) => AstNode::Sub(*n),
        }
    }
}

fn clone_body(body: &Vec<AstNode>) -> (copy: Vec<AstNode>)
    ensures
        view_body(copy@) == view_body(body@),
    decreases *body,
{
    let mut copy: Vec<AstNode> = Vec::new();
    let mut i: usize = 0;
    while i < body.len()
        invariant
            i <= body.len(),
            copy.len() == i,
            forall|j: int| 0 <= j < i ==> (#[trigger] copy@[j])@ == body@[j]@,
        decreases body.len() - i,
    {
        copy.push(body[i].clone());
        i += 1;
    }
    assert(view_body(copy@) =~= view_body(body@));
    copy
}

/// The instruction that a token other than a bracket stands for.
pub open spec fn node_of(token: Token) -> Instr {
    match token {
        Token::Increment => Instr::Increment,
        Token::Decrement => Instr::Decrement,
        Token::IncrementPtr => Instr::MoveRight,
        Token::DecrementPtr => Instr::MoveLeft,
        Token::Input => Instr::Input,
        _ => Instr::Output,
    }
}

/// The number of loops that are open after the first `upto` tokens: the
/// opening brackets among them less the closing ones.
pub open spec fn level(tokens: Seq<Token>, upto: int) -> int
    decreases upto,
{
    if upto <= 0 {
        0
    } else {
        level(tokens, upto - 1) + match tokens[upto - 1] {
            Token::LoopStart => 1int,
            Token::LoopEnd => -1int,
            _ => 0int,
        }
    }
}

/// A parsed instruction sequence, and the position of the token after it.
pub struct Parsed {
    pub nodes: Seq<Instr>,
    pub next: int,
}

/// The message of the one error that parsing reports.
pub open spec fn unclosed_message() -> Seq<char> {
    "Unclosed loop - missing ]"@
}

/// Parses the instruction sequence that begins at token `from`. The
/// sequence ends behind the closing bracket that no opening bracket within
/// it matches, or at the end of the tokens. Reaching the end is an error if
/// the tokens as a whole open more loops than they close.
///
/// The test of where the body of a loop ends makes the definition
/// well-founded and decides nothing: a parse ends within the tokens and
/// behind where it began, as [`lemma_parse_seq_advances`] shows.
pub open spec fn parse_seq(tokens: Seq<Token>, from: int) -> Option<Parsed>
    decreases tokens.len() - from,
{
    if from < 0 {
        None
    } else if from >= tokens.len() {
        if level(tokens, tokens.len() as int) > 0 {
            None
        } else {
            Some(Parsed { nodes: Seq::empty(), next: from })
        }
    } else {
        match tokens[from] {
            Token::LoopEnd => Some(Parsed { nodes: Seq::empty(), next: from + 1 }),
            Token::LoopStart => match parse_seq(tokens, from + 1) {
                None => None,
                Some(inner) => if inner.next <= from || inner.next > tokens.len() {
                    None
                } else {
                    match parse_seq(tokens, inner.next) {
                        None => None,
                        Some(rest) => Some(
                            Parsed {
                                nodes: seq![Instr::Loop(inner.nodes)] + rest.nodes,
                                next: rest.next,
                            },
                        ),
                    }
                },
            },
            token => match parse_seq(tokens, from + 1) {
                None => None,
                Some(rest) => Some(
                    Parsed { nodes: seq![node_of(token)] + rest.nodes, next: rest.next },
                ),
            },
        }
    }
}

/// A parse ends within the tokens, behind where it began unless it began
/// at the end.
pub proof fn lemma_parse_seq_advances(tokens: Seq<Token>, from: int)
    requires
        0 <= from <= tokens.len(),
    ensures
        parse_seq(tokens, from) matches Some(parsed) ==> {
            &&& from <= parsed.next <= tokens.len()
            &&& from < tokens.len() ==> from < parsed.next
        },
    decreases tokens.len() - from,
{
    if from < tokens.len() {
        match tokens[from] {
            Token::LoopEnd => {},
            Token::LoopStart => {
                lemma_parse_seq_advances(tokens, from + 1);
                match parse_seq(tokens, from + 1) {
                    Some(inner) => {
                        lemma_parse_seq_advances(tokens, inner.next);
                    },
                    None => {},
                }
            },
            _ => {
                lemma_parse_seq_advances(tokens, from + 1);
            },
        }
    }
}

/// A recursive-descent parser over a token sequence.
pub struct Parser {
    tokens: Vec<Token>,
    position: usize,
}

/// What a parse returns: the program of the parsed sequence, or the message
/// of the error.
pub open spec fn parse_result(parsed: Option<Parsed>, result: Result<AstNode, String>) -> bool {
    match result {
        Ok(tree) => parsed matches Some(p) && tree@ == Instr::Program(p.nodes),
        Err(message) => parsed is None && message@ == unclosed_message(),
    }
}

/// Parses a token sequence into a program.
pub fn parse(tokens: Vec<Token>) -> (result: Result<AstNode, String>)
    ensures
        parse_result(parse_seq(tokens@, 0), result),
{
    let mut parser = Parser::new(tokens);
    parser.parse()
}

impl Parser {
    /// The position is within the tokens.
    pub closed spec fn wf(&self) -> bool {
        self.position <= self.tokens.len()
    }

    /// The tokens that the parser reads.
    pub closed spec fn tokens(&self) -> Seq<Token> {
        self.tokens@
    }

    /// The index of the next token.
    pub closed spec fn position(&self) -> int {
        self.position as int
    }

    /// A parser at the first of `tokens`.
    pub fn new(tokens: Vec<Token>) -> (parser: Self)
        ensures
            parser.wf(),
            parser.tokens() == tokens@,
            parser.position() == 0,
    {
        Parser { tokens, position: 0 }
    }

    /// Parses the instruction sequence at the parser's position into a
    /// program, and moves the position behind it; after an error the
    /// position is at the end.
    pub fn parse(&mut self) -> (result: Result<AstNode, String>)
        requires
            old(self).wf(),
        ensures
            final(self).wf(),
            final(self).tokens() == old(self).tokens(),
            parse_result(parse_seq(old(self).tokens(), old(self).position()), result),
            final(self).position() == match parse_seq(old(self).tokens(), old(self).position()) {
                Some(parsed) => parsed.next,
                None => old(self).tokens().len() as int,
            },
    {
        self.parse_program()
    }

    /// Parses the instruction sequence at the parser's position.
    #[verifier::loop_isolation(false)]
    fn parse_program(&mut self) -> (result: Result<AstNode, String>)
        requires
            old(self).wf(),
        ensures
            final(self).wf(),
            final(self).tokens() == old(self).tokens(),
            parse_result(parse_seq(old(self).tokens(), old(self).position()), result),
            final(self).position() == match parse_seq(old(self).tokens(), old(self).position()) {
                Some(parsed) => parsed.next,
                None => old(self).tokens().len() as int,
            },
        decreases old(self).tokens().len() - old(self).position(),
    {
        let ghost tokens = self.tokens@;
        let ghost start = self.position as int;
        let mut instructions: Vec<AstNode> = Vec::new();
        while !self.is_at_end()
            invariant
                self.wf(),
                self.tokens@ == tokens,
                start <= self.position,
                match parse_seq(tokens, self.position as int) {
                    None => parse_seq(tokens, start) is None,
                    Some(rest) => parse_seq(tokens, start) == Some(
                        Parsed { nodes: view_body(instructions@) + rest.nodes, next: rest.next },
                    ),
                },
            decreases tokens.len() - self.position,
        {
            let ghost done = view_body(instructions@);
            let ghost here = self.position as int;
            let token = match self.peek() {
                Some(token) => *token,
                None => {
                    return Err(String::from_str("Unexpected end of input"));
                },
            };
            match token {
                Token::LoopStart => {
                    self.advance();
                    proof {
                        lemma_parse_seq_advances(tokens, here + 1);
                    }
                    let body = match self.parse_program() {
                        Ok(AstNode::Program(nodes)) => nodes,
                        Ok(_) => {
                            return Err(String::from_str("Expected program node from loop body"));
                        },
                        Err(message) => {
                            return Err(message);
                        },
                    };
                    instructions.push(AstNode::Loop(body));
                },
                Token::LoopEnd => {
                    self.advance();
                    assert(view_body(instructions@) + Seq::<Instr>::empty() =~= view_body(
                        instructions@,
                    ));
                    return Ok(AstNode::Program(instructions));
                },
                Token::Increment => {
                    instructions.push(AstNode::Increment);
                    self.advance();
                },
                Token::Decrement => {
                    instructions.push(AstNode::Decrement);
                    self.advance();
                },
                Token::IncrementPtr => {
                    instructions.push(AstNode::MoveRight);
                    self.advance();
                },
                Token::DecrementPtr => {
                    instructions.push(AstNode::MoveLeft);
                    self.advance();
                },
                Token::Input => {
                    instructions.push(AstNode::Input);
                    self.advance();
                },
                Token::Output => {
                    instructions.push(AstNode::Output);
                    self.advance();
                },
            }
            proof {
                let last = view_body(instructions@).last();
                assert(view_body(instructions@) =~= done + seq![last]);
                match parse_seq(tokens, self.position as int) {
                    Some(rest) => {
                        assert((done + seq![last]) + rest.nodes =~= done + (seq![last]
                            + rest.nodes));
                    },
                    None => {},
                }
            }
        }
        if self.looking_for_loop_end() {
            return Err(String::from_str("Unclosed loop - missing ]"));
        }
        assert(view_body(instructions@) + Seq::<Instr>::empty() =~= view_body(instructions@));
        Ok(AstNode::Program(instructions))
    }

    /// Whether every token has been read.
    fn is_at_end(&self) -> (at_end: bool)
        ensures
            at_end == (self.position() >= self.tokens().len()),
    {
        self.position >= self.tokens.len()
    }

    /// The next token, if there is one.
    fn peek(&self) -> (token: Option<&Token>)
        ensures
            token == if self.position() < self.tokens().len() {
                Some(&self.tokens()[self.position()])
            } else {
                None
            },
    {
        if self.position < self.tokens.len() {
            Some(&self.tokens[self.position])
        } else {
            None
        }
    }

    /// Moves to the next token, unless every token has been read, and
    /// returns the token before the new position, if there is one.
    fn advance(&mut self) -> (token: Option<Token>)
        requires
            old(self).wf(),
        ensures
            final(self).wf(),
            final(self).tokens() == old(self).tokens(),
            final(self).position() == if old(self).position() < old(self).tokens().len() {
                old(self).position() + 1
            } else {
                old(self).position()
            },
            token == if final(self).position() > 0 {
                Some(final(self).tokens()[final(self).position() - 1])
            } else {
                None
            },
    {
        if !self.is_at_end() {
            self.position += 1;
        }
        if self.position > 0 {
            Some(self.tokens[self.position - 1])
        } else {
            None
        }
    }

    /// Whether the tokens read so far open more loops than they close.
    fn looking_for_loop_end(&self) -> (open: bool)
        requires
            self.wf(),
        ensures
            open == (level(self.tokens(), self.position()) > 0),
    {
        let mut opened: usize = 0;
        let mut closed: usize = 0;
        let mut i: usize = 0;
        while i < self.position
            invariant
                self.wf(),
                i <= self.position,
                opened <= i,
                closed <= i,
                opened - closed == level(self.tokens@, i as int),
            decreases self.position - i,
        {
            match self.tokens[i] {
                Token::LoopStart => {
                    opened += 1;
                },
                Token::LoopEnd => {
                    closed += 1;
                },
                _ => {},
            }
            i += 1;
        }
        opened > closed
    }
}

/// The tokens that spell an instruction. A counted instruction and a
/// program node have no spelling.
pub open spec fn spelled(node: Instr) -> Seq<Token>
    decreases node,
{
    match node {
        Instr::Increment => seq![Token::Increment],
        Instr::Decrement => seq![Token::Decrement],
        Instr::MoveRight => seq![Token::IncrementPtr],
        Instr::MoveLeft => seq![Token::DecrementPtr],
        Instr::Input => seq![Token::Input],
        Instr::Output => seq![Token::Output],
        Instr::Loop(body) => seq![Token::LoopStart] + spelled_seq(body) + seq![Token::LoopEnd],
        _ => Seq::empty(),
    }
}

/// The tokens that spell an instruction sequence.
pub open spec fn spelled_seq(body: Seq<Instr>) -> Seq<Token>
    decreases body,
{
    if body.len() == 0 {
        Seq::empty()
    } else {
        spelled(body[0]) + spelled_seq(body.drop_first())
    }
}

/// The instruction is one of the six simple commands, or a loop over a
/// canonical sequence.
pub open spec fn canonical(node: Instr) -> bool
    decreases node,
{
    match node {
        Instr::Loop(body) => canonical_seq(body),
        Instr::Add(_) => false,
        Instr::Sub(_) => false,
        Instr::Program(_) => false,
        _ => true,
    }
}

/// Every instruction of the sequence is canonical.
pub open spec fn canonical_seq(body: Seq<Instr>) -> bool
    decreases body,
{
    body.len() == 0 || (canonical(body[0]) && canonical_seq(body.drop_first()))
}

/// The level after a concatenation is the sum of the levels.
proof fn lemma_level_concat(a: Seq<Token>, b: Seq<Token>, upto: int)
    requires
        0 <= upto <= b.len(),
    ensures
        level(a + b, a.len() + upto) == level(a, a.len() as int) + level(b, upto),
    decreases upto,
{
    if upto == 0 {
        lemma_level_prefix(a, b, a.len() as int);
    } else {
        lemma_level_concat(a, b, upto - 1);
        assert((a + b)[a.len() + upto - 1] == b[upto - 1]);
    }
}

/// The level within a prefix does not depend on what follows.
proof fn lemma_level_prefix(a: Seq<Token>, b: Seq<Token>, upto: int)
    requires
        0 <= upto <= a.len(),
    ensures
        level(a + b, upto) == level(a, upto),
    decreases upto,
{
    if upto > 0 {
        lemma_level_prefix(a, b, upto - 1);
        assert((a + b)[upto - 1] == a[upto - 1]);
    }
}

/// The spelling of a sequence closes every loop that it opens.
proof fn lemma_spelled_seq_level(body: Seq<Instr>)
    ensures
        level(spelled_seq(body), spelled_seq(body).len() as int) == 0,
    decreases body, 1nat,
{
    if body.len() > 0 {
        let head = spelled(body[0]);
        let tail = spelled_seq(body.drop_first());
        lemma_spelled_level(body[0]);
        lemma_spelled_seq_level(body.drop_first());
        lemma_level_concat(head, tail, tail.len() as int);
    }
}

/// The spelling of an instruction closes every loop that it opens.
proof fn lemma_spelled_level(node: Instr)
    ensures
        level(spelled(node), spelled(node).len() as int) == 0,
    decreases node, 0nat,
{
    match node {
        Instr::Loop(body) => {
            let open = seq![Token::LoopStart];
            let inner = spelled_seq(body);
            let close = seq![Token::LoopEnd];
            lemma_spelled_seq_level(body);
            lemma_level_concat(open, inner, inner.len() as int);
            lemma_level_concat(open + inner, close, 1);
            assert(level(open, 1) == 1) by {
                assert(level(open, 0) == 0);
            }
            assert(level(close, 1) == -1) by {
                assert(level(close, 0) == 0);
            }
        },
        Instr::Increment => {
            assert(level(spelled(node), 0) == 0);
        },
        Instr::Decrement => {
            assert(level(spelled(node), 0) == 0);
        },
        Instr::MoveRight => {
            assert(level(spelled(node), 0) == 0);
        },
        Instr::MoveLeft => {
            assert(level(spelled(node), 0) == 0);
        },
        Instr::Input => {
            assert(level(spelled(node), 0) == 0);
        },
        Instr::Output => {
            assert(level(spelled(node), 0) == 0);
        },
        _ => {},
    }
}

/// What follows a spelling ends the parse of it: a closing bracket, or the
/// end of tokens that open no more loops than they close.
pub open spec fn ends_parse(tokens: Seq<Token>, after: Seq<Token>) -> bool {
    if after.len() > 0 {
        after[0] == Token::LoopEnd
    } else {
        level(tokens, tokens.len() as int) <= 0
    }
}

/// Within any tokens, the spelling of a canonical sequence is parsed into
/// that sequence, if what follows it ends the parse; the parse ends behind
/// the closing bracket, or at the end.
pub proof fn lemma_parse_spelled_within(before: Seq<Token>, body: Seq<Instr>, after: Seq<Token>)
    requires
        canonical_seq(body),
        ends_parse(before + spelled_seq(body) + after, after),
    ensures
        parse_seq(before + spelled_seq(body) + after, before.len() as int) == Some(
            Parsed {
                nodes: body,
                next: before.len() + spelled_seq(body).len() + if after.len() > 0 {
                    1int
                } else {
                    0int
                },
            },
        ),
    decreases body,
{
    let tokens = before + spelled_seq(body) + after;
    let from = before.len() as int;
    if body.len() == 0 {
        assert(body =~= Seq::empty());
        assert(tokens =~= before + after);
        if after.len() > 0 {
            assert(tokens[from] == after[0]);
        }
    } else {
        let node = body[0];
        let rest = body.drop_first();
        let head = spelled(node);
        let tail = spelled_seq(rest);
        assert(canonical(node));
        assert(canonical_seq(rest));
        assert(tokens =~= (before + head) + tail + after);
        lemma_parse_spelled_within(before + head, rest, after);
        let parsed_rest = Parsed {
            nodes: rest,
            next: before.len() + head.len() + tail.len() + if after.len() > 0 {
                1int
            } else {
                0int
            },
        };
        assert(parse_seq(tokens, from + head.len()) == Some(parsed_rest));
        assert(seq![node] + rest =~= body);
        match node {
            Instr::Loop(inner) => {
                assert(canonical_seq(inner));
                let spelled_inner = spelled_seq(inner);
                let close = seq![Token::LoopEnd] + tail + after;
                assert(tokens =~= (before + seq![Token::LoopStart]) + spelled_inner + close);
                lemma_parse_spelled_within(before + seq![Token::LoopStart], inner, close);
                assert(tokens[from] == Token::LoopStart);
                assert(head.len() == spelled_inner.len() + 2);
                assert(parse_seq(tokens, from + 1) == Some(
                    Parsed { nodes: inner, next: from + 1 + spelled_inner.len() + 1 },
                ));
            },
            _ => {
                assert(head.len() == 1);
                assert(tokens[from] == head[0]);
                assert(node_of(tokens[from]) == node);
            },
        }
    }
}

/// Parsing is the inverse of spelling: the spelling of a canonical
/// sequence is parsed into that sequence, and the parse reads all of it.
pub proof fn lemma_parse_spelled(body: Seq<Instr>)
    requires
        canonical_seq(body),
    ensures
        parse_seq(spelled_seq(body), 0) == Some(
            Parsed { nodes: body, next: spelled_seq(body).len() as int },
        ),
{
    let tokens = spelled_seq(body);
    lemma_spelled_seq_level(body);
    assert(Seq::<Token>::empty() + tokens + Seq::<Token>::empty() =~= tokens);
    lemma_parse_spelled_within(Seq::empty(), body, Seq::empty());
}

/// A parse yields canonical sequences only: the six simple commands and
/// loops over them.
pub proof fn lemma_parse_seq_canonical(tokens: Seq<Token>, from: int)
    requires
        0 <= from <= tokens.len(),
    ensures
        parse_seq(tokens, from) matches Some(parsed) ==> canonical_seq(parsed.nodes),
    decreases tokens.len() - from,
{
    if from < tokens.len() {
        lemma_parse_seq_advances(tokens, from + 1);
        lemma_parse_seq_canonical(tokens, from + 1);
        match parse_seq(tokens, from) {
            Some(parsed) => {
                match tokens[from] {
                    Token::LoopEnd => {},
                    Token::LoopStart => {
                        let inner = parse_seq(tokens, from + 1)->0;
                        lemma_parse_seq_canonical(tokens, inner.next);
                        let rest = parse_seq(tokens, inner.next)->0;
                        assert(parsed.nodes[0] == Instr::Loop(inner.nodes));
                        assert(canonical(parsed.nodes[0]));
                        assert(parsed.nodes.drop_first() =~= rest.nodes);
                    },
                    token => {
                        let rest = parse_seq(tokens, from + 1)->0;
                        assert(parsed.nodes[0] == node_of(token));
                        assert(canonical(parsed.nodes[0]));
                        assert(parsed.nodes.drop_first() =~= rest.nodes);
                    },
                }
            },
            None => {},
        }
    }
}

} // verus!
