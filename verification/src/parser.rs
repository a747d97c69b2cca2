//! The syntax tree, and the recursive-descent parser that builds it from tokens.
//!
//! The grammar, loosest binding first:
//!
//! ```text
//! input   := expr NL* EOF
//! expr    := call '=' expr                 where call is a name or a call
//!          | call (compare arith)*
//! compare := '=' | '!=' | '<' | '>' | '<=' | '>='
//! call    := arith atom?
//! arith   := term (('+' | '-') term)*
//! term    := power (('*' | '/') power)*
//! power   := factor ('^' factor)*
//! factor  := '-' factor | hash
//! hash    := atom ('#' atom)*
//! atom    := INT | FLOAT | NAME | 'pi' | 'inf' | '(' expr ')' | '[' arith* ']'
//! ```
//!
//! `=` after a name or a call assigns, and groups from the right; after anything
//! else it compares. An atom right behind an arithmetic expression is the argument
//! of a call of it. Every node carries the span from its first token to its last.
//! The first token that fits nowhere ends the parsing with an error.
//!
//! The grammar is written down as the functions `atom_result`, `chain_result` and
//! so on. Where one of them goes on behind the part that another has read, it first
//! tests that the other has moved forward within the tokens. The test shows that
//! the definitions end; it never fails, as `laws::law_productions_move_forward`
//! proves.
use crate::error::{Error, ErrorModel};
use crate::lexer::{tokens_model, Token, TokenModel};
use crate::position::Position;
use vstd::prelude::*;

verus! {

/// A syntax tree. Every child comes with the span of the source text it was read from.
#[derive(Debug, PartialEq)]
pub enum Node {
    Binary(Token, (Box<Node>, Position), (Box<Node>, Position)),
    Unary(Token, (Box<Node>, Position)),
    Int(i64),
    Float(u64),
    Infinity,
    PI,
    Variable(String),
    Vector(Vec<(Node, Position)>),
    Assign((Box<Node>, Position), (Box<Node>, Position)),
    Call((Box<Node>, Position), (Box<Node>, Position)),
}

/// What a [`Node`] is in contracts.
pub enum NodeModel {
    Binary(TokenModel, (Box<NodeModel>, Position), (Box<NodeModel>, Position)),
    Unary(TokenModel, (Box<NodeModel>, Position)),
    Int(i64),
    Float(u64),
    Infinity,
    PI,
    Variable(Seq<char>),
    Vector(Seq<(NodeModel, Position)>),
    Assign((Box<NodeModel>, Position), (Box<NodeModel>, Position)),
    Call((Box<NodeModel>, Position), (Box<NodeModel>, Position)),
}

impl View for Node {
    type V = NodeModel;

    open spec fn view(&self) -> NodeModel
        decreases self, 0nat,
    {
        match self {
            Node::Binary(op, left, right) => NodeModel::Binary(
                op@,
                (Box::new((*left.0).view()), left.1),
                (Box::new((*right.0).view()), right.1),
            ),
            Node::Unary(op, operand) => NodeModel::Unary(
                op@,
                (Box::new((*operand.0).view()), operand.1),
            ),
            Node::Int(v) => NodeModel::Int(*v),
            Node::Float(bits) => NodeModel::Float(*bits),
            Node::Infinity => NodeModel::Infinity,
            Node::PI => NodeModel::PI,
            Node::Variable(name) => NodeModel::Variable(name@),
            Node::Vector(items) => NodeModel::Vector(items_model(*items, items.len() as nat)),
            Node::Assign(target, value) => NodeModel::Assign(
                (Box::new((*target.0).view()), target.1),
                (Box::new((*value.0).view()), value.1),
            ),
            Node::Call(callee, argument) => NodeModel::Call(
                (Box::new((*callee.0).view()), callee.1),
                (Box::new((*argument.0).view()), argument.1),
            ),
        }
    }
}

/// The views of the first `n` items of a vector literal, with their spans.
pub open spec fn items_model(items: Vec<(Node, Position)>, n: nat) -> Seq<(NodeModel, Position)>
    decreases items, n,
{
    if n == 0 || n > items.len() {
        Seq::empty()
    } else {
        items_model(items, (n - 1) as nat).push((items[n - 1].0.view(), items[n - 1].1))
    }
}

/// `items_model` holds one view for each of the items it was asked for.
pub proof fn lemma_items_model(items: Vec<(Node, Position)>, n: nat)
    requires
        n <= items.len(),
    ensures
        items_model(items, n).len() == n,
        forall|i: int|
            0 <= i < n ==> #[trigger] items_model(items, n)[i] == (items[i].0@, items[i].1),
    decreases n,
{
    if n > 0 {
        lemma_items_model(items, (n - 1) as nat);
        assert(items_model(items, n) == items_model(items, (n - 1) as nat).push(
            (items[n - 1].0.view(), items[n - 1].1),
        ));
    } else {
        assert(items_model(items, n) == Seq::<(NodeModel, Position)>::empty());
    }
}

impl Clone for Node {
    fn clone(&self) -> (r: Self)
        ensures
            r@ == self@,
        decreases self,
    {
        match self {
            Node::Binary(op, left, right) => Node::Binary(
                op.clone(),
                (Box::new((*left.0).clone()), left.1),
                (Box::new((*right.0).clone()), right.1),
            ),
            Node::Unary(op, operand) => Node::Unary(
                op.clone(),
                (Box::new((*operand.0).clone()), operand.1),
            ),
            Node::Int(v) => Node::Int(*v),
            Node::Float(bits) => Node::Float(*bits),
            Node::Infinity => Node::Infinity,
            Node::PI => Node::PI,
            Node::Variable(name) => Node::Variable(name.clone()),
            Node::Vector(items) => {
                let mut copies: Vec<(Node, Position)> = Vec::new();
                let mut i: usize = 0;
                while i < items.len()
                    invariant
                        i <= items.len(),
                        self matches Node::Vector(own) && own == items,
                        copies.len() == i,
                        forall|j: int|
                            0 <= j < i ==> copies[j].0@ == items[j].0@ && copies[j].1
                                == items[j].1,
                    decreases items.len() - i,
                {
                    let copy = items[i].0.clone();
                    copies.push((copy, items[i].1));
                    i += 1;
                }
                let r = Node::Vector(copies);
                proof {
                    lemma_items_model(copies, copies.len() as nat);
                    lemma_items_model(*items, items.len() as nat);
                    assert(r@->Vector_0 =~= self@->Vector_0);
                }
                r
            },
            Node::Assign(target, value) => Node::Assign(
                (Box::new((*target.0).clone()), target.1),
                (Box::new((*value.0).clone()), value.1),
            ),
            Node::Call(callee, argument) => Node::Call(
                (Box::new((*callee.0).clone()), callee.1),
                (Box::new((*argument.0).clone()), argument.1),
            ),
        }
    }
}

/// Where a production stops, and what it has read up to there.
pub struct Parsed {
    pub result: Result<(NodeModel, Position), ErrorModel>,
    pub idx: nat,
}

/// The levels of left-associative binary operators, loosest first: `+ -`, `* /`,
/// `^`, and `#`.
#[derive(Clone, Copy, Debug, PartialEq, Eq, Structural)]
pub enum Level {
    Arith,
    Term,
    Power,
    Hash,
}

/// The token at `idx`; past the end, the end of file.
pub open spec fn token_at(ts: Seq<(TokenModel, Position)>, idx: nat) -> TokenModel {
    if idx < ts.len() {
        ts[idx as int].0
    } else {
        TokenModel::EOF
    }
}

/// The span of the token at `idx`; past the end, the empty span at the origin.
pub open spec fn pos_at(ts: Seq<(TokenModel, Position)>, idx: nat) -> Position {
    if idx < ts.len() {
        ts[idx as int].1
    } else {
        Position {
            start: 0,
            end: 0,
            line_start: 0,
            line_end: 0,
            column_start: 0,
            column_end: 0,
        }
    }
}

/// Whether `token` is an operator of `level`.
pub open spec fn is_operator(level: Level, token: TokenModel) -> bool {
    match level {
        Level::Arith => token is Add || token is Subtract,
        Level::Term => token is Multiply || token is Divide,
        Level::Power => token is Power,
        Level::Hash => token is Hashtag,
    }
}

/// Whether `token` compares: `=`, `!=`, `<`, `>`, `<=` or `>=`.
pub open spec fn compares(token: TokenModel) -> bool {
    token is Equal || token is NotEqual || token is Less || token is Greater || token is LessEqual
        || token is GreaterEqual
}

/// Whether an atom can start with `token`.
pub open spec fn starts_atom(token: TokenModel) -> bool {
    token is Int || token is Float || token is Variable || token is Infinity || token is PI
        || token is GroupIn || token is VectorIn
}

/// Whether `node` can stand left of `=` in an assignment: a name, or a call.
pub open spec fn assignable(node: NodeModel) -> bool {
    node is Variable || node is Call
}

/// A number that orders the productions that may start at the same token.
pub open spec fn rank(level: Level) -> nat {
    match level {
        Level::Arith => 9,
        Level::Term => 7,
        Level::Power => 5,
        Level::Hash => 2,
    }
}

/// `left op right`, with the span from the start of `left` to the end of `right`.
pub open spec fn joined(
    op: TokenModel,
    left: (NodeModel, Position),
    right: (NodeModel, Position),
) -> (NodeModel, Position) {
    (
        NodeModel::Binary(op, (Box::new(left.0), left.1), (Box::new(right.0), right.1)),
        left.1.union(right.1),
    )
}

/// An atom: a literal, a name, an expression in round brackets, or a vector literal
/// in square brackets. The span of a bracketed expression is that of the expression;
/// the span of a vector literal runs from `[` through `]`.
pub open spec fn atom_result(ts: Seq<(TokenModel, Position)>, idx: nat, label: Seq<char>) -> Parsed
    decreases ts.len() - idx, 0nat,
{
    let pos = pos_at(ts, idx);
    match token_at(ts, idx) {
        TokenModel::Int(v) => Parsed { result: Ok((NodeModel::Int(v), pos)), idx: idx + 1 },
        TokenModel::Float(bits) => Parsed {
            result: Ok((NodeModel::Float(bits), pos)),
            idx: idx + 1,
        },
        TokenModel::Variable(name) => Parsed {
            result: Ok((NodeModel::Variable(name), pos)),
            idx: idx + 1,
        },
        TokenModel::Infinity => Parsed { result: Ok((NodeModel::Infinity, pos)), idx: idx + 1 },
        TokenModel::PI => Parsed { result: Ok((NodeModel::PI, pos)), idx: idx + 1 },
        TokenModel::GroupIn => {
            let inner = expr_result(ts, idx + 1, label);
            match inner.result {
                Ok(found) => if token_at(ts, inner.idx) is GroupOut {
                    Parsed { result: Ok(found), idx: inner.idx + 1 }
                } else {
                    Parsed {
                        result: Err(
                            ErrorModel::ExpectToken(
                                TokenModel::GroupOut,
                                token_at(ts, inner.idx),
                                pos_at(ts, inner.idx),
                                label,
                            ),
                        ),
                        idx: inner.idx,
                    }
                },
                Err(_) => inner,
            }
        },
        TokenModel::VectorIn => vector_result(ts, idx + 1, label, pos, Seq::empty()),
        other => Parsed { result: Err(ErrorModel::UnexpectedToken(other, pos, label)), idx },
    }
}

/// The rest of a vector literal after `[` and the items read so far: more items,
/// each an arithmetic expression, up to `]`.
pub open spec fn vector_result(
    ts: Seq<(TokenModel, Position)>,
    idx: nat,
    label: Seq<char>,
    pos: Position,
    items: Seq<(NodeModel, Position)>,
) -> Parsed
    decreases ts.len() - idx, 10nat,
{
    if token_at(ts, idx) is VectorOut {
        Parsed {
            result: Ok((NodeModel::Vector(items), pos.union(pos_at(ts, idx)))),
            idx: idx + 1,
        }
    } else {
        let item = chain_result(Level::Arith, ts, idx, label);
        match item.result {
            Ok(found) => if idx < item.idx <= ts.len() {
                vector_result(ts, item.idx, label, pos.union(found.1), items.push(found))
            } else {
                item
            },
            Err(_) => item,
        }
    }
}

/// An operand of `level`: a chain of the next tighter level, a factor below `^`, an
/// atom below `#`.
pub open spec fn operand_result(
    level: Level,
    ts: Seq<(TokenModel, Position)>,
    idx: nat,
    label: Seq<char>,
) -> Parsed
    decreases ts.len() - idx, rank(level) - 1,
{
    match level {
        Level::Arith => chain_result(Level::Term, ts, idx, label),
        Level::Term => chain_result(Level::Power, ts, idx, label),
        Level::Power => factor_result(ts, idx, label),
        Level::Hash => atom_result(ts, idx, label),
    }
}

/// Operands of `level` joined by operators of `level`, grouped from the left.
pub open spec fn chain_result(
    level: Level,
    ts: Seq<(TokenModel, Position)>,
    idx: nat,
    label: Seq<char>,
) -> Parsed
    decreases ts.len() - idx, rank(level),
{
    let first = operand_result(level, ts, idx, label);
    match first.result {
        Ok(found) => if idx < first.idx <= ts.len() {
            rest_result(level, ts, first.idx, label, found)
        } else {
            first
        },
        Err(_) => first,
    }
}

/// The rest of a chain after `left`: as long as an operator of `level` follows, one
/// more operand, joined to what stands left of it.
pub open spec fn rest_result(
    level: Level,
    ts: Seq<(TokenModel, Position)>,
    idx: nat,
    label: Seq<char>,
    left: (NodeModel, Position),
) -> Parsed
    decreases ts.len() - idx, 12nat,
{
    if is_operator(level, token_at(ts, idx)) {
        let right = operand_result(level, ts, idx + 1, label);
        match right.result {
            Ok(found) => if idx < right.idx <= ts.len() {
                rest_result(level, ts, right.idx, label, joined(token_at(ts, idx), left, found))
            } else {
                right
            },
            Err(_) => right,
        }
    } else {
        Parsed { result: Ok(left), idx }
    }
}

/// A factor: `-` before a factor, or a chain of `#`.
pub open spec fn factor_result(ts: Seq<(TokenModel, Position)>, idx: nat, label: Seq<char>) -> Parsed
    decreases ts.len() - idx, 3nat,
{
    if token_at(ts, idx) is Subtract {
        let operand = factor_result(ts, idx + 1, label);
        match operand.result {
            Ok(found) => Parsed {
                result: Ok(
                    (
                        NodeModel::Unary(TokenModel::Subtract, (Box::new(found.0), found.1)),
                        pos_at(ts, idx).union(found.1),
                    ),
                ),
                idx: operand.idx,
            },
            Err(_) => operand,
        }
    } else {
        chain_result(Level::Hash, ts, idx, label)
    }
}

/// An arithmetic expression, applied to the atom that follows it where one does.
pub open spec fn call_result(ts: Seq<(TokenModel, Position)>, idx: nat, label: Seq<char>) -> Parsed
    decreases ts.len() - idx, 10nat,
{
    let callee = chain_result(Level::Arith, ts, idx, label);
    match callee.result {
        Ok(found) => if starts_atom(token_at(ts, callee.idx)) && idx < callee.idx <= ts.len() {
            let argument = atom_result(ts, callee.idx, label);
            match argument.result {
                Ok(passed) => Parsed {
                    result: Ok(
                        (
                            NodeModel::Call(
                                (Box::new(found.0), found.1),
                                (Box::new(passed.0), passed.1),
                            ),
                            found.1.union(passed.1),
                        ),
                    ),
                    idx: argument.idx,
                },
                Err(_) => argument,
            }
        } else {
            callee
        },
        Err(_) => callee,
    }
}

/// An expression. Where `=` follows a name or a call, it is an assignment of the
/// expression right of it. Otherwise comparisons are joined from the left.
pub open spec fn expr_result(ts: Seq<(TokenModel, Position)>, idx: nat, label: Seq<char>) -> Parsed
    decreases ts.len() - idx, 11nat,
{
    let first = call_result(ts, idx, label);
    match first.result {
        Ok(found) => if idx < first.idx <= ts.len() {
            if token_at(ts, first.idx) is Equal && assignable(found.0) {
                let value = expr_result(ts, first.idx + 1, label);
                match value.result {
                    Ok(given) => Parsed {
                        result: Ok(
                            (
                                NodeModel::Assign(
                                    (Box::new(found.0), found.1),
                                    (Box::new(given.0), given.1),
                                ),
                                found.1.union(given.1),
                            ),
                        ),
                        idx: value.idx,
                    },
                    Err(_) => value,
                }
            } else {
                compare_result(ts, first.idx, label, found)
            }
        } else {
            first
        },
        Err(_) => first,
    }
}

/// The rest of a chain of comparisons after `left`.
pub open spec fn compare_result(
    ts: Seq<(TokenModel, Position)>,
    idx: nat,
    label: Seq<char>,
    left: (NodeModel, Position),
) -> Parsed
    decreases ts.len() - idx, 12nat,
{
    if compares(token_at(ts, idx)) {
        let right = chain_result(Level::Arith, ts, idx + 1, label);
        match right.result {
            Ok(found) => if idx < right.idx <= ts.len() {
                compare_result(ts, right.idx, label, joined(token_at(ts, idx), left, found))
            } else {
                right
            },
            Err(_) => right,
        }
    } else {
        Parsed { result: Ok(left), idx }
    }
}

/// The first index at or after `idx` that holds no end of line.
pub open spec fn skip_newlines(ts: Seq<(TokenModel, Position)>, idx: nat) -> nat
    decreases ts.len() - idx,
{
    if token_at(ts, idx) is NL {
        skip_newlines(ts, idx + 1)
    } else {
        idx
    }
}

/// A whole input from `idx` on: one expression, then ends of line, if any, then the
/// end of file.
pub open spec fn parse_result(ts: Seq<(TokenModel, Position)>, idx: nat, label: Seq<char>) -> Result<
    (NodeModel, Position),
    ErrorModel,
> {
    let e = expr_result(ts, idx, label);
    match e.result {
        Ok(found) => {
            let end = skip_newlines(ts, e.idx);
            if token_at(ts, e.idx) is EOF {
                Ok(found)
            } else if !(token_at(ts, e.idx) is NL) {
                Err(
                    ErrorModel::ExpectToken(
                        TokenModel::NL,
                        token_at(ts, e.idx),
                        pos_at(ts, e.idx),
                        label,
                    ),
                )
            } else if token_at(ts, end) is EOF {
                Ok(found)
            } else {
                Err(
                    ErrorModel::ExpectToken(
                        TokenModel::EOF,
                        token_at(ts, end),
                        pos_at(ts, end),
                        label,
                    ),
                )
            }
        },
        Err(error) => Err(error),
    }
}

/// What a result of the parser is in contracts.
pub open spec fn result_model(r: Result<(Node, Position), Error>) -> Result<
    (NodeModel, Position),
    ErrorModel,
> {
    match r {
        Ok(found) => Ok((found.0@, found.1)),
        Err(error) => Err(error@),
    }
}

/// A cursor over a sequence of tokens. Past the last token it reads the end of file.
pub struct Parser {
    pub tokens: Vec<(Token, Position)>,
    pub idx: usize,
    pub file_path: String,
}

fn operator(level: Level, token: &Token) -> (r: bool)
    ensures
        r == is_operator(level, token@),
{
    match level {
        Level::Arith => match token {
            Token::Add | Token::Subtract => true,
            _ => false,
        },
        Level::Term => match token {
            Token::Multiply | Token::Divide => true,
            _ => false,
        },
        Level::Power => match token {
            Token::Power => true,
            _ => false,
        },
        Level::Hash => match token {
            Token::Hashtag => true,
            _ => false,
        },
    }
}

fn comparing(token: &Token) -> (r: bool)
    ensures
        r == compares(token@),
{
    match token {
        Token::Equal
        | Token::NotEqual
        | Token::Less
        | Token::Greater
        | Token::LessEqual
        | Token::GreaterEqual => true,
        _ => false,
    }
}

fn atom_start(token: &Token) -> (r: bool)
    ensures
        r == starts_atom(token@),
{
    match token {
        Token::Int(_)
        | Token::Float(_)
        | Token::Variable(_)
        | Token::Infinity
        | Token::PI
        | Token::GroupIn
        | Token::VectorIn => true,
        _ => false,
    }
}

fn join(op: Token, left: (Node, Position), right: (Node, Position)) -> (r: (Node, Position))
    ensures
        (r.0@, r.1) == joined(op@, (left.0@, left.1), (right.0@, right.1)),
{
    let mut pos = left.1;
    pos.extend(right.1);
    let node = Node::Binary(op, (Box::new(left.0), left.1), (Box::new(right.0), right.1));
    (node, pos)
}

impl Parser {
    /// The tokens, as contracts see them.
    pub open spec fn stream(&self) -> Seq<(TokenModel, Position)> {
        tokens_model(self.tokens)
    }

    /// How many tokens are left to read.
    pub open spec fn remaining(&self) -> nat {
        if self.idx < self.tokens.len() {
            (self.tokens.len() - self.idx) as nat
        } else {
            0
        }
    }

    /// `after` is `self` moved to where `step` stops, and `r` is what `step` read.
    /// The cursor never moves back, and a production that succeeds has read a token.
    pub open spec fn stepped(
        &self,
        after: Parser,
        r: Result<(Node, Position), Error>,
        step: Parsed,
    ) -> bool {
        &&& after.tokens == self.tokens
        &&& after.file_path == self.file_path
        &&& after.idx == step.idx
        &&& result_model(r) == step.result
        &&& self.idx <= after.idx
        &&& r is Ok ==> self.idx < after.idx <= self.tokens.len()
    }

    /// A cursor at the first of `tokens`. `file_path` labels the source in errors.
    pub fn new(tokens: Vec<(Token, Position)>, file_path: String) -> (r: Self)
        ensures
            r.tokens == tokens,
            r.idx == 0,
            r.file_path == file_path,
    {
        Self { tokens, idx: 0, file_path }
    }

    /// The token under the cursor.
    pub fn token(&self) -> (r: Token)
        ensures
            r@ == token_at(self.stream(), self.idx as nat),
    {
        if self.idx < self.tokens.len() {
            self.tokens[self.idx].0.clone()
        } else {
            Token::EOF
        }
    }

    /// Checks that `token` is under the cursor.
    pub fn expect_token(&self, token: Token) -> (r: Result<(), Error>)
        ensures
            r is Ok <==> token@ == token_at(self.stream(), self.idx as nat),
            r is Err ==> r->Err_0@ == ErrorModel::ExpectToken(
                token@,
                token_at(self.stream(), self.idx as nat),
                pos_at(self.stream(), self.idx as nat),
                self.file_path@,
            ),
    {
        let found = self.token();
        if token != found {
            return Err(Error::ExpectToken(token, found, self.pos(), self.file_path.clone()));
        }
        Ok(())
    }

    /// The span of the token under the cursor.
    pub fn pos(&self) -> (r: Position)
        ensures
            r == pos_at(self.stream(), self.idx as nat),
    {
        if self.idx < self.tokens.len() {
            self.tokens[self.idx].1
        } else {
            Position::new(0, 0, 0, 0, 0, 0)
        }
    }

    /// Moves the cursor to the next token. It stays where it is past the last one.
    pub fn advance(&mut self)
        ensures
            final(self).tokens == old(self).tokens,
            final(self).file_path == old(self).file_path,
            final(self).idx == if old(self).idx < old(self).tokens.len() {
                old(self).idx + 1
            } else {
                old(self).idx as int
            },
    {
        if self.idx < self.tokens.len() {
            self.idx += 1;
        }
    }

    /// Moves the cursor past the ends of line under it.
    pub fn advance_nl(&mut self)
        ensures
            final(self).tokens == old(self).tokens,
            final(self).file_path == old(self).file_path,
            final(self).idx == skip_newlines(old(self).stream(), old(self).idx as nat),
    {
        while self.idx < self.tokens.len() && self.newline()
            invariant
                self.tokens == old(self).tokens,
                self.file_path == old(self).file_path,
                skip_newlines(self.stream(), self.idx as nat) == skip_newlines(
                    old(self).stream(),
                    old(self).idx as nat,
                ),
            decreases self.remaining(),
        {
            self.idx += 1;
        }
    }

    fn newline(&self) -> (r: bool)
        ensures
            r == (token_at(self.stream(), self.idx as nat) is NL),
    {
        if self.idx < self.tokens.len() {
            match &self.tokens[self.idx].0 {
                Token::NL => true,
                _ => false,
            }
        } else {
            false
        }
    }
}

impl Parser {
    /// Reads an atom: a literal, a name, an expression in round brackets, or a vector
    /// literal.
    pub fn atom(&mut self) -> (r: Result<(Node, Position), Error>)
        ensures
            old(self).stepped(
                *final(self),
                r,
                atom_result(old(self).stream(), old(self).idx as nat, old(self).file_path@),
            ),
        decreases old(self).remaining(), 0nat,
    {
        let pos = self.pos();
        match self.token() {
            Token::Int(v) => {
                self.advance();
                Ok((Node::Int(v), pos))
            },
            Token::Float(bits) => {
                self.advance();
                Ok((Node::Float(bits), pos))
            },
            Token::Variable(name) => {
                self.advance();
                Ok((Node::Variable(name), pos))
            },
            Token::Infinity => {
                self.advance();
                Ok((Node::Infinity, pos))
            },
            Token::PI => {
                self.advance();
                Ok((Node::PI, pos))
            },
            Token::GroupIn => {
                self.advance();
                let found = match self.expr() {
                    Ok(found) => found,
                    Err(error) => { return Err(error); },
                };
                match self.expect_token(Token::GroupOut) {
                    Ok(_) => {},
                    Err(error) => { return Err(error); },
                }
                self.advance();
                Ok(found)
            },
            Token::VectorIn => {
                self.advance();
                self.vector_items(pos)
            },
            other => Err(Error::UnexpectedToken(other, pos, self.file_path.clone())),
        }
    }

    /// Reads the items of a vector literal and its `]`; `start` is the span of its `[`.
    fn vector_items(&mut self, start: Position) -> (r: Result<(Node, Position), Error>)
        ensures
            old(self).stepped(
                *final(self),
                r,
                vector_result(
                    old(self).stream(),
                    old(self).idx as nat,
                    old(self).file_path@,
                    start,
                    Seq::empty(),
                ),
            ),
        decreases old(self).remaining(), 10nat,
    {
        let ghost ts = self.stream();
        let ghost label = self.file_path@;
        let ghost first = self.idx as nat;
        let ghost mut done: Seq<(NodeModel, Position)> = Seq::empty();
        let mut pos = start;
        let mut nodes: Vec<(Node, Position)> = Vec::new();
        while !self.closing()
            invariant
                self.tokens == old(self).tokens,
                self.file_path == old(self).file_path,
                ts == old(self).stream(),
                label == old(self).file_path@,
                first == old(self).idx,
                old(self).idx <= self.idx,
                self.idx <= self.tokens.len() || self.idx == old(self).idx,
                done.len() == nodes.len(),
                forall|j: int|
                    0 <= j < nodes.len() ==> #[trigger] done[j] == (nodes[j].0@, nodes[j].1),
                vector_result(ts, self.idx as nat, label, pos, done) == vector_result(
                    ts,
                    first,
                    label,
                    start,
                    Seq::empty(),
                ),
            decreases self.remaining(),
        {
            let ghost here = self.idx as nat;
            let (node, node_pos) = match self.chain(Level::Arith) {
                Ok(found) => found,
                Err(error) => {
                    assert(vector_result(ts, here, label, pos, done).result == Err::<
                        (NodeModel, Position),
                        ErrorModel,
                    >(error@));
                    return Err(error);
                },
            };
            proof {
                assert(vector_result(ts, here, label, pos, done) == vector_result(
                    ts,
                    self.idx as nat,
                    label,
                    pos.union(node_pos),
                    done.push((node@, node_pos)),
                ));
                done = done.push((node@, node_pos));
            }
            pos.extend(node_pos);
            nodes.push((node, node_pos));
        }
        pos.extend(self.pos());
        self.advance();
        let node = Node::Vector(nodes);
        proof {
            lemma_items_model(nodes, nodes.len() as nat);
            assert(node@ == NodeModel::Vector(items_model(nodes, nodes.len() as nat)));
            assert(node@->Vector_0 =~= done);
        }
        Ok((node, pos))
    }

    fn closing(&self) -> (r: bool)
        ensures
            r == (token_at(self.stream(), self.idx as nat) is VectorOut),
    {
        if self.idx < self.tokens.len() {
            match &self.tokens[self.idx].0 {
                Token::VectorOut => true,
                _ => false,
            }
        } else {
            false
        }
    }

    /// Reads one operand of `level`.
    fn operand(&mut self, level: Level) -> (r: Result<(Node, Position), Error>)
        ensures
            old(self).stepped(
                *final(self),
                r,
                operand_result(
                    level,
                    old(self).stream(),
                    old(self).idx as nat,
                    old(self).file_path@,
                ),
            ),
        decreases old(self).remaining(), rank(level) - 1,
    {
        match level {
            Level::Arith => self.chain(Level::Term),
            Level::Term => self.chain(Level::Power),
            Level::Power => self.factor(),
            Level::Hash => self.atom(),
        }
    }

    /// Reads operands of `level` joined by its operators, grouping from the left.
    fn chain(&mut self, level: Level) -> (r: Result<(Node, Position), Error>)
        ensures
            old(self).stepped(
                *final(self),
                r,
                chain_result(
                    level,
                    old(self).stream(),
                    old(self).idx as nat,
                    old(self).file_path@,
                ),
            ),
        decreases old(self).remaining(), rank(level),
    {
        let ghost ts = self.stream();
        let ghost label = self.file_path@;
        let mut left = match self.operand(level) {
            Ok(found) => found,
            Err(error) => { return Err(error); },
        };
        let ghost first = self.idx as nat;
        let ghost first_left = (left.0@, left.1);
        let ghost whole = chain_result(level, ts, old(self).idx as nat, label);
        assert(whole == rest_result(level, ts, first, label, first_left));
        while self.at_operator(level)
            invariant
                whole == rest_result(level, ts, first, label, first_left),
                whole == chain_result(level, ts, old(self).idx as nat, label),
                self.tokens == old(self).tokens,
                self.file_path == old(self).file_path,
                ts == old(self).stream(),
                label == old(self).file_path@,
                old(self).idx < self.idx <= self.tokens.len(),
                rest_result(level, ts, self.idx as nat, label, (left.0@, left.1)) == rest_result(
                    level,
                    ts,
                    first,
                    label,
                    first_left,
                ),
            decreases self.remaining(),
        {
            let ghost here = self.idx as nat;
            let ghost before = (left.0@, left.1);
            let op = self.token();
            self.advance();
            let right = match self.operand(level) {
                Ok(found) => found,
                Err(error) => {
                    assert(rest_result(level, ts, here, label, before) == Parsed {
                        result: Err(error@),
                        idx: self.idx as nat,
                    });
                    return Err(error);
                },
            };
            proof {
                assert(rest_result(level, ts, here, label, before) == rest_result(
                    level,
                    ts,
                    self.idx as nat,
                    label,
                    joined(op@, before, (right.0@, right.1)),
                ));
            }
            left = join(op, left, right);
        }
        assert(rest_result(level, ts, self.idx as nat, label, (left.0@, left.1)).result == Ok::<
            (NodeModel, Position),
            ErrorModel,
        >((left.0@, left.1)));
        Ok(left)
    }

    fn at_operator(&self, level: Level) -> (r: bool)
        ensures
            r == is_operator(level, token_at(self.stream(), self.idx as nat)),
    {
        if self.idx < self.tokens.len() {
            operator(level, &self.tokens[self.idx].0)
        } else {
            operator(level, &Token::EOF)
        }
    }

    /// Reads a factor: `-` before a factor, or a chain of `#`.
    pub fn factor(&mut self) -> (r: Result<(Node, Position), Error>)
        ensures
            old(self).stepped(
                *final(self),
                r,
                factor_result(old(self).stream(), old(self).idx as nat, old(self).file_path@),
            ),
        decreases old(self).remaining(), 3nat,
    {
        let mut pos = self.pos();
        let negative = match self.token() {
            Token::Subtract => true,
            _ => false,
        };
        if negative {
            self.advance();
            let (node, node_pos) = match self.factor() {
                Ok(found) => found,
                Err(error) => { return Err(error); },
            };
            pos.extend(node_pos);
            return Ok((Node::Unary(Token::Subtract, (Box::new(node), node_pos)), pos));
        }
        self.chain(Level::Hash)
    }

    /// Reads an arithmetic expression and, where an atom follows it, the call of the
    /// one on the other.
    fn call(&mut self) -> (r: Result<(Node, Position), Error>)
        ensures
            old(self).stepped(
                *final(self),
                r,
                call_result(old(self).stream(), old(self).idx as nat, old(self).file_path@),
            ),
        decreases old(self).remaining(), 10nat,
    {
        let (callee, callee_pos) = match self.chain(Level::Arith) {
            Ok(found) => found,
            Err(error) => { return Err(error); },
        };
        if atom_start(&self.token()) {
            let (argument, argument_pos) = match self.atom() {
                Ok(found) => found,
                Err(error) => { return Err(error); },
            };
            let mut pos = callee_pos;
            pos.extend(argument_pos);
            return Ok(
                (
                    Node::Call(
                        (Box::new(callee), callee_pos),
                        (Box::new(argument), argument_pos),
                    ),
                    pos,
                ),
            );
        }
        Ok((callee, callee_pos))
    }

    /// Reads an expression: an assignment, a definition, or a chain of comparisons.
    pub fn expr(&mut self) -> (r: Result<(Node, Position), Error>)
        ensures
            old(self).stepped(
                *final(self),
                r,
                expr_result(old(self).stream(), old(self).idx as nat, old(self).file_path@),
            ),
        decreases old(self).remaining(), 11nat,
    {
        let ghost ts = self.stream();
        let ghost label = self.file_path@;
        let mut left = match self.call() {
            Ok(found) => found,
            Err(error) => { return Err(error); },
        };
        let target = match &left.0 {
            Node::Variable(_) => true,
            Node::Call(_, _) => true,
            _ => false,
        };
        let assigns = match self.token() {
            Token::Equal => true,
            _ => false,
        };
        if assigns && target {
            self.advance();
            let (value, value_pos) = match self.expr() {
                Ok(found) => found,
                Err(error) => { return Err(error); },
            };
            let mut pos = left.1;
            pos.extend(value_pos);
            return Ok(
                (Node::Assign((Box::new(left.0), left.1), (Box::new(value), value_pos)), pos),
            );
        }
        let ghost first = self.idx as nat;
        let ghost first_left = (left.0@, left.1);
        let ghost whole = expr_result(ts, old(self).idx as nat, label);
        assert(whole == compare_result(ts, first, label, first_left));
        while comparing(&self.token())
            invariant
                whole == compare_result(ts, first, label, first_left),
                whole == expr_result(ts, old(self).idx as nat, label),
                self.tokens == old(self).tokens,
                self.file_path == old(self).file_path,
                ts == old(self).stream(),
                label == old(self).file_path@,
                old(self).idx < self.idx <= self.tokens.len(),
                compare_result(ts, self.idx as nat, label, (left.0@, left.1)) == compare_result(
                    ts,
                    first,
                    label,
                    first_left,
                ),
            decreases self.remaining(),
        {
            let ghost here = self.idx as nat;
            let ghost before = (left.0@, left.1);
            let op = self.token();
            self.advance();
            let right = match self.chain(Level::Arith) {
                Ok(found) => found,
                Err(error) => {
                    assert(compare_result(ts, here, label, before) == Parsed {
                        result: Err(error@),
                        idx: self.idx as nat,
                    });
                    return Err(error);
                },
            };
            proof {
                assert(compare_result(ts, here, label, before) == compare_result(
                    ts,
                    self.idx as nat,
                    label,
                    joined(op@, before, (right.0@, right.1)),
                ));
            }
            left = join(op, left, right);
        }
        assert(compare_result(ts, self.idx as nat, label, (left.0@, left.1)).result == Ok::<
            (NodeModel, Position),
            ErrorModel,
        >((left.0@, left.1)));
        Ok(left)
    }

    /// Reads terms joined by `+` and `-`.
    pub fn arith(&mut self) -> (r: Result<(Node, Position), Error>)
        ensures
            old(self).stepped(
                *final(self),
                r,
                chain_result(
                    Level::Arith,
                    old(self).stream(),
                    old(self).idx as nat,
                    old(self).file_path@,
                ),
            ),
    {
        self.chain(Level::Arith)
    }

    /// Reads powers joined by `*` and `/`.
    pub fn term(&mut self) -> (r: Result<(Node, Position), Error>)
        ensures
            old(self).stepped(
                *final(self),
                r,
                chain_result(
                    Level::Term,
                    old(self).stream(),
                    old(self).idx as nat,
                    old(self).file_path@,
                ),
            ),
    {
        self.chain(Level::Term)
    }

    /// Reads factors joined by `^`.
    pub fn power(&mut self) -> (r: Result<(Node, Position), Error>)
        ensures
            old(self).stepped(
                *final(self),
                r,
                chain_result(
                    Level::Power,
                    old(self).stream(),
                    old(self).idx as nat,
                    old(self).file_path@,
                ),
            ),
    {
        self.chain(Level::Power)
    }

    /// Reads atoms joined by `#`.
    pub fn hash(&mut self) -> (r: Result<(Node, Position), Error>)
        ensures
            old(self).stepped(
                *final(self),
                r,
                chain_result(
                    Level::Hash,
                    old(self).stream(),
                    old(self).idx as nat,
                    old(self).file_path@,
                ),
            ),
    {
        self.chain(Level::Hash)
    }

    /// Reads a whole input: one expression, then ends of line, if any, then the end
    /// of file.
    pub fn parse(&mut self) -> (r: Result<(Node, Position), Error>)
        ensures
            final(self).tokens == old(self).tokens,
            final(self).file_path == old(self).file_path,
            result_model(r) == parse_result(
                old(self).stream(),
                old(self).idx as nat,
                old(self).file_path@,
            ),
    {
        let node = match self.expr() {
            Ok(found) => found,
            Err(error) => { return Err(error); },
        };
        let at_end = match self.token() {
            Token::EOF => true,
            _ => false,
        };
        if at_end {
            return Ok(node);
        }
        match self.expect_token(Token::NL) {
            Ok(_) => {},
            Err(error) => { return Err(error); },
        }
        self.advance_nl();
        match self.expect_token(Token::EOF) {
            Ok(_) => {},
            Err(error) => { return Err(error); },
        }
        Ok(node)
    }
}

/// Parses a whole sequence of tokens. `file_path` labels the source in errors.
pub fn parse(tokens: Vec<(Token, Position)>, file_path: &str) -> (r: Result<
    (Node, Position),
    Error,
>)
    ensures
        result_model(r) == parse_result(tokens_model(tokens), 0, file_path@),
{
    Parser::new(tokens, String::from_str(file_path)).parse()
}

} // verus!
