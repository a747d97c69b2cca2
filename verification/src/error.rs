//! What can go wrong, from the lexer to the evaluator.
use crate::interpreter::{Type, TypeModel, Value, ValueModel};
use crate::lexer::{Token, TokenModel};
use crate::parser::{Node, NodeModel};
use crate::position::Position;
use vstd::prelude::*;

verus! {

/// A failure of one stage. Each variant ends with the span it is reported at and the
/// label of the source, a file path or the like.
#[derive(Debug, PartialEq)]
pub enum Error {
    /// The lexer met a character, or a numeral, it cannot read; the text says which.
    Syntax(String, Position, String),
    /// The parser needed the first token and found the second.
    ExpectToken(Token, Token, Position, String),
    /// The evaluator needed a node shaped like the first and found the second.
    ExpectNode(Node, Node, Position, String),
    /// No expression starts with this token.
    UnexpectedToken(Token, Position, String),
    /// The node has no evaluation rule.
    NotImplemented(Node, Position, String),
    /// The operator does not apply to these two values.
    BinaryOperation(Token, Value, Value, Position, String),
    /// The operator does not apply to this value.
    UnaryOperation(Token, Value, Position, String),
    /// The largest index of a vector, and the index that was asked for.
    Index(usize, usize, Position, String),
    /// The value cannot be part of a value of the type.
    IllegalValue(Value, Type, Position, String),
    /// The name is not bound.
    Variable(String, Position, String),
}

/// What an [`Error`] is in contracts.
pub enum ErrorModel {
    Syntax(Seq<char>, Position, Seq<char>),
    ExpectToken(TokenModel, TokenModel, Position, Seq<char>),
    ExpectNode(NodeModel, NodeModel, Position, Seq<char>),
    UnexpectedToken(TokenModel, Position, Seq<char>),
    NotImplemented(NodeModel, Position, Seq<char>),
    BinaryOperation(TokenModel, ValueModel, ValueModel, Position, Seq<char>),
    UnaryOperation(TokenModel, ValueModel, Position, Seq<char>),
    Index(usize, usize, Position, Seq<char>),
    IllegalValue(ValueModel, TypeModel, Position, Seq<char>),
    Variable(Seq<char>, Position, Seq<char>),
}

impl View for Error {
    type V = ErrorModel;

    open spec fn view(&self) -> ErrorModel {
        match self {
            Error::Syntax(detail, pos, label) => ErrorModel::Syntax(detail@, *pos, label@),
            Error::ExpectToken(wanted, found, pos, label) => ErrorModel::ExpectToken(
                wanted@,
                found@,
                *pos,
                label@,
            ),
            Error::ExpectNode(wanted, found, pos, label) => ErrorModel::ExpectNode(
                wanted@,
                found@,
                *pos,
                label@,
            ),
            Error::UnexpectedToken(found, pos, label) => ErrorModel::UnexpectedToken(
                found@,
                *pos,
                label@,
            ),
            Error::NotImplemented(node, pos, label) => ErrorModel::NotImplemented(
                node@,
                *pos,
                label@,
            ),
            Error::BinaryOperation(op, left, right, pos, label) => ErrorModel::BinaryOperation(
                op@,
                left@,
                right@,
                *pos,
                label@,
            ),
            Error::UnaryOperation(op, value, pos, label) => ErrorModel::UnaryOperation(
                op@,
                value@,
                *pos,
                label@,
            ),
            Error::Index(max, index, pos, label) => ErrorModel::Index(*max, *index, *pos, label@),
            Error::IllegalValue(value, typ, pos, label) => ErrorModel::IllegalValue(
                value@,
                typ@,
                *pos,
                label@,
            ),
            Error::Variable(name, pos, label) => ErrorModel::Variable(name@, *pos, label@),
        }
    }
}

impl Clone for Error {
    fn clone(&self) -> (r: Self)
        ensures
            r@ == self@,
    {
        match self {
            Error::Syntax(detail, pos, label) => Error::Syntax(detail.clone(), *pos, label.clone()),
            Error::ExpectToken(wanted, found, pos, label) => Error::ExpectToken(
                wanted.clone(),
                found.clone(),
                *pos,
                label.clone(),
            ),
            Error::ExpectNode(wanted, found, pos, label) => Error::ExpectNode(
                wanted.clone(),
                found.clone(),
                *pos,
                label.clone(),
            ),
            Error::UnexpectedToken(found, pos, label) => Error::UnexpectedToken(
                found.clone(),
                *pos,
                label.clone(),
            ),
            Error::NotImplemented(node, pos, label) => Error::NotImplemented(
                node.clone(),
                *pos,
                label.clone(),
            ),
            Error::BinaryOperation(op, left, right, pos, label) => Error::BinaryOperation(
                op.clone(),
                left.clone(),
                right.clone(),
                *pos,
                label.clone(),
            ),
            Error::UnaryOperation(op, value, pos, label) => Error::UnaryOperation(
                op.clone(),
                value.clone(),
                *pos,
                label.clone(),
            ),
            Error::Index(max, index, pos, label) => Error::Index(*max, *index, *pos, label.clone()),
            Error::IllegalValue(value, typ, pos, label) => Error::IllegalValue(
                value.clone(),
                typ.clone(),
                *pos,
                label.clone(),
            ),
            Error::Variable(name, pos, label) => Error::Variable(name.clone(), *pos, label.clone()),
        }
    }
}

} // verus!
