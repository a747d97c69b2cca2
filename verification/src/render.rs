//! How spans, types, trees, values and errors read in messages.
//!
//! A message is a sequence of parts. Joined in order they give the message; a float
//! among them is left for the caller to write out in decimal.
use crate::error::{Error, ErrorModel};
use crate::interpreter::{lemma_vector_value, type_of, Type, TypeModel, Value, ValueModel};
use crate::lexer::token_name;
use crate::parser::{items_model, lemma_items_model, Node, NodeModel};
use crate::position::Position;
use crate::text::{
    decimal, integer_text, natural_text, parts_model, push_float, push_text, signed_decimal,
    text_part, Part, PartModel,
};
use vstd::prelude::*;

verus! {

/// A span in a message: the line and the column where it starts.
pub open spec fn position_text(pos: Position) -> Seq<char> {
    "<ln: "@ + decimal(pos.line_start as nat) + ", column: "@ + decimal(pos.column_start as nat)
        + ">"@
}

/// A type in a message.
pub open spec fn type_text(t: TypeModel) -> Seq<char> {
    match t {
        TypeModel::Int => "int"@,
        TypeModel::Float => "float"@,
        TypeModel::Vector => "vector"@,
        TypeModel::Function(param) => "function("@ + param + ")"@,
    }
}

/// A tree in a message: every node in round brackets, an operator between its
/// operands, the items of a vector in square brackets with a space between them.
pub open spec fn node_parts(node: NodeModel) -> Seq<PartModel>
    decreases node, 0nat,
{
    match node {
        NodeModel::Int(v) => text_part("("@) + text_part(signed_decimal(v as int)) + text_part(
            ")"@,
        ),
        NodeModel::Float(bits) => text_part("("@) + seq![PartModel::Float(bits)] + text_part(")"@),
        NodeModel::PI => text_part("(pi)"@),
        NodeModel::Infinity => text_part("(inf)"@),
        NodeModel::Variable(name) => text_part("("@) + text_part(name) + text_part(")"@),
        NodeModel::Vector(items) => text_part("["@) + items_parts(items, items.len()) + text_part(
            "]"@,
        ),
        NodeModel::Binary(op, left, right) => text_part("("@) + node_parts(*left.0) + text_part(
            " "@,
        ) + text_part(token_name(op)) + text_part(" "@) + node_parts(*right.0) + text_part(")"@),
        NodeModel::Unary(op, operand) => text_part("("@) + text_part(token_name(op)) + text_part(
            " "@,
        ) + node_parts(*operand.0) + text_part(")"@),
        NodeModel::Assign(target, value) => text_part("("@) + node_parts(*target.0) + text_part(
            " '=' "@,
        ) + node_parts(*value.0) + text_part(")"@),
        NodeModel::Call(callee, argument) => text_part("("@) + node_parts(*callee.0) + text_part(
            " "@,
        ) + node_parts(*argument.0) + text_part(")"@),
    }
}

/// The first `n` items of a vector literal, with a space between them.
pub open spec fn items_parts(items: Seq<(NodeModel, Position)>, n: nat) -> Seq<PartModel>
    decreases items, n,
{
    if n == 0 || n > items.len() {
        Seq::empty()
    } else if n == 1 {
        node_parts(items[0].0)
    } else {
        items_parts(items, (n - 1) as nat) + text_part(" "@) + node_parts(items[n - 1].0)
    }
}

/// A value in a message: a number as it is, a vector in square brackets with a comma
/// and a space between its items, a function by the name of its parameter.
pub open spec fn value_parts(value: ValueModel) -> Seq<PartModel>
    decreases value, 0nat,
{
    match value {
        ValueModel::Int(v) => text_part(signed_decimal(v as int)),
        ValueModel::Float(bits) => seq![PartModel::Float(bits)],
        ValueModel::Vector(items) => text_part("["@) + values_parts(items, items.len())
            + text_part("]"@),
        ValueModel::Function(param, _) => text_part("function("@) + text_part(param) + text_part(
            ")"@,
        ),
    }
}

/// The first `n` items of a vector, with a comma and a space between them.
pub open spec fn values_parts(items: Seq<ValueModel>, n: nat) -> Seq<PartModel>
    decreases items, n,
{
    if n == 0 || n > items.len() {
        Seq::empty()
    } else if n == 1 {
        value_parts(items[0])
    } else {
        values_parts(items, (n - 1) as nat) + text_part(", "@) + value_parts(items[n - 1])
    }
}

/// What went wrong, without where.
pub open spec fn detail_parts(error: ErrorModel) -> Seq<PartModel> {
    match error {
        ErrorModel::Syntax(detail, _, _) => text_part(detail),
        ErrorModel::ExpectToken(wanted, found, _, _) => text_part("expected "@) + text_part(
            token_name(wanted),
        ) + text_part(" got "@) + text_part(token_name(found)),
        ErrorModel::ExpectNode(wanted, found, _, _) => text_part("expected "@) + node_parts(wanted)
            + text_part(" got "@) + node_parts(found),
        ErrorModel::UnexpectedToken(found, _, _) => text_part("unexpected "@) + text_part(
            token_name(found),
        ),
        ErrorModel::NotImplemented(node, _, _) => node_parts(node) + text_part(
            " not implemented"@,
        ),
        ErrorModel::BinaryOperation(op, left, right, _, _) => text_part("operation "@) + text_part(
            token_name(op),
        ) + text_part(" cannot be performed on "@) + text_part(type_text(type_of(left)))
            + text_part(" and "@) + text_part(type_text(type_of(right))),
        ErrorModel::UnaryOperation(op, value, _, _) => text_part("operation "@) + text_part(
            token_name(op),
        ) + text_part(" cannot be performed on "@) + text_part(type_text(type_of(value))),
        ErrorModel::Index(max, index, _, _) => text_part("index "@) + text_part(
            decimal(index as nat),
        ) + text_part(" out of range, max "@) + text_part(decimal(max as nat)),
        ErrorModel::IllegalValue(value, typ, _, _) => text_part(type_text(type_of(value)))
            + text_part(" illegal for "@) + text_part(type_text(typ)),
        ErrorModel::Variable(name, _, _) => text_part(name) + text_part(" not defined"@),
    }
}

/// The span an error is reported at.
pub open spec fn error_position(error: ErrorModel) -> Position {
    match error {
        ErrorModel::Syntax(_, pos, _) => pos,
        ErrorModel::ExpectToken(_, _, pos, _) => pos,
        ErrorModel::ExpectNode(_, _, pos, _) => pos,
        ErrorModel::UnexpectedToken(_, pos, _) => pos,
        ErrorModel::NotImplemented(_, pos, _) => pos,
        ErrorModel::BinaryOperation(_, _, _, pos, _) => pos,
        ErrorModel::UnaryOperation(_, _, pos, _) => pos,
        ErrorModel::Index(_, _, pos, _) => pos,
        ErrorModel::IllegalValue(_, _, pos, _) => pos,
        ErrorModel::Variable(_, pos, _) => pos,
    }
}

/// The label of the source an error is reported in.
pub open spec fn error_label(error: ErrorModel) -> Seq<char> {
    match error {
        ErrorModel::Syntax(_, _, label) => label,
        ErrorModel::ExpectToken(_, _, _, label) => label,
        ErrorModel::ExpectNode(_, _, _, label) => label,
        ErrorModel::UnexpectedToken(_, _, label) => label,
        ErrorModel::NotImplemented(_, _, label) => label,
        ErrorModel::BinaryOperation(_, _, _, _, label) => label,
        ErrorModel::UnaryOperation(_, _, _, label) => label,
        ErrorModel::Index(_, _, _, label) => label,
        ErrorModel::IllegalValue(_, _, _, label) => label,
        ErrorModel::Variable(_, _, label) => label,
    }
}

/// An error as a message: `ERROR: `, what went wrong, ` - `, the label of the
/// source, a space, and the span.
pub open spec fn error_parts(error: ErrorModel) -> Seq<PartModel> {
    text_part("ERROR: "@) + detail_parts(error) + text_part(" - "@) + text_part(error_label(error))
        + text_part(" "@) + text_part(position_text(error_position(error)))
}

impl Position {
    /// The span as messages show it.
    pub fn text(&self) -> (r: String)
        ensures
            r@ == position_text(*self),
    {
        let mut r = String::from_str("<ln: ");
        r.append(natural_text(self.line_start as u64).as_str());
        r.append(", column: ");
        r.append(natural_text(self.column_start as u64).as_str());
        r.append(">");
        r
    }
}

impl Type {
    /// The type as messages show it.
    pub fn text(&self) -> (r: String)
        ensures
            r@ == type_text(self@),
    {
        match self {
            Type::Int => String::from_str("int"),
            Type::Float => String::from_str("float"),
            Type::Vector => String::from_str("vector"),
            Type::Function(param) => {
                let mut r = String::from_str("function(");
                r.append(param.as_str());
                r.append(")");
                r
            },
        }
    }
}

impl Node {
    /// Adds the tree as messages show it to `out`.
    fn write(&self, out: &mut Vec<Part>)
        ensures
            parts_model(*final(out)) == parts_model(*old(out)) + node_parts(self@),
        decreases self,
    {
        let ghost before = parts_model(*out);
        match self {
            Node::Int(v) => {
                push_text(out, "(");
                push_text(out, integer_text(*v).as_str());
                push_text(out, ")");
            },
            Node::Float(bits) => {
                push_text(out, "(");
                push_float(out, *bits);
                push_text(out, ")");
            },
            Node::PI => {
                push_text(out, "(pi)");
            },
            Node::Infinity => {
                push_text(out, "(inf)");
            },
            Node::Variable(name) => {
                push_text(out, "(");
                push_text(out, name.as_str());
                push_text(out, ")");
            },
            Node::Vector(items) => {
                let ghost models = self@->Vector_0;
                proof {
                    lemma_items_model(*items, items.len() as nat);
                    assert(self@ == NodeModel::Vector(items_model(*items, items.len() as nat)));
                }
                push_text(out, "[");
                let ghost opened = parts_model(*out);
                let mut i: usize = 0;
                while i < items.len()
                    invariant
                        i <= items.len(),
                        self matches Node::Vector(own) && own == items,
                        models.len() == items.len(),
                        forall|j: int|
                            0 <= j < items.len() ==> #[trigger] models[j] == (
                                items[j].0@,
                                items[j].1,
                            ),
                        parts_model(*out) == opened + items_parts(models, i as nat),
                    decreases items.len() - i,
                {
                    let ghost so_far = items_parts(models, i as nat);
                    if i > 0 {
                        push_text(out, " ");
                    }
                    items[i].0.write(out);
                    proof {
                        let next = items_parts(models, (i + 1) as nat);
                        if i == 0 {
                            assert(so_far =~= Seq::<PartModel>::empty());
                            assert(next == node_parts(models[0].0));
                        } else {
                            assert(next == so_far + text_part(" "@) + node_parts(
                                models[i as int].0,
                            ));
                        }
                        assert(parts_model(*out) =~= opened + next);
                    }
                    i += 1;
                }
                push_text(out, "]");
            },
            Node::Binary(op, left, right) => {
                assert(self@ == NodeModel::Binary(
                    op@,
                    (Box::new((*left.0)@), left.1),
                    (Box::new((*right.0)@), right.1),
                ));
                push_text(out, "(");
                (*left.0).write(out);
                push_text(out, " ");
                push_text(out, op.name());
                push_text(out, " ");
                (*right.0).write(out);
                push_text(out, ")");
            },
            Node::Unary(op, operand) => {
                assert(self@ == NodeModel::Unary(op@, (Box::new((*operand.0)@), operand.1)));
                push_text(out, "(");
                push_text(out, op.name());
                push_text(out, " ");
                (*operand.0).write(out);
                push_text(out, ")");
            },
            Node::Assign(target, value) => {
                assert(self@ == NodeModel::Assign(
                    (Box::new((*target.0)@), target.1),
                    (Box::new((*value.0)@), value.1),
                ));
                push_text(out, "(");
                (*target.0).write(out);
                push_text(out, " '=' ");
                (*value.0).write(out);
                push_text(out, ")");
            },
            Node::Call(callee, argument) => {
                assert(self@ == NodeModel::Call(
                    (Box::new((*callee.0)@), callee.1),
                    (Box::new((*argument.0)@), argument.1),
                ));
                push_text(out, "(");
                (*callee.0).write(out);
                push_text(out, " ");
                (*argument.0).write(out);
                push_text(out, ")");
            },
        }
        assert(parts_model(*out) =~= before + node_parts(self@));
    }

    /// The tree as messages show it.
    pub fn parts(&self) -> (r: Vec<Part>)
        ensures
            parts_model(r) == node_parts(self@),
    {
        let mut out: Vec<Part> = Vec::new();
        assert(parts_model(out) =~= Seq::<PartModel>::empty());
        self.write(&mut out);
        assert(parts_model(out) =~= node_parts(self@));
        out
    }
}

impl Value {
    /// Adds the value as messages show it to `out`.
    fn write(&self, out: &mut Vec<Part>)
        ensures
            parts_model(*final(out)) == parts_model(*old(out)) + value_parts(self@),
        decreases self,
    {
        let ghost before = parts_model(*out);
        match self {
            Value::Int(v) => {
                push_text(out, integer_text(*v).as_str());
            },
            Value::Float(bits) => {
                push_float(out, *bits);
            },
            Value::Vector(items) => {
                let ghost models = self@->Vector_0;
                proof {
                    lemma_vector_value(*items);
                }
                push_text(out, "[");
                let ghost opened = parts_model(*out);
                let mut i: usize = 0;
                while i < items.len()
                    invariant
                        i <= items.len(),
                        self matches Value::Vector(own) && own == items,
                        models.len() == items.len(),
                        forall|j: int| 0 <= j < items.len() ==> #[trigger] models[j] == items[j]@,
                        parts_model(*out) == opened + values_parts(models, i as nat),
                    decreases items.len() - i,
                {
                    let ghost so_far = values_parts(models, i as nat);
                    if i > 0 {
                        push_text(out, ", ");
                    }
                    items[i].write(out);
                    proof {
                        let next = values_parts(models, (i + 1) as nat);
                        if i == 0 {
                            assert(so_far =~= Seq::<PartModel>::empty());
                            assert(next == value_parts(models[0]));
                        } else {
                            assert(next == so_far + text_part(", "@) + value_parts(
                                models[i as int],
                            ));
                        }
                        assert(parts_model(*out) =~= opened + next);
                    }
                    i += 1;
                }
                push_text(out, "]");
            },
            Value::Function(param, _) => {
                push_text(out, "function(");
                push_text(out, param.as_str());
                push_text(out, ")");
            },
        }
        assert(parts_model(*out) =~= before + value_parts(self@));
    }

    /// The value as messages show it.
    pub fn parts(&self) -> (r: Vec<Part>)
        ensures
            parts_model(r) == value_parts(self@),
    {
        let mut out: Vec<Part> = Vec::new();
        assert(parts_model(out) =~= Seq::<PartModel>::empty());
        self.write(&mut out);
        assert(parts_model(out) =~= value_parts(self@));
        out
    }
}

impl Error {
    /// The span the error is reported at.
    pub fn position(&self) -> (r: Position)
        ensures
            r == error_position(self@),
    {
        match self {
            Error::Syntax(_, pos, _) => *pos,
            Error::ExpectToken(_, _, pos, _) => *pos,
            Error::ExpectNode(_, _, pos, _) => *pos,
            Error::UnexpectedToken(_, pos, _) => *pos,
            Error::NotImplemented(_, pos, _) => *pos,
            Error::BinaryOperation(_, _, _, pos, _) => *pos,
            Error::UnaryOperation(_, _, pos, _) => *pos,
            Error::Index(_, _, pos, _) => *pos,
            Error::IllegalValue(_, _, pos, _) => *pos,
            Error::Variable(_, pos, _) => *pos,
        }
    }

    /// The label of the source the error is reported in.
    pub fn label(&self) -> (r: &str)
        ensures
            r@ == error_label(self@),
    {
        match self {
            Error::Syntax(_, _, label) => label.as_str(),
            Error::ExpectToken(_, _, _, label) => label.as_str(),
            Error::ExpectNode(_, _, _, label) => label.as_str(),
            Error::UnexpectedToken(_, _, label) => label.as_str(),
            Error::NotImplemented(_, _, label) => label.as_str(),
            Error::BinaryOperation(_, _, _, _, label) => label.as_str(),
            Error::UnaryOperation(_, _, _, label) => label.as_str(),
            Error::Index(_, _, _, label) => label.as_str(),
            Error::IllegalValue(_, _, _, label) => label.as_str(),
            Error::Variable(_, _, label) => label.as_str(),
        }
    }

    /// Adds what went wrong, without where, to `out`.
    fn write_detail(&self, out: &mut Vec<Part>)
        ensures
            parts_model(*final(out)) == parts_model(*old(out)) + detail_parts(self@),
    {
        let ghost before = parts_model(*out);
        match self {
            Error::Syntax(detail, _, _) => {
                push_text(out, detail.as_str());
            },
            Error::ExpectToken(wanted, found, _, _) => {
                push_text(out, "expected ");
                push_text(out, wanted.name());
                push_text(out, " got ");
                push_text(out, found.name());
            },
            Error::ExpectNode(wanted, found, _, _) => {
                push_text(out, "expected ");
                wanted.write(out);
                push_text(out, " got ");
                found.write(out);
            },
            Error::UnexpectedToken(found, _, _) => {
                push_text(out, "unexpected ");
                push_text(out, found.name());
            },
            Error::NotImplemented(node, _, _) => {
                node.write(out);
                push_text(out, " not implemented");
            },
            Error::BinaryOperation(op, left, right, _, _) => {
                push_text(out, "operation ");
                push_text(out, op.name());
                push_text(out, " cannot be performed on ");
                push_text(out, left.type_().text().as_str());
                push_text(out, " and ");
                push_text(out, right.type_().text().as_str());
            },
            Error::UnaryOperation(op, value, _, _) => {
                push_text(out, "operation ");
                push_text(out, op.name());
                push_text(out, " cannot be performed on ");
                push_text(out, value.type_().text().as_str());
            },
            Error::Index(max, index, _, _) => {
                push_text(out, "index ");
                push_text(out, natural_text(*index as u64).as_str());
                push_text(out, " out of range, max ");
                push_text(out, natural_text(*max as u64).as_str());
            },
            Error::IllegalValue(value, typ, _, _) => {
                push_text(out, value.type_().text().as_str());
                push_text(out, " illegal for ");
                push_text(out, typ.text().as_str());
            },
            Error::Variable(name, _, _) => {
                push_text(out, name.as_str());
                push_text(out, " not defined");
            },
        }
        assert(parts_model(*out) =~= before + detail_parts(self@));
    }

    /// The error as a message.
    pub fn parts(&self) -> (r: Vec<Part>)
        ensures
            parts_model(r) == error_parts(self@),
    {
        let mut out: Vec<Part> = Vec::new();
        assert(parts_model(out) =~= Seq::<PartModel>::empty());
        push_text(&mut out, "ERROR: ");
        self.write_detail(&mut out);
        push_text(&mut out, " - ");
        push_text(&mut out, self.label());
        push_text(&mut out, " ");
        push_text(&mut out, self.position().text().as_str());
        assert(parts_model(out) =~= error_parts(self@));
        out
    }
}

} // verus!
