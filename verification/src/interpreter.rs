//! Runtime values, the variable environment, and the evaluator.
use crate::context::{bind, lookup};
use crate::error::{Error, ErrorModel};
use crate::float::{INFINITY, PI};
use crate::lexer::{lex, lex_result, Token, TokenModel};
use crate::operators::{binary_result, is_scalar, unary_result};
use crate::parser::{lemma_items_model, parse, parse_result, Node, NodeModel};
use crate::position::Position;
use vstd::prelude::*;

pub use crate::context::Context;
pub use crate::operators::{binary, unary};

verus! {

/// The kind of a runtime value, as messages name it.
#[derive(Debug, PartialEq)]
pub enum Type {
    Int,
    Float,
    Vector,
    Function(String),
}

/// What a [`Type`] is in contracts.
pub enum TypeModel {
    Int,
    Float,
    Vector,
    Function(Seq<char>),
}

impl View for Type {
    type V = TypeModel;

    open spec fn view(&self) -> TypeModel {
        match self {
            Type::Int => TypeModel::Int,
            Type::Float => TypeModel::Float,
            Type::Vector => TypeModel::Vector,
            Type::Function(param) => TypeModel::Function(param@),
        }
    }
}

impl Clone for Type {
    fn clone(&self) -> (r: Self)
        ensures
            r@ == self@,
    {
        match self {
            Type::Int => Type::Int,
            Type::Float => Type::Float,
            Type::Vector => Type::Vector,
            Type::Function(param) => Type::Function(param.clone()),
        }
    }
}

/// A runtime value. `Float` holds the bits of a binary64 float; `Function` holds the
/// name of its parameter and its body, unevaluated.
#[derive(Debug, PartialEq)]
pub enum Value {
    Int(i64),
    Float(u64),
    Vector(Vec<Value>),
    Function(String, Node),
}

/// What a [`Value`] is in contracts.
pub enum ValueModel {
    Int(i64),
    Float(u64),
    Vector(Seq<ValueModel>),
    Function(Seq<char>, NodeModel),
}

impl View for Value {
    type V = ValueModel;

    open spec fn view(&self) -> ValueModel
        decreases self, 0nat,
    {
        match self {
            Value::Int(v) => ValueModel::Int(*v),
            Value::Float(bits) => ValueModel::Float(*bits),
            Value::Vector(items) => ValueModel::Vector(values_model(*items, items.len() as nat)),
            Value::Function(param, body) => ValueModel::Function(param@, body@),
        }
    }
}

/// The views of the first `n` of `items`.
pub open spec fn values_model(items: Vec<Value>, n: nat) -> Seq<ValueModel>
    decreases items, n,
{
    if n == 0 || n > items.len() {
        Seq::empty()
    } else {
        values_model(items, (n - 1) as nat).push(items[n - 1].view())
    }
}

/// `values_model` holds one view for each of the items it was asked for.
pub proof fn lemma_values_model(items: Vec<Value>, n: nat)
    requires
        n <= items.len(),
    ensures
        values_model(items, n).len() == n,
        forall|i: int| 0 <= i < n ==> #[trigger] values_model(items, n)[i] == items[i]@,
    decreases n,
{
    if n > 0 {
        lemma_values_model(items, (n - 1) as nat);
        assert(values_model(items, n) == values_model(items, (n - 1) as nat).push(
            items[n - 1].view(),
        ));
    } else {
        assert(values_model(items, n) == Seq::<ValueModel>::empty());
    }
}

/// The view of a vector value: as long as the vector, each place the view of the item.
pub proof fn lemma_vector_value(items: Vec<Value>)
    ensures
        Value::Vector(items)@ is Vector,
        Value::Vector(items)@->Vector_0.len() == items.len(),
        forall|i: int|
            0 <= i < items.len() ==> #[trigger] Value::Vector(items)@->Vector_0[i] == items[i]@,
{
    lemma_values_model(items, items.len() as nat);
    assert(Value::Vector(items)@ == ValueModel::Vector(values_model(items, items.len() as nat)));
}

impl Clone for Value {
    fn clone(&self) -> (r: Self)
        ensures
            r@ == self@,
        decreases self,
    {
        match self {
            Value::Int(v) => Value::Int(*v),
            Value::Float(bits) => Value::Float(*bits),
            Value::Vector(items) => {
                let mut copies: Vec<Value> = Vec::new();
                let mut i: usize = 0;
                while i < items.len()
                    invariant
                        i <= items.len(),
                        self matches Value::Vector(own) && own == items,
                        copies.len() == i,
                        forall|j: int| 0 <= j < i ==> copies[j]@ == items[j]@,
                    decreases items.len() - i,
                {
                    let copy = items[i].clone();
                    copies.push(copy);
                    i += 1;
                }
                let r = Value::Vector(copies);
                proof {
                    lemma_vector_value(copies);
                    lemma_vector_value(*items);
                    assert(r@->Vector_0 =~= self@->Vector_0);
                }
                r
            },
            Value::Function(param, body) => Value::Function(param.clone(), body.clone()),
        }
    }
}

/// The kind of a value.
pub open spec fn type_of(value: ValueModel) -> TypeModel {
    match value {
        ValueModel::Int(_) => TypeModel::Int,
        ValueModel::Float(_) => TypeModel::Float,
        ValueModel::Vector(_) => TypeModel::Vector,
        ValueModel::Function(param, _) => TypeModel::Function(param),
    }
}

impl Value {
    /// The kind of the value.
    pub fn type_(&self) -> (r: Type)
        ensures
            r@ == type_of(self@),
    {
        match self {
            Self::Int(_) => Type::Int,
            Self::Float(_) => Type::Float,
            Self::Vector(_) => Type::Vector,
            Self::Function(param, _) => Type::Function(param.clone()),
        }
    }
}

/// What evaluating a node comes to: a value, an error, or `None` where the calls
/// nest deeper than allowed; and the environment as the evaluation leaves it.
pub struct Evaluation {
    pub outcome: Option<Result<ValueModel, ErrorModel>>,
    pub env: Seq<(Seq<char>, ValueModel)>,
}

/// What evaluating the items of a vector literal comes to.
pub struct ItemsEvaluation {
    pub outcome: Option<Result<Seq<ValueModel>, ErrorModel>>,
    pub env: Seq<(Seq<char>, ValueModel)>,
}

/// The largest index of a vector of `len` items. For the empty vector the count
/// wraps around.
pub open spec fn largest_index(len: nat) -> usize {
    if len == 0 {
        usize::MAX
    } else {
        (len - 1) as usize
    }
}

/// The error for a binary operator that does not apply: an index out of range where
/// a vector is indexed by an integer, a failed operation otherwise.
pub open spec fn operation_error(
    op: TokenModel,
    left: ValueModel,
    right: ValueModel,
    pos: Position,
    label: Seq<char>,
) -> ErrorModel {
    if op is Hashtag && left is Vector && right is Int {
        ErrorModel::Index(
            largest_index(left->Vector_0.len()),
            right->Int_0 as usize,
            pos,
            label,
        )
    } else {
        ErrorModel::BinaryOperation(op, left, right, pos, label)
    }
}

/// The error for a target of an assignment, or a callee, that has the wrong shape.
pub open spec fn shape_error(found: NodeModel, pos: Position, label: Seq<char>) -> ErrorModel {
    ErrorModel::ExpectNode(NodeModel::Variable(Seq::empty()), found, pos, label)
}

/// The evaluation of `node`, read from the span `pos` of the source `label`, in the
/// environment `env`, with calls nested at most `depth` deep.
pub open spec fn evaluation(
    node: NodeModel,
    pos: Position,
    label: Seq<char>,
    env: Seq<(Seq<char>, ValueModel)>,
    depth: nat,
) -> Evaluation
    decreases depth, node, 0nat,
{
    match node {
        NodeModel::Int(v) => Evaluation { outcome: Some(Ok(ValueModel::Int(v))), env },
        NodeModel::Float(bits) => Evaluation { outcome: Some(Ok(ValueModel::Float(bits))), env },
        NodeModel::Infinity => Evaluation { outcome: Some(Ok(ValueModel::Float(INFINITY))), env },
        NodeModel::PI => Evaluation { outcome: Some(Ok(ValueModel::Float(PI))), env },
        NodeModel::Variable(name) => match lookup(env, name) {
            Some(value) => Evaluation { outcome: Some(Ok(value)), env },
            None => Evaluation {
                outcome: Some(Err(ErrorModel::Variable(name, pos, label))),
                env,
            },
        },
        NodeModel::Assign(target, value) => match *target.0 {
            NodeModel::Call(callee, param) => if *callee.0 is Variable && *param.0 is Variable {
                let function = ValueModel::Function((*param.0)->Variable_0, *value.0);
                Evaluation {
                    outcome: Some(Ok(function)),
                    env: bind(env, (*callee.0)->Variable_0, function),
                }
            } else {
                Evaluation { outcome: Some(Err(shape_error(*param.0, param.1, label))), env }
            },
            _ => {
                let e = evaluation(*value.0, value.1, label, env, depth);
                match e.outcome {
                    Some(Ok(v)) => match *target.0 {
                        NodeModel::Variable(name) => Evaluation {
                            outcome: Some(Ok(v)),
                            env: bind(e.env, name, v),
                        },
                        _ => Evaluation {
                            outcome: Some(Err(shape_error(*target.0, target.1, label))),
                            env: e.env,
                        },
                    },
                    _ => e,
                }
            },
        },
        NodeModel::Call(callee, argument) => {
            let a = evaluation(*argument.0, argument.1, label, env, depth);
            match a.outcome {
                Some(Ok(passed)) => {
                    let f = evaluation(*callee.0, callee.1, label, a.env, depth);
                    match f.outcome {
                        Some(Ok(function)) => if *callee.0 is Variable && function is Function {
                            if depth == 0 {
                                Evaluation { outcome: None, env: f.env }
                            } else {
                                let fresh = bind(
                                    bind(Seq::empty(), (*callee.0)->Variable_0, function),
                                    function->Function_0,
                                    passed,
                                );
                                let b = evaluation(
                                    function->Function_1,
                                    callee.1,
                                    label,
                                    fresh,
                                    (depth - 1) as nat,
                                );
                                Evaluation { outcome: b.outcome, env: f.env }
                            }
                        } else {
                            Evaluation {
                                outcome: Some(Err(shape_error(*callee.0, callee.1, label))),
                                env: f.env,
                            }
                        },
                        _ => f,
                    }
                },
                _ => a,
            }
        },
        NodeModel::Vector(items) => {
            let e = items_evaluation(items, items.len(), label, env, depth);
            match e.outcome {
                Some(Ok(values)) => Evaluation {
                    outcome: Some(Ok(ValueModel::Vector(values))),
                    env: e.env,
                },
                Some(Err(error)) => Evaluation { outcome: Some(Err(error)), env: e.env },
                None => Evaluation { outcome: None, env: e.env },
            }
        },
        NodeModel::Binary(op, left, right) => {
            let l = evaluation(*left.0, left.1, label, env, depth);
            match l.outcome {
                Some(Ok(lv)) => {
                    let r = evaluation(*right.0, right.1, label, l.env, depth);
                    match r.outcome {
                        Some(Ok(rv)) => match binary_result(op, lv, rv) {
                            Ok(value) => Evaluation { outcome: Some(Ok(value)), env: r.env },
                            Err(_) => Evaluation {
                                outcome: Some(Err(operation_error(op, lv, rv, pos, label))),
                                env: r.env,
                            },
                        },
                        _ => r,
                    }
                },
                _ => l,
            }
        },
        NodeModel::Unary(op, operand) => {
            let e = evaluation(*operand.0, operand.1, label, env, depth);
            match e.outcome {
                Some(Ok(v)) => match unary_result(op, v) {
                    Ok(value) => Evaluation { outcome: Some(Ok(value)), env: e.env },
                    Err(_) => Evaluation {
                        outcome: Some(Err(ErrorModel::UnaryOperation(op, v, pos, label))),
                        env: e.env,
                    },
                },
                _ => e,
            }
        },
    }
}

/// The evaluation of the first `n` items of a vector literal, in order. It stops at
/// the first item that fails, and at the first that is no scalar.
pub open spec fn items_evaluation(
    items: Seq<(NodeModel, Position)>,
    n: nat,
    label: Seq<char>,
    env: Seq<(Seq<char>, ValueModel)>,
    depth: nat,
) -> ItemsEvaluation
    decreases depth, items, n,
{
    if n == 0 || n > items.len() {
        ItemsEvaluation { outcome: Some(Ok(Seq::empty())), env }
    } else {
        let before = items_evaluation(items, (n - 1) as nat, label, env, depth);
        match before.outcome {
            Some(Ok(values)) => {
                let e = evaluation(items[n - 1].0, items[n - 1].1, label, before.env, depth);
                match e.outcome {
                    Some(Ok(value)) => if is_scalar(value) {
                        ItemsEvaluation { outcome: Some(Ok(values.push(value))), env: e.env }
                    } else {
                        ItemsEvaluation {
                            outcome: Some(
                                Err(
                                    ErrorModel::IllegalValue(
                                        value,
                                        TypeModel::Vector,
                                        items[n - 1].1,
                                        label,
                                    ),
                                ),
                            ),
                            env: e.env,
                        }
                    },
                    Some(Err(error)) => ItemsEvaluation { outcome: Some(Err(error)), env: e.env },
                    None => ItemsEvaluation { outcome: None, env: e.env },
                }
            },
            _ => before,
        }
    }
}

/// Once the evaluation of the items has stopped, taking more items changes nothing.
pub proof fn lemma_items_evaluation_stops(
    items: Seq<(NodeModel, Position)>,
    k: nat,
    n: nat,
    label: Seq<char>,
    env: Seq<(Seq<char>, ValueModel)>,
    depth: nat,
)
    requires
        k <= n <= items.len(),
        !(items_evaluation(items, k, label, env, depth).outcome matches Some(Ok(_))),
    ensures
        items_evaluation(items, n, label, env, depth) == items_evaluation(
            items,
            k,
            label,
            env,
            depth,
        ),
    decreases n,
{
    if n > k {
        lemma_items_evaluation_stops(items, k, (n - 1) as nat, label, env, depth);
        assert(items_evaluation(items, n, label, env, depth) == items_evaluation(
            items,
            (n - 1) as nat,
            label,
            env,
            depth,
        ));
    }
}

/// What an outcome of the evaluator is in contracts.
pub open spec fn outcome_model(r: Option<Result<Value, Error>>) -> Option<
    Result<ValueModel, ErrorModel>,
> {
    match r {
        Some(Ok(value)) => Some(Ok(value@)),
        Some(Err(error)) => Some(Err(error@)),
        None => None,
    }
}

/// The error for a node of the wrong shape.
fn shape_failure(found: &Node, pos: &Position, file_path: &str) -> (r: Error)
    ensures
        r@ == shape_error(found@, *pos, file_path@),
{
    Error::ExpectNode(
        Node::Variable(String::new()),
        found.clone(),
        *pos,
        String::from_str(file_path),
    )
}

/// The error for a binary operator that does not apply.
fn operation_failure(op: &Token, left: Value, right: Value, pos: &Position, file_path: &str) -> (r:
    Error)
    ensures
        r@ == operation_error(op@, left@, right@, *pos, file_path@),
{
    let indexing = match op {
        Token::Hashtag => true,
        _ => false,
    };
    if indexing {
        if let Value::Vector(items) = &left {
            if let Value::Int(index) = &right {
                proof {
                    lemma_vector_value(*items);
                }
                let largest = if items.len() == 0 {
                    usize::MAX
                } else {
                    items.len() - 1
                };
                return Error::Index(
                    largest,
                    #[verifier::truncate]
                    (*index as usize),
                    *pos,
                    String::from_str(file_path),
                );
            }
        }
    }
    Error::BinaryOperation(op.clone(), left, right, *pos, String::from_str(file_path))
}

/// The result `r` and the environment `after` are what the evaluation `e` says.
pub open spec fn agrees(
    r: Option<Result<Value, Error>>,
    after: Seq<(Seq<char>, ValueModel)>,
    e: Evaluation,
) -> bool {
    outcome_model(r) == e.outcome && after == e.env
}

/// Evaluates an assignment or a definition.
fn assign(
    node: &Node,
    node_pos: &Position,
    file_path: &str,
    context: &mut Context,
    depth: usize,
) -> (r: Option<Result<Value, Error>>)
    requires
        node is Assign,
    ensures
        agrees(
            r,
            final(context)@,
            evaluation(node@, *node_pos, file_path@, old(context)@, depth as nat),
        ),
        old(context).well_formed() ==> final(context).well_formed(),
    decreases depth, node, 0nat,
{
    let (target, value) = match node {
        Node::Assign(target, value) => (target, value),
        _ => { return None; },
    };
    let target_node: &Node = &*target.0;
    let value_node: &Node = &*value.0;
    assert(node@ == NodeModel::Assign(
        (Box::new(target_node@), target.1),
        (Box::new(value_node@), value.1),
    ));
    match target_node {
        Node::Call(callee, param) => {
            let callee_node: &Node = &*callee.0;
            let param_node: &Node = &*param.0;
            assert(target_node@ == NodeModel::Call(
                (Box::new(callee_node@), callee.1),
                (Box::new(param_node@), param.1),
            ));
            if let Node::Variable(name) = callee_node {
                if let Node::Variable(param_name) = param_node {
                    assert(callee_node@ == NodeModel::Variable(name@));
                    assert(param_node@ == NodeModel::Variable(param_name@));
                    let function = Value::Function(param_name.clone(), value_node.clone());
                    assert(function@ == ValueModel::Function(param_name@, value_node@));
                    context.set(name, &function);
                    return Some(Ok(function));
                }
            }
            assert(!(callee_node@ is Variable && param_node@ is Variable));
            Some(Err(shape_failure(param_node, &param.1, file_path)))
        },
        _ => {
            assert(!(target_node@ is Call));
            match interpret((value_node, &value.1), file_path, context, depth) {
                Some(Ok(v)) => match target_node {
                    Node::Variable(name) => {
                        assert(target_node@ == NodeModel::Variable(name@));
                        context.set(name, &v);
                        Some(Ok(v))
                    },
                    _ => {
                        assert(!(target_node@ is Variable));
                        Some(Err(shape_failure(target_node, &target.1, file_path)))
                    },
                },
                Some(Err(error)) => Some(Err(error)),
                None => None,
            }
        },
    }
}

/// Evaluates a call: the argument, the callee, then the body in an environment that
/// binds the function and its parameter and nothing else.
fn call(
    node: &Node,
    node_pos: &Position,
    file_path: &str,
    context: &mut Context,
    depth: usize,
) -> (r: Option<Result<Value, Error>>)
    requires
        node is Call,
    ensures
        agrees(
            r,
            final(context)@,
            evaluation(node@, *node_pos, file_path@, old(context)@, depth as nat),
        ),
        old(context).well_formed() ==> final(context).well_formed(),
    decreases depth, node, 0nat,
{
    let (callee, argument) = match node {
        Node::Call(callee, argument) => (callee, argument),
        _ => { return None; },
    };
    let callee_node: &Node = &*callee.0;
    let argument_node: &Node = &*argument.0;
    assert(node@ == NodeModel::Call(
        (Box::new(callee_node@), callee.1),
        (Box::new(argument_node@), argument.1),
    ));
    let passed = match interpret((argument_node, &argument.1), file_path, context, depth) {
        Some(Ok(v)) => v,
        Some(Err(error)) => { return Some(Err(error)); },
        None => { return None; },
    };
    let function = match interpret((callee_node, &callee.1), file_path, context, depth) {
        Some(Ok(v)) => v,
        Some(Err(error)) => { return Some(Err(error)); },
        None => { return None; },
    };
    if let Node::Variable(name) = callee_node {
        if let Value::Function(param, body) = &function {
            assert(callee_node@ == NodeModel::Variable(name@));
            assert(function@ == ValueModel::Function(param@, body@));
            if depth == 0 {
                return None;
            }
            let mut fresh = Context::new();
            fresh.set(name, &function);
            fresh.set(param, &passed);
            return interpret((body, &callee.1), file_path, &mut fresh, depth - 1);
        }
    }
    assert(!(callee_node@ is Variable && function@ is Function));
    Some(Err(shape_failure(callee_node, &callee.1, file_path)))
}

/// Evaluates both operands, the left one first, and applies the operator.
fn apply_binary(
    node: &Node,
    node_pos: &Position,
    file_path: &str,
    context: &mut Context,
    depth: usize,
) -> (r: Option<Result<Value, Error>>)
    requires
        node is Binary,
    ensures
        agrees(
            r,
            final(context)@,
            evaluation(node@, *node_pos, file_path@, old(context)@, depth as nat),
        ),
        old(context).well_formed() ==> final(context).well_formed(),
    decreases depth, node, 0nat,
{
    let (op, left_node, right_node) = match node {
        Node::Binary(op, left, right) => (op, left, right),
        _ => { return None; },
    };
    assert(node@ == NodeModel::Binary(
        op@,
        (Box::new((*left_node.0)@), left_node.1),
        (Box::new((*right_node.0)@), right_node.1),
    ));
    let left = match interpret((&*left_node.0, &left_node.1), file_path, context, depth) {
        Some(Ok(v)) => v,
        Some(Err(error)) => { return Some(Err(error)); },
        None => { return None; },
    };
    let right = match interpret((&*right_node.0, &right_node.1), file_path, context, depth) {
        Some(Ok(v)) => v,
        Some(Err(error)) => { return Some(Err(error)); },
        None => { return None; },
    };
    match binary(op, &left, &right, context) {
        Ok(value) => Some(Ok(value)),
        Err(_) => Some(Err(operation_failure(op, left, right, node_pos, file_path))),
    }
}

/// Evaluates the operand and applies the operator.
fn apply_unary(
    node: &Node,
    node_pos: &Position,
    file_path: &str,
    context: &mut Context,
    depth: usize,
) -> (r: Option<Result<Value, Error>>)
    requires
        node is Unary,
    ensures
        agrees(
            r,
            final(context)@,
            evaluation(node@, *node_pos, file_path@, old(context)@, depth as nat),
        ),
        old(context).well_formed() ==> final(context).well_formed(),
    decreases depth, node, 0nat,
{
    let (op, operand) = match node {
        Node::Unary(op, operand) => (op, operand),
        _ => { return None; },
    };
    assert(node@ == NodeModel::Unary(op@, (Box::new((*operand.0)@), operand.1)));
    let value = match interpret((&*operand.0, &operand.1), file_path, context, depth) {
        Some(Ok(v)) => v,
        Some(Err(error)) => { return Some(Err(error)); },
        None => { return None; },
    };
    match unary(op, &value, context) {
        Ok(result) => Some(Ok(result)),
        Err(_) => Some(
            Err(Error::UnaryOperation(op.clone(), value, *node_pos, String::from_str(file_path))),
        ),
    }
}

/// Evaluates the items of a vector literal in order; each must give a scalar.
fn vector(
    node: &Node,
    node_pos: &Position,
    file_path: &str,
    context: &mut Context,
    depth: usize,
) -> (r: Option<Result<Value, Error>>)
    requires
        node is Vector,
    ensures
        agrees(
            r,
            final(context)@,
            evaluation(node@, *node_pos, file_path@, old(context)@, depth as nat),
        ),
        old(context).well_formed() ==> final(context).well_formed(),
    decreases depth, node, 0nat,
{
    let items = match node {
        Node::Vector(items) => items,
        _ => { return None; },
    };
    let ghost models = node@->Vector_0;
    let ghost start = context@;
    proof {
        lemma_items_model(*items, items.len() as nat);
        assert(node@ == NodeModel::Vector(crate::parser::items_model(*items, items.len() as nat)));
        assert(items_evaluation(models, 0, file_path@, start, depth as nat).outcome == Some(
            Ok::<Seq<ValueModel>, ErrorModel>(Seq::empty()),
        ));
    }
    let mut values: Vec<Value> = Vec::new();
    let mut i: usize = 0;
    while i < items.len()
        invariant
            i <= items.len(),
            node matches Node::Vector(own) && own == items,
            models == node@->Vector_0,
            models.len() == items.len(),
            forall|j: int|
                0 <= j < items.len() ==> #[trigger] models[j] == (items[j].0@, items[j].1),
            values.len() == i,
            items_evaluation(models, i as nat, file_path@, start, depth as nat).outcome
                matches Some(Ok(done)) && done.len() == i && forall|j: int|
                0 <= j < i ==> #[trigger] done[j] == values[j]@,
            items_evaluation(models, i as nat, file_path@, start, depth as nat).env == context@,
            start == old(context)@,
            old(context).well_formed() ==> context.well_formed(),
        decreases items.len() - i,
    {
        let ghost before = items_evaluation(models, i as nat, file_path@, start, depth as nat);
        let ghost next = items_evaluation(models, (i + 1) as nat, file_path@, start, depth as nat);
        let ghost e = evaluation(
            models[i as int].0,
            models[i as int].1,
            file_path@,
            before.env,
            depth as nat,
        );
        match interpret((&items[i].0, &items[i].1), file_path, context, depth) {
            Some(Ok(value)) => {
                let scalar = match &value {
                    Value::Int(_) => true,
                    Value::Float(_) => true,
                    _ => false,
                };
                if !scalar {
                    let error = Error::IllegalValue(
                        value,
                        Type::Vector,
                        items[i].1,
                        String::from_str(file_path),
                    );
                    proof {
                        assert(next.outcome == Some(Err::<Seq<ValueModel>, ErrorModel>(error@)));
                        assert(next.env == e.env);
                        lemma_items_evaluation_stops(
                            models,
                            (i + 1) as nat,
                            items.len() as nat,
                            file_path@,
                            start,
                            depth as nat,
                        );
                    }
                    return Some(Err(error));
                }
                proof {
                    assert(next.outcome == Some(
                        Ok::<Seq<ValueModel>, ErrorModel>(
                            before.outcome->Some_0->Ok_0.push(value@),
                        ),
                    ));
                    assert(next.env == e.env);
                }
                values.push(value);
            },
            Some(Err(error)) => {
                proof {
                    assert(next.outcome == Some(Err::<Seq<ValueModel>, ErrorModel>(error@)));
                    assert(next.env == e.env);
                    lemma_items_evaluation_stops(
                        models,
                        (i + 1) as nat,
                        items.len() as nat,
                        file_path@,
                        start,
                        depth as nat,
                    );
                }
                return Some(Err(error));
            },
            None => {
                proof {
                    assert(next.outcome is None);
                    assert(next.env == e.env);
                    lemma_items_evaluation_stops(
                        models,
                        (i + 1) as nat,
                        items.len() as nat,
                        file_path@,
                        start,
                        depth as nat,
                    );
                }
                return None;
            },
        }
        i += 1;
    }
    let r = Value::Vector(values);
    proof {
        lemma_vector_value(values);
        let done = items_evaluation(
            models,
            items.len() as nat,
            file_path@,
            start,
            depth as nat,
        ).outcome->Some_0->Ok_0;
        assert(r@->Vector_0 =~= done);
    }
    Some(Ok(r))
}

/// Evaluates a node in an environment. `file_path` labels the source in errors;
/// `depth` is how deep calls of functions may nest. The result is `None` where
/// the calls nest deeper, else the value or the first error. Assignments change
/// the environment; a call evaluates the body in an environment of its own.
pub fn interpret(
    node_and_pos: (&Node, &Position),
    file_path: &str,
    context: &mut Context,
    depth: usize,
) -> (r: Option<Result<Value, Error>>)
    ensures
        agrees(
            r,
            final(context)@,
            evaluation(
                node_and_pos.0@,
                *node_and_pos.1,
                file_path@,
                old(context)@,
                depth as nat,
            ),
        ),
        old(context).well_formed() ==> final(context).well_formed(),
    decreases depth, node_and_pos.0, 1nat,
{
    let (node, node_pos) = node_and_pos;
    match node {
        Node::Int(v) => Some(Ok(Value::Int(*v))),
        Node::Float(bits) => Some(Ok(Value::Float(*bits))),
        Node::Infinity => Some(Ok(Value::Float(INFINITY))),
        Node::PI => Some(Ok(Value::Float(PI))),
        Node::Variable(var) => match context.get(var) {
            Some(value) => Some(Ok(value)),
            None => Some(Err(Error::Variable(var.clone(), *node_pos, String::from_str(file_path)))),
        },
        Node::Assign(_, _) => assign(node, node_pos, file_path, context, depth),
        Node::Call(_, _) => call(node, node_pos, file_path, context, depth),
        Node::Vector(_) => vector(node, node_pos, file_path, context, depth),
        Node::Binary(_, _, _) => apply_binary(node, node_pos, file_path, context, depth),
        Node::Unary(_, _) => apply_unary(node, node_pos, file_path, context, depth),
    }
}

/// What running a source text comes to: the error of the lexer or of the parser,
/// with the environment as it was, or the evaluation of the tree that was parsed.
pub open spec fn run_result(
    text: Seq<char>,
    label: Seq<char>,
    env: Seq<(Seq<char>, ValueModel)>,
    depth: nat,
) -> Evaluation {
    match lex_result(text, label) {
        Ok(tokens) => match parse_result(tokens, 0, label) {
            Ok(found) => evaluation(found.0, found.1, label, env, depth),
            Err(error) => Evaluation { outcome: Some(Err(error)), env },
        },
        Err(error) => Evaluation { outcome: Some(Err(error)), env },
    }
}

/// Lexes, parses and evaluates a source text in an environment. `file_path` labels
/// the source in errors; `depth` is how deep calls of functions may nest. The first
/// stage that fails ends the run with its error.
pub fn run(text: &str, file_path: &str, context: &mut Context, depth: usize) -> (r: Option<
    Result<Value, Error>,
>)
    ensures
        agrees(r, final(context)@, run_result(text@, file_path@, old(context)@, depth as nat)),
        old(context).well_formed() ==> final(context).well_formed(),
{
    let tokens = match lex(text, file_path) {
        Ok(tokens) => tokens,
        Err(error) => { return Some(Err(error)); },
    };
    let (node, pos) = match parse(tokens, file_path) {
        Ok(found) => found,
        Err(error) => { return Some(Err(error)); },
    };
    interpret((&node, &pos), file_path, context, depth)
}

} // verus!
