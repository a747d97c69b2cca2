//! What the operators compute on runtime values.
//!
//! Arithmetic works on two scalars, on a vector and a scalar (the scalar is applied
//! to each item), and on two vectors (item by item, as far as the shorter one goes).
//! Comparisons work on two scalars and on two vectors. Integer arithmetic wraps
//! around; division always gives a float.
use crate::context::Context;
use crate::float::{
    equal, float_difference, float_equal, float_less, float_of_int, float_product,
    float_quotient, float_sum, less, minus, negate, negated, of_int, over, plus, times,
    INFINITY,
};
use crate::interpreter::{lemma_vector_value, Value, ValueModel};
use crate::lexer::{Token, TokenModel};
use vstd::prelude::*;

verus! {

/// `+`, `-`, `*` and `/`.
pub open spec fn is_arithmetic(op: TokenModel) -> bool {
    op is Add || op is Subtract || op is Multiply || op is Divide
}

/// `=`, `!=`, `<`, `>`, `<=` and `>=`.
pub open spec fn is_comparison(op: TokenModel) -> bool {
    op is Equal || op is NotEqual || op is Less || op is Greater || op is LessEqual
        || op is GreaterEqual
}

/// An integer or a float.
pub open spec fn is_scalar(value: ValueModel) -> bool {
    value is Int || value is Float
}

/// The result of an arithmetic operator on two integers. Sums, differences and
/// products wrap around; the quotient is that of the two integers as floats.
pub open spec fn int_arithmetic(op: TokenModel, a: i64, b: i64) -> ValueModel {
    match op {
        TokenModel::Add => ValueModel::Int(a.wrapping_add(b)),
        TokenModel::Subtract => ValueModel::Int(a.wrapping_sub(b)),
        TokenModel::Multiply => ValueModel::Int(a.wrapping_mul(b)),
        _ => ValueModel::Float(float_quotient(float_of_int(a), float_of_int(b))),
    }
}

/// The result of an arithmetic operator on two floats, as the float unit rounds it.
pub open spec fn float_arithmetic(op: TokenModel, a: u64, b: u64) -> u64 {
    match op {
        TokenModel::Add => float_sum(a, b),
        TokenModel::Subtract => float_difference(a, b),
        TokenModel::Multiply => float_product(a, b),
        _ => float_quotient(a, b),
    }
}

/// The result of an arithmetic operator on two scalars. An integer beside a float
/// is converted first. Infinity divided by infinity is infinity.
pub open spec fn scalar_arithmetic(op: TokenModel, left: ValueModel, right: ValueModel) -> ValueModel
    recommends
        is_arithmetic(op),
        is_scalar(left),
        is_scalar(right),
{
    match (left, right) {
        (ValueModel::Int(a), ValueModel::Int(b)) => int_arithmetic(op, a, b),
        (ValueModel::Int(a), ValueModel::Float(b)) => ValueModel::Float(
            float_arithmetic(op, float_of_int(a), b),
        ),
        (ValueModel::Float(a), ValueModel::Int(b)) => ValueModel::Float(
            float_arithmetic(op, a, float_of_int(b)),
        ),
        (ValueModel::Float(a), ValueModel::Float(b)) => if op is Divide && a == INFINITY && b
            == INFINITY {
            ValueModel::Float(INFINITY)
        } else {
            ValueModel::Float(float_arithmetic(op, a, b))
        },
        _ => ValueModel::Int(0),
    }
}

/// Whether a comparison holds of two integers.
pub open spec fn int_comparison(op: TokenModel, a: i64, b: i64) -> bool {
    match op {
        TokenModel::Equal => a == b,
        TokenModel::NotEqual => a != b,
        TokenModel::Less => a < b,
        TokenModel::Greater => a > b,
        TokenModel::LessEqual => a <= b,
        _ => a >= b,
    }
}

/// Whether a comparison holds of two floats. With a NaN on either side only `!=` holds.
pub open spec fn float_comparison(op: TokenModel, a: u64, b: u64) -> bool {
    match op {
        TokenModel::Equal => float_equal(a, b),
        TokenModel::NotEqual => !float_equal(a, b),
        TokenModel::Less => float_less(a, b),
        TokenModel::Greater => float_less(b, a),
        TokenModel::LessEqual => float_less(a, b) || float_equal(a, b),
        _ => float_less(b, a) || float_equal(a, b),
    }
}

/// Whether a comparison holds of two scalars. An integer beside a float is
/// converted first.
pub open spec fn scalar_comparison(op: TokenModel, left: ValueModel, right: ValueModel) -> bool
    recommends
        is_comparison(op),
        is_scalar(left),
        is_scalar(right),
{
    match (left, right) {
        (ValueModel::Int(a), ValueModel::Int(b)) => int_comparison(op, a, b),
        (ValueModel::Int(a), ValueModel::Float(b)) => float_comparison(op, float_of_int(a), b),
        (ValueModel::Float(a), ValueModel::Int(b)) => float_comparison(op, a, float_of_int(b)),
        (ValueModel::Float(a), ValueModel::Float(b)) => float_comparison(op, a, b),
        _ => false,
    }
}

/// 1 for true, 0 for false.
pub open spec fn truth(b: bool) -> ValueModel {
    if b {
        ValueModel::Int(1)
    } else {
        ValueModel::Int(0)
    }
}

/// What stands opposite item `i` of a vector: item `i` of `right` where `right` is a
/// vector, `right` itself where it is a scalar.
pub open spec fn opposite(right: ValueModel, i: int) -> ValueModel {
    match right {
        ValueModel::Vector(others) => others[i],
        _ => right,
    }
}

/// How many items of `items` have something opposite them in `right`.
pub open spec fn paired(items: Seq<ValueModel>, right: ValueModel) -> nat {
    match right {
        ValueModel::Vector(others) => if others.len() < items.len() {
            others.len()
        } else {
            items.len()
        },
        _ => items.len(),
    }
}

/// The result of a binary operator, or `Err` where the operator does not apply to
/// the two values.
pub open spec fn binary_result(op: TokenModel, left: ValueModel, right: ValueModel) -> Result<
    ValueModel,
    (),
>
    decreases left, 0nat,
{
    if is_arithmetic(op) {
        match left {
            ValueModel::Vector(items) => if right is Function {
                Err(())
            } else {
                match each_result(op, items, right, paired(items, right)) {
                    Ok(results) => Ok(ValueModel::Vector(results)),
                    Err(_) => Err(()),
                }
            },
            ValueModel::Function(_, _) => Err(()),
            _ => if is_scalar(right) {
                Ok(scalar_arithmetic(op, left, right))
            } else {
                Err(())
            },
        }
    } else if op is Hashtag {
        match (left, right) {
            (ValueModel::Vector(items), ValueModel::Int(index)) => if 0 <= index < items.len() {
                Ok(items[index as int])
            } else {
                Err(())
            },
            _ => Err(()),
        }
    } else if is_comparison(op) {
        match left {
            ValueModel::Vector(items) => match right {
                ValueModel::Vector(others) => if op is Equal && items.len() != others.len() {
                    Ok(truth(false))
                } else if op is NotEqual {
                    if items.len() != others.len() {
                        Ok(truth(true))
                    } else {
                        match all_hold(TokenModel::Equal, items, others, 0) {
                            Ok(all) => Ok(truth(!all)),
                            Err(_) => Err(()),
                        }
                    }
                } else {
                    match all_hold(op, items, others, 0) {
                        Ok(all) => Ok(truth(all)),
                        Err(_) => Err(()),
                    }
                },
                _ => Err(()),
            },
            ValueModel::Function(_, _) => Err(()),
            _ => if is_scalar(right) {
                Ok(truth(scalar_comparison(op, left, right)))
            } else {
                Err(())
            },
        }
    } else {
        Err(())
    }
}

/// The results of an arithmetic operator on the first `n` items of `items`, each
/// with what stands opposite it, or `Err` where the operator fails on one of them.
pub open spec fn each_result(
    op: TokenModel,
    items: Seq<ValueModel>,
    right: ValueModel,
    n: nat,
) -> Result<Seq<ValueModel>, ()>
    decreases items, n,
{
    if n == 0 || n > items.len() {
        Ok(Seq::empty())
    } else {
        match each_result(op, items, right, (n - 1) as nat) {
            Ok(done) => match binary_result(op, items[n - 1], opposite(right, n - 1)) {
                Ok(value) => Ok(done.push(value)),
                Err(_) => Err(()),
            },
            Err(_) => Err(()),
        }
    }
}

/// Whether a comparison holds of every pair of items from `from` on, as far as the
/// shorter vector goes. The pairs are taken in order and the first that does not
/// hold decides: a pair after it is not looked at, and a failure there goes unseen.
pub open spec fn all_hold(
    op: TokenModel,
    items: Seq<ValueModel>,
    others: Seq<ValueModel>,
    from: nat,
) -> Result<bool, ()>
    decreases items, items.len() - from,
{
    if from >= items.len() || from >= others.len() {
        Ok(true)
    } else {
        match binary_result(op, items[from as int], others[from as int]) {
            Ok(ValueModel::Int(flag)) => if flag != 0 {
                all_hold(op, items, others, from + 1)
            } else {
                Ok(false)
            },
            Ok(_) => all_hold(op, items, others, from + 1),
            Err(_) => Err(()),
        }
    }
}

/// The result of a unary operator, or `Err` where it does not apply to the value.
/// Only `-` is one: it negates a scalar, wrapping around on an integer, and each
/// item of a vector.
pub open spec fn unary_result(op: TokenModel, value: ValueModel) -> Result<ValueModel, ()>
    decreases value, 0nat,
{
    if op is Subtract {
        match value {
            ValueModel::Int(v) => Ok(ValueModel::Int(0i64.wrapping_sub(v))),
            ValueModel::Float(bits) => Ok(ValueModel::Float(negated(bits))),
            ValueModel::Vector(items) => match each_negated(op, items, items.len()) {
                Ok(results) => Ok(ValueModel::Vector(results)),
                Err(_) => Err(()),
            },
            ValueModel::Function(_, _) => Err(()),
        }
    } else {
        Err(())
    }
}

/// The results of a unary operator on the first `n` items of `items`, or `Err`
/// where it fails on one of them.
pub open spec fn each_negated(op: TokenModel, items: Seq<ValueModel>, n: nat) -> Result<
    Seq<ValueModel>,
    (),
>
    decreases items, n,
{
    if n == 0 || n > items.len() {
        Ok(Seq::empty())
    } else {
        match each_negated(op, items, (n - 1) as nat) {
            Ok(done) => match unary_result(op, items[n - 1]) {
                Ok(value) => Ok(done.push(value)),
                Err(_) => Err(()),
            },
            Err(_) => Err(()),
        }
    }
}

/// Once the operator has failed on an item, taking more items does not mend it.
pub proof fn lemma_each_result_fails(
    op: TokenModel,
    items: Seq<ValueModel>,
    right: ValueModel,
    k: nat,
    n: nat,
)
    requires
        k <= n <= items.len(),
        each_result(op, items, right, k) is Err,
    ensures
        each_result(op, items, right, n) is Err,
    decreases n,
{
    if n > k {
        lemma_each_result_fails(op, items, right, k, (n - 1) as nat);
        assert(each_result(op, items, right, n) is Err);
    }
}

/// Once negation has failed on an item, taking more items does not mend it.
pub proof fn lemma_each_negated_fails(op: TokenModel, items: Seq<ValueModel>, k: nat, n: nat)
    requires
        k <= n <= items.len(),
        each_negated(op, items, k) is Err,
    ensures
        each_negated(op, items, n) is Err,
    decreases n,
{
    if n > k {
        lemma_each_negated_fails(op, items, k, (n - 1) as nat);
        assert(each_negated(op, items, n) is Err);
    }
}

fn arithmetic(op: &Token) -> (r: bool)
    ensures
        r == is_arithmetic(op@),
{
    match op {
        Token::Add | Token::Subtract | Token::Multiply | Token::Divide => true,
        _ => false,
    }
}

fn comparison(op: &Token) -> (r: bool)
    ensures
        r == is_comparison(op@),
{
    match op {
        Token::Equal
        | Token::NotEqual
        | Token::Less
        | Token::Greater
        | Token::LessEqual
        | Token::GreaterEqual => true,
        _ => false,
    }
}

fn scalar(value: &Value) -> (r: bool)
    ensures
        r == is_scalar(value@),
{
    match value {
        Value::Int(_) | Value::Float(_) => true,
        _ => false,
    }
}

fn truth_value(b: bool) -> (r: Value)
    ensures
        r@ == truth(b),
{
    if b {
        Value::Int(1)
    } else {
        Value::Int(0)
    }
}

fn float_result(op: &Token, a: u64, b: u64) -> (r: u64)
    requires
        is_arithmetic(op@),
    ensures
        r == float_arithmetic(op@, a, b),
{
    match op {
        Token::Add => plus(a, b),
        Token::Subtract => minus(a, b),
        Token::Multiply => times(a, b),
        _ => over(a, b),
    }
}

fn scalar_result(op: &Token, left: &Value, right: &Value) -> (r: Value)
    requires
        is_arithmetic(op@),
        is_scalar(left@),
        is_scalar(right@),
    ensures
        r@ == scalar_arithmetic(op@, left@, right@),
{
    match (left, right) {
        (Value::Int(a), Value::Int(b)) => match op {
            Token::Add => Value::Int(a.wrapping_add(*b)),
            Token::Subtract => Value::Int(a.wrapping_sub(*b)),
            Token::Multiply => Value::Int(a.wrapping_mul(*b)),
            _ => Value::Float(over(of_int(*a), of_int(*b))),
        },
        (Value::Int(a), Value::Float(b)) => Value::Float(float_result(op, of_int(*a), *b)),
        (Value::Float(a), Value::Int(b)) => Value::Float(float_result(op, *a, of_int(*b))),
        (Value::Float(a), Value::Float(b)) => {
            let division = match op {
                Token::Divide => true,
                _ => false,
            };
            if division && *a == INFINITY && *b == INFINITY {
                Value::Float(INFINITY)
            } else {
                Value::Float(float_result(op, *a, *b))
            }
        },
        _ => Value::Int(0),
    }
}

fn float_holds(op: &Token, a: u64, b: u64) -> (r: bool)
    requires
        is_comparison(op@),
    ensures
        r == float_comparison(op@, a, b),
{
    match op {
        Token::Equal => equal(a, b),
        Token::NotEqual => !equal(a, b),
        Token::Less => less(a, b),
        Token::Greater => less(b, a),
        Token::LessEqual => less(a, b) || equal(a, b),
        _ => less(b, a) || equal(a, b),
    }
}

fn scalar_holds(op: &Token, left: &Value, right: &Value) -> (r: bool)
    requires
        is_comparison(op@),
        is_scalar(left@),
        is_scalar(right@),
    ensures
        r == scalar_comparison(op@, left@, right@),
{
    match (left, right) {
        (Value::Int(a), Value::Int(b)) => match op {
            Token::Equal => *a == *b,
            Token::NotEqual => *a != *b,
            Token::Less => *a < *b,
            Token::Greater => *a > *b,
            Token::LessEqual => *a <= *b,
            _ => *a >= *b,
        },
        (Value::Int(a), Value::Float(b)) => float_holds(op, of_int(*a), *b),
        (Value::Float(a), Value::Int(b)) => float_holds(op, *a, of_int(*b)),
        (Value::Float(a), Value::Float(b)) => float_holds(op, *a, *b),
        _ => false,
    }
}

/// Applies an arithmetic operator to each item of `items` and what stands opposite
/// it in `right`.
fn each(op: &Token, left: &Value, right: &Value, context: &mut Context) -> (r: Result<Value, ()>)
    requires
        is_arithmetic(op@),
        left is Vector,
        !(right is Function),
    ensures
        *final(context) == *old(context),
        match r {
            Ok(value) => binary_result(op@, left@, right@) == Ok::<ValueModel, ()>(value@),
            Err(_) => binary_result(op@, left@, right@) is Err,
        },
    decreases left, 1nat,
{
    let items = match left {
        Value::Vector(items) => items,
        _ => { return Err(()); },
    };
    let count = match right {
        Value::Vector(others) => if others.len() < items.len() {
            others.len()
        } else {
            items.len()
        },
        _ => items.len(),
    };
    let ghost lv = left@->Vector_0;
    proof {
        lemma_vector_value(*items);
        if let Value::Vector(others) = right {
            lemma_vector_value(*others);
        }
        assert(count == paired(lv, right@));
        assert(each_result(op@, lv, right@, 0) == Ok::<Seq<ValueModel>, ()>(Seq::empty()));
    }
    let mut results: Vec<Value> = Vec::new();
    let mut i: usize = 0;
    while i < count
        invariant
            i <= count <= items.len(),
            left matches Value::Vector(own) && own == items,
            lv == left@->Vector_0,
            lv.len() == items.len(),
            forall|j: int| 0 <= j < items.len() ==> #[trigger] lv[j] == items[j]@,
            count == paired(lv, right@),
            is_arithmetic(op@),
            results.len() == i,
            each_result(op@, lv, right@, i as nat) is Ok,
            each_result(op@, lv, right@, i as nat)->Ok_0.len() == i,
            forall|j: int|
                0 <= j < i ==> #[trigger] each_result(op@, lv, right@, i as nat)->Ok_0[j]
                    == results[j]@,
            *context == *old(context),
        decreases count - i,
    {
        let other: &Value = match right {
            Value::Vector(others) => {
                proof {
                    lemma_vector_value(*others);
                }
                &others[i]
            },
            _ => right,
        };
        assert(other@ == opposite(right@, i as int));
        let ghost done = each_result(op@, lv, right@, i as nat)->Ok_0;
        match binary(op, &items[i], other, context) {
            Ok(value) => {
                proof {
                    assert(each_result(op@, lv, right@, (i + 1) as nat) == Ok::<
                        Seq<ValueModel>,
                        (),
                    >(done.push(value@)));
                }
                results.push(value);
            },
            Err(_) => {
                proof {
                    assert(each_result(op@, lv, right@, (i + 1) as nat) is Err);
                    lemma_each_result_fails(op@, lv, right@, (i + 1) as nat, count as nat);
                }
                return Err(());
            },
        }
        i += 1;
    }
    let r = Value::Vector(results);
    proof {
        lemma_vector_value(results);
        assert(r@->Vector_0 =~= each_result(op@, lv, right@, count as nat)->Ok_0);
    }
    Ok(r)
}

/// Compares two vectors item by item, as far as the shorter one goes, and stops at
/// the first pair of which the comparison does not hold.
fn all(op: &Token, left: &Value, right: &Value, context: &mut Context) -> (r: Result<bool, ()>)
    requires
        left is Vector,
        right is Vector,
    ensures
        *final(context) == *old(context),
        r == all_hold(op@, left@->Vector_0, right@->Vector_0, 0),
    decreases left, 1nat,
{
    let items = match left {
        Value::Vector(items) => items,
        _ => { return Err(()); },
    };
    let others = match right {
        Value::Vector(others) => others,
        _ => { return Err(()); },
    };
    let count = if others.len() < items.len() {
        others.len()
    } else {
        items.len()
    };
    let ghost lv = left@->Vector_0;
    let ghost rv = right@->Vector_0;
    proof {
        lemma_vector_value(*items);
        lemma_vector_value(*others);
    }
    let mut i: usize = 0;
    while i < count
        invariant
            i <= count,
            count <= items.len(),
            count <= others.len(),
            count == items.len() || count == others.len(),
            left matches Value::Vector(own) && own == items,
            lv == left@->Vector_0,
            rv == right@->Vector_0,
            lv.len() == items.len(),
            rv.len() == others.len(),
            forall|j: int| 0 <= j < items.len() ==> #[trigger] lv[j] == items[j]@,
            forall|j: int| 0 <= j < others.len() ==> #[trigger] rv[j] == others[j]@,
            all_hold(op@, lv, rv, 0) == all_hold(op@, lv, rv, i as nat),
            *context == *old(context),
        decreases count - i,
    {
        match binary(op, &items[i], &others[i], context) {
            Ok(value) => {
                let holds = match value {
                    Value::Int(flag) => flag != 0,
                    _ => true,
                };
                if !holds {
                    assert(all_hold(op@, lv, rv, i as nat) == Ok::<bool, ()>(false));
                    return Ok(false);
                }
                assert(all_hold(op@, lv, rv, i as nat) == all_hold(op@, lv, rv, (i + 1) as nat));
            },
            Err(_) => {
                assert(all_hold(op@, lv, rv, i as nat) is Err);
                return Err(());
            },
        }
        i += 1;
    }
    assert(all_hold(op@, lv, rv, i as nat) == Ok::<bool, ()>(true));
    Ok(true)
}

/// Applies a binary operator to two values. `Err` means that the operator does not
/// apply to them, or that an index is out of range. The environment plays no part
/// and stays as it is.
pub fn binary(op: &Token, left: &Value, right: &Value, context: &mut Context) -> (r: Result<
    Value,
    (),
>)
    ensures
        *final(context) == *old(context),
        match r {
            Ok(value) => binary_result(op@, left@, right@) == Ok::<ValueModel, ()>(value@),
            Err(_) => binary_result(op@, left@, right@) is Err,
        },
    decreases left, 2nat,
{
    if arithmetic(op) {
        match left {
            Value::Vector(_) => match right {
                Value::Function(_, _) => Err(()),
                _ => each(op, left, right, context),
            },
            Value::Function(_, _) => Err(()),
            _ => if scalar(right) {
                Ok(scalar_result(op, left, right))
            } else {
                Err(())
            },
        }
    } else if comparison(op) {
        match left {
            Value::Vector(items) => match right {
                Value::Vector(others) => {
                    proof {
                        lemma_vector_value(*items);
                        lemma_vector_value(*others);
                    }
                    match op {
                        Token::Equal => {
                            if items.len() != others.len() {
                                return Ok(truth_value(false));
                            }
                            match all(op, left, right, context) {
                                Ok(holds) => Ok(truth_value(holds)),
                                Err(_) => Err(()),
                            }
                        },
                        Token::NotEqual => {
                            if items.len() != others.len() {
                                return Ok(truth_value(true));
                            }
                            match all(&Token::Equal, left, right, context) {
                                Ok(holds) => Ok(truth_value(!holds)),
                                Err(_) => Err(()),
                            }
                        },
                        _ => match all(op, left, right, context) {
                            Ok(holds) => Ok(truth_value(holds)),
                            Err(_) => Err(()),
                        },
                    }
                },
                _ => Err(()),
            },
            Value::Function(_, _) => Err(()),
            _ => if scalar(right) {
                Ok(truth_value(scalar_holds(op, left, right)))
            } else {
                Err(())
            },
        }
    } else {
        match op {
            Token::Hashtag => match (left, right) {
                (Value::Vector(items), Value::Int(index)) => {
                    proof {
                        lemma_vector_value(*items);
                    }
                    if *index < 0 || *index as u64 >= items.len() as u64 {
                        return Err(());
                    }
                    Ok(items[*index as usize].clone())
                },
                _ => Err(()),
            },
            _ => Err(()),
        }
    }
}

/// Applies a unary operator to a value. `Err` means that the operator does not apply
/// to it. The environment plays no part and stays as it is.
pub fn unary(op: &Token, value: &Value, context: &mut Context) -> (r: Result<Value, ()>)
    ensures
        *final(context) == *old(context),
        match r {
            Ok(result) => unary_result(op@, value@) == Ok::<ValueModel, ()>(result@),
            Err(_) => unary_result(op@, value@) is Err,
        },
    decreases value,
{
    match op {
        Token::Subtract => match value {
            Value::Int(v) => Ok(Value::Int(0i64.wrapping_sub(*v))),
            Value::Float(bits) => Ok(Value::Float(negate(*bits))),
            Value::Vector(items) => {
                let ghost lv = value@->Vector_0;
                proof {
                    lemma_vector_value(*items);
                    assert(each_negated(op@, lv, 0) == Ok::<Seq<ValueModel>, ()>(Seq::empty()));
                }
                let mut results: Vec<Value> = Vec::new();
                let mut i: usize = 0;
                while i < items.len()
                    invariant
                        i <= items.len(),
                        value matches Value::Vector(own) && own == items,
                        lv == value@->Vector_0,
                        op@ is Subtract,
                        lv.len() == items.len(),
                        forall|j: int| 0 <= j < items.len() ==> #[trigger] lv[j] == items[j]@,
                        results.len() == i,
                        each_negated(op@, lv, i as nat) is Ok,
                        each_negated(op@, lv, i as nat)->Ok_0.len() == i,
                        forall|j: int|
                            0 <= j < i ==> #[trigger] each_negated(op@, lv, i as nat)->Ok_0[j]
                                == results[j]@,
                        *context == *old(context),
                    decreases items.len() - i,
                {
                    let ghost done = each_negated(op@, lv, i as nat)->Ok_0;
                    match unary(op, &items[i], context) {
                        Ok(result) => {
                            proof {
                                assert(each_negated(op@, lv, (i + 1) as nat) == Ok::<
                                    Seq<ValueModel>,
                                    (),
                                >(done.push(result@)));
                            }
                            results.push(result);
                        },
                        Err(_) => {
                            proof {
                                assert(each_negated(op@, lv, (i + 1) as nat) is Err);
                                lemma_each_negated_fails(
                                    op@,
                                    lv,
                                    (i + 1) as nat,
                                    items.len() as nat,
                                );
                            }
                            return Err(());
                        },
                    }
                    i += 1;
                }
                let r = Value::Vector(results);
                proof {
                    lemma_vector_value(results);
                    assert(r@->Vector_0 =~= each_negated(op@, lv, items.len() as nat)->Ok_0);
                }
                Ok(r)
            },
            Value::Function(_, _) => Err(()),
        },
        _ => Err(()),
    }
}

} // verus!
