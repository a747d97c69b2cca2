use vexpr::error::Error;
use vexpr::interpreter::{run, Context, Value};
use vexpr::position::Position;

fn eval(text: &str, context: &mut Context) -> Result<Value, Error> {
    run(text, "<test>", context, 64).expect("the depth allows it")
}

fn fresh(text: &str) -> Result<Value, Error> {
    eval(text, &mut Context::new())
}

#[test]
fn integer_literal_evaluates_to_itself() {
    assert_eq!(fresh("0"), Ok(Value::Int(0)));
    assert_eq!(fresh("42"), Ok(Value::Int(42)));
    assert_eq!(fresh("9223372036854775807"), Ok(Value::Int(i64::MAX)));
    assert_eq!(fresh("-17"), Ok(Value::Int(-17)));
}

#[test]
fn division_of_integers_gives_a_float() {
    assert_eq!(fresh("1/2"), Ok(Value::Float(0.5f64.to_bits())));
    assert_eq!(fresh("6/3"), Ok(Value::Float(2.0f64.to_bits())));
    assert_eq!(fresh("7/-2"), Ok(Value::Float((-3.5f64).to_bits())));
    assert_eq!(fresh("1/3"), Ok(Value::Float((1.0f64 / 3.0f64).to_bits())));
    assert_eq!(fresh("1/0"), Ok(Value::Float(f64::INFINITY.to_bits())));
}

#[test]
fn scalar_is_broadcast_over_a_vector() {
    assert_eq!(
        fresh("[1 2 3] + 1"),
        Ok(Value::Vector(vec![Value::Int(2), Value::Int(3), Value::Int(4)]))
    );
}

#[test]
fn vectors_are_zipped_up_to_the_shorter() {
    assert_eq!(
        fresh("[1 2 3] + [10 20]"),
        Ok(Value::Vector(vec![Value::Int(11), Value::Int(22)]))
    );
}

#[test]
fn index_out_of_range_reports_the_largest_index() {
    match fresh("[1 2] # 5") {
        Err(Error::Index(max, index, _, label)) => {
            assert_eq!(max, 1);
            assert_eq!(index, 5);
            assert_eq!(label, "<test>");
        }
        other => panic!("{:?}", other),
    }
    assert_eq!(fresh("[1 2] # 1"), Ok(Value::Int(2)));
}

#[test]
fn assignment_is_seen_by_later_inputs() {
    let mut context = Context::new();
    assert_eq!(eval("x = 5", &mut context), Ok(Value::Int(5)));
    assert_eq!(eval("x + 1", &mut context), Ok(Value::Int(6)));
}

#[test]
fn function_is_defined_and_called() {
    let mut context = Context::new();
    assert!(matches!(eval("f(x) = x", &mut context), Ok(Value::Function(_, _))));
    assert_eq!(eval("f(7)", &mut context), Ok(Value::Int(7)));
}

#[test]
fn infinity_over_infinity_is_infinity() {
    assert_eq!(fresh("inf/inf"), Ok(Value::Float(f64::INFINITY.to_bits())));
}

#[test]
fn unbound_variable_is_reported_by_name() {
    match fresh("y") {
        Err(Error::Variable(name, pos, _)) => {
            assert_eq!(name, "y");
            assert_eq!(pos, Position::new(0, 1, 0, 0, 0, 1));
        }
        other => panic!("{:?}", other),
    }
}

#[test]
fn vectors_of_different_length_are_unequal() {
    assert_eq!(fresh("[1 2] = [1 2 3]"), Ok(Value::Int(0)));
    assert_eq!(fresh("[1 2] != [1 2 3]"), Ok(Value::Int(1)));
}

#[test]
fn least_integer_cannot_be_written() {
    assert!(matches!(fresh("-9223372036854775808"), Err(Error::Syntax(_, _, _))));
    assert_eq!(fresh("-9223372036854775807 - 1"), Ok(Value::Int(i64::MIN)));
    assert!(matches!(fresh("-9223372036854775808/2"), Err(Error::Syntax(_, _, _))));
}

#[test]
fn division_of_any_two_integers_agrees_with_the_machine() {
    let samples: [i64; 9] = [0, 1, -1, 3, -7, 10, 9007199254740993, i64::MAX, -i64::MAX];
    for a in samples {
        for b in samples {
            let text = format!("{}/{}", a, b);
            match fresh(&text) {
                Ok(Value::Float(bits)) => {
                    let expected = a as f64 / b as f64;
                    if expected.is_nan() {
                        assert!(f64::from_bits(bits).is_nan(), "{}", text);
                    } else {
                        assert_eq!(bits, expected.to_bits(), "{}", text);
                    }
                }
                other => panic!("{}: {:?}", text, other),
            }
        }
    }
}

#[test]
fn any_integer_literal_evaluates_to_itself() {
    let samples: [i64; 8] = [0, 5, -5, 10, 1234567890123, -98765, i64::MAX, -i64::MAX];
    for n in samples {
        assert_eq!(fresh(&format!("{}", n)), Ok(Value::Int(n)));
    }
}
