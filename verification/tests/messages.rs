use vexpr::error::Error;
use vexpr::interpreter::{run, Context, Type, Value};
use vexpr::lexer::{lex, Token};
use vexpr::parser::{parse, Node};
use vexpr::position::Position;
use vexpr::text::{integer_text, natural_text, Part};

fn shown(parts: Vec<Part>) -> String {
    let mut out = String::new();
    for part in parts {
        match part {
            Part::Text(text) => out.push_str(&text),
            Part::Float(bits) => out.push_str(&format!("{}", f64::from_bits(bits))),
        }
    }
    out
}

fn message(text: &str, label: &str) -> String {
    match run(text, label, &mut Context::new(), 16) {
        Some(Err(error)) => shown(error.parts()),
        other => panic!("{:?}", other),
    }
}

fn value_text(text: &str) -> String {
    match run(text, "<test>", &mut Context::new(), 16) {
        Some(Ok(value)) => shown(value.parts()),
        other => panic!("{:?}", other),
    }
}

#[test]
fn numbers_are_written_in_decimal() {
    assert_eq!(natural_text(0), "0");
    assert_eq!(natural_text(7), "7");
    assert_eq!(natural_text(10), "10");
    assert_eq!(natural_text(1234567890), "1234567890");
    assert_eq!(natural_text(u64::MAX), "18446744073709551615");
    assert_eq!(integer_text(0), "0");
    assert_eq!(integer_text(-1), "-1");
    assert_eq!(integer_text(305), "305");
    assert_eq!(integer_text(i64::MAX), "9223372036854775807");
    assert_eq!(integer_text(i64::MIN), "-9223372036854775808");
}

#[test]
fn types_are_named() {
    assert_eq!(Type::Int.text(), "int");
    assert_eq!(Type::Float.text(), "float");
    assert_eq!(Type::Vector.text(), "vector");
    assert_eq!(Type::Function("x".to_string()).text(), "function(x)");
}

#[test]
fn syntax_error_reads_as_a_message() {
    assert_eq!(
        message("1 + $", "<shell>"),
        "ERROR: bad character '$' - <shell> <ln: 0, column: 4>"
    );
    assert_eq!(
        message("1\n\n ?", "prog.txt"),
        "ERROR: bad character '?' - prog.txt <ln: 2, column: 1>"
    );
}

#[test]
fn expect_token_error_reads_as_a_message() {
    assert_eq!(
        message("(1 + 2", "<shell>"),
        "ERROR: expected ')' got end of file - <shell> <ln: 0, column: 6>"
    );
    assert_eq!(
        message("1 2 3", "<shell>"),
        "ERROR: expected end of line got int - <shell> <ln: 0, column: 4>"
    );
    assert_eq!(
        message("1\n2", "<shell>"),
        "ERROR: expected end of file got int - <shell> <ln: 1, column: 0>"
    );
}

#[test]
fn unexpected_token_error_reads_as_a_message() {
    assert_eq!(
        message("1 + ]", "<shell>"),
        "ERROR: unexpected ']' - <shell> <ln: 0, column: 4>"
    );
    assert_eq!(message("", "<shell>"), "ERROR: unexpected end of file - <shell> <ln: 0, column: 0>");
}

#[test]
fn expect_node_error_reads_as_a_message() {
    assert_eq!(
        message("f(2.50) = 1", "<shell>"),
        "ERROR: expected () got (2.5) - <shell> <ln: 0, column: 2>"
    );
    assert_eq!(
        message("f(1 + [2 x]) = 1", "<shell>"),
        "ERROR: expected () got ((1) '+' [(2) (x)]) - <shell> <ln: 0, column: 2>"
    );
}

#[test]
fn operation_errors_read_as_messages() {
    assert_eq!(
        message("1 + [2]", "<shell>"),
        "ERROR: operation '+' cannot be performed on int and vector - <shell> <ln: 0, column: 0>"
    );
    assert_eq!(
        message("1.5 ^ 2", "<shell>"),
        "ERROR: operation '^' cannot be performed on float and int - <shell> <ln: 0, column: 0>"
    );
    let pos = Position::new(0, 2, 4, 4, 9, 11);
    let error = Error::UnaryOperation(
        Token::Subtract,
        Value::Function("t".to_string(), Node::PI),
        pos,
        "lib.txt".to_string(),
    );
    assert_eq!(
        shown(error.parts()),
        "ERROR: operation '-' cannot be performed on function(t) - lib.txt <ln: 4, column: 9>"
    );
}

#[test]
fn index_error_reads_as_a_message() {
    assert_eq!(
        message("[1 2] # 5", "<shell>"),
        "ERROR: index 5 out of range, max 1 - <shell> <ln: 0, column: 0>"
    );
}

#[test]
fn illegal_value_error_reads_as_a_message() {
    let error = Error::IllegalValue(
        Value::Vector(vec![]),
        Type::Vector,
        Position::new(1, 2, 0, 0, 1, 2),
        "<shell>".to_string(),
    );
    assert_eq!(
        shown(error.parts()),
        "ERROR: vector illegal for vector - <shell> <ln: 0, column: 1>"
    );
}

#[test]
fn variable_error_reads_as_a_message() {
    assert_eq!(message("  y", "<shell>"), "ERROR: y not defined - <shell> <ln: 0, column: 2>");
}

#[test]
fn not_implemented_error_reads_as_a_message() {
    let error = Error::NotImplemented(
        Node::Infinity,
        Position::new(0, 3, 0, 0, 0, 3),
        "<shell>".to_string(),
    );
    assert_eq!(
        shown(error.parts()),
        "ERROR: (inf) not implemented - <shell> <ln: 0, column: 0>"
    );
}

#[test]
fn errors_tell_where_they_stand() {
    let pos = Position::new(3, 4, 1, 1, 0, 1);
    let error = Error::Variable("v".to_string(), pos, "here".to_string());
    assert_eq!(error.position(), pos);
    assert_eq!(error.label(), "here");
    assert_eq!(error.clone(), error);
}

#[test]
fn trees_read_with_brackets_round_every_node() {
    let tokens = lex("g(x) = -x * pi + inf # 2 - 0.5", "<test>").expect("lexes");
    let (node, _) = parse(tokens, "<test>").expect("parses");
    assert_eq!(
        shown(node.parts()),
        "(((g) (x)) '=' (((('-' (x)) '*' (pi)) '+' ((inf) '#' (2))) '-' (0.5)))"
    );
    assert_eq!(shown(Node::Int(-3).parts()), "(-3)");
    assert_eq!(shown(Node::Vector(vec![]).parts()), "[]");
    assert_eq!(node.clone(), node);
}

#[test]
fn float_in_a_tree_is_a_part_of_its_own() {
    assert_eq!(
        Node::Float(7).parts(),
        vec![Part::Text("(".to_string()), Part::Float(7), Part::Text(")".to_string())]
    );
}

#[test]
fn values_read_as_the_shell_shows_them() {
    assert_eq!(value_text("42"), "42");
    assert_eq!(value_text("-42"), "-42");
    assert_eq!(value_text("1 / 4"), "0.25");
    assert_eq!(value_text("inf"), "inf");
    assert_eq!(value_text("[1 2.5 3]"), "[1, 2.5, 3]");
    assert_eq!(value_text("[]"), "[]");
    assert_eq!(value_text("[7]"), "[7]");
    assert_eq!(value_text("f(arg) = arg"), "function(arg)");
    assert_eq!(
        shown(Value::Vector(vec![Value::Vector(vec![Value::Int(1)]), Value::Int(2)]).parts()),
        "[[1], 2]"
    );
}
