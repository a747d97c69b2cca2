use vexpr::error::Error;
use vexpr::lexer::{lex, Token};
use vexpr::parser::{parse, Node, Parser};
use vexpr::position::Position;
use vexpr::text::Part;

fn shown(parts: Vec<Part>) -> String {
    let mut out = String::new();
    for part in parts {
        match part {
            Part::Text(text) => out.push_str(&text),
            Part::Float(bits) => out.push_str(&format!("{}", f64::from_bits(bits))),
        }
    }
    out
}

fn tree(text: &str) -> Result<(Node, Position), Error> {
    parse(lex(text, "<test>").expect("lexes"), "<test>")
}

fn tree_text(text: &str) -> String {
    shown(tree(text).expect("parses").0.parts())
}

#[test]
fn atoms_parse_to_leaves() {
    assert_eq!(tree("5"), Ok((Node::Int(5), Position::new(0, 1, 0, 0, 0, 1))));
    assert_eq!(
        tree("2.5"),
        Ok((Node::Float(2.5f64.to_bits()), Position::new(0, 3, 0, 0, 0, 3)))
    );
    assert_eq!(tree("pi"), Ok((Node::PI, Position::new(0, 2, 0, 0, 0, 2))));
    assert_eq!(tree("inf"), Ok((Node::Infinity, Position::new(0, 3, 0, 0, 0, 3))));
    assert_eq!(
        tree(" abc"),
        Ok((Node::Variable("abc".to_string()), Position::new(1, 4, 0, 0, 1, 4)))
    );
}

#[test]
fn product_binds_tighter_than_sum() {
    assert_eq!(tree_text("1 + 2 * 3"), "((1) '+' ((2) '*' (3)))");
    assert_eq!(tree_text("1 * 2 + 3"), "(((1) '*' (2)) '+' (3))");
}

#[test]
fn power_binds_tighter_than_product() {
    assert_eq!(tree_text("2 * 3 ^ 4"), "((2) '*' ((3) '^' (4)))");
}

#[test]
fn index_binds_tighter_than_negation_and_power() {
    assert_eq!(tree_text("-v # 0"), "('-' ((v) '#' (0)))");
    assert_eq!(tree_text("v # 0 ^ 2"), "(((v) '#' (0)) '^' (2))");
}

#[test]
fn binary_operators_group_from_the_left() {
    assert_eq!(tree_text("1 - 2 - 3"), "(((1) '-' (2)) '-' (3))");
    assert_eq!(tree_text("8 / 4 / 2"), "(((8) '/' (4)) '/' (2))");
    assert_eq!(tree_text("2 ^ 3 ^ 4"), "(((2) '^' (3)) '^' (4))");
    assert_eq!(tree_text("v # 0 # 1"), "(((v) '#' (0)) '#' (1))");
}

#[test]
fn negation_nests() {
    assert_eq!(tree_text("--x"), "('-' ('-' (x)))");
    assert_eq!(tree_text("1 - -2"), "((1) '-' ('-' (2)))");
}

#[test]
fn brackets_group() {
    assert_eq!(tree_text("(1 + 2) * 3"), "(((1) '+' (2)) '*' (3))");
    assert_eq!(tree("(7)"), Ok((Node::Int(7), Position::new(1, 2, 0, 0, 1, 2))));
}

#[test]
fn vector_literal_holds_its_items_in_order() {
    assert_eq!(tree_text("[1 2.5 x]"), "[(1) (2.5) (x)]");
    assert_eq!(tree_text("[]"), "[]");
    assert_eq!(tree_text("[1 -2]"), "[((1) '-' (2))]");
    assert_eq!(tree_text("[1 + 2 (3)]"), "[((1) '+' (2)) (3)]");
}

#[test]
fn vector_literal_spans_from_bracket_to_bracket() {
    let (node, pos) = tree(" [1 22 ] ").expect("parses");
    assert_eq!(pos, Position::new(1, 8, 0, 0, 1, 8));
    assert_eq!(
        node,
        Node::Vector(vec![
            (Node::Int(1), Position::new(2, 3, 0, 0, 2, 3)),
            (Node::Int(22), Position::new(4, 6, 0, 0, 4, 6)),
        ])
    );
}

#[test]
fn binary_node_spans_both_operands() {
    let (node, pos) = tree("10 + 200").expect("parses");
    assert_eq!(pos, Position::new(0, 8, 0, 0, 0, 8));
    assert_eq!(
        node,
        Node::Binary(
            Token::Add,
            (Box::new(Node::Int(10)), Position::new(0, 2, 0, 0, 0, 2)),
            (Box::new(Node::Int(200)), Position::new(5, 8, 0, 0, 5, 8)),
        )
    );
}

#[test]
fn unary_node_spans_sign_and_operand() {
    let (node, pos) = tree("- 42").expect("parses");
    assert_eq!(pos, Position::new(0, 4, 0, 0, 0, 4));
    assert_eq!(
        node,
        Node::Unary(
            Token::Subtract,
            (Box::new(Node::Int(42)), Position::new(2, 4, 0, 0, 2, 4)),
        )
    );
}

#[test]
fn equals_after_a_name_assigns() {
    assert_eq!(tree_text("x = 5"), "((x) '=' (5))");
    assert!(matches!(tree("x = 5"), Ok((Node::Assign(_, _), _))));
    assert_eq!(tree_text("x = y = 5"), "((x) '=' ((y) '=' (5)))");
    assert!(matches!(tree("(x) = 5"), Ok((Node::Assign(_, _), _))));
}

#[test]
fn equals_after_a_call_defines() {
    let (node, pos) = tree("f(x) = x + 1").expect("parses");
    assert_eq!(pos, Position::new(0, 12, 0, 0, 0, 12));
    match node {
        Node::Assign(target, value) => {
            assert!(matches!(*target.0, Node::Call(_, _)));
            assert!(matches!(*value.0, Node::Binary(Token::Add, _, _)));
        }
        other => panic!("{:?}", other),
    }
}

#[test]
fn equals_after_anything_else_compares() {
    assert!(matches!(tree("1 = 1"), Ok((Node::Binary(Token::Equal, _, _), _))));
    assert!(matches!(tree("x + 0 = 5"), Ok((Node::Binary(Token::Equal, _, _), _))));
    assert!(matches!(tree("[1] = [1]"), Ok((Node::Binary(Token::Equal, _, _), _))));
}

#[test]
fn comparisons_bind_loosest_and_group_from_the_left() {
    assert_eq!(tree_text("1 + 2 < 3 * 4"), "(((1) '+' (2)) '<' ((3) '*' (4)))");
    assert_eq!(tree_text("1 < 2 = 1"), "(((1) '<' (2)) '=' (1))");
    assert_eq!(tree_text("1 != 2"), "((1) '!=' (2))");
    assert_eq!(tree_text("1 <= 2"), "((1) '<=' (2))");
    assert_eq!(tree_text("1 >= 2"), "((1) '>=' (2))");
    assert_eq!(tree_text("x > 2"), "((x) '>' (2))");
}

#[test]
fn an_atom_after_an_expression_is_its_argument() {
    assert_eq!(tree_text("f(7)"), "((f) (7))");
    assert_eq!(tree_text("f 7"), "((f) (7))");
    assert_eq!(tree_text("f [1 2]"), "((f) [(1) (2)])");
    assert_eq!(tree_text("f(1 + 2)"), "((f) ((1) '+' (2)))");
    assert_eq!(tree_text("(f 1) + 2"), "(((f) (1)) '+' (2))");
    let (_, pos) = tree("f(7)").expect("parses");
    assert_eq!(pos, Position::new(0, 3, 0, 0, 0, 3));
}

#[test]
fn input_may_end_with_line_feeds() {
    assert_eq!(tree_text("1 + 2\n"), "((1) '+' (2))");
    assert_eq!(tree_text("1 + 2\n\n \n"), "((1) '+' (2))");
    assert_eq!(tree_text("1 + 2"), "((1) '+' (2))");
}

#[test]
fn second_expression_is_refused() {
    match tree("1\n2") {
        Err(Error::ExpectToken(wanted, found, pos, label)) => {
            assert_eq!(wanted, Token::EOF);
            assert_eq!(found, Token::Int(2));
            assert_eq!(pos, Position::new(2, 3, 1, 1, 0, 1));
            assert_eq!(label, "<test>");
        }
        other => panic!("{:?}", other),
    }
}

#[test]
fn stray_token_after_the_expression_is_refused() {
    match tree("1 )") {
        Err(Error::ExpectToken(wanted, found, pos, _)) => {
            assert_eq!(wanted, Token::NL);
            assert_eq!(found, Token::GroupOut);
            assert_eq!(pos, Position::new(2, 3, 0, 0, 2, 3));
        }
        other => panic!("{:?}", other),
    }
    assert!(matches!(tree("1 is 2"), Err(Error::ExpectToken(Token::NL, Token::TypeEq, _, _))));
    assert!(matches!(tree("f 1 2"), Err(Error::ExpectToken(Token::NL, Token::Int(2), _, _))));
}

#[test]
fn missing_closing_bracket_is_refused() {
    match tree("(1 + 2") {
        Err(Error::ExpectToken(wanted, found, pos, _)) => {
            assert_eq!(wanted, Token::GroupOut);
            assert_eq!(found, Token::EOF);
            assert_eq!(pos, Position::new(6, 6, 0, 0, 6, 6));
        }
        other => panic!("{:?}", other),
    }
}

#[test]
fn token_that_starts_nothing_is_unexpected() {
    match tree("1 + *") {
        Err(Error::UnexpectedToken(found, pos, label)) => {
            assert_eq!(found, Token::Multiply);
            assert_eq!(pos, Position::new(4, 5, 0, 0, 4, 5));
            assert_eq!(label, "<test>");
        }
        other => panic!("{:?}", other),
    }
    assert!(matches!(tree(""), Err(Error::UnexpectedToken(Token::EOF, _, _))));
    assert!(matches!(tree("\n1"), Err(Error::UnexpectedToken(Token::NL, _, _))));
    assert!(matches!(tree("[1 2"), Err(Error::UnexpectedToken(Token::EOF, _, _))));
    assert!(matches!(tree("{"), Err(Error::UnexpectedToken(Token::BraceIn, _, _))));
}

#[test]
fn parser_reads_the_end_of_file_past_the_last_token() {
    let mut parser = Parser::new(vec![], "<test>".to_string());
    assert_eq!(parser.token(), Token::EOF);
    assert_eq!(parser.pos(), Position::new(0, 0, 0, 0, 0, 0));
    parser.advance();
    assert_eq!(parser.idx, 0);
    assert!(matches!(parser.parse(), Err(Error::UnexpectedToken(Token::EOF, _, _))));
}

#[test]
fn parser_steps_over_tokens() {
    let tokens = lex("1 \n\n 2", "<test>").expect("lexes");
    let mut parser = Parser::new(tokens, "<test>".to_string());
    assert_eq!(parser.token(), Token::Int(1));
    assert_eq!(parser.expect_token(Token::Int(1)), Ok(()));
    assert!(matches!(
        parser.expect_token(Token::NL),
        Err(Error::ExpectToken(Token::NL, Token::Int(1), _, _))
    ));
    parser.advance();
    assert_eq!(parser.token(), Token::NL);
    parser.advance_nl();
    assert_eq!(parser.token(), Token::Int(2));
    assert_eq!(parser.pos(), Position::new(5, 6, 2, 2, 1, 2));
    parser.advance_nl();
    assert_eq!(parser.idx, 2);
}

#[test]
fn productions_read_their_own_level() {
    let text = "1 + 2 * 3 ^ 4 # 5";
    let make = || Parser::new(lex(text, "<test>").expect("lexes"), "<test>".to_string());
    let mut parser = make();
    assert_eq!(shown(parser.atom().expect("parses").0.parts()), "(1)");
    assert_eq!(parser.idx, 1);
    let mut parser = make();
    assert_eq!(shown(parser.term().expect("parses").0.parts()), "(1)");
    let mut parser = make();
    assert_eq!(
        shown(parser.arith().expect("parses").0.parts()),
        "((1) '+' ((2) '*' ((3) '^' ((4) '#' (5)))))"
    );
    assert_eq!(parser.idx, 9);
    let mut parser = make();
    parser.idx = 2;
    assert_eq!(
        shown(parser.term().expect("parses").0.parts()),
        "((2) '*' ((3) '^' ((4) '#' (5))))"
    );
    parser.idx = 4;
    assert_eq!(shown(parser.power().expect("parses").0.parts()), "((3) '^' ((4) '#' (5)))");
    parser.idx = 6;
    assert_eq!(shown(parser.hash().expect("parses").0.parts()), "((4) '#' (5))");
    parser.idx = 6;
    assert_eq!(shown(parser.factor().expect("parses").0.parts()), "((4) '#' (5))");
    parser.idx = 0;
    assert_eq!(
        shown(parser.expr().expect("parses").0.parts()),
        "((1) '+' ((2) '*' ((3) '^' ((4) '#' (5)))))"
    );
}
