use vexpr::error::Error;
use vexpr::lexer::{float_lexeme, lex, Token};
use vexpr::position::Position;

fn kinds(text: &str) -> Vec<Token> {
    lex(text, "<test>")
        .expect("lexes")
        .into_iter()
        .map(|(token, _)| token)
        .collect()
}

#[test]
fn empty_text_is_only_the_end_of_file() {
    let tokens = lex("", "<test>").expect("lexes");
    assert_eq!(tokens, vec![(Token::EOF, Position::new(0, 0, 0, 0, 0, 0))]);
}

#[test]
fn tokens_carry_their_spans() {
    let tokens = lex("12 + x", "<test>").expect("lexes");
    assert_eq!(
        tokens,
        vec![
            (Token::Int(12), Position::new(0, 2, 0, 0, 0, 2)),
            (Token::Add, Position::new(3, 4, 0, 0, 3, 4)),
            (Token::Variable("x".to_string()), Position::new(5, 6, 0, 0, 5, 6)),
            (Token::EOF, Position::new(6, 6, 0, 0, 6, 6)),
        ]
    );
}

#[test]
fn white_space_moves_the_column_and_gives_no_token() {
    let tokens = lex(" \t\r\x0c7", "<test>").expect("lexes");
    assert_eq!(
        tokens,
        vec![
            (Token::Int(7), Position::new(4, 5, 0, 0, 4, 5)),
            (Token::EOF, Position::new(5, 5, 0, 0, 5, 5)),
        ]
    );
}

#[test]
fn a_run_of_line_feeds_is_one_token() {
    let tokens = lex("a\n\n\nb", "<test>").expect("lexes");
    assert_eq!(
        tokens,
        vec![
            (Token::Variable("a".to_string()), Position::new(0, 1, 0, 0, 0, 1)),
            (Token::NL, Position::new(1, 4, 0, 3, 1, 0)),
            (Token::Variable("b".to_string()), Position::new(4, 5, 3, 3, 0, 1)),
            (Token::EOF, Position::new(5, 5, 3, 3, 1, 1)),
        ]
    );
}

#[test]
fn every_symbol_has_its_token() {
    assert_eq!(
        kinds("= > < + - * / ^ % # ( ) [ ] { } != <= >="),
        vec![
            Token::Equal,
            Token::Greater,
            Token::Less,
            Token::Add,
            Token::Subtract,
            Token::Multiply,
            Token::Divide,
            Token::Power,
            Token::Modulo,
            Token::Hashtag,
            Token::GroupIn,
            Token::GroupOut,
            Token::VectorIn,
            Token::VectorOut,
            Token::BraceIn,
            Token::BraceOut,
            Token::NotEqual,
            Token::LessEqual,
            Token::GreaterEqual,
            Token::EOF,
        ]
    );
}

#[test]
fn the_longest_symbol_wins() {
    assert_eq!(kinds("<=="), vec![Token::LessEqual, Token::Equal, Token::EOF]);
    assert_eq!(kinds("< ="), vec![Token::Less, Token::Equal, Token::EOF]);
}

#[test]
fn keywords_are_whole_words_only() {
    assert_eq!(
        kinds("pi inf infinity is"),
        vec![Token::PI, Token::Infinity, Token::Infinity, Token::TypeEq, Token::EOF]
    );
    assert_eq!(
        kinds("pie info infinit isx Pi"),
        vec![
            Token::Variable("pie".to_string()),
            Token::Variable("info".to_string()),
            Token::Variable("infinit".to_string()),
            Token::Variable("isx".to_string()),
            Token::Variable("Pi".to_string()),
            Token::EOF,
        ]
    );
}

#[test]
fn names_hold_letters_digits_and_underscores() {
    assert_eq!(
        kinds("a_1B2 x9"),
        vec![
            Token::Variable("a_1B2".to_string()),
            Token::Variable("x9".to_string()),
            Token::EOF,
        ]
    );
}

#[test]
fn numerals_are_integers_or_floats() {
    assert_eq!(
        kinds("0 007 1.5 10.25"),
        vec![
            Token::Int(0),
            Token::Int(7),
            Token::Float(1.5f64.to_bits()),
            Token::Float(10.25f64.to_bits()),
            Token::EOF,
        ]
    );
}

#[test]
fn float_literals_are_rounded_to_nearest() {
    assert_eq!(kinds("0.1"), vec![Token::Float(0.1f64.to_bits()), Token::EOF]);
    assert_eq!(
        kinds("3.141592653589793238462643383279"),
        vec![Token::Float(std::f64::consts::PI.to_bits()), Token::EOF]
    );
    assert_eq!(
        kinds("123456789012345678901234567890.5"),
        vec![Token::Float(123456789012345678901234567890.5f64.to_bits()), Token::EOF]
    );
}

#[test]
fn a_point_without_digits_after_it_is_no_float() {
    match lex("1.", "<test>") {
        Err(Error::Syntax(detail, pos, _)) => {
            assert_eq!(detail, "bad character '.'");
            assert_eq!(pos, Position::new(1, 2, 0, 1, 1, 2));
        }
        other => panic!("{:?}", other),
    }
    assert_eq!(
        kinds("1.5x"),
        vec![Token::Float(1.5f64.to_bits()), Token::Variable("x".to_string()), Token::EOF]
    );
}

#[test]
fn largest_integer_is_read_and_the_next_is_not() {
    assert_eq!(kinds("9223372036854775807"), vec![Token::Int(i64::MAX), Token::EOF]);
    match lex("  9223372036854775808", "big") {
        Err(Error::Syntax(detail, pos, label)) => {
            assert_eq!(detail, "bad character '9223372036854775808'");
            assert_eq!(pos, Position::new(2, 21, 0, 1, 2, 3));
            assert_eq!(label, "big");
        }
        other => panic!("{:?}", other),
    }
}

#[test]
fn bad_character_stops_the_lexing() {
    match lex("1 + $ 2 @", "file.txt") {
        Err(Error::Syntax(detail, pos, label)) => {
            assert_eq!(detail, "bad character '$'");
            assert_eq!(pos, Position::new(4, 5, 0, 1, 4, 5));
            assert_eq!(label, "file.txt");
        }
        other => panic!("{:?}", other),
    }
}

#[test]
fn bad_character_of_several_bytes_spans_them_all() {
    match lex("x\n é", "<test>") {
        Err(Error::Syntax(detail, pos, _)) => {
            assert_eq!(detail, "bad character 'é'");
            assert_eq!(pos, Position::new(3, 5, 1, 2, 1, 2));
        }
        other => panic!("{:?}", other),
    }
    match lex("€", "<test>") {
        Err(Error::Syntax(_, pos, _)) => assert_eq!(pos, Position::new(0, 3, 0, 1, 0, 1)),
        other => panic!("{:?}", other),
    }
    match lex("😀", "<test>") {
        Err(Error::Syntax(_, pos, _)) => assert_eq!(pos, Position::new(0, 4, 0, 1, 0, 1)),
        other => panic!("{:?}", other),
    }
}

#[test]
fn lone_exclamation_mark_is_a_bad_character() {
    match lex("1 ! 2", "<test>") {
        Err(Error::Syntax(detail, _, _)) => assert_eq!(detail, "bad character '!'"),
        other => panic!("{:?}", other),
    }
}

#[test]
fn token_names_are_those_of_the_messages() {
    assert_eq!(Token::WS.name(), "white space");
    assert_eq!(Token::Error.name(), "error");
    assert_eq!(Token::NL.name(), "end of line");
    assert_eq!(Token::EOF.name(), "end of file");
    assert_eq!(Token::Int(3).name(), "int");
    assert_eq!(Token::Float(0).name(), "float");
    assert_eq!(Token::Infinity.name(), "infinity");
    assert_eq!(Token::PI.name(), "pi");
    assert_eq!(Token::Variable("v".to_string()).name(), "variable");
    assert_eq!(Token::Equal.name(), "'='");
    assert_eq!(Token::NotEqual.name(), "'!='");
    assert_eq!(Token::Greater.name(), "'>'");
    assert_eq!(Token::Less.name(), "'<'");
    assert_eq!(Token::GreaterEqual.name(), "'>='");
    assert_eq!(Token::LessEqual.name(), "'<='");
    assert_eq!(Token::Add.name(), "'+'");
    assert_eq!(Token::Subtract.name(), "'-'");
    assert_eq!(Token::Multiply.name(), "'*'");
    assert_eq!(Token::Divide.name(), "'/'");
    assert_eq!(Token::Power.name(), "'^'");
    assert_eq!(Token::Modulo.name(), "'%'");
    assert_eq!(Token::Hashtag.name(), "'#'");
    assert_eq!(Token::GroupIn.name(), "'('");
    assert_eq!(Token::GroupOut.name(), "')'");
    assert_eq!(Token::VectorIn.name(), "'['");
    assert_eq!(Token::VectorOut.name(), "']'");
    assert_eq!(Token::BraceIn.name(), "'{'");
    assert_eq!(Token::BraceOut.name(), "'}'");
    assert_eq!(Token::TypeEq.name(), "'is'");
}

#[test]
fn tokens_are_equal_by_variant_and_payload() {
    assert_eq!(Token::Int(1), Token::Int(1));
    assert_ne!(Token::Int(1), Token::Int(2));
    assert_ne!(Token::Int(1), Token::Float(1));
    assert_eq!(Token::Variable("a".to_string()), Token::Variable("a".to_string()));
    assert_ne!(Token::Variable("a".to_string()), Token::Variable("b".to_string()));
    assert_ne!(Token::Add, Token::Subtract);
    assert_eq!(Token::Variable("a".to_string()).clone(), Token::Variable("a".to_string()));
}

#[test]
fn float_lexeme_is_a_float_or_nothing() {
    assert_eq!(float_lexeme(Some(1.5f64.to_bits())), Some(Token::Float(1.5f64.to_bits())));
    assert_eq!(float_lexeme(Some(0)), Some(Token::Float(0)));
    assert_eq!(float_lexeme(None), None);
}
