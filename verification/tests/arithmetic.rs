use vexpr::interpreter::{binary, Context, Value};
use vexpr::lexer::{lex, Token};

struct Stream(u64);

impl Stream {
    fn next(&mut self) -> u64 {
        self.0 = self
            .0
            .wrapping_mul(6364136223846793005)
            .wrapping_add(1442695040888963407);
        let mut x = self.0;
        x ^= x >> 33;
        x = x.wrapping_mul(0xff51afd7ed558ccd);
        x ^= x >> 33;
        x
    }

    fn float(&mut self) -> f64 {
        let bits = self.next();
        match bits % 8 {
            0 => f64::from_bits(bits & 0x800F_FFFF_FFFF_FFFF),
            1 => ((bits >> 8) as i64 as f64) / 1024.0,
            2 => f64::from_bits((bits & 0x800F_FFFF_FFFF_FFFF) | 0x3FF0_0000_0000_0000),
            3 => [0.0, -0.0, 1.0, -1.0, f64::INFINITY, f64::NEG_INFINITY, f64::MAX, f64::MIN_POSITIVE]
                [(bits >> 3) as usize % 8],
            _ => {
                let value = f64::from_bits(bits);
                if value.is_nan() {
                    1.0
                } else {
                    value
                }
            }
        }
    }
}

fn same(bits: u64, expected: f64) -> bool {
    if expected.is_nan() {
        f64::from_bits(bits).is_nan()
    } else {
        bits == expected.to_bits()
    }
}

fn apply(op: &Token, left: Value, right: Value) -> u64 {
    match binary(op, &left, &right, &mut Context::new()) {
        Ok(Value::Float(bits)) => bits,
        other => panic!("{:?}", other),
    }
}

#[test]
fn float_sums_agree_with_the_machine() {
    let mut stream = Stream(1);
    for _ in 0..4000 {
        let (a, b) = (stream.float(), stream.float());
        let got = apply(&Token::Add, Value::Float(a.to_bits()), Value::Float(b.to_bits()));
        assert!(same(got, a + b), "{:e} + {:e}", a, b);
    }
}

#[test]
fn float_differences_agree_with_the_machine() {
    let mut stream = Stream(2);
    for _ in 0..4000 {
        let (a, b) = (stream.float(), stream.float());
        let got = apply(&Token::Subtract, Value::Float(a.to_bits()), Value::Float(b.to_bits()));
        assert!(same(got, a - b), "{:e} - {:e}", a, b);
    }
}

#[test]
fn float_products_agree_with_the_machine() {
    let mut stream = Stream(3);
    for _ in 0..4000 {
        let (a, b) = (stream.float(), stream.float());
        let got = apply(&Token::Multiply, Value::Float(a.to_bits()), Value::Float(b.to_bits()));
        assert!(same(got, a * b), "{:e} * {:e}", a, b);
    }
}

#[test]
fn float_quotients_agree_with_the_machine() {
    let mut stream = Stream(4);
    for _ in 0..4000 {
        let (a, b) = (stream.float(), stream.float());
        if a == f64::INFINITY && b == f64::INFINITY {
            continue;
        }
        let got = apply(&Token::Divide, Value::Float(a.to_bits()), Value::Float(b.to_bits()));
        assert!(same(got, a / b), "{:e} / {:e}", a, b);
    }
}

#[test]
fn integers_become_the_floats_of_the_machine() {
    let mut stream = Stream(5);
    for round in 0..4000 {
        let raw = stream.next() as i64;
        let n = raw >> (round % 64);
        let got = apply(&Token::Add, Value::Int(n), Value::Float(0.0f64.to_bits()));
        assert!(same(got, n as f64 + 0.0), "{}", n);
    }
    for n in [i64::MIN, i64::MAX, 0, -1, 1 << 53, (1 << 53) + 1, (1 << 53) + 3] {
        let got = apply(&Token::Multiply, Value::Int(n), Value::Float(1.0f64.to_bits()));
        assert!(same(got, n as f64), "{}", n);
    }
}

#[test]
fn decimal_literals_are_read_as_the_machine_reads_them() {
    let mut stream = Stream(6);
    for round in 0..2000 {
        let whole = stream.next() >> (round % 60);
        let fraction = stream.next() >> (round % 50);
        let zeros = "0".repeat(round % 4);
        let text = format!("{}.{}{}", whole, zeros, fraction);
        let expected: f64 = text.parse().expect("a float");
        let tokens = lex(&text, "<test>").expect("lexes");
        assert_eq!(tokens[0].0, Token::Float(expected.to_bits()), "{}", text);
        assert_eq!(tokens.len(), 2);
    }
    for text in [
        "0.0",
        "0.000000000000000000000000000000000000000000001",
        "179769313486231570000000000000000000000000000000000000000000000000000000000000000000000000000000000000000000000000000000000000000000000000000000000000000000000000000000000000000000000000000000000000000000000000000000000000000000000000000000000000000000000000000000000000000000000000000000000000000000000000.0",
        "1797693134862315800000000000000000000000000000000000000000000000000000000000000000000000000000000000000000000000000000000000000000000000000000000000000000000000000000000000000000000000000000000000000000000000000000000000000000000000000000000000000000000000000000000000000000000000000000000000000000000000000000.0",
        "2.2250738585072014",
        "0.1",
        "0.30000000000000004",
        "9007199254740993.0",
        "4.35",
        "1.00000000000000011102230246251565404236316680908203125",
    ] {
        let expected: f64 = text.parse().expect("a float");
        let tokens = lex(text, "<test>").expect("lexes");
        assert_eq!(tokens[0].0, Token::Float(expected.to_bits()), "{}", text);
    }
}
