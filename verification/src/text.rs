//! Numbers as decimal text, and the pieces that messages are made of.
use vstd::prelude::*;

verus! {

/// The character for a digit below ten.
pub open spec fn digit_char(d: nat) -> char {
    if d == 0 {
        '0'
    } else if d == 1 {
        '1'
    } else if d == 2 {
        '2'
    } else if d == 3 {
        '3'
    } else if d == 4 {
        '4'
    } else if d == 5 {
        '5'
    } else if d == 6 {
        '6'
    } else if d == 7 {
        '7'
    } else if d == 8 {
        '8'
    } else {
        '9'
    }
}

/// A natural number in base ten, without leading zeros.
pub open spec fn decimal(n: nat) -> Seq<char>
    decreases n,
{
    if n < 10 {
        seq![digit_char(n)]
    } else {
        decimal(n / 10).push(digit_char(n % 10))
    }
}

/// An integer in base ten, with `-` before a negative one.
pub open spec fn signed_decimal(v: int) -> Seq<char> {
    if v < 0 {
        seq!['-'] + decimal((-v) as nat)
    } else {
        decimal(v as nat)
    }
}

fn digit_text(d: u64) -> (r: &'static str)
    requires
        d < 10,
    ensures
        r@ == seq![digit_char(d as nat)],
{
    proof {
        reveal_strlit("0");
        reveal_strlit("1");
        reveal_strlit("2");
        reveal_strlit("3");
        reveal_strlit("4");
        reveal_strlit("5");
        reveal_strlit("6");
        reveal_strlit("7");
        reveal_strlit("8");
        reveal_strlit("9");
    }
    let r = if d == 0 {
        "0"
    } else if d == 1 {
        "1"
    } else if d == 2 {
        "2"
    } else if d == 3 {
        "3"
    } else if d == 4 {
        "4"
    } else if d == 5 {
        "5"
    } else if d == 6 {
        "6"
    } else if d == 7 {
        "7"
    } else if d == 8 {
        "8"
    } else {
        "9"
    };
    assert(r@ =~= seq![digit_char(d as nat)]);
    r
}

/// Writes a natural number in base ten.
pub fn natural_text(n: u64) -> (r: String)
    ensures
        r@ == decimal(n as nat),
    decreases n,
{
    if n < 10 {
        String::from_str(digit_text(n))
    } else {
        let mut r = natural_text(n / 10);
        r.append(digit_text(n % 10));
        assert(r@ =~= decimal((n / 10) as nat).push(digit_char((n % 10) as nat)));
        r
    }
}

/// Writes an integer in base ten.
pub fn integer_text(v: i64) -> (r: String)
    ensures
        r@ == signed_decimal(v as int),
{
    if v < 0 {
        let magnitude: u64 = ((-(v + 1)) as u64) + 1;
        let mut r = String::from_str("-");
        proof {
            reveal_strlit("-");
            assert("-"@ =~= seq!['-']);
        }
        let digits = natural_text(magnitude);
        r.append(digits.as_str());
        r
    } else {
        natural_text(v as u64)
    }
}

/// A piece of a message: text, or a float for the caller to write out in decimal.
#[derive(Debug, PartialEq)]
pub enum Part {
    Text(String),
    Float(u64),
}

/// What a [`Part`] is in contracts.
pub enum PartModel {
    Text(Seq<char>),
    Float(u64),
}

impl View for Part {
    type V = PartModel;

    open spec fn view(&self) -> PartModel {
        match self {
            Part::Text(text) => PartModel::Text(text@),
            Part::Float(bits) => PartModel::Float(*bits),
        }
    }
}

/// What a sequence of parts is in contracts.
pub open spec fn parts_model(parts: Vec<Part>) -> Seq<PartModel> {
    Seq::new(parts.len() as nat, |i: int| parts[i]@)
}

/// One part of text.
pub open spec fn text_part(text: Seq<char>) -> Seq<PartModel> {
    seq![PartModel::Text(text)]
}

/// Adds a part of text at the end.
pub fn push_text(parts: &mut Vec<Part>, text: &str)
    ensures
        parts_model(*final(parts)) == parts_model(*old(parts)) + text_part(text@),
{
    parts.push(Part::Text(String::from_str(text)));
    assert(parts_model(*parts) =~= parts_model(*old(parts)) + text_part(text@));
}

/// Adds a float at the end.
pub fn push_float(parts: &mut Vec<Part>, bits: u64)
    ensures
        parts_model(*final(parts)) == parts_model(*old(parts)) + seq![PartModel::Float(bits)],
{
    parts.push(Part::Float(bits));
    assert(parts_model(*parts) =~= parts_model(*old(parts)) + seq![PartModel::Float(bits)]);
}

} // verus!
