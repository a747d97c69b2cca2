//! What holds of the stages, alone and together, for every input.
use crate::context::{
    bind, lemma_bind_keeps_order, lemma_bind_keeps_unique, lookup, unique_names,
};
use crate::error::ErrorModel;
use crate::float::{float_of_int, float_quotient, INFINITY};
use crate::interpreter::{
    evaluation, items_evaluation, operation_error, run_result, Evaluation, ValueModel,
};
use crate::lexer::{
    decimal_value, digit_value, is_digit, lemma_lex_from_in_order, lex_from, lex_result,
    lexed_in_order, run_end, scan, span, Class, Piece, Scan, TokenModel,
};
use crate::operators::{
    binary_result, each_result, is_arithmetic, is_scalar, opposite, paired, unary_result,
};
use crate::parser::{
    assignable, atom_result, call_result, chain_result, compare_result, compares, expr_result,
    factor_result, is_operator, joined, operand_result, parse_result, pos_at, rank, rest_result,
    starts_atom, token_at, vector_result, Level, NodeModel, Parsed,
};
use crate::position::Position;
use crate::text::{decimal, digit_char, signed_decimal};
use vstd::prelude::*;

verus! {

/// The decimal text of a number is a run of digits, at least one, that stands for
/// the number.
pub proof fn lemma_decimal_reads_back(n: nat)
    ensures
        decimal(n).len() >= 1,
        forall|k: int| 0 <= k < decimal(n).len() ==> is_digit(#[trigger] decimal(n)[k]),
        decimal_value(decimal(n)) == n,
    decreases n,
{
    if n < 10 {
        let text = decimal(n);
        assert(text =~= seq![digit_char(n)]);
        assert(text.drop_last() =~= Seq::<char>::empty());
        assert(decimal_value(text.drop_last()) == 0);
        assert(digit_value(text.last()) == n);
    } else {
        lemma_decimal_reads_back(n / 10);
        let shorter = decimal(n / 10);
        let text = decimal(n);
        assert(text == shorter.push(digit_char(n % 10)));
        assert(text.drop_last() =~= shorter);
        assert(digit_value(text.last()) == n % 10);
        assert forall|k: int| 0 <= k < text.len() implies is_digit(#[trigger] text[k]) by {
            if k < shorter.len() {
                assert(text[k] == shorter[k]);
            }
        }
    }
}

/// A run of digits that ends at `j` is what `run_end` finds.
pub proof fn lemma_digits_run(text: Seq<char>, i: int, j: int)
    requires
        0 <= i <= j <= text.len(),
        forall|k: int| i <= k < j ==> is_digit(#[trigger] text[k]),
        j == text.len() || !is_digit(text[j]),
    ensures
        run_end(text, Class::Digit, i) == j,
    decreases j - i,
{
    if i < j {
        lemma_digits_run(text, i + 1, j);
    }
}

/// Where digits run from `i` up to `j`, no point with a digit follows, and the number
/// fits, the piece at `i` is that integer.
pub proof fn lemma_scan_integer(text: Seq<char>, i: int, j: int)
    requires
        0 <= i < j <= text.len(),
        forall|k: int| i <= k < j ==> is_digit(#[trigger] text[k]),
        j == text.len() || (!is_digit(text[j]) && text[j] != '.'),
        decimal_value(text.subrange(i, j)) <= i64::MAX,
    ensures
        scan(text, i) == (Scan {
            piece: Piece::Token(TokenModel::Int(decimal_value(text.subrange(i, j)) as i64)),
            end: j,
        }),
{
    lemma_digits_run(text, i, j);
}

/// The tokens of an integer written in decimal at index `i`, on line `line` from
/// column `column`: the numeral, after `-` where the integer is negative.
pub open spec fn literal_tokens(n: int, i: int, line: int, column: int) -> Seq<
    (TokenModel, Position),
> {
    let width = signed_decimal(n).len() as int;
    if n < 0 {
        seq![
            (TokenModel::Subtract, span(i, i + 1, line, line, column, column + 1)),
            (
                TokenModel::Int((-n) as i64),
                span(i + 1, i + width, line, line, column + 1, column + width),
            ),
        ]
    } else {
        seq![(TokenModel::Int(n as i64), span(i, i + width, line, line, column, column + width))]
    }
}

/// Lexing an integer written in decimal, where the text ends after it or `/`
/// follows, gives its tokens and goes on behind it.
pub proof fn lemma_lex_literal(
    text: Seq<char>,
    label: Seq<char>,
    i: int,
    line: int,
    column: int,
    done: Seq<(TokenModel, Position)>,
    n: i64,
)
    requires
        n > i64::MIN,
        0 <= i,
        i + signed_decimal(n as int).len() <= text.len(),
        text.subrange(i, i + signed_decimal(n as int).len()) == signed_decimal(n as int),
        i + signed_decimal(n as int).len() == text.len() || text[i + signed_decimal(
            n as int,
        ).len()] == '/',
    ensures
        lex_from(text, label, i, line, column, done) == lex_from(
            text,
            label,
            i + signed_decimal(n as int).len(),
            line,
            column + signed_decimal(n as int).len(),
            done + literal_tokens(n as int, i, line, column),
        ),
{
    let literal = signed_decimal(n as int);
    let width = literal.len() as int;
    let stop = i + width;
    let magnitude: nat = if n < 0 {
        (-n) as nat
    } else {
        n as nat
    };
    lemma_decimal_reads_back(magnitude);
    let digits = decimal(magnitude);
    let first = if n < 0 {
        i + 1
    } else {
        i
    };
    assert(digits.len() == stop - first);
    assert forall|k: int| first <= k < stop implies is_digit(#[trigger] text[k]) by {
        assert(text[k] == text.subrange(i, stop)[k - i]);
        assert(literal[k - i] == digits[k - first]);
    }
    assert(text.subrange(first, stop) =~= digits) by {
        assert forall|k: int| 0 <= k < digits.len() implies text.subrange(first, stop)[k]
            == digits[k] by {
            assert(text[first + k] == text.subrange(i, stop)[first + k - i]);
        }
    }
    lemma_scan_integer(text, first, stop);
    let number = (
        TokenModel::Int(magnitude as i64),
        span(first, stop, line, line, column + (first - i), column + width),
    );
    if n < 0 {
        assert(text[i] == literal[0]);
        assert(text[i] == '-');
        assert(text[i + 1] == digits[0]);
        assert(scan(text, i) == Scan { piece: Piece::Token(TokenModel::Subtract), end: i + 1 });
        let minus = (TokenModel::Subtract, span(i, i + 1, line, line, column, column + 1));
        assert(lex_from(text, label, i, line, column, done) == lex_from(
            text,
            label,
            i + 1,
            line,
            column + 1,
            done.push(minus),
        ));
        assert(lex_from(text, label, i + 1, line, column + 1, done.push(minus)) == lex_from(
            text,
            label,
            stop,
            line,
            column + width,
            done.push(minus).push(number),
        ));
        assert(done.push(minus).push(number) =~= done + literal_tokens(n as int, i, line, column));
    } else {
        assert(lex_from(text, label, i, line, column, done) == lex_from(
            text,
            label,
            stop,
            line,
            column + width,
            done.push(number),
        ));
        assert(done.push(number) =~= done + literal_tokens(n as int, i, line, column));
    }
}

/// How many tokens an integer written in decimal takes.
pub open spec fn literal_count(n: int) -> nat {
    if n < 0 {
        2
    } else {
        1
    }
}

/// Whether the tokens of the integer `n` stand at `idx`.
pub open spec fn holds_literal(ts: Seq<(TokenModel, Position)>, idx: nat, n: int) -> bool {
    if n < 0 {
        idx + 1 < ts.len() && ts[idx as int].0 == TokenModel::Subtract && ts[idx as int + 1].0
            == TokenModel::Int((-n) as i64)
    } else {
        idx < ts.len() && ts[idx as int].0 == TokenModel::Int(n as i64)
    }
}

/// The tree, with its span, that the tokens of the integer `n` at `idx` parse to.
pub open spec fn literal_node(ts: Seq<(TokenModel, Position)>, idx: nat, n: int) -> (
    NodeModel,
    Position,
) {
    if n < 0 {
        (
            NodeModel::Unary(
                TokenModel::Subtract,
                (Box::new(NodeModel::Int((-n) as i64)), pos_at(ts, (idx + 1) as nat)),
            ),
            pos_at(ts, idx).union(pos_at(ts, (idx + 1) as nat)),
        )
    } else {
        (NodeModel::Int(n as i64), pos_at(ts, idx))
    }
}

/// A numeral that no `#` follows is a chain of `#` by itself.
proof fn lemma_hash_numeral(ts: Seq<(TokenModel, Position)>, idx: nat, label: Seq<char>, v: i64)
    requires
        idx < ts.len(),
        ts[idx as int].0 == TokenModel::Int(v),
        !(token_at(ts, (idx + 1) as nat) is Hashtag),
    ensures
        chain_result(Level::Hash, ts, idx, label) == (Parsed {
            result: Ok((NodeModel::Int(v), pos_at(ts, idx))),
            idx: idx + 1,
        }),
{
    let found = (NodeModel::Int(v), pos_at(ts, idx));
    assert(atom_result(ts, idx, label) == Parsed { result: Ok(found), idx: idx + 1 });
    assert(operand_result(Level::Hash, ts, idx, label) == atom_result(ts, idx, label));
    assert(rest_result(Level::Hash, ts, idx + 1, label, found) == Parsed {
        result: Ok(found),
        idx: idx + 1,
    });
    assert(chain_result(Level::Hash, ts, idx, label) == rest_result(
        Level::Hash,
        ts,
        idx + 1,
        label,
        found,
    ));
}

/// An integer that no `#` follows is a factor.
pub proof fn lemma_factor_literal(
    ts: Seq<(TokenModel, Position)>,
    idx: nat,
    label: Seq<char>,
    n: int,
)
    requires
        holds_literal(ts, idx, n),
        i64::MIN < n <= i64::MAX,
        !(token_at(ts, (idx + literal_count(n)) as nat) is Hashtag),
    ensures
        factor_result(ts, idx, label) == (Parsed {
            result: Ok(literal_node(ts, idx, n)),
            idx: idx + literal_count(n),
        }),
{
    if n < 0 {
        lemma_hash_numeral(ts, idx + 1, label, (-n) as i64);
        assert(factor_result(ts, idx + 1, label) == chain_result(Level::Hash, ts, idx + 1, label));
        assert(factor_result(ts, idx, label) == Parsed {
            result: Ok(literal_node(ts, idx, n)),
            idx: idx + 2,
        });
    } else {
        lemma_hash_numeral(ts, idx, label, n as i64);
        assert(factor_result(ts, idx, label) == chain_result(Level::Hash, ts, idx, label));
    }
}

/// An integer that neither `#` nor `^` follows is a chain of `^` by itself.
pub proof fn lemma_power_literal(
    ts: Seq<(TokenModel, Position)>,
    idx: nat,
    label: Seq<char>,
    n: int,
)
    requires
        holds_literal(ts, idx, n),
        i64::MIN < n <= i64::MAX,
        !(token_at(ts, (idx + literal_count(n)) as nat) is Hashtag),
        !(token_at(ts, (idx + literal_count(n)) as nat) is Power),
    ensures
        chain_result(Level::Power, ts, idx, label) == (Parsed {
            result: Ok(literal_node(ts, idx, n)),
            idx: idx + literal_count(n),
        }),
{
    lemma_factor_literal(ts, idx, label, n);
    let found = literal_node(ts, idx, n);
    let next = idx + literal_count(n);
    assert(operand_result(Level::Power, ts, idx, label) == factor_result(ts, idx, label));
    assert(rest_result(Level::Power, ts, next, label, found) == Parsed {
        result: Ok(found),
        idx: next,
    });
    assert(chain_result(Level::Power, ts, idx, label) == rest_result(
        Level::Power,
        ts,
        next,
        label,
        found,
    ));
}

/// Where a chain of `*` and `/` has read `found` up to `next` and the end of file
/// follows, that is the whole input.
proof fn lemma_parse_term(
    ts: Seq<(TokenModel, Position)>,
    label: Seq<char>,
    found: (NodeModel, Position),
    next: nat,
)
    requires
        0 < next <= ts.len(),
        chain_result(Level::Term, ts, 0, label) == (Parsed { result: Ok(found), idx: next }),
        token_at(ts, next) is EOF,
        !(found.0 is Variable) && !(found.0 is Call),
    ensures
        parse_result(ts, 0, label) == Ok::<(NodeModel, Position), ErrorModel>(found),
{
    let whole = Parsed { result: Ok(found), idx: next };
    assert(operand_result(Level::Arith, ts, 0, label) == chain_result(Level::Term, ts, 0, label));
    assert(rest_result(Level::Arith, ts, next, label, found) == whole);
    assert(chain_result(Level::Arith, ts, 0, label) == rest_result(
        Level::Arith,
        ts,
        next,
        label,
        found,
    ));
    assert(call_result(ts, 0, label) == whole);
    assert(compare_result(ts, next, label, found) == whole);
    assert(expr_result(ts, 0, label) == whole);
}

/// The tokens of one integer, then the end of file, parse to the integer.
pub proof fn lemma_parse_literal(ts: Seq<(TokenModel, Position)>, label: Seq<char>, n: int)
    requires
        holds_literal(ts, 0, n),
        i64::MIN < n <= i64::MAX,
        token_at(ts, literal_count(n)) is EOF,
    ensures
        parse_result(ts, 0, label) == Ok::<(NodeModel, Position), ErrorModel>(
            literal_node(ts, 0, n),
        ),
{
    lemma_power_literal(ts, 0, label, n);
    let found = literal_node(ts, 0, n);
    let next = literal_count(n);
    assert(operand_result(Level::Term, ts, 0, label) == chain_result(Level::Power, ts, 0, label));
    assert(rest_result(Level::Term, ts, next, label, found) == Parsed {
        result: Ok(found),
        idx: next,
    });
    assert(chain_result(Level::Term, ts, 0, label) == rest_result(
        Level::Term,
        ts,
        next,
        label,
        found,
    ));
    lemma_parse_term(ts, label, found, next);
}

/// The tokens of an integer, `/`, the tokens of another integer and the end of file
/// parse to the quotient of the two.
pub proof fn lemma_parse_quotient(
    ts: Seq<(TokenModel, Position)>,
    label: Seq<char>,
    a: int,
    b: int,
)
    requires
        i64::MIN < a <= i64::MAX,
        i64::MIN < b <= i64::MAX,
        holds_literal(ts, 0, a),
        token_at(ts, literal_count(a)) is Divide,
        holds_literal(ts, (literal_count(a) + 1) as nat, b),
        token_at(ts, (literal_count(a) + 1 + literal_count(b)) as nat) is EOF,
    ensures
        parse_result(ts, 0, label) == Ok::<(NodeModel, Position), ErrorModel>(
            joined(
                TokenModel::Divide,
                literal_node(ts, 0, a),
                literal_node(ts, (literal_count(a) + 1) as nat, b),
            ),
        ),
{
    let slash = literal_count(a);
    let second = slash + 1;
    let end = second + literal_count(b);
    lemma_power_literal(ts, 0, label, a);
    lemma_power_literal(ts, second, label, b);
    let left = literal_node(ts, 0, a);
    let right = literal_node(ts, second, b);
    let both = joined(TokenModel::Divide, left, right);
    assert(operand_result(Level::Term, ts, 0, label) == chain_result(Level::Power, ts, 0, label));
    assert(operand_result(Level::Term, ts, second, label) == chain_result(
        Level::Power,
        ts,
        second,
        label,
    ));
    assert(rest_result(Level::Term, ts, end, label, both) == Parsed {
        result: Ok(both),
        idx: end,
    });
    assert(rest_result(Level::Term, ts, slash, label, left) == rest_result(
        Level::Term,
        ts,
        end,
        label,
        both,
    ));
    assert(chain_result(Level::Term, ts, 0, label) == rest_result(
        Level::Term,
        ts,
        slash,
        label,
        left,
    ));
    lemma_parse_term(ts, label, both, end);
}

/// The tree of an integer evaluates to the integer and leaves the environment as
/// it was.
pub proof fn lemma_evaluate_literal(
    ts: Seq<(TokenModel, Position)>,
    idx: nat,
    n: int,
    pos: Position,
    label: Seq<char>,
    env: Seq<(Seq<char>, ValueModel)>,
    depth: nat,
)
    requires
        i64::MIN < n <= i64::MAX,
    ensures
        evaluation(literal_node(ts, idx, n).0, pos, label, env, depth) == (Evaluation {
            outcome: Some(Ok(ValueModel::Int(n as i64))),
            env,
        }),
{
    if n < 0 {
        let inner = NodeModel::Int((-n) as i64);
        let inner_pos = pos_at(ts, (idx + 1) as nat);
        assert(evaluation(inner, inner_pos, label, env, depth) == Evaluation {
            outcome: Some(Ok(ValueModel::Int((-n) as i64))),
            env,
        });
        assert(unary_result(TokenModel::Subtract, ValueModel::Int((-n) as i64)) == Ok::<
            ValueModel,
            (),
        >(ValueModel::Int(n as i64)));
    }
}

/// Evaluating the decimal text of an integer gives that integer, whatever the
/// environment, and leaves the environment as it was. The least integer is left
/// out: its digits alone stand for a number too large to hold.
pub proof fn law_integer_round_trip(
    n: i64,
    label: Seq<char>,
    env: Seq<(Seq<char>, ValueModel)>,
    depth: nat,
)
    requires
        n > i64::MIN,
    ensures
        run_result(signed_decimal(n as int), label, env, depth) == (Evaluation {
            outcome: Some(Ok(ValueModel::Int(n))),
            env,
        }),
{
    let text = signed_decimal(n as int);
    let width = text.len() as int;
    let none = Seq::<(TokenModel, Position)>::empty();
    let magnitude: nat = if n < 0 {
        (-n) as nat
    } else {
        n as nat
    };
    lemma_decimal_reads_back(magnitude);
    assert(text.subrange(0, width) =~= text);
    lemma_lex_literal(text, label, 0, 0, 0, none, n);
    let literal = literal_tokens(n as int, 0, 0, 0);
    let end = (TokenModel::EOF, span(width, width, 0, 0, width, width));
    let ts = (none + literal).push(end);
    assert(lex_from(text, label, width, 0, width, none + literal) == Ok::<
        Seq<(TokenModel, Position)>,
        ErrorModel,
    >(ts));
    assert(lex_result(text, label) == Ok::<Seq<(TokenModel, Position)>, ErrorModel>(ts));
    assert(holds_literal(ts, 0, n as int));
    assert(token_at(ts, literal_count(n as int)) is EOF);
    lemma_parse_literal(ts, label, n as int);
    let found = literal_node(ts, 0, n as int);
    lemma_evaluate_literal(ts, 0, n as int, found.1, label, env, depth);
}

/// Evaluating the decimal text of an integer, `/`, and the decimal text of another
/// gives a float: the quotient of the two integers as floats. This holds whatever
/// the environment, which stays as it was, and also where the divisor is zero. The
/// least integer is left out on either side.
pub proof fn law_division_gives_float(
    a: i64,
    b: i64,
    label: Seq<char>,
    env: Seq<(Seq<char>, ValueModel)>,
    depth: nat,
)
    requires
        a > i64::MIN,
        b > i64::MIN,
    ensures
        run_result(
            signed_decimal(a as int) + seq!['/'] + signed_decimal(b as int),
            label,
            env,
            depth,
        ) == (Evaluation {
            outcome: Some(
                Ok(ValueModel::Float(float_quotient(float_of_int(a), float_of_int(b)))),
            ),
            env,
        }),
{
    let first = signed_decimal(a as int);
    let second = signed_decimal(b as int);
    let text = first + seq!['/'] + second;
    let wa = first.len() as int;
    let wb = second.len() as int;
    let none = Seq::<(TokenModel, Position)>::empty();
    lemma_decimal_reads_back(
        if a < 0 {
            (-a) as nat
        } else {
            a as nat
        },
    );
    lemma_decimal_reads_back(
        if b < 0 {
            (-b) as nat
        } else {
            b as nat
        },
    );
    assert(text.len() == wa + 1 + wb);
    assert(text.subrange(0, wa) =~= first);
    assert(text[wa] == '/');
    assert(text.subrange(wa + 1, wa + 1 + wb) =~= second);
    lemma_lex_literal(text, label, 0, 0, 0, none, a);
    let left = none + literal_tokens(a as int, 0, 0, 0);
    let slash = (TokenModel::Divide, span(wa, wa + 1, 0, 0, wa, wa + 1));
    assert(scan(text, wa) == Scan { piece: Piece::Token(TokenModel::Divide), end: wa + 1 });
    assert(lex_from(text, label, wa, 0, wa, left) == lex_from(
        text,
        label,
        wa + 1,
        0,
        wa + 1,
        left.push(slash),
    ));
    lemma_lex_literal(text, label, wa + 1, 0, wa + 1, left.push(slash), b);
    let both = left.push(slash) + literal_tokens(b as int, wa + 1, 0, wa + 1);
    let stop = wa + 1 + wb;
    let end = (TokenModel::EOF, span(stop, stop, 0, 0, stop, stop));
    let ts = both.push(end);
    assert(lex_from(text, label, stop, 0, stop, both) == Ok::<
        Seq<(TokenModel, Position)>,
        ErrorModel,
    >(ts));
    assert(lex_result(text, label) == Ok::<Seq<(TokenModel, Position)>, ErrorModel>(ts));
    let ka = literal_count(a as int);
    let kb = literal_count(b as int);
    assert(holds_literal(ts, 0, a as int));
    assert(token_at(ts, ka) is Divide);
    assert(holds_literal(ts, (ka + 1) as nat, b as int));
    assert(token_at(ts, (ka + 1 + kb) as nat) is EOF);
    lemma_parse_quotient(ts, label, a as int, b as int);
    let l = literal_node(ts, 0, a as int);
    let r = literal_node(ts, (ka + 1) as nat, b as int);
    let found = joined(TokenModel::Divide, l, r);
    lemma_evaluate_literal(ts, 0, a as int, l.1, label, env, depth);
    lemma_evaluate_literal(ts, (ka + 1) as nat, b as int, r.1, label, env, depth);
    assert(binary_result(TokenModel::Divide, ValueModel::Int(a), ValueModel::Int(b)) == Ok::<
        ValueModel,
        (),
    >(ValueModel::Float(float_quotient(float_of_int(a), float_of_int(b)))));
    assert(evaluation(found.0, found.1, label, env, depth) == Evaluation {
        outcome: Some(Ok(ValueModel::Float(float_quotient(float_of_int(a), float_of_int(b))))),
        env,
    });
}

/// Where an arithmetic operator applies to the first `n` items of a vector, there
/// are `n` results and each is that of the operator on the item and what stands
/// opposite it.
pub proof fn lemma_each_result_itemwise(
    op: TokenModel,
    items: Seq<ValueModel>,
    right: ValueModel,
    n: nat,
)
    requires
        n <= items.len(),
        each_result(op, items, right, n) is Ok,
    ensures
        each_result(op, items, right, n)->Ok_0.len() == n,
        forall|i: int|
            0 <= i < n ==> binary_result(op, items[i], opposite(right, i)) == Ok::<ValueModel, ()>(
                #[trigger] each_result(op, items, right, n)->Ok_0[i],
            ),
    decreases n,
{
    if n > 0 {
        assert(each_result(op, items, right, (n - 1) as nat) is Ok);
        lemma_each_result_itemwise(op, items, right, (n - 1) as nat);
        let done = each_result(op, items, right, (n - 1) as nat)->Ok_0;
        let last = binary_result(op, items[n - 1], opposite(right, n - 1));
        assert(each_result(op, items, right, n) == Ok::<Seq<ValueModel>, ()>(
            done.push(last->Ok_0),
        ));
    } else {
        assert(each_result(op, items, right, n) == Ok::<Seq<ValueModel>, ()>(Seq::empty()));
    }
}

/// An arithmetic operator between a vector and a scalar, where it applies, gives a
/// vector of the same length: the operator on each item and the scalar.
pub proof fn law_scalar_is_broadcast(
    op: TokenModel,
    items: Seq<ValueModel>,
    right: ValueModel,
)
    requires
        is_arithmetic(op),
        is_scalar(right),
        binary_result(op, ValueModel::Vector(items), right) is Ok,
    ensures
        binary_result(op, ValueModel::Vector(items), right)->Ok_0 is Vector,
        binary_result(op, ValueModel::Vector(items), right)->Ok_0->Vector_0.len() == items.len(),
        forall|i: int|
            0 <= i < items.len() ==> binary_result(op, items[i], right) == Ok::<ValueModel, ()>(
                #[trigger] binary_result(op, ValueModel::Vector(items), right)->Ok_0->Vector_0[i],
            ),
{
    lemma_each_result_itemwise(op, items, right, items.len());
}

/// An arithmetic operator between two vectors, where it applies, gives a vector as
/// long as the shorter of the two: the operator on each pair of items. What the
/// longer vector holds beyond that is dropped.
pub proof fn law_vectors_are_zipped(
    op: TokenModel,
    items: Seq<ValueModel>,
    others: Seq<ValueModel>,
)
    requires
        is_arithmetic(op),
        binary_result(op, ValueModel::Vector(items), ValueModel::Vector(others)) is Ok,
    ensures
        binary_result(op, ValueModel::Vector(items), ValueModel::Vector(others))->Ok_0 is Vector,
        binary_result(
            op,
            ValueModel::Vector(items),
            ValueModel::Vector(others),
        )->Ok_0->Vector_0.len() == if others.len() < items.len() {
            others.len()
        } else {
            items.len()
        },
        forall|i: int|
            0 <= i < items.len() && i < others.len() ==> binary_result(op, items[i], others[i])
                == Ok::<ValueModel, ()>(
                #[trigger] binary_result(
                    op,
                    ValueModel::Vector(items),
                    ValueModel::Vector(others),
                )->Ok_0->Vector_0[i],
            ),
{
    let right = ValueModel::Vector(others);
    lemma_each_result_itemwise(op, items, right, paired(items, right));
}

/// Vectors of different lengths are unequal, whatever they hold.
pub proof fn law_lengths_decide_equality(items: Seq<ValueModel>, others: Seq<ValueModel>)
    requires
        items.len() != others.len(),
    ensures
        binary_result(TokenModel::Equal, ValueModel::Vector(items), ValueModel::Vector(others))
            == Ok::<ValueModel, ()>(ValueModel::Int(0)),
        binary_result(TokenModel::NotEqual, ValueModel::Vector(items), ValueModel::Vector(others))
            == Ok::<ValueModel, ()>(ValueModel::Int(1)),
{
}

/// Infinity divided by infinity is infinity.
pub proof fn law_infinity_over_infinity()
    ensures
        binary_result(
            TokenModel::Divide,
            ValueModel::Float(INFINITY),
            ValueModel::Float(INFINITY),
        ) == Ok::<ValueModel, ()>(ValueModel::Float(INFINITY)),
{
}

/// Indexing a vector by an integer gives the item at that index, counted from zero,
/// and fails exactly where the vector has no such item. The failure is reported
/// with the largest index the vector has.
pub proof fn law_index_bounds(
    items: Seq<ValueModel>,
    index: i64,
    pos: Position,
    label: Seq<char>,
)
    ensures
        0 <= index < items.len() ==> binary_result(
            TokenModel::Hashtag,
            ValueModel::Vector(items),
            ValueModel::Int(index),
        ) == Ok::<ValueModel, ()>(items[index as int]),
        !(0 <= index < items.len()) ==> binary_result(
            TokenModel::Hashtag,
            ValueModel::Vector(items),
            ValueModel::Int(index),
        ) is Err,
        0 < items.len() <= usize::MAX ==> operation_error(
            TokenModel::Hashtag,
            ValueModel::Vector(items),
            ValueModel::Int(index),
            pos,
            label,
        ) == ErrorModel::Index((items.len() - 1) as usize, index as usize, pos, label),
{
}

/// A name that is not bound evaluates to the error that says so, and a name that is
/// bound to its value; neither changes the environment.
pub proof fn law_variable_lookup(
    name: Seq<char>,
    pos: Position,
    label: Seq<char>,
    env: Seq<(Seq<char>, ValueModel)>,
    depth: nat,
)
    ensures
        evaluation(NodeModel::Variable(name), pos, label, env, depth).env == env,
        lookup(env, name) is None ==> evaluation(
            NodeModel::Variable(name),
            pos,
            label,
            env,
            depth,
        ).outcome == Some(Err::<ValueModel, ErrorModel>(ErrorModel::Variable(name, pos, label))),
        lookup(env, name) is Some ==> evaluation(
            NodeModel::Variable(name),
            pos,
            label,
            env,
            depth,
        ).outcome == Some(Ok::<ValueModel, ErrorModel>(lookup(env, name)->Some_0)),
{
}

/// Whatever the text, the lexer gives tokens that end with the end of file and
/// spans that run forward, or a `Syntax` error with such a span.
pub proof fn law_lexer_result_in_order(text: Seq<char>, label: Seq<char>)
    ensures
        lexed_in_order(lex_result(text, label), label),
{
    lemma_lex_from_in_order(text, label, 0, 0, 0, Seq::empty());
}

/// `after` binds every name that `before` binds, at the same place, and binds no
/// name twice if `before` does not.
pub open spec fn extends(
    before: Seq<(Seq<char>, ValueModel)>,
    after: Seq<(Seq<char>, ValueModel)>,
) -> bool {
    &&& before.len() <= after.len()
    &&& forall|k: int| 0 <= k < before.len() ==> (#[trigger] after[k]).0 == before[k].0
    &&& unique_names(before) ==> unique_names(after)
}

/// Binding extends an environment.
pub proof fn lemma_bind_extends(
    env: Seq<(Seq<char>, ValueModel)>,
    name: Seq<char>,
    value: ValueModel,
)
    ensures
        extends(env, bind(env, name, value)),
{
    lemma_bind_keeps_order(env, name, value);
    lemma_bind_keeps_unique(env, name, value);
}

/// Evaluation never unbinds a name and never moves one: the environment it leaves
/// extends the one it found. A call changes nothing but what evaluating its
/// argument and its callee change: the bindings of the body do not leak out.
pub proof fn law_evaluation_extends_environment(
    node: NodeModel,
    pos: Position,
    label: Seq<char>,
    env: Seq<(Seq<char>, ValueModel)>,
    depth: nat,
)
    ensures
        extends(env, evaluation(node, pos, label, env, depth).env),
    decreases node, 0nat,
{
    match node {
        NodeModel::Assign(target, value) => {
            match *target.0 {
                NodeModel::Call(callee, param) => {
                    if *callee.0 is Variable && *param.0 is Variable {
                        let function = ValueModel::Function((*param.0)->Variable_0, *value.0);
                        lemma_bind_extends(env, (*callee.0)->Variable_0, function);
                    }
                },
                _ => {
                    law_evaluation_extends_environment(*value.0, value.1, label, env, depth);
                    let e = evaluation(*value.0, value.1, label, env, depth);
                    if let Some(Ok(v)) = e.outcome {
                        if let NodeModel::Variable(name) = *target.0 {
                            lemma_bind_extends(e.env, name, v);
                        }
                    }
                },
            }
        },
        NodeModel::Call(callee, argument) => {
            law_evaluation_extends_environment(*argument.0, argument.1, label, env, depth);
            let a = evaluation(*argument.0, argument.1, label, env, depth);
            law_evaluation_extends_environment(*callee.0, callee.1, label, a.env, depth);
        },
        NodeModel::Vector(items) => {
            lemma_items_evaluation_extends(items, items.len(), label, env, depth);
        },
        NodeModel::Binary(op, left, right) => {
            law_evaluation_extends_environment(*left.0, left.1, label, env, depth);
            let l = evaluation(*left.0, left.1, label, env, depth);
            law_evaluation_extends_environment(*right.0, right.1, label, l.env, depth);
        },
        NodeModel::Unary(op, operand) => {
            law_evaluation_extends_environment(*operand.0, operand.1, label, env, depth);
        },
        _ => {},
    }
}

/// Evaluating the items of a vector literal extends the environment.
pub proof fn lemma_items_evaluation_extends(
    items: Seq<(NodeModel, Position)>,
    n: nat,
    label: Seq<char>,
    env: Seq<(Seq<char>, ValueModel)>,
    depth: nat,
)
    ensures
        extends(env, items_evaluation(items, n, label, env, depth).env),
    decreases items, n,
{
    if n == 0 || n > items.len() {
    } else {
        lemma_items_evaluation_extends(items, (n - 1) as nat, label, env, depth);
        let before = items_evaluation(items, (n - 1) as nat, label, env, depth);
        law_evaluation_extends_environment(
            items[n - 1].0,
            items[n - 1].1,
            label,
            before.env,
            depth,
        );
    }
}

/// Where an evaluation comes to an end within a depth, it comes to the same end
/// within every greater depth: the depth decides only whether there is an outcome,
/// never which.
pub proof fn law_depth_decides_nothing_else(
    node: NodeModel,
    pos: Position,
    label: Seq<char>,
    env: Seq<(Seq<char>, ValueModel)>,
    depth: nat,
    more: nat,
)
    requires
        depth <= more,
        evaluation(node, pos, label, env, depth).outcome is Some,
    ensures
        evaluation(node, pos, label, env, more) == evaluation(node, pos, label, env, depth),
    decreases depth, node, 0nat,
{
    match node {
        NodeModel::Assign(target, value) => {
            match *target.0 {
                NodeModel::Call(callee, param) => {},
                _ => {
                    law_depth_decides_nothing_else(*value.0, value.1, label, env, depth, more);
                },
            }
        },
        NodeModel::Call(callee, argument) => {
            let a = evaluation(*argument.0, argument.1, label, env, depth);
            law_depth_decides_nothing_else(*argument.0, argument.1, label, env, depth, more);
            if let Some(Ok(passed)) = a.outcome {
                let f = evaluation(*callee.0, callee.1, label, a.env, depth);
                law_depth_decides_nothing_else(*callee.0, callee.1, label, a.env, depth, more);
                if let Some(Ok(function)) = f.outcome {
                    if *callee.0 is Variable && function is Function {
                        let fresh = bind(
                            bind(Seq::empty(), (*callee.0)->Variable_0, function),
                            function->Function_0,
                            passed,
                        );
                        law_depth_decides_nothing_else(
                            function->Function_1,
                            callee.1,
                            label,
                            fresh,
                            (depth - 1) as nat,
                            (more - 1) as nat,
                        );
                    }
                }
            }
        },
        NodeModel::Vector(items) => {
            lemma_items_depth(items, items.len(), label, env, depth, more);
        },
        NodeModel::Binary(op, left, right) => {
            let l = evaluation(*left.0, left.1, label, env, depth);
            law_depth_decides_nothing_else(*left.0, left.1, label, env, depth, more);
            if let Some(Ok(lv)) = l.outcome {
                law_depth_decides_nothing_else(*right.0, right.1, label, l.env, depth, more);
            }
        },
        NodeModel::Unary(op, operand) => {
            law_depth_decides_nothing_else(*operand.0, operand.1, label, env, depth, more);
        },
        _ => {},
    }
}

/// The same of the items of a vector literal.
pub proof fn lemma_items_depth(
    items: Seq<(NodeModel, Position)>,
    n: nat,
    label: Seq<char>,
    env: Seq<(Seq<char>, ValueModel)>,
    depth: nat,
    more: nat,
)
    requires
        depth <= more,
        items_evaluation(items, n, label, env, depth).outcome is Some,
    ensures
        items_evaluation(items, n, label, env, more) == items_evaluation(
            items,
            n,
            label,
            env,
            depth,
        ),
    decreases depth, items, n,
{
    if n == 0 || n > items.len() {
    } else {
        let before = items_evaluation(items, (n - 1) as nat, label, env, depth);
        lemma_items_depth(items, (n - 1) as nat, label, env, depth, more);
        if let Some(Ok(values)) = before.outcome {
            law_depth_decides_nothing_else(
                items[n - 1].0,
                items[n - 1].1,
                label,
                before.env,
                depth,
                more,
            );
        }
    }
}

/// Every span kept in a tree runs forward.
pub open spec fn spans_in_order(node: NodeModel) -> bool
    decreases node,
{
    match node {
        NodeModel::Binary(_, left, right) => {
            &&& left.1.well_formed()
            &&& right.1.well_formed()
            &&& spans_in_order(*left.0)
            &&& spans_in_order(*right.0)
        },
        NodeModel::Unary(_, operand) => operand.1.well_formed() && spans_in_order(*operand.0),
        NodeModel::Vector(items) => forall|k: int|
            0 <= k < items.len() ==> (#[trigger] items[k]).1.well_formed() && spans_in_order(
                items[k].0,
            ),
        NodeModel::Assign(target, value) => {
            &&& target.1.well_formed()
            &&& value.1.well_formed()
            &&& spans_in_order(*target.0)
            &&& spans_in_order(*value.0)
        },
        NodeModel::Call(callee, argument) => {
            &&& callee.1.well_formed()
            &&& argument.1.well_formed()
            &&& spans_in_order(*callee.0)
            &&& spans_in_order(*argument.0)
        },
        _ => true,
    }
}

/// Every token has a span that runs forward.
pub open spec fn tokens_in_order(ts: Seq<(TokenModel, Position)>) -> bool {
    forall|k: int| 0 <= k < ts.len() ==> (#[trigger] ts[k]).1.well_formed()
}

/// A tree with its span, all spans running forward.
pub open spec fn found_in_order(found: (NodeModel, Position)) -> bool {
    found.1.well_formed() && spans_in_order(found.0)
}

/// What a production read, if it read anything, has spans that run forward.
pub open spec fn parsed_in_order(step: Parsed) -> bool {
    match step.result {
        Ok(found) => found_in_order(found),
        Err(_) => true,
    }
}

proof fn lemma_atom_in_order(ts: Seq<(TokenModel, Position)>, idx: nat, label: Seq<char>)
    requires
        tokens_in_order(ts),
    ensures
        parsed_in_order(atom_result(ts, idx, label)),
    decreases ts.len() - idx, 0nat,
{
    match token_at(ts, idx) {
        TokenModel::GroupIn => {
            lemma_expr_in_order(ts, idx + 1, label);
        },
        TokenModel::VectorIn => {
            lemma_vector_in_order(ts, idx + 1, label, pos_at(ts, idx), Seq::empty());
        },
        _ => {},
    }
}

proof fn lemma_vector_in_order(
    ts: Seq<(TokenModel, Position)>,
    idx: nat,
    label: Seq<char>,
    pos: Position,
    items: Seq<(NodeModel, Position)>,
)
    requires
        tokens_in_order(ts),
        pos.well_formed(),
        forall|k: int| 0 <= k < items.len() ==> found_in_order(#[trigger] items[k]),
    ensures
        parsed_in_order(vector_result(ts, idx, label, pos, items)),
    decreases ts.len() - idx, 10nat,
{
    if !(token_at(ts, idx) is VectorOut) {
        lemma_chain_in_order(Level::Arith, ts, idx, label);
        let item = chain_result(Level::Arith, ts, idx, label);
        if let Ok(found) = item.result {
            if idx < item.idx <= ts.len() {
                let more = items.push(found);
                assert forall|k: int| 0 <= k < more.len() implies found_in_order(
                    #[trigger] more[k],
                ) by {
                    if k < items.len() {
                        assert(more[k] == items[k]);
                    }
                }
                lemma_vector_in_order(ts, item.idx, label, pos.union(found.1), more);
            }
        }
    }
}

proof fn lemma_operand_in_order(
    level: Level,
    ts: Seq<(TokenModel, Position)>,
    idx: nat,
    label: Seq<char>,
)
    requires
        tokens_in_order(ts),
    ensures
        parsed_in_order(operand_result(level, ts, idx, label)),
    decreases ts.len() - idx, rank(level) - 1,
{
    match level {
        Level::Arith => lemma_chain_in_order(Level::Term, ts, idx, label),
        Level::Term => lemma_chain_in_order(Level::Power, ts, idx, label),
        Level::Power => lemma_factor_in_order(ts, idx, label),
        Level::Hash => lemma_atom_in_order(ts, idx, label),
    }
}

proof fn lemma_chain_in_order(
    level: Level,
    ts: Seq<(TokenModel, Position)>,
    idx: nat,
    label: Seq<char>,
)
    requires
        tokens_in_order(ts),
    ensures
        parsed_in_order(chain_result(level, ts, idx, label)),
    decreases ts.len() - idx, rank(level),
{
    lemma_operand_in_order(level, ts, idx, label);
    let first = operand_result(level, ts, idx, label);
    if let Ok(found) = first.result {
        if idx < first.idx <= ts.len() {
            lemma_rest_in_order(level, ts, first.idx, label, found);
        }
    }
}

proof fn lemma_rest_in_order(
    level: Level,
    ts: Seq<(TokenModel, Position)>,
    idx: nat,
    label: Seq<char>,
    left: (NodeModel, Position),
)
    requires
        tokens_in_order(ts),
        found_in_order(left),
    ensures
        parsed_in_order(rest_result(level, ts, idx, label, left)),
    decreases ts.len() - idx, 12nat,
{
    if is_operator(level, token_at(ts, idx)) {
        lemma_operand_in_order(level, ts, idx + 1, label);
        let right = operand_result(level, ts, idx + 1, label);
        if let Ok(found) = right.result {
            if idx < right.idx <= ts.len() {
                lemma_rest_in_order(
                    level,
                    ts,
                    right.idx,
                    label,
                    joined(token_at(ts, idx), left, found),
                );
            }
        }
    }
}

proof fn lemma_factor_in_order(ts: Seq<(TokenModel, Position)>, idx: nat, label: Seq<char>)
    requires
        tokens_in_order(ts),
    ensures
        parsed_in_order(factor_result(ts, idx, label)),
    decreases ts.len() - idx, 3nat,
{
    if token_at(ts, idx) is Subtract {
        lemma_factor_in_order(ts, idx + 1, label);
    } else {
        lemma_chain_in_order(Level::Hash, ts, idx, label);
    }
}

proof fn lemma_call_in_order(ts: Seq<(TokenModel, Position)>, idx: nat, label: Seq<char>)
    requires
        tokens_in_order(ts),
    ensures
        parsed_in_order(call_result(ts, idx, label)),
    decreases ts.len() - idx, 10nat,
{
    lemma_chain_in_order(Level::Arith, ts, idx, label);
    let callee = chain_result(Level::Arith, ts, idx, label);
    if let Ok(found) = callee.result {
        if starts_atom(token_at(ts, callee.idx)) && idx < callee.idx <= ts.len() {
            lemma_atom_in_order(ts, callee.idx, label);
        }
    }
}

proof fn lemma_expr_in_order(ts: Seq<(TokenModel, Position)>, idx: nat, label: Seq<char>)
    requires
        tokens_in_order(ts),
    ensures
        parsed_in_order(expr_result(ts, idx, label)),
    decreases ts.len() - idx, 11nat,
{
    lemma_call_in_order(ts, idx, label);
    let first = call_result(ts, idx, label);
    if let Ok(found) = first.result {
        if idx < first.idx <= ts.len() {
            if token_at(ts, first.idx) is Equal && assignable(found.0) {
                lemma_expr_in_order(ts, first.idx + 1, label);
            } else {
                lemma_compare_in_order(ts, first.idx, label, found);
            }
        }
    }
}

proof fn lemma_compare_in_order(
    ts: Seq<(TokenModel, Position)>,
    idx: nat,
    label: Seq<char>,
    left: (NodeModel, Position),
)
    requires
        tokens_in_order(ts),
        found_in_order(left),
    ensures
        parsed_in_order(compare_result(ts, idx, label, left)),
    decreases ts.len() - idx, 12nat,
{
    if compares(token_at(ts, idx)) {
        lemma_chain_in_order(Level::Arith, ts, idx + 1, label);
        let right = chain_result(Level::Arith, ts, idx + 1, label);
        if let Ok(found) = right.result {
            if idx < right.idx <= ts.len() {
                lemma_compare_in_order(
                    ts,
                    right.idx,
                    label,
                    joined(token_at(ts, idx), left, found),
                );
            }
        }
    }
}

/// Parsing keeps spans in order: where every token has a span that runs forward,
/// so has the tree that is parsed, and every node in it.
pub proof fn law_parser_keeps_spans_in_order(
    ts: Seq<(TokenModel, Position)>,
    idx: nat,
    label: Seq<char>,
)
    requires
        tokens_in_order(ts),
    ensures
        parse_result(ts, idx, label) is Ok ==> found_in_order(
            parse_result(ts, idx, label)->Ok_0,
        ),
{
    lemma_expr_in_order(ts, idx, label);
}

/// A production that started at `idx` and read something has moved forward, and
/// not past the tokens.
pub open spec fn moved_forward(ts: Seq<(TokenModel, Position)>, idx: nat, step: Parsed) -> bool {
    step.result is Ok ==> idx < step.idx <= ts.len()
}

/// The rest of a chain that started at `idx` has not moved back, nor past the tokens.
pub open spec fn not_moved_back(ts: Seq<(TokenModel, Position)>, idx: nat, step: Parsed) -> bool {
    step.result is Ok ==> idx <= step.idx <= ts.len()
}

proof fn lemma_atom_moves(ts: Seq<(TokenModel, Position)>, idx: nat, label: Seq<char>)
    ensures
        moved_forward(ts, idx, atom_result(ts, idx, label)),
    decreases ts.len() - idx, 0nat,
{
    match token_at(ts, idx) {
        TokenModel::GroupIn => {
            lemma_expr_moves(ts, idx + 1, label);
        },
        TokenModel::VectorIn => {
            lemma_vector_moves(ts, idx + 1, label, pos_at(ts, idx), Seq::empty());
        },
        _ => {},
    }
}

proof fn lemma_vector_moves(
    ts: Seq<(TokenModel, Position)>,
    idx: nat,
    label: Seq<char>,
    pos: Position,
    items: Seq<(NodeModel, Position)>,
)
    ensures
        moved_forward(ts, idx, vector_result(ts, idx, label, pos, items)),
    decreases ts.len() - idx, 10nat,
{
    if !(token_at(ts, idx) is VectorOut) {
        lemma_chain_moves(Level::Arith, ts, idx, label);
        let item = chain_result(Level::Arith, ts, idx, label);
        if let Ok(found) = item.result {
            lemma_vector_moves(ts, item.idx, label, pos.union(found.1), items.push(found));
        }
    }
}

proof fn lemma_operand_moves(
    level: Level,
    ts: Seq<(TokenModel, Position)>,
    idx: nat,
    label: Seq<char>,
)
    ensures
        moved_forward(ts, idx, operand_result(level, ts, idx, label)),
    decreases ts.len() - idx, rank(level) - 1,
{
    match level {
        Level::Arith => lemma_chain_moves(Level::Term, ts, idx, label),
        Level::Term => lemma_chain_moves(Level::Power, ts, idx, label),
        Level::Power => lemma_factor_moves(ts, idx, label),
        Level::Hash => lemma_atom_moves(ts, idx, label),
    }
}

proof fn lemma_chain_moves(
    level: Level,
    ts: Seq<(TokenModel, Position)>,
    idx: nat,
    label: Seq<char>,
)
    ensures
        moved_forward(ts, idx, chain_result(level, ts, idx, label)),
    decreases ts.len() - idx, rank(level),
{
    lemma_operand_moves(level, ts, idx, label);
    let first = operand_result(level, ts, idx, label);
    if let Ok(found) = first.result {
        lemma_rest_moves(level, ts, first.idx, label, found);
    }
}

proof fn lemma_rest_moves(
    level: Level,
    ts: Seq<(TokenModel, Position)>,
    idx: nat,
    label: Seq<char>,
    left: (NodeModel, Position),
)
    requires
        idx <= ts.len(),
    ensures
        not_moved_back(ts, idx, rest_result(level, ts, idx, label, left)),
    decreases ts.len() - idx, 12nat,
{
    if is_operator(level, token_at(ts, idx)) {
        lemma_operand_moves(level, ts, idx + 1, label);
        let right = operand_result(level, ts, idx + 1, label);
        if let Ok(found) = right.result {
            lemma_rest_moves(level, ts, right.idx, label, joined(token_at(ts, idx), left, found));
        }
    }
}

proof fn lemma_factor_moves(ts: Seq<(TokenModel, Position)>, idx: nat, label: Seq<char>)
    ensures
        moved_forward(ts, idx, factor_result(ts, idx, label)),
    decreases ts.len() - idx, 3nat,
{
    if token_at(ts, idx) is Subtract {
        lemma_factor_moves(ts, idx + 1, label);
    } else {
        lemma_chain_moves(Level::Hash, ts, idx, label);
    }
}

proof fn lemma_call_moves(ts: Seq<(TokenModel, Position)>, idx: nat, label: Seq<char>)
    ensures
        moved_forward(ts, idx, call_result(ts, idx, label)),
    decreases ts.len() - idx, 10nat,
{
    lemma_chain_moves(Level::Arith, ts, idx, label);
    let callee = chain_result(Level::Arith, ts, idx, label);
    if let Ok(found) = callee.result {
        if starts_atom(token_at(ts, callee.idx)) {
            lemma_atom_moves(ts, callee.idx, label);
        }
    }
}

proof fn lemma_expr_moves(ts: Seq<(TokenModel, Position)>, idx: nat, label: Seq<char>)
    ensures
        moved_forward(ts, idx, expr_result(ts, idx, label)),
    decreases ts.len() - idx, 11nat,
{
    lemma_call_moves(ts, idx, label);
    let first = call_result(ts, idx, label);
    if let Ok(found) = first.result {
        if token_at(ts, first.idx) is Equal && assignable(found.0) {
            lemma_expr_moves(ts, first.idx + 1, label);
        } else {
            lemma_compare_moves(ts, first.idx, label, found);
        }
    }
}

proof fn lemma_compare_moves(
    ts: Seq<(TokenModel, Position)>,
    idx: nat,
    label: Seq<char>,
    left: (NodeModel, Position),
)
    requires
        idx <= ts.len(),
    ensures
        not_moved_back(ts, idx, compare_result(ts, idx, label, left)),
    decreases ts.len() - idx, 12nat,
{
    if compares(token_at(ts, idx)) {
        lemma_chain_moves(Level::Arith, ts, idx + 1, label);
        let right = chain_result(Level::Arith, ts, idx + 1, label);
        if let Ok(found) = right.result {
            lemma_compare_moves(ts, right.idx, label, joined(token_at(ts, idx), left, found));
        }
    }
}

/// Every production that reads something moves forward by at least one token and
/// stays within the tokens. So the tests on the index in the definitions of the
/// productions, which serve to show that they end, never fail.
pub proof fn law_productions_move_forward(
    ts: Seq<(TokenModel, Position)>,
    idx: nat,
    label: Seq<char>,
    level: Level,
)
    ensures
        moved_forward(ts, idx, atom_result(ts, idx, label)),
        moved_forward(ts, idx, factor_result(ts, idx, label)),
        moved_forward(ts, idx, operand_result(level, ts, idx, label)),
        moved_forward(ts, idx, chain_result(level, ts, idx, label)),
        moved_forward(ts, idx, call_result(ts, idx, label)),
        moved_forward(ts, idx, expr_result(ts, idx, label)),
{
    lemma_atom_moves(ts, idx, label);
    lemma_factor_moves(ts, idx, label);
    lemma_operand_moves(level, ts, idx, label);
    lemma_chain_moves(level, ts, idx, label);
    lemma_call_moves(ts, idx, label);
    lemma_expr_moves(ts, idx, label);
}

} // verus!
