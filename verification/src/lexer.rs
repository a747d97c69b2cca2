//! Tokens, and the lexer that cuts source text into them.
use crate::error::{Error, ErrorModel};
use crate::float::{float_of_decimal, of_decimal};
use crate::position::Position;
use vstd::prelude::*;
use vstd::std_specs::iter::IteratorSpec;
use vstd::std_specs::cmp::PartialEqSpecImpl;

verus! {

/// A lexeme. `Float` holds the bits of a binary64 float.
#[derive(Debug)]
pub enum Token {
    WS,
    Error,
    NL,
    EOF,
    Int(i64),
    Float(u64),
    Equal,
    NotEqual,
    Greater,
    Less,
    GreaterEqual,
    LessEqual,
    Add,
    Subtract,
    Multiply,
    Divide,
    Power,
    Modulo,
    Hashtag,
    GroupIn,
    GroupOut,
    VectorIn,
    VectorOut,
    BraceIn,
    BraceOut,
    TypeEq,
    Infinity,
    PI,
    Variable(String),
}

/// What a [`Token`] is in contracts: the same variants, a name as its characters.
pub enum TokenModel {
    WS,
    Error,
    NL,
    EOF,
    Int(i64),
    Float(u64),
    Equal,
    NotEqual,
    Greater,
    Less,
    GreaterEqual,
    LessEqual,
    Add,
    Subtract,
    Multiply,
    Divide,
    Power,
    Modulo,
    Hashtag,
    GroupIn,
    GroupOut,
    VectorIn,
    VectorOut,
    BraceIn,
    BraceOut,
    TypeEq,
    Infinity,
    PI,
    Variable(Seq<char>),
}

impl View for Token {
    type V = TokenModel;

    open spec fn view(&self) -> TokenModel {
        match self {
            Token::WS => TokenModel::WS,
            Token::Error => TokenModel::Error,
            Token::NL => TokenModel::NL,
            Token::EOF => TokenModel::EOF,
            Token::Int(v) => TokenModel::Int(*v),
            Token::Float(bits) => TokenModel::Float(*bits),
            Token::Equal => TokenModel::Equal,
            Token::NotEqual => TokenModel::NotEqual,
            Token::Greater => TokenModel::Greater,
            Token::Less => TokenModel::Less,
            Token::GreaterEqual => TokenModel::GreaterEqual,
            Token::LessEqual => TokenModel::LessEqual,
            Token::Add => TokenModel::Add,
            Token::Subtract => TokenModel::Subtract,
            Token::Multiply => TokenModel::Multiply,
            Token::Divide => TokenModel::Divide,
            Token::Power => TokenModel::Power,
            Token::Modulo => TokenModel::Modulo,
            Token::Hashtag => TokenModel::Hashtag,
            Token::GroupIn => TokenModel::GroupIn,
            Token::GroupOut => TokenModel::GroupOut,
            Token::VectorIn => TokenModel::VectorIn,
            Token::VectorOut => TokenModel::VectorOut,
            Token::BraceIn => TokenModel::BraceIn,
            Token::BraceOut => TokenModel::BraceOut,
            Token::TypeEq => TokenModel::TypeEq,
            Token::Infinity => TokenModel::Infinity,
            Token::PI => TokenModel::PI,
            Token::Variable(name) => TokenModel::Variable(name@),
        }
    }
}

impl Clone for Token {
    fn clone(&self) -> (r: Self)
        ensures
            r@ == self@,
    {
        match self {
            Token::WS => Token::WS,
            Token::Error => Token::Error,
            Token::NL => Token::NL,
            Token::EOF => Token::EOF,
            Token::Int(v) => Token::Int(*v),
            Token::Float(bits) => Token::Float(*bits),
            Token::Equal => Token::Equal,
            Token::NotEqual => Token::NotEqual,
            Token::Greater => Token::Greater,
            Token::Less => Token::Less,
            Token::GreaterEqual => Token::GreaterEqual,
            Token::LessEqual => Token::LessEqual,
            Token::Add => Token::Add,
            Token::Subtract => Token::Subtract,
            Token::Multiply => Token::Multiply,
            Token::Divide => Token::Divide,
            Token::Power => Token::Power,
            Token::Modulo => Token::Modulo,
            Token::Hashtag => Token::Hashtag,
            Token::GroupIn => Token::GroupIn,
            Token::GroupOut => Token::GroupOut,
            Token::VectorIn => Token::VectorIn,
            Token::VectorOut => Token::VectorOut,
            Token::BraceIn => Token::BraceIn,
            Token::BraceOut => Token::BraceOut,
            Token::TypeEq => Token::TypeEq,
            Token::Infinity => Token::Infinity,
            Token::PI => Token::PI,
            Token::Variable(name) => Token::Variable(name.clone()),
        }
    }
}

/// Two tokens are equal when they are the same variant with the same payload; two
/// floats, when they have the same bits.
impl PartialEq for Token {
    fn eq(&self, other: &Token) -> (r: bool) {
        match (self, other) {
            (Token::WS, Token::WS) => true,
            (Token::Error, Token::Error) => true,
            (Token::NL, Token::NL) => true,
            (Token::EOF, Token::EOF) => true,
            (Token::Int(a), Token::Int(b)) => *a == *b,
            (Token::Float(a), Token::Float(b)) => *a == *b,
            (Token::Equal, Token::Equal) => true,
            (Token::NotEqual, Token::NotEqual) => true,
            (Token::Greater, Token::Greater) => true,
            (Token::Less, Token::Less) => true,
            (Token::GreaterEqual, Token::GreaterEqual) => true,
            (Token::LessEqual, Token::LessEqual) => true,
            (Token::Add, Token::Add) => true,
            (Token::Subtract, Token::Subtract) => true,
            (Token::Multiply, Token::Multiply) => true,
            (Token::Divide, Token::Divide) => true,
            (Token::Power, Token::Power) => true,
            (Token::Modulo, Token::Modulo) => true,
            (Token::Hashtag, Token::Hashtag) => true,
            (Token::GroupIn, Token::GroupIn) => true,
            (Token::GroupOut, Token::GroupOut) => true,
            (Token::VectorIn, Token::VectorIn) => true,
            (Token::VectorOut, Token::VectorOut) => true,
            (Token::BraceIn, Token::BraceIn) => true,
            (Token::BraceOut, Token::BraceOut) => true,
            (Token::TypeEq, Token::TypeEq) => true,
            (Token::Infinity, Token::Infinity) => true,
            (Token::PI, Token::PI) => true,
            (Token::Variable(a), Token::Variable(b)) => *a == *b,
            _ => false,
        }
    }
}

impl PartialEqSpecImpl for Token {
    open spec fn obeys_eq_spec() -> bool {
        true
    }

    open spec fn eq_spec(&self, other: &Token) -> bool {
        self@ == other@
    }
}

/// The name by which messages call a token.
pub open spec fn token_name(token: TokenModel) -> Seq<char> {
    match token {
        TokenModel::WS => "white space"@,
        TokenModel::Error => "error"@,
        TokenModel::NL => "end of line"@,
        TokenModel::EOF => "end of file"@,
        TokenModel::Int(_) => "int"@,
        TokenModel::Float(_) => "float"@,
        TokenModel::Infinity => "infinity"@,
        TokenModel::PI => "pi"@,
        TokenModel::Variable(_) => "variable"@,
        TokenModel::Equal => "'='"@,
        TokenModel::NotEqual => "'!='"@,
        TokenModel::Greater => "'>'"@,
        TokenModel::Less => "'<'"@,
        TokenModel::GreaterEqual => "'>='"@,
        TokenModel::LessEqual => "'<='"@,
        TokenModel::Add => "'+'"@,
        TokenModel::Subtract => "'-'"@,
        TokenModel::Multiply => "'*'"@,
        TokenModel::Divide => "'/'"@,
        TokenModel::Power => "'^'"@,
        TokenModel::Modulo => "'%'"@,
        TokenModel::Hashtag => "'#'"@,
        TokenModel::GroupIn => "'('"@,
        TokenModel::GroupOut => "')'"@,
        TokenModel::VectorIn => "'['"@,
        TokenModel::VectorOut => "']'"@,
        TokenModel::BraceIn => "'{'"@,
        TokenModel::BraceOut => "'}'"@,
        TokenModel::TypeEq => "'is'"@,
    }
}

impl Token {
    /// The name by which messages call the token.
    pub fn name(&self) -> (r: &'static str)
        ensures
            r@ == token_name(self@),
    {
        match self {
            Self::WS => "white space",
            Self::Error => "error",
            Self::NL => "end of line",
            Self::EOF => "end of file",
            Self::Int(_) => "int",
            Self::Float(_) => "float",
            Self::Infinity => "infinity",
            Self::PI => "pi",
            Self::Variable(_) => "variable",
            Self::Equal => "'='",
            Self::NotEqual => "'!='",
            Self::Greater => "'>'",
            Self::Less => "'<'",
            Self::GreaterEqual => "'>='",
            Self::LessEqual => "'<='",
            Self::Add => "'+'",
            Self::Subtract => "'-'",
            Self::Multiply => "'*'",
            Self::Divide => "'/'",
            Self::Power => "'^'",
            Self::Modulo => "'%'",
            Self::Hashtag => "'#'",
            Self::GroupIn => "'('",
            Self::GroupOut => "')'",
            Self::VectorIn => "'['",
            Self::VectorOut => "']'",
            Self::BraceIn => "'{'",
            Self::BraceOut => "'}'",
            Self::TypeEq => "'is'",
        }
    }
}

/// The kinds of character that come in runs.
#[derive(Clone, Copy, Debug, PartialEq, Eq, Structural)]
pub enum Class {
    /// Space, tab, carriage return, form feed.
    Space,
    /// Line feed.
    Newline,
    /// `0` to `9`.
    Digit,
    /// Letters, digits and the underscore.
    Word,
}

pub open spec fn is_digit(c: char) -> bool {
    '0' <= c <= '9'
}

pub open spec fn is_letter(c: char) -> bool {
    'a' <= c <= 'z' || 'A' <= c <= 'Z'
}

pub open spec fn in_class(class: Class, c: char) -> bool {
    match class {
        Class::Space => c == ' ' || c == '\t' || c == '\r' || c == '\x0c',
        Class::Newline => c == '\n',
        Class::Digit => is_digit(c),
        Class::Word => is_letter(c) || is_digit(c) || c == '_',
    }
}

/// The first index at or after `from` whose character is not of `class`, or the
/// length of `text`.
pub open spec fn run_end(text: Seq<char>, class: Class, from: int) -> int
    decreases text.len() - from,
{
    if 0 <= from < text.len() && in_class(class, text[from]) {
        run_end(text, class, from + 1)
    } else {
        from
    }
}

/// The number that a digit stands for.
pub open spec fn digit_value(c: char) -> int {
    c as int - '0' as int
}

/// The number that a run of digits stands for in base ten.
pub open spec fn decimal_value(digits: Seq<char>) -> int
    decreases digits.len(),
{
    if digits.len() == 0 {
        0
    } else {
        10 * decimal_value(digits.drop_last()) + digit_value(digits.last())
    }
}

/// The token for a word: a keyword, or a name.
pub open spec fn word_token(word: Seq<char>) -> TokenModel {
    if word == seq!['p', 'i'] {
        TokenModel::PI
    } else if word == seq!['i', 'n', 'f'] || word == seq!['i', 'n', 'f', 'i', 'n', 'i', 't', 'y'] {
        TokenModel::Infinity
    } else if word == seq!['i', 's'] {
        TokenModel::TypeEq
    } else {
        TokenModel::Variable(word)
    }
}

/// The token for a symbol of one character.
pub open spec fn symbol(c: char) -> Option<TokenModel> {
    if c == '=' {
        Some(TokenModel::Equal)
    } else if c == '>' {
        Some(TokenModel::Greater)
    } else if c == '<' {
        Some(TokenModel::Less)
    } else if c == '+' {
        Some(TokenModel::Add)
    } else if c == '-' {
        Some(TokenModel::Subtract)
    } else if c == '*' {
        Some(TokenModel::Multiply)
    } else if c == '/' {
        Some(TokenModel::Divide)
    } else if c == '^' {
        Some(TokenModel::Power)
    } else if c == '%' {
        Some(TokenModel::Modulo)
    } else if c == '#' {
        Some(TokenModel::Hashtag)
    } else if c == '(' {
        Some(TokenModel::GroupIn)
    } else if c == ')' {
        Some(TokenModel::GroupOut)
    } else if c == '[' {
        Some(TokenModel::VectorIn)
    } else if c == ']' {
        Some(TokenModel::VectorOut)
    } else if c == '{' {
        Some(TokenModel::BraceIn)
    } else if c == '}' {
        Some(TokenModel::BraceOut)
    } else {
        None
    }
}

/// The token for a symbol of two characters.
pub open spec fn double_symbol(c: char, d: char) -> Option<TokenModel> {
    if d != '=' {
        None
    } else if c == '!' {
        Some(TokenModel::NotEqual)
    } else if c == '<' {
        Some(TokenModel::LessEqual)
    } else if c == '>' {
        Some(TokenModel::GreaterEqual)
    } else {
        None
    }
}

/// How many bytes a character takes in UTF-8.
pub open spec fn utf8_width(c: char) -> int {
    if (c as u32) < 0x80 {
        1
    } else if (c as u32) < 0x800 {
        2
    } else if (c as u32) < 0x10000 {
        3
    } else {
        4
    }
}

/// What a stretch of text is to the lexer.
pub enum Piece {
    /// White space: skipped.
    Blank,
    /// A lexeme.
    Token(TokenModel),
    /// A character that starts no lexeme, or a numeral too large to hold.
    Bad,
}

/// A piece of text and the index after its last character.
pub struct Scan {
    pub piece: Piece,
    pub end: int,
}

/// The piece that starts at index `i` of `text`, the longest there is. A numeral
/// with a point and digits after it is a float, any other run of digits an integer.
pub open spec fn scan(text: Seq<char>, i: int) -> Scan
    recommends
        0 <= i < text.len(),
{
    let c = text[i];
    if in_class(Class::Space, c) {
        Scan { piece: Piece::Blank, end: run_end(text, Class::Space, i) }
    } else if c == '\n' {
        Scan { piece: Piece::Token(TokenModel::NL), end: run_end(text, Class::Newline, i) }
    } else if is_digit(c) {
        let whole = run_end(text, Class::Digit, i);
        if whole + 1 < text.len() && text[whole] == '.' && is_digit(text[whole + 1]) {
            let end = run_end(text, Class::Digit, whole + 1);
            match float_of_decimal(text.subrange(i, end)) {
                Some(bits) => Scan { piece: Piece::Token(TokenModel::Float(bits)), end },
                None => Scan { piece: Piece::Bad, end },
            }
        } else {
            let value = decimal_value(text.subrange(i, whole));
            if value <= i64::MAX {
                Scan { piece: Piece::Token(TokenModel::Int(value as i64)), end: whole }
            } else {
                Scan { piece: Piece::Bad, end: whole }
            }
        }
    } else if is_letter(c) {
        let end = run_end(text, Class::Word, i);
        Scan { piece: Piece::Token(word_token(text.subrange(i, end))), end }
    } else if i + 1 < text.len() && double_symbol(c, text[i + 1]) is Some {
        Scan { piece: Piece::Token(double_symbol(c, text[i + 1])->Some_0), end: i + 2 }
    } else if symbol(c) is Some {
        Scan { piece: Piece::Token(symbol(c)->Some_0), end: i + 1 }
    } else {
        Scan { piece: Piece::Bad, end: i + 1 }
    }
}

/// A number as an offset, held at the largest offset where it would not fit.
pub open spec fn clip(n: int) -> usize {
    if n > usize::MAX {
        usize::MAX
    } else if n < 0 {
        0
    } else {
        n as usize
    }
}

/// The span with these six numbers.
pub open spec fn span(
    start: int,
    end: int,
    line_start: int,
    line_end: int,
    column_start: int,
    column_end: int,
) -> Position {
    Position {
        start: clip(start),
        end: clip(end),
        line_start: clip(line_start),
        line_end: clip(line_end),
        column_start: clip(column_start),
        column_end: clip(column_end),
    }
}

/// The text of the error for a piece that cannot be read.
pub open spec fn bad_text(lexeme: Seq<char>) -> Seq<char> {
    "bad character '"@ + lexeme + "'"@
}

/// The tokens of `text` from index `i` on, after the tokens `done`, with `line` and
/// `column` counted up to `i`. Offsets are byte offsets: up to a bad character every
/// character takes one byte, so they are indices as well, and only the end of the span
/// of a bad character lies further on, by the width of the character.
pub open spec fn lex_from(
    text: Seq<char>,
    label: Seq<char>,
    i: int,
    line: int,
    column: int,
    done: Seq<(TokenModel, Position)>,
) -> Result<Seq<(TokenModel, Position)>, ErrorModel>
    decreases text.len() - i,
{
    if i < 0 || i >= text.len() {
        Ok(done.push((TokenModel::EOF, span(i, i, line, line, column, column))))
    } else {
        proof {
            lemma_scan_advances(text, i);
        }
        let found = scan(text, i);
        let width = found.end - i;
        match found.piece {
            Piece::Blank => lex_from(text, label, found.end, line, column + width, done),
            Piece::Token(TokenModel::NL) => lex_from(
                text,
                label,
                found.end,
                line + width,
                0,
                done.push((TokenModel::NL, span(i, found.end, line, line + width, column, 0))),
            ),
            Piece::Token(token) => lex_from(
                text,
                label,
                found.end,
                line,
                column + width,
                done.push((token, span(i, found.end, line, line, column, column + width))),
            ),
            Piece::Bad => Err(
                ErrorModel::Syntax(
                    bad_text(text.subrange(i, found.end)),
                    span(
                        i,
                        found.end - 1 + utf8_width(text[i]),
                        line,
                        line + 1,
                        column,
                        column + 1,
                    ),
                    label,
                ),
            ),
        }
    }
}

/// The tokens of `text`, ending with the end of file, or the error for the first
/// piece that cannot be read.
pub open spec fn lex_result(text: Seq<char>, label: Seq<char>) -> Result<
    Seq<(TokenModel, Position)>,
    ErrorModel,
> {
    lex_from(text, label, 0, 0, 0, Seq::empty())
}

/// What a sequence of tokens is in contracts.
pub open spec fn tokens_model(tokens: Vec<(Token, Position)>) -> Seq<(TokenModel, Position)> {
    Seq::new(tokens.len() as nat, |i: int| (tokens[i].0@, tokens[i].1))
}

/// What a result of the lexer is in contracts.
pub open spec fn lex_model(r: Result<Vec<(Token, Position)>, Error>) -> Result<
    Seq<(TokenModel, Position)>,
    ErrorModel,
> {
    match r {
        Ok(tokens) => Ok(tokens_model(tokens)),
        Err(error) => Err(error@),
    }
}

/// A run ends within the text, holds only characters of its class, and stops at one
/// that is not.
pub proof fn lemma_run_end(text: Seq<char>, class: Class, from: int)
    requires
        0 <= from <= text.len(),
    ensures
        from <= run_end(text, class, from) <= text.len(),
        forall|k: int|
            from <= k < run_end(text, class, from) ==> in_class(class, #[trigger] text[k]),
        run_end(text, class, from) < text.len() ==> !in_class(
            class,
            text[run_end(text, class, from)],
        ),
    decreases text.len() - from,
{
    if from < text.len() && in_class(class, text[from]) {
        lemma_run_end(text, class, from + 1);
    }
}

/// One more digit: ten times the number so far, plus the digit.
pub proof fn lemma_decimal_step(text: Seq<char>, i: int, j: int)
    requires
        0 <= i <= j < text.len(),
    ensures
        decimal_value(text.subrange(i, j + 1)) == 10 * decimal_value(text.subrange(i, j))
            + digit_value(text[j]),
{
    let longer = text.subrange(i, j + 1);
    assert(longer.drop_last() =~= text.subrange(i, j));
    assert(longer.last() == text[j]);
}

/// More digits never make the number smaller.
pub proof fn lemma_decimal_grows(text: Seq<char>, i: int, j: int, k: int)
    requires
        0 <= i <= j <= k <= text.len(),
        forall|m: int| i <= m < k ==> is_digit(#[trigger] text[m]),
    ensures
        0 <= decimal_value(text.subrange(i, j)) <= decimal_value(text.subrange(i, k)),
    decreases k - j,
{
    if j < k {
        lemma_decimal_grows(text, i, j, k - 1);
        lemma_decimal_step(text, i, k - 1);
    } else {
        lemma_decimal_nonnegative(text, i, j);
    }
}

/// A run of digits stands for a number that is not negative.
pub proof fn lemma_decimal_nonnegative(text: Seq<char>, i: int, j: int)
    requires
        0 <= i <= j <= text.len(),
        forall|m: int| i <= m < j ==> is_digit(#[trigger] text[m]),
    ensures
        0 <= decimal_value(text.subrange(i, j)),
    decreases j - i,
{
    if i < j {
        lemma_decimal_nonnegative(text, i, j - 1);
        lemma_decimal_step(text, i, j - 1);
    } else {
        assert(text.subrange(i, j).len() == 0);
    }
}

/// The piece at an index of the text is not empty and ends within the text.
pub proof fn lemma_scan_advances(text: Seq<char>, i: int)
    requires
        0 <= i < text.len(),
    ensures
        i < scan(text, i).end <= text.len(),
{
    let c = text[i];
    lemma_run_end(text, Class::Space, i + 1);
    lemma_run_end(text, Class::Newline, i + 1);
    lemma_run_end(text, Class::Digit, i + 1);
    lemma_run_end(text, Class::Word, i + 1);
    if is_digit(c) {
        let whole = run_end(text, Class::Digit, i);
        if whole + 1 < text.len() {
            lemma_run_end(text, Class::Digit, whole + 1);
        }
    }
}

/// Whether a result of the lexer is in order: the tokens end with the end of file
/// and every span runs forward; an error is a `Syntax` error for the source `label`
/// with a span that runs forward.
pub open spec fn lexed_in_order(
    r: Result<Seq<(TokenModel, Position)>, ErrorModel>,
    label: Seq<char>,
) -> bool {
    match r {
        Ok(tokens) => {
            &&& tokens.len() >= 1
            &&& tokens.last().0 is EOF
            &&& forall|k: int| 0 <= k < tokens.len() ==> (#[trigger] tokens[k]).1.well_formed()
        },
        Err(error) => {
            &&& error is Syntax
            &&& error->Syntax_1.well_formed()
            &&& error->Syntax_2 == label
        },
    }
}

/// Lexing on from an index, after tokens whose spans run forward, gives a result in
/// order.
pub proof fn lemma_lex_from_in_order(
    text: Seq<char>,
    label: Seq<char>,
    i: int,
    line: int,
    column: int,
    done: Seq<(TokenModel, Position)>,
)
    requires
        0 <= i,
        0 <= line,
        0 <= column,
        forall|k: int| 0 <= k < done.len() ==> (#[trigger] done[k]).1.well_formed(),
    ensures
        lexed_in_order(lex_from(text, label, i, line, column, done), label),
    decreases text.len() - i,
{
    if i < text.len() {
        lemma_scan_advances(text, i);
        let found = scan(text, i);
        let width = found.end - i;
        match found.piece {
            Piece::Blank => {
                lemma_lex_from_in_order(text, label, found.end, line, column + width, done);
            },
            Piece::Token(TokenModel::NL) => {
                lemma_lex_from_in_order(
                    text,
                    label,
                    found.end,
                    line + width,
                    0,
                    done.push((TokenModel::NL, span(i, found.end, line, line + width, column, 0))),
                );
            },
            Piece::Token(token) => {
                lemma_lex_from_in_order(
                    text,
                    label,
                    found.end,
                    line,
                    column + width,
                    done.push((token, span(i, found.end, line, line, column, column + width))),
                );
            },
            Piece::Bad => {},
        }
    }
}

fn characters(text: &str) -> (chars: Vec<char>)
    ensures
        chars@ == text@,
{
    let mut chars: Vec<char> = Vec::new();
    let mut rest = text.chars();
    let ghost total = text@;
    loop
        invariant
            rest.obeys_prophetic_iter_laws(),
            chars@ + rest.remaining() == total,
            rest.decrease() is Some,
        ensures
            chars@ =~= total,
        decreases rest.decrease()->0,
    {
        match rest.next() {
            Some(c) => {
                chars.push(c);
            },
            None => {
                break ;
            },
        }
    }
    chars
}

fn digit(c: char) -> (r: bool)
    ensures
        r == is_digit(c),
{
    '0' <= c && c <= '9'
}

fn letter(c: char) -> (r: bool)
    ensures
        r == is_letter(c),
{
    ('a' <= c && c <= 'z') || ('A' <= c && c <= 'Z')
}

fn of_class(class: Class, c: char) -> (r: bool)
    ensures
        r == in_class(class, c),
{
    match class {
        Class::Space => c == ' ' || c == '\t' || c == '\r' || c == '\x0c',
        Class::Newline => c == '\n',
        Class::Digit => digit(c),
        Class::Word => letter(c) || digit(c) || c == '_',
    }
}

fn run(chars: &Vec<char>, class: Class, from: usize) -> (end: usize)
    requires
        from <= chars.len(),
    ensures
        end == run_end(chars@, class, from as int),
        from <= end <= chars.len(),
{
    let mut j = from;
    while j < chars.len() && of_class(class, chars[j])
        invariant
            from <= j <= chars.len(),
            run_end(chars@, class, from as int) == run_end(chars@, class, j as int),
        decreases chars.len() - j,
    {
        j += 1;
    }
    j
}

/// The value of the digits from `from` up to `to`, or `None` where it is too large.
fn numeral(chars: &Vec<char>, from: usize, to: usize) -> (r: Option<i64>)
    requires
        from <= to <= chars.len(),
        forall|m: int| from <= m < to ==> is_digit(#[trigger] chars[m]),
    ensures
        match r {
            Some(value) => decimal_value(chars@.subrange(from as int, to as int)) == value,
            None => decimal_value(chars@.subrange(from as int, to as int)) > i64::MAX,
        },
{
    let mut value: i64 = 0;
    let mut j = from;
    proof {
        assert(chars@.subrange(from as int, from as int).len() == 0);
    }
    while j < to
        invariant
            from <= j <= to <= chars.len(),
            forall|m: int| from <= m < to ==> is_digit(#[trigger] chars[m]),
            0 <= value,
            value == decimal_value(chars@.subrange(from as int, j as int)),
        decreases to - j,
    {
        let d: i64 = (chars[j] as u32 - '0' as u32) as i64;
        proof {
            lemma_decimal_step(chars@, from as int, j as int);
            lemma_decimal_grows(chars@, from as int, j + 1, to as int);
            assert(d == digit_value(chars[j as int]));
        }
        if value > (i64::MAX - d) / 10 {
            assert(10 * value + d > i64::MAX);
            return None;
        }
        value = 10 * value + d;
        j += 1;
    }
    Some(value)
}

fn symbol_token(c: char) -> (r: Option<Token>)
    ensures
        match r {
            Some(token) => symbol(c) == Some(token@),
            None => symbol(c) is None,
        },
{
    if c == '=' {
        Some(Token::Equal)
    } else if c == '>' {
        Some(Token::Greater)
    } else if c == '<' {
        Some(Token::Less)
    } else if c == '+' {
        Some(Token::Add)
    } else if c == '-' {
        Some(Token::Subtract)
    } else if c == '*' {
        Some(Token::Multiply)
    } else if c == '/' {
        Some(Token::Divide)
    } else if c == '^' {
        Some(Token::Power)
    } else if c == '%' {
        Some(Token::Modulo)
    } else if c == '#' {
        Some(Token::Hashtag)
    } else if c == '(' {
        Some(Token::GroupIn)
    } else if c == ')' {
        Some(Token::GroupOut)
    } else if c == '[' {
        Some(Token::VectorIn)
    } else if c == ']' {
        Some(Token::VectorOut)
    } else if c == '{' {
        Some(Token::BraceIn)
    } else if c == '}' {
        Some(Token::BraceOut)
    } else {
        None
    }
}

fn double_symbol_token(c: char, d: char) -> (r: Option<Token>)
    ensures
        match r {
            Some(token) => double_symbol(c, d) == Some(token@),
            None => double_symbol(c, d) is None,
        },
{
    if d != '=' {
        None
    } else if c == '!' {
        Some(Token::NotEqual)
    } else if c == '<' {
        Some(Token::LessEqual)
    } else if c == '>' {
        Some(Token::GreaterEqual)
    } else {
        None
    }
}

fn width(c: char) -> (r: usize)
    ensures
        r == utf8_width(c),
{
    let code = c as u32;
    if code < 0x80 {
        1
    } else if code < 0x800 {
        2
    } else if code < 0x10000 {
        3
    } else {
        4
    }
}

/// The token for the word from `from` up to `to`.
fn word(text: &str, chars: &Vec<char>, from: usize, to: usize) -> (r: Token)
    requires
        chars@ == text@,
        from <= to <= chars.len(),
    ensures
        r@ == word_token(chars@.subrange(from as int, to as int)),
{
    let ghost w = chars@.subrange(from as int, to as int);
    let n = to - from;
    if n == 2 && chars[from] == 'p' && chars[from + 1] == 'i' {
        assert(w =~= seq!['p', 'i']);
        return Token::PI;
    }
    if n == 2 && chars[from] == 'i' && chars[from + 1] == 's' {
        assert(w =~= seq!['i', 's']);
        return Token::TypeEq;
    }
    if n == 3 && chars[from] == 'i' && chars[from + 1] == 'n' && chars[from + 2] == 'f' {
        assert(w =~= seq!['i', 'n', 'f']);
        return Token::Infinity;
    }
    if n == 8 && chars[from] == 'i' && chars[from + 1] == 'n' && chars[from + 2] == 'f'
        && chars[from + 3] == 'i' && chars[from + 4] == 'n' && chars[from + 5] == 'i'
        && chars[from + 6] == 't' && chars[from + 7] == 'y' {
        assert(w =~= seq!['i', 'n', 'f', 'i', 'n', 'i', 't', 'y']);
        return Token::Infinity;
    }
    proof {
        let pi = seq!['p', 'i'];
        let is = seq!['i', 's'];
        let inf = seq!['i', 'n', 'f'];
        let infinity = seq!['i', 'n', 'f', 'i', 'n', 'i', 't', 'y'];
        if w == pi {
            assert(w.len() == 2 && w[0] == pi[0] && w[1] == pi[1]);
        }
        if w == is {
            assert(w.len() == 2 && w[0] == is[0] && w[1] == is[1]);
        }
        if w == inf {
            assert(w.len() == 3 && w[0] == inf[0] && w[1] == inf[1] && w[2] == inf[2]);
        }
        if w == infinity {
            assert(w.len() == 8 && w[0] == infinity[0] && w[1] == infinity[1] && w[2]
                == infinity[2] && w[3] == infinity[3] && w[4] == infinity[4] && w[5]
                == infinity[5] && w[6] == infinity[6] && w[7] == infinity[7]);
        }
    }
    Token::Variable(String::from_str(text.substring_char(from, to)))
}

/// The token for a numeral with a point, given what the float unit read from it:
/// the float, or `None` where it read no number.
pub fn float_lexeme(parsed: Option<u64>) -> (r: Option<Token>)
    ensures
        match parsed {
            Some(bits) => r is Some && r->Some_0@ == TokenModel::Float(bits),
            None => r is None,
        },
{
    match parsed {
        Some(bits) => Some(Token::Float(bits)),
        None => None,
    }
}

/// What the lexer found at a place.
enum Found {
    Blank,
    Token(Token),
    Bad,
}

impl View for Found {
    type V = Piece;

    closed spec fn view(&self) -> Piece {
        match self {
            Found::Blank => Piece::Blank,
            Found::Token(token) => Piece::Token(token@),
            Found::Bad => Piece::Bad,
        }
    }
}

/// Reads the piece that starts at index `i`.
fn scan_piece(text: &str, chars: &Vec<char>, i: usize) -> (r: (Found, usize))
    requires
        chars@ == text@,
        i < chars.len(),
    ensures
        r.0@ == scan(text@, i as int).piece,
        r.1 == scan(text@, i as int).end,
        i < r.1 <= chars.len(),
{
    let c = chars[i];
    let n = chars.len();
    if of_class(Class::Space, c) {
        proof {
            lemma_run_end(chars@, Class::Space, i + 1);
        }
        (Found::Blank, run(chars, Class::Space, i))
    } else if c == '\n' {
        proof {
            lemma_run_end(chars@, Class::Newline, i + 1);
        }
        (Found::Token(Token::NL), run(chars, Class::Newline, i))
    } else if digit(c) {
        let whole = run(chars, Class::Digit, i);
        proof {
            lemma_run_end(chars@, Class::Digit, i as int);
            lemma_run_end(chars@, Class::Digit, i + 1);
        }
        if whole < n - 1 && chars[whole] == '.' && digit(chars[whole + 1]) {
            let end = run(chars, Class::Digit, whole + 1);
            proof {
                lemma_run_end(chars@, Class::Digit, whole + 2);
            }
            match float_lexeme(of_decimal(text.substring_char(i, end))) {
                Some(token) => (Found::Token(token), end),
                None => (Found::Bad, end),
            }
        } else {
            match numeral(chars, i, whole) {
                Some(value) => (Found::Token(Token::Int(value)), whole),
                None => (Found::Bad, whole),
            }
        }
    } else if letter(c) {
        let end = run(chars, Class::Word, i);
        proof {
            lemma_run_end(chars@, Class::Word, i + 1);
        }
        (Found::Token(word(text, chars, i, end)), end)
    } else {
        if i < n - 1 {
            match double_symbol_token(c, chars[i + 1]) {
                Some(token) => { return (Found::Token(token), i + 2); },
                None => {},
            }
        }
        match symbol_token(c) {
            Some(token) => (Found::Token(token), i + 1),
            None => (Found::Bad, i + 1),
        }
    }
}

fn clipped_sum(a: usize, b: usize) -> (r: usize)
    ensures
        r == clip(a + b),
{
    if b > usize::MAX - a {
        usize::MAX
    } else {
        a + b
    }
}

/// Cuts `text` into tokens, each with its span, and ends them with the end of file.
/// White space is skipped; a run of line feeds is one token. The first character that
/// starts no lexeme, or the first numeral too large to hold, ends the lexing with a
/// `Syntax` error. `file_path` labels the source in that error.
pub fn lex(text: &str, file_path: &str) -> (r: Result<Vec<(Token, Position)>, Error>)
    ensures
        lex_model(r) == lex_result(text@, file_path@),
        lexed_in_order(lex_model(r), file_path@),
{
    proof {
        lemma_lex_from_in_order(text@, file_path@, 0, 0, 0, Seq::empty());
    }
    let chars = characters(text);
    let n = chars.len();
    let mut tokens: Vec<(Token, Position)> = Vec::new();
    let mut line: usize = 0;
    let mut column: usize = 0;
    let mut i: usize = 0;
    assert(tokens_model(tokens) =~= Seq::empty());
    while i < n
        invariant
            chars@ == text@,
            n == chars.len(),
            i <= n,
            line <= i,
            column <= i,
            lex_from(text@, file_path@, i as int, line as int, column as int, tokens_model(tokens))
                == lex_result(text@, file_path@),
        decreases n - i,
    {
        let ghost done = tokens_model(tokens);
        let (found, end) = scan_piece(text, &chars, i);
        let length = end - i;
        match found {
            Found::Blank => {
                column += length;
            },
            Found::Token(token) => {
                let newline = match &token {
                    Token::NL => true,
                    _ => false,
                };
                if newline {
                    let pos = Position::new(i, end, line, line + length, column, 0);
                    assert(pos == span(
                        i as int,
                        end as int,
                        line as int,
                        line + length,
                        column as int,
                        0,
                    ));
                    tokens.push((token, pos));
                    assert(tokens_model(tokens) =~= done.push((TokenModel::NL, pos)));
                    line += length;
                    column = 0;
                } else {
                    let pos = Position::new(i, end, line, line, column, column + length);
                    assert(pos == span(
                        i as int,
                        end as int,
                        line as int,
                        line as int,
                        column as int,
                        column + length,
                    ));
                    let ghost model = token@;
                    tokens.push((token, pos));
                    assert(tokens_model(tokens) =~= done.push((model, pos)));
                    column += length;
                }
            },
            Found::Bad => {
                let mut detail = String::from_str("bad character '");
                detail.append(text.substring_char(i, end));
                detail.append("'");
                let pos = Position::new(
                    i,
                    clipped_sum(end - 1, width(chars[i])),
                    line,
                    line + 1,
                    column,
                    column + 1,
                );
                assert(pos == span(
                    i as int,
                    end - 1 + utf8_width(text@[i as int]),
                    line as int,
                    line + 1,
                    column as int,
                    column + 1,
                ));
                return Err(Error::Syntax(detail, pos, String::from_str(file_path)));
            },
        }
        i = end;
    }
    let pos = Position::new(i, i, line, line, column, column);
    let ghost done = tokens_model(tokens);
    tokens.push((Token::EOF, pos));
    assert(tokens_model(tokens) =~= done.push((TokenModel::EOF, pos)));
    Ok(tokens)
}

} // verus!
