//! Token kinds, source positions, and the token value type produced by the
//! lexer, together with their mathematical model.

use vstd::prelude::*;

verus! {

/// The closed set of lexical categories the lexer can emit.
#[derive(Copy, Clone, Debug, PartialEq, Eq, Structural)]
pub enum TokenType {
    Addition,
    Subtraction,
    Division,
    Multiplication,
    Number,
    LeftParen,
    RightParen,
}

/// Where a token's text stands in the input: the line it was found on and the
/// column range it spans (`start` inclusive, `end` exclusive), all counted in
/// characters from zero.
#[derive(Copy, Clone, Debug, PartialEq, Eq, Structural)]
pub struct Position {
    pub line: usize,
    pub start: usize,
    pub end: usize,
}

/// One classified unit of source text: its category, the exact substring
/// matched, and where that substring stood.
#[derive(Debug)]
pub struct Token {
    pub token_type: TokenType,
    pub value: String,
    pub position: Position,
}

/// The mathematical image of a [`Token`]: the same data over `Seq<char>` and
/// unbounded integers.
pub ghost struct TokenModel {
    pub kind: TokenType,
    pub text: Seq<char>,
    pub line: int,
    pub start: int,
    pub end: int,
}

impl View for Token {
    type V = TokenModel;

    open spec fn view(&self) -> TokenModel {
        TokenModel {
            kind: self.token_type,
            text: self.value@,
            line: self.position.line as int,
            start: self.position.start as int,
            end: self.position.end as int,
        }
    }
}

impl DeepView for Token {
    type V = TokenModel;

    open spec fn deep_view(&self) -> TokenModel {
        self.view()
    }
}

impl Clone for Token {
    fn clone(&self) -> (r: Self)
        ensures
            r@ == self@,
    {
        Token {
            token_type: self.token_type,
            value: self.value.clone(),
            position: self.position,
        }
    }
}

/// The characters consumed silently between tokens: space, carriage return,
/// and horizontal tab. Newlines are consumed silently too, but are kept apart
/// because they advance the line counter.
pub open spec fn is_blank_char(c: char) -> bool {
    c == ' ' || c == '\r' || c == '\t'
}

/// The single-character operators and parentheses the lexer recognizes.
pub open spec fn is_operator_char(c: char) -> bool {
    c == '+' || c == '-' || c == '/' || c == '*' || c == '(' || c == ')'
}

/// The decimal digits, and only those: numeric characters outside ASCII are
/// not part of the numeric grammar.
pub open spec fn is_digit_char(c: char) -> bool {
    '0' <= c && c <= '9'
}

/// A character outside the recognized alphabet: it is consumed, reported as a
/// diagnostic, and contributes no token.
pub open spec fn is_unrecognized_char(c: char) -> bool {
    &&& !is_blank_char(c)
    &&& c != '\n'
    &&& !is_operator_char(c)
    &&& !is_digit_char(c)
}

/// The category an operator or parenthesis character is classified under.
pub open spec fn operator_kind(c: char) -> TokenType {
    if c == '+' {
        TokenType::Addition
    } else if c == '-' {
        TokenType::Subtraction
    } else if c == '/' {
        TokenType::Division
    } else if c == '*' {
        TokenType::Multiplication
    } else if c == '(' {
        TokenType::LeftParen
    } else {
        TokenType::RightParen
    }
}

/// The token emitted for the operator character `c` read at `line`:`col`.
pub open spec fn operator_token(c: char, line: int, col: int) -> TokenModel {
    TokenModel { kind: operator_kind(c), text: seq![c], line, start: col, end: col + 1 }
}

/// The token emitted for a run of digits `text` beginning at `line`:`col`.
pub open spec fn number_token(text: Seq<char>, line: int, col: int) -> TokenModel {
    TokenModel {
        kind: TokenType::Number,
        text,
        line,
        start: col,
        end: col + text.len(),
    }
}

/// What every emitted token satisfies: the text is never empty, the column
/// range covers exactly the text, a `Number` holds only decimal digits, and
/// every other kind holds the single operator character it classifies.
pub open spec fn token_model_wf(t: TokenModel) -> bool {
    &&& t.text.len() >= 1
    &&& 0 <= t.line
    &&& 0 <= t.start
    &&& t.end == t.start + t.text.len()
    &&& if t.kind is Number {
        forall|k: int| 0 <= k < t.text.len() ==> is_digit_char(t.text[k])
    } else {
        t.text.len() == 1 && is_operator_char(t.text[0]) && operator_kind(t.text[0]) == t.kind
    }
}

} // verus!
