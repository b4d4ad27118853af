//! The scanner: its mathematical model (`tokens_from`, `tokenized`,
//! `unrecognized_of`) and the executable `Lexer` proved against it.

use vstd::prelude::*;
use vstd::string::StrSliceExecFns;

use crate::token::{
    is_blank_char, is_digit_char, is_operator_char, is_unrecognized_char, number_token,
    operator_token, Position, Token, TokenModel, TokenType,
};

verus! {

/// The character standing at `i`, or the end-of-input sentinel when `i` is
/// past the last character: looking ahead never faults.
pub open spec fn char_at(s: Seq<char>, i: int) -> char {
    if 0 <= i < s.len() {
        s[i]
    } else {
        '\0'
    }
}

/// The first index at or after `i` that is past the maximal run of decimal
/// digits beginning at `i`; `i` itself when no digit stands there.
pub open spec fn digit_run_end(s: Seq<char>, i: int) -> int
    decreases s.len() - i,
{
    if i < 0 || i >= s.len() {
        i
    } else if is_digit_char(s[i]) {
        digit_run_end(s, i + 1)
    } else {
        i
    }
}

/// `digit_run_end` marks the maximal digit run: everything from `i` up to it
/// is a digit, it moves past at least one digit when one stands at `i`, and
/// the character at it (when there is one) is not a digit.
pub proof fn lemma_digit_run_end(s: Seq<char>, i: int)
    requires
        0 <= i <= s.len(),
    ensures
        i <= digit_run_end(s, i) <= s.len(),
        forall|k: int| i <= k < digit_run_end(s, i) ==> is_digit_char(s[k]),
        digit_run_end(s, i) == s.len() || !is_digit_char(s[digit_run_end(s, i)]),
        i < s.len() && is_digit_char(s[i]) ==> digit_run_end(s, i) > i,
    decreases s.len() - i,
{
    if i < s.len() && is_digit_char(s[i]) {
        lemma_digit_run_end(s, i + 1);
    }
}

/// Any stretch of digits that cannot be extended is the maximal run:
/// `digit_run_end` lands exactly on its end.
pub proof fn lemma_digit_run_end_from(s: Seq<char>, i: int, m: int)
    requires
        0 <= i <= m <= s.len(),
        forall|k: int| i <= k < m ==> is_digit_char(s[k]),
        m == s.len() || !is_digit_char(s[m]),
    ensures
        digit_run_end(s, i) == m,
    decreases m - i,
{
    if i < m {
        lemma_digit_run_end_from(s, i + 1, m);
    }
}

/// The tokens the scanner emits from position `i` onward, when the scan
/// reaches `i` on line `line` at column `col`. One recursive step consumes a
/// silent character (blank, newline, or unrecognized), one operator, or one
/// maximal digit run.
pub open spec fn tokens_from(s: Seq<char>, i: int, line: int, col: int) -> Seq<TokenModel>
    decreases s.len() - i,
    via tokens_from_decreases
{
    if i < 0 || i >= s.len() {
        Seq::empty()
    } else {
        let c = s[i];
        if is_blank_char(c) {
            tokens_from(s, i + 1, line, col + 1)
        } else if is_operator_char(c) {
            seq![operator_token(c, line, col)] + tokens_from(s, i + 1, line, col + 1)
        } else if is_digit_char(c) {
            let j = digit_run_end(s, i);
            seq![number_token(s.subrange(i, j), line, col)] + tokens_from(s, j, line, col + (j - i))
        } else if c == '\n' {
            tokens_from(s, i + 1, line + 1, 0)
        } else {
            tokens_from(s, i + 1, line, col + 1)
        }
    }
}

#[via_fn]
proof fn tokens_from_decreases(s: Seq<char>, i: int, line: int, col: int) {
    if 0 <= i < s.len() {
        lemma_digit_run_end(s, i);
    }
}

/// The whole token stream of `s`: the scan started at the beginning, on line
/// zero at column zero.
pub open spec fn tokenized(s: Seq<char>) -> Seq<TokenModel> {
    tokens_from(s, 0, 0, 0)
}

/// The unrecognized characters of `s`, in order: exactly what the scanner
/// reports as diagnostics while it skips them.
pub open spec fn unrecognized_of(s: Seq<char>) -> Seq<char>
    decreases s.len(),
{
    if s.len() == 0 {
        Seq::empty()
    } else if is_unrecognized_char(s.last()) {
        unrecognized_of(s.drop_last()).push(s.last())
    } else {
        unrecognized_of(s.drop_last())
    }
}

/// Consuming one more character extends the diagnostics of the consumed
/// region exactly when that character is unrecognized.
pub proof fn lemma_unrecognized_of_step(s: Seq<char>, a: int, b: int)
    requires
        0 <= a <= b < s.len(),
    ensures
        unrecognized_of(s.subrange(a, b + 1)) == if is_unrecognized_char(s[b]) {
            unrecognized_of(s.subrange(a, b)).push(s[b])
        } else {
            unrecognized_of(s.subrange(a, b))
        },
{
    let t = s.subrange(a, b + 1);
    assert(t.drop_last() =~= s.subrange(a, b));
    assert(t.last() == s[b]);
}

/// Consuming a stretch of digits adds no diagnostics.
proof fn lemma_unrecognized_of_digits(s: Seq<char>, a: int, b: int, c: int)
    requires
        0 <= a <= b <= c <= s.len(),
        forall|k: int| b <= k < c ==> is_digit_char(s[k]),
    ensures
        unrecognized_of(s.subrange(a, c)) == unrecognized_of(s.subrange(a, b)),
    decreases c - b,
{
    if b < c {
        lemma_unrecognized_of_step(s, a, c - 1);
        lemma_unrecognized_of_digits(s, a, b, c - 1);
    }
}

/// One scanning step of the main loop over an operator character: emitting
/// its token and consuming it carries the loop invariant from the state
/// `pre` before the step to the state `cur` after it.
proof fn lemma_step_operator(s: Seq<char>, init: Lexer, pre: Lexer, cur: Lexer)
    requires
        0 <= init.index <= pre.index < s.len(),
        is_operator_char(s[pre.index as int]),
        cur.index == pre.index + 1,
        cur.line == pre.line,
        cur.column == pre.column + 1,
        cur.tokens.deep_view() == pre.tokens.deep_view().push(
            operator_token(s[pre.index as int], pre.line as int, pre.column as int),
        ),
        cur.diagnostics == pre.diagnostics,
        pre.tokens.deep_view() + tokens_from(
            s,
            pre.index as int,
            pre.line as int,
            pre.column as int,
        ) == init.tokens.deep_view() + tokens_from(
            s,
            init.index as int,
            init.line as int,
            init.column as int,
        ),
        pre.diagnostics@ == init.diagnostics@ + unrecognized_of(
            s.subrange(init.index as int, pre.index as int),
        ),
    ensures
        cur.tokens.deep_view() + tokens_from(
            s,
            cur.index as int,
            cur.line as int,
            cur.column as int,
        ) == init.tokens.deep_view() + tokens_from(
            s,
            init.index as int,
            init.line as int,
            init.column as int,
        ),
        cur.diagnostics@ == init.diagnostics@ + unrecognized_of(
            s.subrange(init.index as int, cur.index as int),
        ),
{
    let i = pre.index as int;
    let tok = operator_token(s[i], pre.line as int, pre.column as int);
    let rest = tokens_from(s, i + 1, pre.line as int, pre.column as int + 1);
    assert(tokens_from(s, i, pre.line as int, pre.column as int) == seq![tok] + rest);
    assert(pre.tokens.deep_view().push(tok) + rest =~= pre.tokens.deep_view() + (seq![tok]
        + rest));
    lemma_unrecognized_of_step(s, init.index as int, i);
}

/// One scanning step of the main loop over a digit run: emitting the one
/// `Number` token for the whole run carries the loop invariant from the
/// state `pre` before the run to the state `cur` after it.
proof fn lemma_step_number(s: Seq<char>, init: Lexer, pre: Lexer, cur: Lexer)
    requires
        0 <= init.index <= pre.index < s.len(),
        is_digit_char(s[pre.index as int]),
        digit_run_end(s, pre.index as int) == cur.index,
        cur.index <= s.len(),
        cur.line == pre.line,
        cur.column == pre.column + (cur.index - pre.index),
        cur.tokens.deep_view() == pre.tokens.deep_view().push(
            number_token(
                s.subrange(pre.index as int, cur.index as int),
                pre.line as int,
                pre.column as int,
            ),
        ),
        cur.diagnostics == pre.diagnostics,
        pre.tokens.deep_view() + tokens_from(
            s,
            pre.index as int,
            pre.line as int,
            pre.column as int,
        ) == init.tokens.deep_view() + tokens_from(
            s,
            init.index as int,
            init.line as int,
            init.column as int,
        ),
        pre.diagnostics@ == init.diagnostics@ + unrecognized_of(
            s.subrange(init.index as int, pre.index as int),
        ),
    ensures
        pre.index < cur.index,
        cur.tokens.deep_view() + tokens_from(
            s,
            cur.index as int,
            cur.line as int,
            cur.column as int,
        ) == init.tokens.deep_view() + tokens_from(
            s,
            init.index as int,
            init.line as int,
            init.column as int,
        ),
        cur.diagnostics@ == init.diagnostics@ + unrecognized_of(
            s.subrange(init.index as int, cur.index as int),
        ),
{
    let i = pre.index as int;
    let j = cur.index as int;
    lemma_digit_run_end(s, i);
    let num = number_token(s.subrange(i, j), pre.line as int, pre.column as int);
    let rest = tokens_from(s, j, pre.line as int, pre.column as int + (j - i));
    assert(tokens_from(s, i, pre.line as int, pre.column as int) == seq![num] + rest);
    assert(pre.tokens.deep_view().push(num) + rest =~= pre.tokens.deep_view() + (seq![num]
        + rest));
    lemma_unrecognized_of_digits(s, init.index as int, i, j);
}

/// Scan `input` from its beginning and return its whole token stream. Total
/// over every input, the empty string included: the scan terminates and
/// never faults, whatever characters the text holds.
pub fn tokenize(input: String) -> (r: Vec<Token>)
    ensures
        r.deep_view() == tokenized(input@),
{
    let ghost s = input@;
    let mut scanner = Lexer::new(input);
    let r = scanner.lex();
    proof {
        assert(s.subrange(0, s.len() as int) =~= s);
        assert(Seq::<TokenModel>::empty() + tokens_from(s, 0, 0, 0) =~= tokens_from(s, 0, 0, 0));
        assert(scanner.tokens.deep_view() =~= tokenized(s));
    }
    r
}

/// The single-pass scanner. It owns the input text, the cursor (`index`, a
/// character offset), the line and column the cursor stands at, the tokens
/// emitted so far, and the unrecognized characters reported so far.
pub struct Lexer {
    pub input: String,
    pub tokens: Vec<Token>,
    pub index: usize,
    pub token_start_index: usize,
    pub line: usize,
    pub column: usize,
    pub diagnostics: Vec<char>,
}

impl Lexer {
    /// The state invariant: the cursor never passes the end of the input,
    /// and the line and column counters never pass the cursor, since each
    /// consumed character advances the column by at most one and the line
    /// only on newlines.
    pub open spec fn wf(&self) -> bool {
        &&& self.index <= self.input@.len()
        &&& self.column <= self.index
        &&& self.line <= self.index
        &&& self.token_start_index <= self.index
    }

    /// A fresh scanner over `input`: cursor at the start, nothing emitted.
    pub fn new(input: String) -> (r: Self)
        ensures
            r.wf(),
            r.input == input,
            r.tokens@ == Seq::<Token>::empty(),
            r.index == 0,
            r.token_start_index == 0,
            r.line == 0,
            r.column == 0,
            r.diagnostics@ == Seq::<char>::empty(),
    {
        Lexer {
            input,
            tokens: Vec::new(),
            index: 0,
            token_start_index: 0,
            line: 0,
            column: 0,
            diagnostics: Vec::new(),
        }
    }

    /// The character under the cursor, without consuming it; the sentinel
    /// `'\0'` once the input is exhausted.
    pub fn peek(&self) -> (c: char)
        ensures
            c == char_at(self.input@, self.index as int),
    {
        let n = self.input.as_str().unicode_len();
        if self.index >= n {
            '\0'
        } else {
            self.input.as_str().get_char(self.index)
        }
    }

    /// Advance the cursor past one character, moving one column right.
    pub fn consume(&mut self)
        requires
            old(self).index < old(self).input@.len(),
            old(self).input@.len() <= usize::MAX,
            old(self).column <= old(self).index,
        ensures
            final(self).index == old(self).index + 1,
            final(self).column == old(self).column + 1,
            final(self).input == old(self).input,
            final(self).tokens == old(self).tokens,
            final(self).token_start_index == old(self).token_start_index,
            final(self).line == old(self).line,
            final(self).diagnostics == old(self).diagnostics,
    {
        self.index = self.index + 1;
        self.column = self.column + 1;
    }

    /// Whether `ch` is consumed silently without ending the current line.
    pub fn check_is_whitespace(&self, ch: char) -> (b: bool)
        ensures
            b == is_blank_char(ch),
    {
        ch == ' ' || ch == '\r' || ch == '\t'
    }

    /// Whether `ch` is a decimal digit.
    pub fn check_is_digit(&self, ch: char) -> (b: bool)
        ensures
            b == is_digit_char(ch),
    {
        '0' <= ch && ch <= '9'
    }

    /// Emit a single-character token of kind `typ` for the character under
    /// the cursor, and consume that character.
    pub fn add_token(&mut self, typ: TokenType)
        requires
            old(self).index < old(self).input@.len(),
            old(self).input@.len() <= usize::MAX,
            old(self).column <= old(self).index,
        ensures
            final(self).tokens.deep_view() == old(self).tokens.deep_view().push(
                TokenModel {
                    kind: typ,
                    text: seq![old(self).input@[old(self).index as int]],
                    line: old(self).line as int,
                    start: old(self).column as int,
                    end: old(self).column as int + 1,
                },
            ),
            final(self).index == old(self).index + 1,
            final(self).column == old(self).column + 1,
            final(self).input == old(self).input,
            final(self).token_start_index == old(self).token_start_index,
            final(self).line == old(self).line,
            final(self).diagnostics == old(self).diagnostics,
    {
        let text = self.input.as_str().substring_char(self.index, self.index + 1);
        let token = Token {
            token_type: typ,
            value: text.to_owned(),
            position: Position { line: self.line, start: self.column, end: self.column + 1 },
        };
        proof {
            assert(token.value@ =~= seq![self.input@[self.index as int]]);
        }
        let ghost before = self.tokens.deep_view();
        self.tokens.push(token);
        proof {
            assert(self.tokens.deep_view() =~= before.push(token@));
        }
        self.consume();
    }

    /// Remember the cursor as the first character of the token being read.
    pub fn begin_token(&mut self)
        ensures
            final(self).token_start_index == old(self).index,
            final(self).input == old(self).input,
            final(self).tokens == old(self).tokens,
            final(self).index == old(self).index,
            final(self).line == old(self).line,
            final(self).column == old(self).column,
            final(self).diagnostics == old(self).diagnostics,
    {
        self.token_start_index = self.index;
    }

    /// Emit a token of kind `typ` whose text runs from the remembered start
    /// up to the cursor; the cursor itself does not move.
    pub fn commit_token(&mut self, typ: TokenType)
        requires
            old(self).token_start_index <= old(self).index,
            old(self).index <= old(self).input@.len(),
            old(self).index - old(self).token_start_index <= old(self).column,
        ensures
            final(self).tokens.deep_view() == old(self).tokens.deep_view().push(
                TokenModel {
                    kind: typ,
                    text: old(self).input@.subrange(
                        old(self).token_start_index as int,
                        old(self).index as int,
                    ),
                    line: old(self).line as int,
                    start: old(self).column - (old(self).index - old(self).token_start_index),
                    end: old(self).column as int,
                },
            ),
            final(self).index == old(self).index,
            final(self).column == old(self).column,
            final(self).input == old(self).input,
            final(self).token_start_index == old(self).token_start_index,
            final(self).line == old(self).line,
            final(self).diagnostics == old(self).diagnostics,
    {
        let length: usize = self.index - self.token_start_index;
        let text = self.input.as_str().substring_char(self.token_start_index, self.index);
        let token = Token {
            token_type: typ,
            value: text.to_owned(),
            position: Position {
                line: self.line,
                start: self.column - length,
                end: self.column,
            },
        };
        let ghost before = self.tokens.deep_view();
        self.tokens.push(token);
        proof {
            assert(self.tokens.deep_view() =~= before.push(token@));
        }
    }
    /// Scan the remaining input to its end in one left-to-right pass and
    /// return the whole token stream. Starting from the fresh state of
    /// [`Lexer::new`], the tokens are exactly `tokenized(input)` and the
    /// diagnostics exactly `unrecognized_of(input)`; the scanner itself keeps
    /// both, with the cursor at the end of the input.
    #[verifier::loop_isolation(false)]
    pub fn lex(&mut self) -> (r: Vec<Token>)
        requires
            old(self).wf(),
        ensures
            final(self).wf(),
            final(self).input == old(self).input,
            final(self).index == final(self).input@.len(),
            final(self).tokens.deep_view() == old(self).tokens.deep_view() + tokens_from(
                old(self).input@,
                old(self).index as int,
                old(self).line as int,
                old(self).column as int,
            ),
            final(self).diagnostics@ == old(self).diagnostics@ + unrecognized_of(
                old(self).input@.subrange(old(self).index as int, old(self).input@.len() as int),
            ),
            r.deep_view() == final(self).tokens.deep_view(),
    {
        let ghost s = self.input@;
        let ghost init = *self;
        let n = self.input.as_str().unicode_len();
        proof {
            assert(s.subrange(init.index as int, init.index as int) =~= Seq::<char>::empty());
            assert(init.diagnostics@ + Seq::<char>::empty() =~= init.diagnostics@);
        }
        while self.index < n
            invariant
                self.wf(),
                self.input == init.input,
                self.input@ == s,
                n as nat == s.len(),
                init.index <= self.index,
                self.tokens.deep_view() + tokens_from(
                    s,
                    self.index as int,
                    self.line as int,
                    self.column as int,
                ) == init.tokens.deep_view() + tokens_from(
                    s,
                    init.index as int,
                    init.line as int,
                    init.column as int,
                ),
                self.diagnostics@ == init.diagnostics@ + unrecognized_of(
                    s.subrange(init.index as int, self.index as int),
                ),
            decreases n - self.index,
        {
            let ghost pre = *self;
            let ch = self.peek();
            if self.check_is_whitespace(ch) {
                self.consume();
                proof {
                    lemma_unrecognized_of_step(s, init.index as int, pre.index as int);
                }
            } else if ch == '+' {
                self.add_token(TokenType::Addition);
                proof {
                    lemma_step_operator(s, init, pre, *self);
                }
            } else if ch == '-' {
                self.add_token(TokenType::Subtraction);
                proof {
                    lemma_step_operator(s, init, pre, *self);
                }
            } else if ch == '/' {
                self.add_token(TokenType::Division);
                proof {
                    lemma_step_operator(s, init, pre, *self);
                }
            } else if ch == '*' {
                self.add_token(TokenType::Multiplication);
                proof {
                    lemma_step_operator(s, init, pre, *self);
                }
            } else if ch == '(' {
                self.add_token(TokenType::LeftParen);
                proof {
                    lemma_step_operator(s, init, pre, *self);
                }
            } else if ch == ')' {
                self.add_token(TokenType::RightParen);
                proof {
                    lemma_step_operator(s, init, pre, *self);
                }
            } else if self.check_is_digit(ch) {
                self.begin_token();
                while self.check_is_digit(self.peek())
                    invariant
                        self.wf(),
                        self.input == pre.input,
                        self.input@ == s,
                        self.token_start_index == pre.index,
                        self.tokens == pre.tokens,
                        self.diagnostics == pre.diagnostics,
                        self.line == pre.line,
                        pre.index <= self.index,
                        self.column as int == pre.column + (self.index - pre.index),
                        forall|k: int| pre.index <= k < self.index ==> is_digit_char(s[k]),
                    decreases n - self.index,
                {
                    self.consume();
                }
                proof {
                    lemma_digit_run_end_from(s, pre.index as int, self.index as int);
                }
                self.commit_token(TokenType::Number);
                proof {
                    lemma_step_number(s, init, pre, *self);
                }
            } else if ch == '\n' {
                self.consume();
                self.line = self.line + 1;
                self.column = 0;
                proof {
                    lemma_unrecognized_of_step(s, init.index as int, pre.index as int);
                }
            } else {
                self.diagnostics.push(ch);
                self.consume();
                proof {
                    lemma_unrecognized_of_step(s, init.index as int, pre.index as int);
                }
            }
        }
        proof {
            assert(s.subrange(init.index as int, self.index as int) =~= s.subrange(
                init.index as int,
                s.len() as int,
            ));
        }
        let mut r: Vec<Token> = Vec::new();
        let mut k: usize = 0;
        while k < self.tokens.len()
            invariant
                k <= self.tokens@.len(),
                r.deep_view() == self.tokens.deep_view().subrange(0, k as int),
            decreases self.tokens@.len() - k,
        {
            r.push(self.tokens[k].clone());
            k = k + 1;
            proof {
                assert(r.deep_view() =~= self.tokens.deep_view().subrange(0, k as int));
            }
        }
        proof {
            assert(r.deep_view() =~= self.tokens.deep_view());
        }
        r
    }
}

} // verus!
