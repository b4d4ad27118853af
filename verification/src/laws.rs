//! Properties of the scanner's model that relate whole scans: every emitted
//! token is well formed, digit runs are maximal, and the silent characters
//! interleaved with the tokens' texts reconstruct the input exactly.

use vstd::prelude::*;

use crate::lexer::{digit_run_end, lemma_digit_run_end, tokenized, tokens_from};
use crate::token::{
    is_blank_char, is_digit_char, is_operator_char, number_token, operator_token, token_model_wf,
    TokenModel,
};

verus! {

/// One step of the scan as seen from outside: either a character consumed
/// silently (whitespace, a newline, or an unrecognized character), or a
/// token emitted for its matched text.
pub ghost enum Piece {
    Silent(Seq<char>),
    Emitted(TokenModel),
}

/// The input characters a piece accounts for.
pub open spec fn piece_text(p: Piece) -> Seq<char> {
    match p {
        Piece::Silent(text) => text,
        Piece::Emitted(t) => t.text,
    }
}

/// The texts of all pieces, concatenated in order.
pub open spec fn pieces_text(ps: Seq<Piece>) -> Seq<char>
    decreases ps.len(),
{
    if ps.len() == 0 {
        Seq::empty()
    } else {
        piece_text(ps[0]) + pieces_text(ps.drop_first())
    }
}

/// The emitted tokens among the pieces, in order.
pub open spec fn pieces_tokens(ps: Seq<Piece>) -> Seq<TokenModel>
    decreases ps.len(),
{
    if ps.len() == 0 {
        Seq::empty()
    } else {
        match ps[0] {
            Piece::Emitted(t) => seq![t] + pieces_tokens(ps.drop_first()),
            Piece::Silent(_) => pieces_tokens(ps.drop_first()),
        }
    }
}

/// The scan from position `i` (on line `line`, column `col`), read step by
/// step: every consumed character is accounted for, whether it was emitted
/// as part of a token or consumed silently.
pub open spec fn pieces_from(s: Seq<char>, i: int, line: int, col: int) -> Seq<Piece>
    decreases s.len() - i,
    via pieces_from_decreases
{
    if i < 0 || i >= s.len() {
        Seq::empty()
    } else {
        let c = s[i];
        if is_blank_char(c) {
            seq![Piece::Silent(seq![c])] + pieces_from(s, i + 1, line, col + 1)
        } else if is_operator_char(c) {
            seq![Piece::Emitted(operator_token(c, line, col))] + pieces_from(s, i + 1, line, col + 1)
        } else if is_digit_char(c) {
            let j = digit_run_end(s, i);
            seq![Piece::Emitted(number_token(s.subrange(i, j), line, col))] + pieces_from(
                s,
                j,
                line,
                col + (j - i),
            )
        } else if c == '\n' {
            seq![Piece::Silent(seq![c])] + pieces_from(s, i + 1, line + 1, 0)
        } else {
            seq![Piece::Silent(seq![c])] + pieces_from(s, i + 1, line, col + 1)
        }
    }
}

#[via_fn]
proof fn pieces_from_decreases(s: Seq<char>, i: int, line: int, col: int) {
    if 0 <= i < s.len() {
        lemma_digit_run_end(s, i);
    }
}

/// Prepending one piece prepends its text.
proof fn lemma_pieces_text_cons(p: Piece, rest: Seq<Piece>)
    ensures
        pieces_text(seq![p] + rest) == piece_text(p) + pieces_text(rest),
{
    let ps = seq![p] + rest;
    assert(ps[0] == p);
    assert(ps.drop_first() =~= rest);
}

/// Prepending one piece prepends its token, if it carries one.
proof fn lemma_pieces_tokens_cons(p: Piece, rest: Seq<Piece>)
    ensures
        pieces_tokens(seq![p] + rest) == match p {
            Piece::Emitted(t) => seq![t] + pieces_tokens(rest),
            Piece::Silent(_) => pieces_tokens(rest),
        },
{
    let ps = seq![p] + rest;
    assert(ps[0] == p);
    assert(ps.drop_first() =~= rest);
}

proof fn lemma_pieces_from_text(s: Seq<char>, i: int, line: int, col: int)
    requires
        0 <= i <= s.len(),
    ensures
        pieces_text(pieces_from(s, i, line, col)) == s.subrange(i, s.len() as int),
    decreases s.len() - i,
{
    let tail = s.subrange(i, s.len() as int);
    if i >= s.len() {
        assert(tail =~= Seq::<char>::empty());
    } else {
        let c = s[i];
        lemma_digit_run_end(s, i);
        if is_blank_char(c) {
            let rest = pieces_from(s, i + 1, line, col + 1);
            assert(pieces_from(s, i, line, col) == seq![Piece::Silent(seq![c])] + rest);
            lemma_pieces_from_text(s, i + 1, line, col + 1);
            lemma_pieces_text_cons(Piece::Silent(seq![c]), rest);
            assert(seq![c] + s.subrange(i + 1, s.len() as int) =~= tail);
        } else if is_operator_char(c) {
            let p = Piece::Emitted(operator_token(c, line, col));
            let rest = pieces_from(s, i + 1, line, col + 1);
            assert(pieces_from(s, i, line, col) == seq![p] + rest);
            lemma_pieces_from_text(s, i + 1, line, col + 1);
            lemma_pieces_text_cons(p, rest);
            assert(seq![c] + s.subrange(i + 1, s.len() as int) =~= tail);
        } else if is_digit_char(c) {
            let j = digit_run_end(s, i);
            let p = Piece::Emitted(number_token(s.subrange(i, j), line, col));
            let rest = pieces_from(s, j, line, col + (j - i));
            assert(pieces_from(s, i, line, col) == seq![p] + rest);
            lemma_pieces_from_text(s, j, line, col + (j - i));
            lemma_pieces_text_cons(p, rest);
            assert(s.subrange(i, j) + s.subrange(j, s.len() as int) =~= tail);
        } else if c == '\n' {
            let rest = pieces_from(s, i + 1, line + 1, 0);
            assert(pieces_from(s, i, line, col) == seq![Piece::Silent(seq![c])] + rest);
            lemma_pieces_from_text(s, i + 1, line + 1, 0);
            lemma_pieces_text_cons(Piece::Silent(seq![c]), rest);
            assert(seq![c] + s.subrange(i + 1, s.len() as int) =~= tail);
        } else {
            let rest = pieces_from(s, i + 1, line, col + 1);
            assert(pieces_from(s, i, line, col) == seq![Piece::Silent(seq![c])] + rest);
            lemma_pieces_from_text(s, i + 1, line, col + 1);
            lemma_pieces_text_cons(Piece::Silent(seq![c]), rest);
            assert(seq![c] + s.subrange(i + 1, s.len() as int) =~= tail);
        }
    }
}

proof fn lemma_pieces_from_tokens(s: Seq<char>, i: int, line: int, col: int)
    requires
        0 <= i <= s.len(),
    ensures
        pieces_tokens(pieces_from(s, i, line, col)) == tokens_from(s, i, line, col),
    decreases s.len() - i,
{
    if 0 <= i < s.len() {
        let c = s[i];
        lemma_digit_run_end(s, i);
        if is_blank_char(c) {
            let rest = pieces_from(s, i + 1, line, col + 1);
            assert(pieces_from(s, i, line, col) == seq![Piece::Silent(seq![c])] + rest);
            assert(tokens_from(s, i, line, col) == tokens_from(s, i + 1, line, col + 1));
            lemma_pieces_from_tokens(s, i + 1, line, col + 1);
            lemma_pieces_tokens_cons(Piece::Silent(seq![c]), rest);
        } else if is_operator_char(c) {
            let tok = operator_token(c, line, col);
            let rest = pieces_from(s, i + 1, line, col + 1);
            assert(pieces_from(s, i, line, col) == seq![Piece::Emitted(tok)] + rest);
            assert(tokens_from(s, i, line, col) == seq![tok] + tokens_from(
                s,
                i + 1,
                line,
                col + 1,
            ));
            lemma_pieces_from_tokens(s, i + 1, line, col + 1);
            lemma_pieces_tokens_cons(Piece::Emitted(tok), rest);
        } else if is_digit_char(c) {
            let j = digit_run_end(s, i);
            let tok = number_token(s.subrange(i, j), line, col);
            let rest = pieces_from(s, j, line, col + (j - i));
            assert(pieces_from(s, i, line, col) == seq![Piece::Emitted(tok)] + rest);
            assert(tokens_from(s, i, line, col) == seq![tok] + tokens_from(
                s,
                j,
                line,
                col + (j - i),
            ));
            lemma_pieces_from_tokens(s, j, line, col + (j - i));
            lemma_pieces_tokens_cons(Piece::Emitted(tok), rest);
        } else if c == '\n' {
            let rest = pieces_from(s, i + 1, line + 1, 0);
            assert(pieces_from(s, i, line, col) == seq![Piece::Silent(seq![c])] + rest);
            assert(tokens_from(s, i, line, col) == tokens_from(s, i + 1, line + 1, 0));
            lemma_pieces_from_tokens(s, i + 1, line + 1, 0);
            lemma_pieces_tokens_cons(Piece::Silent(seq![c]), rest);
        } else {
            let rest = pieces_from(s, i + 1, line, col + 1);
            assert(pieces_from(s, i, line, col) == seq![Piece::Silent(seq![c])] + rest);
            assert(tokens_from(s, i, line, col) == tokens_from(s, i + 1, line, col + 1));
            lemma_pieces_from_tokens(s, i + 1, line, col + 1);
            lemma_pieces_tokens_cons(Piece::Silent(seq![c]), rest);
        }
    }
}

/// Whether a piece is an emitted `Number` token.
pub open spec fn is_number_piece(p: Piece) -> bool {
    match p {
        Piece::Emitted(t) => t.kind is Number,
        Piece::Silent(_) => false,
    }
}

proof fn lemma_pieces_from_maximal(s: Seq<char>, i: int, line: int, col: int)
    requires
        0 <= i <= s.len(),
    ensures
        forall|k: int|
            0 <= k < pieces_from(s, i, line, col).len() ==> (#[trigger] piece_text(
                pieces_from(s, i, line, col)[k],
            )).len() >= 1,
        forall|k: int|
            0 <= k < pieces_from(s, i, line, col).len() - 1 && is_number_piece(
                #[trigger] pieces_from(s, i, line, col)[k],
            ) ==> !is_digit_char(piece_text(pieces_from(s, i, line, col)[k + 1])[0]),
    decreases s.len() - i,
{
    let ps = pieces_from(s, i, line, col);
    if 0 <= i < s.len() {
        let c = s[i];
        lemma_digit_run_end(s, i);
        let (next, line2, col2): (int, int, int) = if is_blank_char(c) {
            (i + 1, line, col + 1)
        } else if is_operator_char(c) {
            (i + 1, line, col + 1)
        } else if is_digit_char(c) {
            (digit_run_end(s, i), line, col + (digit_run_end(s, i) - i))
        } else if c == '\n' {
            (i + 1, line + 1, 0)
        } else {
            (i + 1, line, col + 1)
        };
        let rest = pieces_from(s, next, line2, col2);
        let p0 = ps[0];
        assert(ps == seq![p0] + rest);
        lemma_pieces_from_maximal(s, next, line2, col2);
        assert forall|k: int| 0 <= k < ps.len() implies (#[trigger] piece_text(ps[k])).len()
            >= 1 by {
            if k > 0 {
                assert(ps[k] == rest[k - 1]);
            }
        }
        assert forall|k: int|
            0 <= k < ps.len() - 1 && is_number_piece(#[trigger] ps[k]) implies !is_digit_char(
            piece_text(ps[k + 1])[0],
        ) by {
            if k == 0 {
                let j = digit_run_end(s, i);
                assert(is_digit_char(c));
                assert(next == j);
                lemma_pieces_from_text(s, j, line2, col2);
                assert(rest.len() > 0);
                assert(pieces_text(rest) == piece_text(rest[0]) + pieces_text(rest.drop_first()));
                assert(piece_text(rest[0]).len() >= 1);
                assert(piece_text(rest[0])[0] == s.subrange(j, s.len() as int)[0]);
                assert(j < s.len());
                assert(ps[1] == rest[0]);
            } else {
                assert(ps[k] == rest[k - 1]);
                assert(ps[k + 1] == rest[k]);
            }
        }
    }
}

/// Digit-run maximality: in the scan's step-by-step reading every piece
/// accounts for at least one character, and whatever follows a `Number`
/// token begins with a character that is not a digit — a maximal digit run
/// is always emitted as one token, never split across two.
pub proof fn lemma_digit_runs_maximal(s: Seq<char>)
    ensures
        forall|k: int|
            0 <= k < pieces_from(s, 0, 0, 0).len() ==> (#[trigger] piece_text(
                pieces_from(s, 0, 0, 0)[k],
            )).len() >= 1,
        forall|k: int|
            0 <= k < pieces_from(s, 0, 0, 0).len() - 1 && is_number_piece(
                #[trigger] pieces_from(s, 0, 0, 0)[k],
            ) ==> !is_digit_char(piece_text(pieces_from(s, 0, 0, 0)[k + 1])[0]),
{
    lemma_pieces_from_maximal(s, 0, 0, 0);
}

/// Order preservation: reading the scan's pieces back left to right — every
/// silently consumed character in its place, every token standing for its
/// matched text — reconstructs the input exactly; and the tokens among the
/// pieces, in that same order, are exactly the token stream of the input.
pub proof fn lemma_order_preservation(s: Seq<char>)
    ensures
        pieces_text(pieces_from(s, 0, 0, 0)) == s,
        pieces_tokens(pieces_from(s, 0, 0, 0)) == tokenized(s),
{
    lemma_pieces_from_text(s, 0, 0, 0);
    assert(s.subrange(0, s.len() as int) =~= s);
    lemma_pieces_from_tokens(s, 0, 0, 0);
}

/// Every token of every scan is well formed: non-empty text, a column range
/// that covers exactly the text, digits in a `Number`, the single matching
/// character in every other kind.
pub proof fn lemma_tokens_well_formed(s: Seq<char>)
    ensures
        forall|k: int|
            0 <= k < tokenized(s).len() ==> token_model_wf(#[trigger] tokenized(s)[k]),
{
    lemma_tokens_from_well_formed(s, 0, 0, 0);
}

proof fn lemma_tokens_from_well_formed(s: Seq<char>, i: int, line: int, col: int)
    requires
        0 <= i <= s.len(),
        0 <= line,
        0 <= col,
    ensures
        forall|k: int|
            0 <= k < tokens_from(s, i, line, col).len() ==> token_model_wf(
                #[trigger] tokens_from(s, i, line, col)[k],
            ),
    decreases s.len() - i,
{
    let ts = tokens_from(s, i, line, col);
    if i >= s.len() {
        assert(ts.len() == 0);
    } else {
        let c = s[i];
        lemma_digit_run_end(s, i);
        if is_blank_char(c) {
            lemma_tokens_from_well_formed(s, i + 1, line, col + 1);
            assert(ts == tokens_from(s, i + 1, line, col + 1));
        } else if is_operator_char(c) {
            let rest = tokens_from(s, i + 1, line, col + 1);
            lemma_tokens_from_well_formed(s, i + 1, line, col + 1);
            assert(ts == seq![operator_token(c, line, col)] + rest);
            assert(token_model_wf(operator_token(c, line, col)));
            assert forall|k: int| 0 <= k < ts.len() implies token_model_wf(#[trigger] ts[k]) by {
                if k == 0 {
                    assert(ts[0] == operator_token(c, line, col));
                } else {
                    assert(ts[k] == rest[k - 1]);
                }
            }
        } else if is_digit_char(c) {
            let j = digit_run_end(s, i);
            let num = number_token(s.subrange(i, j), line, col);
            let rest = tokens_from(s, j, line, col + (j - i));
            lemma_tokens_from_well_formed(s, j, line, col + (j - i));
            assert(ts == seq![num] + rest);
            assert(token_model_wf(num)) by {
                assert(num.text.len() == j - i >= 1);
                assert forall|k: int| 0 <= k < num.text.len() implies is_digit_char(
                    num.text[k],
                ) by {
                    assert(num.text[k] == s[i + k]);
                }
            }
            assert forall|k: int| 0 <= k < ts.len() implies token_model_wf(#[trigger] ts[k]) by {
                if k == 0 {
                    assert(ts[0] == num);
                } else {
                    assert(ts[k] == rest[k - 1]);
                }
            }
        } else if c == '\n' {
            lemma_tokens_from_well_formed(s, i + 1, line + 1, 0);
            assert(ts == tokens_from(s, i + 1, line + 1, 0));
        } else {
            lemma_tokens_from_well_formed(s, i + 1, line, col + 1);
            assert(ts == tokens_from(s, i + 1, line, col + 1));
        }
    }
}

} // verus!
