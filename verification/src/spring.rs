//! Spring: lexer and parser.
//!
//! The lexer turns source text into tokens; the recursive-descent parser
//! builds a program from them.
use vstd::prelude::*;
use crate::ast::{BinOp, Expr, Program, SpecExpr, SpecStmt, Stmt, UnOp, binop_of, expr_view,
    exprs_view, stmt_view, stmts_view};
use crate::error::{GroveError, SpecError};
use crate::num::{Num, make, lemma_make_wf, lemma_int_wf, make_exec, spec_int};
use crate::text::push_char;
use crate::token::{SpecToken, Token, token_name};

verus! {

// ── Character classes ──────────────────────────────────────────────────

/// Whether a char has the Unicode `White_Space` property (as listed in the
/// Unicode Character Database, `PropList.txt`): the property that
/// `char::is_whitespace` tests for.
pub open spec fn unicode_whitespace(c: char) -> bool {
    ||| '\u{9}' <= c <= '\u{d}'
    ||| c == ' '
    ||| c == '\u{85}'
    ||| c == '\u{a0}'
    ||| c == '\u{1680}'
    ||| '\u{2000}' <= c <= '\u{200a}'
    ||| c == '\u{2028}'
    ||| c == '\u{2029}'
    ||| c == '\u{202f}'
    ||| c == '\u{205f}'
    ||| c == '\u{3000}'
}

/// Whether a char beyond ASCII is alphabetic or numeric in Unicode, as
/// `char::is_alphanumeric` decides.
pub uninterp spec fn unicode_alphanumeric(c: char) -> bool;

/// ASCII letters and digits.
pub open spec fn ascii_alphanumeric(c: char) -> bool {
    ('0' <= c <= '9') || ('a' <= c <= 'z') || ('A' <= c <= 'Z')
}

/// Whether a char is alphabetic or numeric: within ASCII exactly the
/// letters and digits; beyond ASCII as Unicode decides, white space never
/// being either.
pub open spec fn alphanumeric(c: char) -> bool {
    if (c as u32) < 128 {
        ascii_alphanumeric(c)
    } else {
        !unicode_whitespace(c) && unicode_alphanumeric(c)
    }
}

/// Whether `c` is white space: the chars of [`unicode_whitespace`], as
/// `char::is_whitespace` tests them.
fn is_whitespace(c: char) -> (r: bool)
    ensures
        r == unicode_whitespace(c),
{
    ('\u{9}' <= c && c <= '\u{d}') || c == ' ' || c == '\u{85}' || c == '\u{a0}'
        || c == '\u{1680}' || ('\u{2000}' <= c && c <= '\u{200a}') || c == '\u{2028}'
        || c == '\u{2029}' || c == '\u{202f}' || c == '\u{205f}' || c == '\u{3000}'
}

/// Trusted: calls `char::is_alphanumeric`, which is true of chars that are
/// alphabetic or numeric in Unicode. The contract states that within ASCII
/// these are exactly the letters and digits, and that no white-space char
/// is one (none of them is alphabetic or numeric in Unicode); beyond ASCII
/// the result is otherwise only named, the Unicode tables being left
/// unsaid.
#[verifier::external_body]
fn is_alphanumeric(c: char) -> (r: bool)
    ensures
        r == (if (c as u32) < 128 {
            ascii_alphanumeric(c)
        } else {
            !unicode_whitespace(c) && unicode_alphanumeric(c)
        }),
{
    c.is_alphanumeric()
}

pub open spec fn is_digit(c: char) -> bool {
    '0' <= c <= '9'
}

pub open spec fn is_ident_start(c: char) -> bool {
    ('a' <= c <= 'z') || ('A' <= c <= 'Z') || c == '_'
}

pub open spec fn is_ident_char(c: char) -> bool {
    alphanumeric(c) || c == '_'
}

pub open spec fn is_number_char(c: char) -> bool {
    is_digit(c) || c == '.'
}

// ── The lexer's specification ──────────────────────────────────────────

/// The first position at or after `p` that does not hold white space.
pub open spec fn skip_ws(cs: Seq<char>, p: int) -> int
    decreases cs.len() - p,
{
    if 0 <= p < cs.len() && unicode_whitespace(cs[p]) {
        skip_ws(cs, p + 1)
    } else {
        p
    }
}

/// The end of the run of number chars (digits and dots) starting at `p`.
pub open spec fn number_end(cs: Seq<char>, p: int) -> int
    decreases cs.len() - p,
{
    if 0 <= p < cs.len() && is_number_char(cs[p]) {
        number_end(cs, p + 1)
    } else {
        p
    }
}

/// The end of the run of identifier chars starting at `p`.
pub open spec fn ident_end(cs: Seq<char>, p: int) -> int
    decreases cs.len() - p,
{
    if 0 <= p < cs.len() && is_ident_char(cs[p]) {
        ident_end(cs, p + 1)
    } else {
        p
    }
}

/// The number a run of digits denotes.
pub open spec fn digits_value(s: Seq<char>) -> nat
    decreases s.len(),
{
    if s.len() == 0 {
        0
    } else {
        digits_value(s.drop_last()) * 10 + ((s.last() as nat) - 48) as nat
    }
}

pub open spec fn pow10(k: nat) -> nat
    decreases k,
{
    if k == 0 { 1 } else { 10 * pow10((k - 1) as nat) }
}

pub open spec fn count_dots(s: Seq<char>) -> nat
    decreases s.len(),
{
    if s.len() == 0 {
        0
    } else {
        count_dots(s.drop_last()) + if s.last() == '.' { 1nat } else { 0nat }
    }
}

/// The digits of a number literal, without its dot.
pub open spec fn literal_digits(s: Seq<char>) -> Seq<char>
    decreases s.len(),
{
    if s.len() == 0 {
        s
    } else if s.last() == '.' {
        literal_digits(s.drop_last())
    } else {
        literal_digits(s.drop_last()).push(s.last())
    }
}

/// The number of digits after the dot of a number literal.
pub open spec fn fraction_len(s: Seq<char>) -> nat
    decreases s.len(),
{
    if s.len() == 0 || s.last() == '.' {
        0
    } else {
        fraction_len(s.drop_last()) + 1
    }
}

/// The largest mantissa or scale a literal may have.
pub open spec fn literal_bound() -> int {
    0x7fff_ffff_ffff_ffff_ffff_ffff_ffff_ffff
}

/// The value of a number literal (digits with dots). Text with two or more
/// dots is not a number and denotes zero; otherwise the literal is the
/// fraction `digits / 10^k` for `k` digits after the dot. `None` when the
/// digits or the scale exceed `literal_bound()` or the value does not fit;
/// the lexer then keeps the literal as written (`Numeral`).
pub open spec fn literal_value(s: Seq<char>) -> Option<Num> {
    if count_dots(s) >= 2 {
        Some(spec_int(0))
    } else {
        let m = digits_value(literal_digits(s));
        let k = if count_dots(s) == 1 { fraction_len(s) } else { 0 };
        if m <= literal_bound() && pow10(k) <= literal_bound() {
            make(m as int, pow10(k) as int)
        } else {
            None
        }
    }
}

/// The keyword a word spells, or an identifier.
pub open spec fn keyword_or_ident(w: Seq<char>) -> SpecToken {
    if w == "let"@ {
        SpecToken::Let
    } else if w == "if"@ {
        SpecToken::If
    } else if w == "else"@ {
        SpecToken::Else
    } else if w == "fn"@ {
        SpecToken::Fn
    } else if w == "return"@ {
        SpecToken::Return
    } else {
        SpecToken::Ident(w)
    }
}

pub open spec fn lex_error(message: Seq<char>, pos: int) -> SpecError {
    SpecError::Lex { message, pos: pos as nat }
}

/// A char that may follow `c` to form a two-char operator.
pub open spec fn followed_by(cs: Seq<char>, q: int, c: char) -> bool {
    q + 1 < cs.len() && cs[q + 1] == c
}

/// The token starting at `q` (which holds no white space) and the position
/// after it, or the error the lexer reports there.
pub open spec fn lex_token(cs: Seq<char>, q: int) -> Result<(SpecToken, int), SpecError> {
    let c = cs[q];
    if is_digit(c) {
        let e = number_end(cs, q);
        match literal_value(cs.subrange(q, e)) {
            Some(v) => Ok((SpecToken::Number(v), e)),
            None => Ok((SpecToken::Numeral(cs.subrange(q, e)), e)),
        }
    } else if is_ident_start(c) {
        let e = ident_end(cs, q + 1);
        Ok((keyword_or_ident(cs.subrange(q, e)), e))
    } else if c == '+' {
        Ok((SpecToken::Plus, q + 1))
    } else if c == '-' {
        Ok((SpecToken::Minus, q + 1))
    } else if c == '*' {
        Ok((SpecToken::Star, q + 1))
    } else if c == '/' {
        Ok((SpecToken::Slash, q + 1))
    } else if c == '(' {
        Ok((SpecToken::LParen, q + 1))
    } else if c == ')' {
        Ok((SpecToken::RParen, q + 1))
    } else if c == '{' {
        Ok((SpecToken::LBrace, q + 1))
    } else if c == '}' {
        Ok((SpecToken::RBrace, q + 1))
    } else if c == ';' {
        Ok((SpecToken::Semicolon, q + 1))
    } else if c == ',' {
        Ok((SpecToken::Comma, q + 1))
    } else if c == '=' {
        if followed_by(cs, q, '=') {
            Ok((SpecToken::Eq, q + 2))
        } else {
            Ok((SpecToken::Assign, q + 1))
        }
    } else if c == '!' {
        if followed_by(cs, q, '=') {
            Ok((SpecToken::Neq, q + 2))
        } else {
            Err(lex_error("expected '=' after '!'"@, q + 1))
        }
    } else if c == '<' {
        if followed_by(cs, q, '=') {
            Ok((SpecToken::Le, q + 2))
        } else {
            Ok((SpecToken::Lt, q + 1))
        }
    } else if c == '>' {
        if followed_by(cs, q, '=') {
            Ok((SpecToken::Ge, q + 2))
        } else {
            Ok((SpecToken::Gt, q + 1))
        }
    } else {
        Err(lex_error("unexpected character: "@.push(c), q))
    }
}

pub proof fn lemma_scan_ends(cs: Seq<char>, p: int)
    requires
        0 <= p,
    ensures
        p <= skip_ws(cs, p),
        p <= number_end(cs, p),
        p <= ident_end(cs, p),
        p <= cs.len() ==> skip_ws(cs, p) <= cs.len(),
        p <= cs.len() ==> number_end(cs, p) <= cs.len(),
        p <= cs.len() ==> ident_end(cs, p) <= cs.len(),
    decreases cs.len() - p,
{
    if p < cs.len() {
        lemma_scan_ends(cs, p + 1);
    }
}

pub proof fn lemma_token_advances(cs: Seq<char>, q: int)
    requires
        0 <= q < cs.len(),
    ensures
        lex_token(cs, q) matches Ok((_, e)) ==> q < e <= cs.len(),
{
    lemma_scan_ends(cs, q);
    lemma_scan_ends(cs, q + 1);
}

/// The tokens of `cs` from position `p` on, ending with `Eof`, or the first
/// lexical error.
pub open spec fn lex_from(cs: Seq<char>, p: int) -> Result<Seq<SpecToken>, SpecError>
    decreases cs.len() - p,
{
    let q = skip_ws(cs, p);
    if q < 0 || q >= cs.len() {
        Ok(seq![SpecToken::Eof])
    } else {
        match lex_token(cs, q) {
            Ok((t, e)) => {
                proof {
                    lemma_scan_ends(cs, p);
                    lemma_token_advances(cs, q);
                }
                match lex_from(cs, e) {
                    Ok(ts) => Ok(seq![t] + ts),
                    Err(x) => Err(x),
                }
            },
            Err(x) => Err(x),
        }
    }
}

/// A token as the lexer makes it: an identifier is a letter or `_`
/// followed by letters, digits and `_`, and is no keyword; a number is not
/// negative; a numeral is a non-empty run of digits and dots.
pub open spec fn lexed_shape(t: SpecToken) -> bool {
    match t {
        SpecToken::Ident(w) => {
            &&& w.len() > 0
            &&& is_ident_start(w[0])
            &&& forall|i: int| 1 <= i < w.len() ==> #[trigger] is_ident_char(w[i])
            &&& w != "let"@ && w != "if"@ && w != "else"@ && w != "fn"@ && w != "return"@
        },
        SpecToken::Number(n) => n.numer_spec() >= 0,
        SpecToken::Numeral(w) => w.len() > 0 && forall|i: int| 0 <= i < w.len() ==> is_number_char(
            #[trigger] w[i],
        ),
        _ => true,
    }
}

proof fn lemma_ident_run(cs: Seq<char>, p: int)
    requires
        0 <= p,
    ensures
        forall|i: int| p <= i < ident_end(cs, p) ==> is_ident_char(#[trigger] cs[i]),
    decreases cs.len() - p,
{
    if 0 <= p < cs.len() && is_ident_char(cs[p]) {
        lemma_ident_run(cs, p + 1);
    }
}

proof fn lemma_number_run(cs: Seq<char>, p: int)
    requires
        0 <= p,
    ensures
        forall|i: int| p <= i < number_end(cs, p) ==> is_number_char(#[trigger] cs[i]),
    decreases cs.len() - p,
{
    if 0 <= p < cs.len() && is_number_char(cs[p]) {
        lemma_number_run(cs, p + 1);
    }
}

proof fn lemma_token_shape(cs: Seq<char>, q: int)
    requires
        0 <= q < cs.len(),
    ensures
        lex_token(cs, q) matches Ok((t, _)) ==> lexed_shape(t) && !(t is Eof),
{
    let c = cs[q];
    if is_digit(c) {
        let e = number_end(cs, q);
        let s = cs.subrange(q, e);
        lemma_scan_ends(cs, q);
        lemma_scan_ends(cs, q + 1);
        assert(e == number_end(cs, q + 1));
        lemma_number_run(cs, q);
        assert forall|i: int| 0 <= i < s.len() implies is_number_char(#[trigger] s[i]) by {
            assert(s[i] == cs[q + i]);
        }
        if count_dots(s) >= 2 {
            lemma_int_wf(0);
        } else {
            let m = digits_value(literal_digits(s));
            let k = if count_dots(s) == 1 { fraction_len(s) } else { 0 };
            lemma_pow10_pos(k);
            lemma_make_wf(m as int, pow10(k) as int);
        }
    } else if is_ident_start(c) {
        let e = ident_end(cs, q + 1);
        lemma_scan_ends(cs, q + 1);
        lemma_ident_run(cs, q + 1);
        let w = cs.subrange(q, e);
        assert forall|i: int| 1 <= i < w.len() implies #[trigger] is_ident_char(w[i]) by {
            assert(w[i] == cs[q + i]);
        }
    }
}

proof fn lemma_pow10_pos(k: nat)
    ensures
        pow10(k) > 0,
    decreases k,
{
    if k > 0 {
        lemma_pow10_pos((k - 1) as nat);
    }
}

/// The tokens of a lexed source end with `Eof`, which occurs nowhere
/// else; there is at most one token per char besides it; and every token
/// has the shape the lexer gives (`lexed_shape`).
pub proof fn lemma_tokens_end_with_eof(cs: Seq<char>, p: int)
    requires
        0 <= p <= cs.len(),
    ensures
        lex_from(cs, p) matches Ok(ts) ==> {
            &&& 1 <= ts.len() <= cs.len() - p + 1
            &&& ts.last() == SpecToken::Eof
            &&& forall|i: int| 0 <= i < ts.len() - 1 ==> !(#[trigger] ts[i] is Eof)
            &&& forall|i: int| 0 <= i < ts.len() ==> lexed_shape(#[trigger] ts[i])
        },
    decreases cs.len() - p,
{
    let q = skip_ws(cs, p);
    lemma_scan_ends(cs, p);
    if 0 <= q < cs.len() {
        lemma_token_advances(cs, q);
        lemma_token_shape(cs, q);
        if let Ok((t, e)) = lex_token(cs, q) {
            lemma_tokens_end_with_eof(cs, e);
            if let Ok(rest) = lex_from(cs, e) {
                let ts = seq![t] + rest;
                assert forall|i: int| 0 <= i < ts.len() - 1 implies !(#[trigger] ts[i] is Eof) by {
                    if i > 0 {
                        assert(ts[i] == rest[i - 1]);
                    }
                }
                assert forall|i: int| 0 <= i < ts.len() implies lexed_shape(#[trigger] ts[i]) by {
                    if i > 0 {
                        assert(ts[i] == rest[i - 1]);
                    }
                }
            }
        }
    } else {
        assert(lexed_shape(SpecToken::Eof));
    }
}

/// An error the lexer reports: an unexpected char (not white space, not a
/// digit, not a letter or `_` that starts a name, and none of the
/// operator and punctuation chars) at its position, or a `!` not followed
/// by `=`, at the position after the `!`.
pub open spec fn lex_failure(cs: Seq<char>, e: SpecError) -> bool {
    &&& e is Lex
    &&& {
        let pos = e->Lex_pos as int;
        ||| {
            &&& pos < cs.len()
            &&& e->Lex_message == "unexpected character: "@.push(cs[pos])
            &&& !unicode_whitespace(cs[pos])
            &&& !is_digit(cs[pos])
            &&& !is_ident_start(cs[pos])
            &&& !"+-*/(){};,=!<>"@.contains(cs[pos])
        }
        ||| {
            &&& 1 <= pos <= cs.len()
            &&& e->Lex_message == "expected '=' after '!'"@
            &&& cs[pos - 1] == '!'
            &&& !(pos < cs.len() && cs[pos] == '=')
        }
    }
}

/// The lexer never refuses a number: its only errors are an unexpected
/// char and a `!` without `=` (`lex_failure`).
pub proof fn lemma_lex_errors(cs: Seq<char>, p: int)
    requires
        0 <= p <= cs.len(),
    ensures
        lex_from(cs, p) matches Err(e) ==> lex_failure(cs, e),
    decreases cs.len() - p,
{
    let q = skip_ws(cs, p);
    lemma_scan_ends(cs, p);
    if 0 <= q < cs.len() {
        lemma_token_advances(cs, q);
        lemma_skip_stops(cs, p);
        match lex_token(cs, q) {
            Ok((t, e)) => {
                lemma_lex_errors(cs, e);
            },
            Err(x) => {
                reveal_strlit("+-*/(){};,=!<>");
                let c = cs[q];
                if !is_digit(c) && !is_ident_start(c) && c != '+' && c != '-' && c != '*' && c != '/'
                    && c != '(' && c != ')' && c != '{' && c != '}' && c != ';' && c != ','
                    && c != '=' && c != '!' && c != '<' && c != '>' {
                    assert(!"+-*/(){};,=!<>"@.contains(c));
                }
            },
        }
    }
}

proof fn lemma_skip_stops(cs: Seq<char>, p: int)
    requires
        0 <= p,
    ensures
        0 <= skip_ws(cs, p) < cs.len() ==> !unicode_whitespace(cs[skip_ws(cs, p)]),
    decreases cs.len() - p,
{
    if 0 <= p < cs.len() && unicode_whitespace(cs[p]) {
        lemma_skip_stops(cs, p + 1);
    }
}

/// How a binary operator is written in source text.
pub open spec fn op_text(op: BinOp) -> Seq<char> {
    match op {
        BinOp::Add => "+"@,
        BinOp::Sub => "-"@,
        BinOp::Mul => "*"@,
        BinOp::Div => "/"@,
        BinOp::Eq => "=="@,
        BinOp::Neq => "!="@,
        BinOp::Lt => "<"@,
        BinOp::Gt => ">"@,
        BinOp::Le => "<="@,
        BinOp::Ge => ">="@,
    }
}

/// An operator token stands for the operator its text spells: lexing the
/// spelling of `op` gives one token (then `Eof`), and that token parses as
/// `op`; and any token that parses as an operator is named by that
/// operator's spelling.
pub proof fn lemma_operator_spelling(op: BinOp, t: SpecToken)
    ensures
        lex_from(op_text(op), 0) matches Ok(ts) && ts.len() == 2 && binop_of(ts[0]) == Some(op),
        binop_of(t) matches Some(o) ==> token_name(t) == op_text(o),
{
    reveal_strlit("+");
    reveal_strlit("-");
    reveal_strlit("*");
    reveal_strlit("/");
    reveal_strlit("==");
    reveal_strlit("!=");
    reveal_strlit("<");
    reveal_strlit(">");
    reveal_strlit("<=");
    reveal_strlit(">=");
    let cs = op_text(op);
    assert(skip_ws(cs, 0) == 0);
    match lex_token(cs, 0) {
        Ok((tk, e)) => {
            assert(e == cs.len());
            assert(skip_ws(cs, e) == e);
            assert(lex_from(cs, e) == Ok::<Seq<SpecToken>, SpecError>(seq![SpecToken::Eof]));
            assert(seq![tk] + seq![SpecToken::Eof] =~= seq![tk, SpecToken::Eof]);
        },
        Err(_) => {},
    }
}

/// The keywords and punctuation: the tokens that are their own name.
pub open spec fn is_fixed(t: SpecToken) -> bool {
    !(t is Number || t is Numeral || t is Ident || t is Eof)
}

/// Every keyword and punctuation token is lexed from its own name: the
/// text `token_name(t)` lexes to `t` alone (then `Eof`).
pub proof fn lemma_fixed_spelling(t: SpecToken)
    requires
        is_fixed(t),
    ensures
        lex_from(token_name(t), 0) == Ok::<Seq<SpecToken>, SpecError>(seq![t, SpecToken::Eof]),
{
    reveal_strlit("+");
    reveal_strlit("-");
    reveal_strlit("*");
    reveal_strlit("/");
    reveal_strlit("==");
    reveal_strlit("!=");
    reveal_strlit("<");
    reveal_strlit(">");
    reveal_strlit("<=");
    reveal_strlit(">=");
    reveal_strlit("let");
    reveal_strlit("if");
    reveal_strlit("else");
    reveal_strlit("fn");
    reveal_strlit("(");
    reveal_strlit(")");
    reveal_strlit("{");
    reveal_strlit("}");
    reveal_strlit(";");
    reveal_strlit(",");
    reveal_strlit("=");
    reveal_strlit("return");
    let cs = token_name(t);
    assert(skip_ws(cs, 0) == 0);
    if is_ident_start(cs[0]) {
        lemma_word_end(cs, 1);
        assert(cs.subrange(0, cs.len() as int) =~= cs);
    }
    match lex_token(cs, 0) {
        Ok((tk, e)) => {
            assert(e == cs.len());
            assert(skip_ws(cs, e) == e);
            assert(lex_from(cs, e) == Ok::<Seq<SpecToken>, SpecError>(seq![SpecToken::Eof]));
            assert(seq![tk] + seq![SpecToken::Eof] =~= seq![tk, SpecToken::Eof]);
        },
        Err(_) => {},
    }
}

/// Over a word of identifier chars, the identifier run reaches its end.
proof fn lemma_word_end(w: Seq<char>, p: int)
    requires
        0 <= p <= w.len(),
        forall|i: int| p <= i < w.len() ==> is_ident_char(#[trigger] w[i]),
    ensures
        ident_end(w, p) == w.len(),
    decreases w.len() - p,
{
    if p < w.len() {
        lemma_word_end(w, p + 1);
    }
}

/// A word that is a letter or `_` followed by letters, digits and `_`, and
/// is no keyword, lexes to the identifier of that word (then `Eof`).
pub proof fn lemma_identifier_spelling(w: Seq<char>)
    requires
        w.len() > 0,
        is_ident_start(w[0]),
        forall|i: int| 1 <= i < w.len() ==> is_ident_char(#[trigger] w[i]),
        w != "let"@ && w != "if"@ && w != "else"@ && w != "fn"@ && w != "return"@,
    ensures
        lex_from(w, 0) == Ok::<Seq<SpecToken>, SpecError>(seq![SpecToken::Ident(w), SpecToken::Eof]),
{
    assert(!unicode_whitespace(w[0]));
    assert(skip_ws(w, 0) == 0);
    lemma_word_end(w, 1);
    assert(w.subrange(0, w.len() as int) =~= w);
    assert(skip_ws(w, w.len() as int) == w.len());
    assert(!is_digit(w[0]));
    assert(keyword_or_ident(w) == SpecToken::Ident(w));
    assert(lex_token(w, 0) == Ok::<(SpecToken, int), SpecError>((SpecToken::Ident(w), w.len() as int)));
    lemma_token_advances(w, 0);
    assert(lex_from(w, w.len() as int) == Ok::<Seq<SpecToken>, SpecError>(seq![SpecToken::Eof]));
    assert(seq![SpecToken::Ident(w)] + seq![SpecToken::Eof] =~= seq![SpecToken::Ident(w), SpecToken::Eof]);
}

// ── White space around a source ──────────────────────────────────────

/// Whether every char of `w` is white space.
pub open spec fn all_whitespace(w: Seq<char>) -> bool {
    forall|i: int| 0 <= i < w.len() ==> unicode_whitespace(#[trigger] w[i])
}

/// A lexing result with its error position moved `k` chars on.
pub open spec fn shift_lex(r: Result<Seq<SpecToken>, SpecError>, k: nat) -> Result<
    Seq<SpecToken>,
    SpecError,
> {
    match r {
        Err(SpecError::Lex { message, pos }) => Err(SpecError::Lex { message, pos: pos + k }),
        _ => r,
    }
}

/// A token result with its end or its error position moved `k` chars on.
pub open spec fn shift_token(r: Result<(SpecToken, int), SpecError>, k: nat) -> Result<
    (SpecToken, int),
    SpecError,
> {
    match r {
        Ok((t, e)) => Ok((t, e + k)),
        Err(SpecError::Lex { message, pos }) => Err(SpecError::Lex { message, pos: pos + k }),
        Err(x) => Err(x),
    }
}

proof fn lemma_skip_lead(cs: Seq<char>, k: int, p: int)
    requires
        0 <= p <= k <= cs.len(),
        forall|i: int| 0 <= i < k ==> unicode_whitespace(#[trigger] cs[i]),
    ensures
        skip_ws(cs, p) == skip_ws(cs, k),
    decreases k - p,
{
    if p < k {
        lemma_skip_lead(cs, k, p + 1);
    }
}

proof fn lemma_skip_trail(cs: Seq<char>, m: int, p: int)
    requires
        0 <= m <= p <= cs.len(),
        forall|i: int| m <= i < cs.len() ==> unicode_whitespace(#[trigger] cs[i]),
    ensures
        skip_ws(cs, p) == cs.len(),
    decreases cs.len() - p,
{
    if p < cs.len() {
        lemma_skip_trail(cs, m, p + 1);
    }
}

/// Facts about `cs == w1 + s + w2` with white space around `s`.
pub open spec fn padded(cs: Seq<char>, k: int, s: Seq<char>) -> bool {
    &&& 0 <= k
    &&& k + s.len() <= cs.len()
    &&& forall|i: int| 0 <= i < s.len() ==> #[trigger] cs[k + i] == s[i]
    &&& forall|i: int| 0 <= i < k ==> unicode_whitespace(#[trigger] cs[i])
    &&& forall|i: int| k + s.len() <= i < cs.len() ==> unicode_whitespace(#[trigger] cs[i])
}

proof fn lemma_skip_shift(cs: Seq<char>, k: int, s: Seq<char>, p: int)
    requires
        padded(cs, k, s),
        0 <= p <= s.len(),
    ensures
        skip_ws(s, p) < s.len() ==> skip_ws(cs, k + p) == k + skip_ws(s, p),
        skip_ws(s, p) >= s.len() ==> skip_ws(cs, k + p) == cs.len(),
    decreases s.len() - p,
{
    if p < s.len() {
        assert(cs[k + p] == s[p]);
        lemma_skip_shift(cs, k, s, p + 1);
    } else {
        lemma_skip_trail(cs, k + s.len(), k + p);
    }
}

proof fn lemma_number_end_shift(cs: Seq<char>, k: int, s: Seq<char>, p: int)
    requires
        padded(cs, k, s),
        0 <= p <= s.len(),
    ensures
        number_end(cs, k + p) == k + number_end(s, p),
    decreases s.len() - p,
{
    if p < s.len() {
        assert(cs[k + p] == s[p]);
        lemma_number_end_shift(cs, k, s, p + 1);
    } else if k + p < cs.len() {
        assert(unicode_whitespace(cs[k + p]));
    }
}

proof fn lemma_ident_end_shift(cs: Seq<char>, k: int, s: Seq<char>, p: int)
    requires
        padded(cs, k, s),
        0 <= p <= s.len(),
    ensures
        ident_end(cs, k + p) == k + ident_end(s, p),
    decreases s.len() - p,
{
    if p < s.len() {
        assert(cs[k + p] == s[p]);
        lemma_ident_end_shift(cs, k, s, p + 1);
    } else if k + p < cs.len() {
        assert(unicode_whitespace(cs[k + p]));
    }
}

proof fn lemma_token_shift(cs: Seq<char>, k: int, s: Seq<char>, q: int)
    requires
        padded(cs, k, s),
        0 <= q < s.len(),
    ensures
        lex_token(cs, k + q) == shift_token(lex_token(s, q), k as nat),
{
    assert(cs[k + q] == s[q]);
    let c = s[q];
    lemma_scan_ends(s, q);
    lemma_scan_ends(s, q + 1);
    if is_digit(c) {
        lemma_number_end_shift(cs, k, s, q);
        let e = number_end(s, q);
        assert forall|j: int| 0 <= j < e - q implies #[trigger] cs.subrange(k + q, k + e)[j]
            == s.subrange(q, e)[j] by {
            assert(cs[k + (q + j)] == s[q + j]);
        }
        assert(cs.subrange(k + q, k + e) =~= s.subrange(q, e));
    } else if is_ident_start(c) {
        lemma_ident_end_shift(cs, k, s, q + 1);
        let e = ident_end(s, q + 1);
        assert forall|j: int| 0 <= j < e - q implies #[trigger] cs.subrange(k + q, k + e)[j]
            == s.subrange(q, e)[j] by {
            assert(cs[k + (q + j)] == s[q + j]);
        }
        assert(cs.subrange(k + q, k + e) =~= s.subrange(q, e));
    } else {
        if q + 1 < s.len() {
            assert(cs[k + (q + 1)] == s[q + 1]);
            assert(k + (q + 1) == k + q + 1);
        } else if k + q + 1 < cs.len() {
            assert(unicode_whitespace(cs[k + q + 1]));
        }
        assert(followed_by(cs, k + q, '=') == followed_by(s, q, '='));
    }
}

proof fn lemma_lex_shift(cs: Seq<char>, k: int, s: Seq<char>, p: int)
    requires
        padded(cs, k, s),
        0 <= p <= s.len(),
    ensures
        lex_from(cs, k + p) == shift_lex(lex_from(s, p), k as nat),
    decreases s.len() - p,
{
    lemma_skip_shift(cs, k, s, p);
    lemma_scan_ends(s, p);
    let q = skip_ws(s, p);
    if q < s.len() {
        lemma_token_shift(cs, k, s, q);
        lemma_token_advances(s, q);
        assert(skip_ws(cs, k + p) == k + q);
        match lex_token(s, q) {
            Ok((t, e)) => {
                lemma_lex_shift(cs, k, s, e);
            },
            Err(x) => {},
        }
    }
}

/// White space around a source changes nothing but error positions: the
/// tokens stay the same, and an error is the same error, `w1.len()` chars
/// further on.
pub proof fn lemma_whitespace_padding(w1: Seq<char>, s: Seq<char>, w2: Seq<char>)
    requires
        all_whitespace(w1),
        all_whitespace(w2),
    ensures
        lex_from(w1 + s + w2, 0) == shift_lex(lex_from(s, 0), w1.len()),
{
    let cs = w1 + s + w2;
    let k = w1.len() as int;
    assert forall|i: int| 0 <= i < s.len() implies #[trigger] cs[k + i] == s[i] by {}
    assert forall|i: int| 0 <= i < k implies unicode_whitespace(#[trigger] cs[i]) by {
        assert(cs[i] == w1[i]);
    }
    assert forall|i: int| k + s.len() <= i < cs.len() implies unicode_whitespace(#[trigger] cs[i]) by {
        assert(cs[i] == w2[i - k - s.len()]);
    }
    assert(padded(cs, k, s));
    lemma_lex_shift(cs, k, s, 0);
    lemma_skip_lead(cs, k, 0);
    assert(lex_from(cs, 0) == lex_from(cs, k));
}

pub open spec fn tokens_view(ts: Seq<Token>) -> Seq<SpecToken> {
    ts.map_values(|t: Token| t@)
}

pub open spec fn lex_result_view(r: Result<Vec<Token>, GroveError>) -> Result<Seq<SpecToken>, SpecError> {
    match r {
        Ok(ts) => Ok(tokens_view(ts@)),
        Err(e) => Err(e@),
    }
}

// ── Lexer ──────────────────────────────────────────────────────────────

/// Lexer: converts source text into a token stream.
pub struct Lexer {
    chars: Vec<char>,
    pos: usize,
}

impl Lexer {
    /// The source text, as chars.
    pub closed spec fn source(self) -> Seq<char> {
        self.chars@
    }

    /// The position of the next char to read.
    pub closed spec fn position(self) -> int {
        self.pos as int
    }

    /// Create a new lexer for the given source text.
    pub fn new(input: &str) -> (r: Self)
        ensures
            r.source() == input@,
            r.position() == 0,
    {
        let n = input.unicode_len();
        let mut chars: Vec<char> = Vec::new();
        let mut i: usize = 0;
        while i < n
            invariant
                n == input@.len(),
                0 <= i <= n,
                chars@ == input@.take(i as int),
            decreases n - i,
        {
            chars.push(input.get_char(i));
            assert(chars@ =~= input@.take(i + 1));
            i = i + 1;
        }
        assert(chars@ =~= input@);
        Lexer { chars, pos: 0 }
    }

    fn peek(&self) -> (r: Option<char>)
        ensures
            r == (if self.pos < self.chars.len() {
                Some(self.chars@[self.pos as int])
            } else {
                None
            }),
    {
        if self.pos < self.chars.len() {
            Some(self.chars[self.pos])
        } else {
            None
        }
    }

    fn next_is(&self, c: char) -> (r: bool)
        ensures
            r == (0 <= self.pos < self.chars@.len() && self.chars@[self.pos as int] == c),
    {
        self.pos < self.chars.len() && self.chars[self.pos] == c
    }

    fn advance(&mut self) -> (r: Option<char>)
        ensures
            final(self).chars == old(self).chars,
            r == (if old(self).pos < old(self).chars.len() {
                Some(old(self).chars@[old(self).pos as int])
            } else {
                None
            }),
            final(self).pos == if r is Some { old(self).pos + 1 } else { old(self).pos as int },
    {
        let ch = self.peek();
        if ch.is_some() {
            self.pos += 1;
        }
        ch
    }

    fn skip_whitespace(&mut self)
        ensures
            final(self).chars == old(self).chars,
            final(self).pos == skip_ws(old(self).chars@, old(self).pos as int),
    {
        let ghost cs = self.chars@;
        while self.pos < self.chars.len() && is_whitespace(self.chars[self.pos])
            invariant
                self.chars@ == cs,
                self.chars == old(self).chars,
                skip_ws(cs, self.pos as int) == skip_ws(cs, old(self).pos as int),
            decreases self.chars@.len() - self.pos,
        {
            self.pos += 1;
        }
    }

    /// Reads a number literal starting at a digit.
    fn read_number(&mut self) -> (r: Token)
        requires
            old(self).pos < old(self).chars.len(),
            is_digit(old(self).chars@[old(self).pos as int]),
        ensures
            final(self).chars == old(self).chars,
            lex_token(old(self).chars@, old(self).pos as int) == Ok::<(SpecToken, int), SpecError>(
                (r@, final(self).pos as int),
            ),
    {
        let ghost cs = self.chars@;
        let start = self.pos;
        let mut m: u128 = 0;
        let mut too_big = false;
        let mut dots: usize = 0;
        let mut frac: usize = 0;
        while self.pos < self.chars.len() && (('0' <= self.chars[self.pos] && self.chars[self.pos]
            <= '9') || self.chars[self.pos] == '.')
            invariant
                self.chars@ == cs,
                self.chars == old(self).chars,
                start <= self.pos <= cs.len(),
                number_end(cs, start as int) == number_end(cs, self.pos as int),
                dots == count_dots(cs.subrange(start as int, self.pos as int)),
                dots <= self.pos - start,
                dots == 1 ==> frac == fraction_len(cs.subrange(start as int, self.pos as int)),
                frac <= self.pos - start,
                !too_big ==> m == digits_value(literal_digits(cs.subrange(start as int, self.pos as int))),
                !too_big ==> m <= literal_bound(),
                too_big ==> digits_value(literal_digits(cs.subrange(start as int, self.pos as int)))
                    > literal_bound(),
                forall|i: int| start <= i < self.pos ==> is_number_char(#[trigger] cs[i]),
            decreases cs.len() - self.pos,
        {
            let c = self.chars[self.pos];
            let ghost prev = cs.subrange(start as int, self.pos as int);
            let ghost next = cs.subrange(start as int, self.pos + 1);
            proof {
                assert(next.drop_last() =~= prev);
                assert(next.last() == c);
                assert(next =~= prev.push(c));
                lemma_filter_push(prev, c);
                lemma_digits_push(literal_digits(prev), c);
            }
            if c == '.' {
                dots = dots + 1;
                frac = 0;
            } else {
                if dots == 1 {
                    frac = frac + 1;
                }
                let d = (c as u32 - 48) as u128;
                if !too_big {
                    if m > (0x7fff_ffff_ffff_ffff_ffff_ffff_ffff_ffff - d) / 10 {
                        too_big = true;
                    } else {
                        m = m * 10 + d;
                    }
                }
            }
            self.pos += 1;
        }
        let ghost text = cs.subrange(start as int, self.pos as int);
        proof {
            lemma_scan_ends(cs, self.pos as int);
        }
        if dots >= 2 {
            return Token::Number(Num::from_int(0));
        }
        let k = if dots == 1 { frac } else { 0 };
        if too_big || k > 38 {
            proof {
                if !too_big {
                    lemma_pow10_big(k as nat);
                }
            }
            return Token::Numeral(text_between(&self.chars, start, self.pos));
        }
        let mut d: u128 = 1;
        let mut i: usize = 0;
        while i < k
            invariant
                0 <= i <= k <= 38,
                d == pow10(i as nat),
            decreases k - i,
        {
            proof {
                lemma_pow10_small(i as nat);
            }
            d = d * 10;
            i = i + 1;
        }
        proof {
            lemma_pow10_small(k as nat);
        }
        match make_exec(m as i128, d as i128) {
            Some(v) => Token::Number(v),
            None => Token::Numeral(text_between(&self.chars, start, self.pos)),
        }
    }

    /// Reads an identifier or keyword starting at a letter or underscore.
    fn read_ident(&mut self) -> (r: String)
        requires
            old(self).pos < old(self).chars.len(),
        ensures
            final(self).chars == old(self).chars,
            final(self).pos == ident_end(old(self).chars@, old(self).pos + 1),
            r@ == old(self).chars@.subrange(old(self).pos as int, final(self).pos as int),
    {
        let ghost cs = self.chars@;
        let start = self.pos;
        let mut word = String::new();
        push_char(&mut word, self.chars[self.pos]);
        assert(word@ =~= cs.subrange(start as int, start + 1));
        self.pos += 1;
        while self.pos < self.chars.len() && (is_alphanumeric(self.chars[self.pos])
            || self.chars[self.pos] == '_')
            invariant
                self.chars@ == cs,
                self.chars == old(self).chars,
                start < self.pos <= cs.len(),
                ident_end(cs, start + 1) == ident_end(cs, self.pos as int),
                word@ == cs.subrange(start as int, self.pos as int),
            decreases cs.len() - self.pos,
        {
            push_char(&mut word, self.chars[self.pos]);
            assert(word@ =~= cs.subrange(start as int, self.pos + 1));
            self.pos += 1;
        }
        word
    }

    /// Lex the entire input into a token vector.
    pub fn tokenize(&mut self) -> (r: Result<Vec<Token>, GroveError>)
        ensures
            lex_result_view(r) == lex_from(old(self).source(), old(self).position()),
            final(self).source() == old(self).source(),
            r is Ok ==> final(self).position() == if old(self).position() <= old(self).source().len() {
                old(self).source().len() as int
            } else {
                old(self).position()
            },
    {
        let ghost cs = self.chars@;
        let ghost p0 = self.pos as int;
        let mut tokens: Vec<Token> = Vec::new();
        loop
            invariant
                self.chars@ == cs,
                cs == old(self).chars@,
                p0 == old(self).pos,
                p0 >= 0,
                self.pos <= cs.len() || self.pos == p0,
                p0 > cs.len() ==> self.pos == p0,
                lex_from(cs, p0) == prepend(tokens_view(tokens@), lex_from(cs, self.pos as int)),
            decreases cs.len() - self.pos + 1,
        {
            let ghost p = self.pos as int;
            self.skip_whitespace();
            proof {
                lemma_scan_ends(cs, p);
            }
            match self.peek() {
                None => {
                    assert(lex_from(cs, p) == Ok::<Seq<SpecToken>, SpecError>(seq![SpecToken::Eof]));
                    let ghost before = tokens_view(tokens@);
                    tokens.push(Token::Eof);
                    assert(tokens_view(tokens@) =~= before + seq![SpecToken::Eof]);
                    proof {
                        assert(tokens_view(tokens@) =~= tokens_view(tokens@.drop_last()).push(
                            SpecToken::Eof,
                        ));
                        assert(tokens_view(tokens@) =~= tokens_view(tokens@.drop_last()) + seq![
                            SpecToken::Eof,
                        ]);
                        assert(self.pos >= cs.len());
                        if p0 <= cs.len() {
                            assert(p <= cs.len());
                            assert(self.pos == cs.len());
                        } else {
                            assert(p == p0);
                            assert(self.pos == p0);
                        }
                    }
                    return Ok(tokens);
                },
                Some(ch) => {
                    let ghost q = self.pos as int;
                    proof {
                        lemma_token_advances(cs, q);
                        assert(skip_ws(cs, p) == q);
                        assert(lex_from(cs, p) == match lex_token(cs, q) {
                            Ok((t, e)) => prepend(seq![t], lex_from(cs, e)),
                            Err(x) => Err(x),
                        });
                    }
                    let tok = if '0' <= ch && ch <= '9' {
                        self.read_number()
                    } else if ('a' <= ch && ch <= 'z') || ('A' <= ch && ch <= 'Z') || ch == '_' {
                        let word = self.read_ident();
                        keyword_token(word)
                    } else if ch == '+' {
                        self.advance();
                        Token::Plus
                    } else if ch == '-' {
                        self.advance();
                        Token::Minus
                    } else if ch == '*' {
                        self.advance();
                        Token::Star
                    } else if ch == '/' {
                        self.advance();
                        Token::Slash
                    } else if ch == '(' {
                        self.advance();
                        Token::LParen
                    } else if ch == ')' {
                        self.advance();
                        Token::RParen
                    } else if ch == '{' {
                        self.advance();
                        Token::LBrace
                    } else if ch == '}' {
                        self.advance();
                        Token::RBrace
                    } else if ch == ';' {
                        self.advance();
                        Token::Semicolon
                    } else if ch == ',' {
                        self.advance();
                        Token::Comma
                    } else if ch == '=' {
                        self.advance();
                        if self.next_is('=') {
                            self.advance();
                            Token::Eq
                        } else {
                            Token::Assign
                        }
                    } else if ch == '!' {
                        self.advance();
                        if self.next_is('=') {
                            self.advance();
                            Token::Neq
                        } else {
                            return Err(GroveError::Lex {
                                message: String::from_str("expected '=' after '!'"),
                                pos: self.pos,
                            });
                        }
                    } else if ch == '<' {
                        self.advance();
                        if self.next_is('=') {
                            self.advance();
                            Token::Le
                        } else {
                            Token::Lt
                        }
                    } else if ch == '>' {
                        self.advance();
                        if self.next_is('=') {
                            self.advance();
                            Token::Ge
                        } else {
                            Token::Gt
                        }
                    } else {
                        let mut message = String::from_str("unexpected character: ");
                        push_char(&mut message, ch);
                        assert(lex_token(cs, q) == Err::<(SpecToken, int), SpecError>(
                            lex_error("unexpected character: "@.push(ch), q),
                        ));
                        return Err(GroveError::Lex { message, pos: self.pos });
                    };
                    proof {
                        assert(lex_token(cs, q) == Ok::<(SpecToken, int), SpecError>((tok@, self.pos as int)));
                    }
                    let ghost before = tokens_view(tokens@);
                    tokens.push(tok);
                    proof {
                        assert(tokens_view(tokens@) =~= before.push(tok@));
                        assert(lex_from(cs, p) == prepend(seq![tok@], lex_from(cs, self.pos as int)));
                        lemma_prepend_assoc(before, seq![tok@], lex_from(cs, self.pos as int));
                        assert(before + seq![tok@] =~= before.push(tok@));
                    }
                },
            }
        }
    }
}

/// The chars of `chars` from `start` up to `end`, as a string.
fn text_between(chars: &Vec<char>, start: usize, end: usize) -> (r: String)
    requires
        start <= end <= chars.len(),
    ensures
        r@ == chars@.subrange(start as int, end as int),
{
    let mut text = String::new();
    let mut i = start;
    while i < end
        invariant
            start <= i <= end <= chars.len(),
            text@ == chars@.subrange(start as int, i as int),
        decreases end - i,
    {
        push_char(&mut text, chars[i]);
        assert(text@ =~= chars@.subrange(start as int, i + 1));
        i = i + 1;
    }
    text
}

/// `ts` followed by the tokens of `r`, when `r` has them.
pub open spec fn prepend(ts: Seq<SpecToken>, r: Result<Seq<SpecToken>, SpecError>) -> Result<
    Seq<SpecToken>,
    SpecError,
> {
    match r {
        Ok(rest) => Ok(ts + rest),
        Err(e) => Err(e),
    }
}

proof fn lemma_prepend_assoc(
    a: Seq<SpecToken>,
    b: Seq<SpecToken>,
    r: Result<Seq<SpecToken>, SpecError>,
)
    ensures
        prepend(a, prepend(b, r)) == prepend(a + b, r),
{
    if let Ok(rest) = r {
        assert(a + (b + rest) =~= (a + b) + rest);
    }
}

proof fn lemma_digits_push(s: Seq<char>, c: char)
    ensures
        digits_value(s.push(c)) == digits_value(s) * 10 + ((c as nat) - 48) as nat,
{
    assert(s.push(c).drop_last() =~= s);
}

proof fn lemma_filter_push(s: Seq<char>, c: char)
    ensures
        literal_digits(s.push(c)) == if c != '.' {
            literal_digits(s).push(c)
        } else {
            literal_digits(s)
        },
{
    assert(s.push(c).drop_last() =~= s);
}

proof fn lemma_pow10_mono(a: nat, b: nat)
    requires
        a <= b,
    ensures
        pow10(a) <= pow10(b),
    decreases b,
{
    if a < b {
        lemma_pow10_mono(a, (b - 1) as nat);
    }
}

proof fn lemma_pow10_small(k: nat)
    requires
        k <= 38,
    ensures
        k <= 37 ==> pow10(k) <= 10_000_000_000_000_000_000_000_000_000_000_000_000,
        pow10(k) <= 100_000_000_000_000_000_000_000_000_000_000_000_000,
{
    reveal_with_fuel(pow10, 40);
    assert(pow10(37) == 10_000_000_000_000_000_000_000_000_000_000_000_000nat);
    assert(pow10(38) == 100_000_000_000_000_000_000_000_000_000_000_000_000nat);
    if k <= 37 {
        lemma_pow10_mono(k, 37);
    }
    lemma_pow10_mono(k, 38);
}

proof fn lemma_pow10_big(k: nat)
    requires
        k > 38,
    ensures
        pow10(k) > literal_bound(),
    decreases k,
{
    if k == 39 {
        reveal_with_fuel(pow10, 40);
        assert(pow10(39) == 1_000_000_000_000_000_000_000_000_000_000_000_000_000nat);
    } else {
        lemma_pow10_big((k - 1) as nat);
    }
}

/// The keyword token a word spells, or an identifier token.
fn keyword_token(word: String) -> (r: Token)
    ensures
        r@ == keyword_or_ident(word@),
{
    if word == String::from_str("let") {
        Token::Let
    } else if word == String::from_str("if") {
        Token::If
    } else if word == String::from_str("else") {
        Token::Else
    } else if word == String::from_str("fn") {
        Token::Fn
    } else if word == String::from_str("return") {
        Token::Return
    } else {
        Token::Ident(word)
    }
}

} // verus!

verus! {

// ── The parser's specification ─────────────────────────────────────────

/// A parse result: the value and the position after it, or an error.
pub type PRes<T> = Result<(T, int), SpecError>;

/// The token at `p`; `Eof` past the end.
pub open spec fn tok(ts: Seq<SpecToken>, p: int) -> SpecToken {
    if 0 <= p < ts.len() {
        ts[p]
    } else {
        SpecToken::Eof
    }
}

pub open spec fn perr(message: Seq<char>, pos: int) -> SpecError {
    SpecError::Parse { message, pos: pos as nat }
}

/// Moving forward from `p` to `q`, within the tokens.
pub open spec fn fwd(ts: Seq<SpecToken>, p: int, q: int) -> bool {
    p < q <= ts.len()
}

/// The error for a position that does not move forward. Parsing always
/// moves forward, so it never arises: every error the parser reports has a
/// message (`parse_failure`, in the contract of `Parser::parse_program`),
/// and this one has none.
pub open spec fn stuck() -> SpecError {
    perr(seq![], 0)
}

/// Consumes the token `t` at `p`: the next position, or the error
/// `expected .., got ..` at the position after it.
pub open spec fn expect_at(ts: Seq<SpecToken>, p: int, t: SpecToken) -> Result<int, SpecError> {
    if tok(ts, p) == t {
        Ok(p + 1)
    } else {
        Err(perr("expected "@ + token_name(t) + ", got "@ + token_name(tok(ts, p)), p + 1))
    }
}

pub open spec fn zero_lit() -> SpecExpr {
    SpecExpr::Literal(spec_int(0))
}

/// The value of a branch block used as an expression: its only statement
/// when that is an expression or `return` statement, otherwise zero.
pub open spec fn single_expr(b: Seq<SpecStmt>) -> SpecExpr {
    if b.len() == 1 {
        match b[0] {
            SpecStmt::Expr(e) => e,
            SpecStmt::Return(e) => e,
            _ => zero_lit(),
        }
    } else {
        zero_lit()
    }
}

pub open spec fn is_comparison(op: BinOp) -> bool {
    op == BinOp::Eq || op == BinOp::Neq || op == BinOp::Lt || op == BinOp::Gt || op == BinOp::Le
        || op == BinOp::Ge
}

/// `if cond { block } [else { block } | else if ..]` as an expression.
pub open spec fn p_if_expr(ts: Seq<SpecToken>, p: int) -> PRes<SpecExpr>
    decreases ts.len() - p, 0int,
{
    if !fwd(ts, p, p + 1) {
        Err(stuck())
    } else {
        match p_expr(ts, p + 1) {
            Err(x) => Err(x),
            Ok((c, p1)) => match expect_at(ts, p1, SpecToken::LBrace) {
                Err(x) => Err(x),
                Ok(q1) => if !fwd(ts, p, q1) {
                    Err(stuck())
                } else {
                    match p_block(ts, q1) {
                        Err(x) => Err(x),
                        Ok((tb, p2)) => match expect_at(ts, p2, SpecToken::RBrace) {
                            Err(x) => Err(x),
                            Ok(p3) => {
                                let te = single_expr(tb);
                                if tok(ts, p3) is Else {
                                    if tok(ts, p3 + 1) is LBrace {
                                        if !fwd(ts, p, p3 + 2) {
                                            Err(stuck())
                                        } else {
                                            match p_block(ts, p3 + 2) {
                                                Err(x) => Err(x),
                                                Ok((eb, p4)) => match expect_at(ts, p4, SpecToken::RBrace) {
                                                    Err(x) => Err(x),
                                                    Ok(p5) => Ok(
                                                        (
                                                            SpecExpr::If(
                                                                Box::new(c),
                                                                Box::new(te),
                                                                Box::new(single_expr(eb)),
                                                            ),
                                                            p5,
                                                        ),
                                                    ),
                                                },
                                            }
                                        }
                                    } else if tok(ts, p3 + 1) is If {
                                        if !fwd(ts, p, p3 + 1) {
                                            Err(stuck())
                                        } else {
                                            match p_if_expr(ts, p3 + 1) {
                                                Err(x) => Err(x),
                                                Ok((ee, p5)) => Ok(
                                                    (SpecExpr::If(Box::new(c), Box::new(te), Box::new(ee)), p5),
                                                ),
                                            }
                                        }
                                    } else {
                                        Ok(
                                            (
                                                SpecExpr::If(Box::new(c), Box::new(te), Box::new(zero_lit())),
                                                p3 + 1,
                                            ),
                                        )
                                    }
                                } else {
                                    Ok(
                                        (
                                            SpecExpr::If(Box::new(c), Box::new(te), Box::new(zero_lit())),
                                            p3,
                                        ),
                                    )
                                }
                            },
                        },
                    }
                },
            },
        }
    }
}

/// The remaining arguments of a call: `, expr` repeated.
pub open spec fn p_args(ts: Seq<SpecToken>, acc: Seq<SpecExpr>, p: int) -> PRes<Seq<SpecExpr>>
    decreases ts.len() - p, 0int,
{
    if tok(ts, p) is Comma && fwd(ts, p, p + 1) {
        match p_expr(ts, p + 1) {
            Err(x) => Err(x),
            Ok((a, p1)) => if fwd(ts, p, p1) {
                p_args(ts, acc.push(a), p1)
            } else {
                Err(stuck())
            },
        }
    } else {
        Ok((acc, p))
    }
}

/// Completes a call once its arguments are parsed: expects `)`.
pub open spec fn finish_call(ts: Seq<SpecToken>, name: Seq<char>, r: PRes<Seq<SpecExpr>>) -> PRes<SpecExpr> {
    match r {
        Err(x) => Err(x),
        Ok((args, p2)) => match expect_at(ts, p2, SpecToken::RParen) {
            Err(x) => Err(x),
            Ok(p3) => Ok((SpecExpr::Call(name, args), p3)),
        },
    }
}

/// A call `name(args)` whose name stands at `p`.
pub open spec fn p_call(ts: Seq<SpecToken>, name: Seq<char>, p: int) -> PRes<SpecExpr>
    decreases ts.len() - p, 0int,
{
    if tok(ts, p + 2) is RParen {
        Ok((SpecExpr::Call(name, seq![]), p + 3))
    } else if !fwd(ts, p, p + 2) {
        Err(stuck())
    } else {
        match p_expr(ts, p + 2) {
            Err(x) => Err(x),
            Ok((a, p1)) => if !fwd(ts, p, p1) {
                Err(stuck())
            } else {
                finish_call(ts, name, p_args(ts, seq![a], p1))
            },
        }
    }
}

/// A number, a variable, a call, a parenthesized expression or an `if`.
pub open spec fn p_primary(ts: Seq<SpecToken>, p: int) -> PRes<SpecExpr>
    decreases ts.len() - p, 1int,
{
    match tok(ts, p) {
        SpecToken::Number(n) => Ok((SpecExpr::Literal(n), p + 1)),
        SpecToken::Numeral(text) => Ok((SpecExpr::Numeral(text), p + 1)),
        SpecToken::Ident(name) => if tok(ts, p + 1) is LParen {
            p_call(ts, name, p)
        } else {
            Ok((SpecExpr::Var(name), p + 1))
        },
        SpecToken::LParen => if !fwd(ts, p, p + 1) {
            Err(stuck())
        } else {
            match p_expr(ts, p + 1) {
                Err(x) => Err(x),
                Ok((e, p1)) => match expect_at(ts, p1, SpecToken::RParen) {
                    Err(x) => Err(x),
                    Ok(p2) => Ok((e, p2)),
                },
            }
        },
        SpecToken::If => p_if_expr(ts, p),
        t => Err(perr("unexpected token in expression: "@ + token_name(t), p)),
    }
}

/// Prefix negations, then a primary expression.
pub open spec fn p_unary(ts: Seq<SpecToken>, p: int) -> PRes<SpecExpr>
    decreases ts.len() - p, 2int,
{
    if tok(ts, p) is Minus && fwd(ts, p, p + 1) {
        match p_unary(ts, p + 1) {
            Err(x) => Err(x),
            Ok((e, p1)) => Ok((SpecExpr::Unary(UnOp::Neg, Box::new(e)), p1)),
        }
    } else {
        p_primary(ts, p)
    }
}

pub open spec fn mul_op(t: SpecToken) -> Option<BinOp> {
    match t {
        SpecToken::Star => Some(BinOp::Mul),
        SpecToken::Slash => Some(BinOp::Div),
        _ => None,
    }
}

pub open spec fn add_op(t: SpecToken) -> Option<BinOp> {
    match t {
        SpecToken::Plus => Some(BinOp::Add),
        SpecToken::Minus => Some(BinOp::Sub),
        _ => None,
    }
}

pub open spec fn cmp_op(t: SpecToken) -> Option<BinOp> {
    match binop_of(t) {
        Some(op) => if is_comparison(op) { Some(op) } else { None },
        None => None,
    }
}

/// `(* unary | / unary)*` after `left`, associating to the left.
pub open spec fn p_mul_loop(ts: Seq<SpecToken>, left: SpecExpr, p: int) -> PRes<SpecExpr>
    decreases ts.len() - p, 3int,
{
    match mul_op(tok(ts, p)) {
        Some(op) => if !fwd(ts, p, p + 1) {
            Err(stuck())
        } else {
            match p_unary(ts, p + 1) {
                Err(x) => Err(x),
                Ok((r, p1)) => if fwd(ts, p, p1) {
                    p_mul_loop(ts, SpecExpr::Binary(Box::new(left), op, Box::new(r)), p1)
                } else {
                    Err(stuck())
                },
            }
        },
        None => Ok((left, p)),
    }
}

pub open spec fn p_multiplication(ts: Seq<SpecToken>, p: int) -> PRes<SpecExpr>
    decreases ts.len() - p, 4int,
{
    match p_unary(ts, p) {
        Err(x) => Err(x),
        Ok((l, p1)) => if fwd(ts, p, p1) {
            p_mul_loop(ts, l, p1)
        } else {
            Err(stuck())
        },
    }
}

/// `(+ term | - term)*` after `left`, associating to the left.
pub open spec fn p_add_loop(ts: Seq<SpecToken>, left: SpecExpr, p: int) -> PRes<SpecExpr>
    decreases ts.len() - p, 5int,
{
    match add_op(tok(ts, p)) {
        Some(op) => if !fwd(ts, p, p + 1) {
            Err(stuck())
        } else {
            match p_multiplication(ts, p + 1) {
                Err(x) => Err(x),
                Ok((r, p1)) => if fwd(ts, p, p1) {
                    p_add_loop(ts, SpecExpr::Binary(Box::new(left), op, Box::new(r)), p1)
                } else {
                    Err(stuck())
                },
            }
        },
        None => Ok((left, p)),
    }
}

pub open spec fn p_addition(ts: Seq<SpecToken>, p: int) -> PRes<SpecExpr>
    decreases ts.len() - p, 6int,
{
    match p_multiplication(ts, p) {
        Err(x) => Err(x),
        Ok((l, p1)) => if fwd(ts, p, p1) {
            p_add_loop(ts, l, p1)
        } else {
            Err(stuck())
        },
    }
}

/// `(cmp sum)*` after `left`, associating to the left.
pub open spec fn p_comp_loop(ts: Seq<SpecToken>, left: SpecExpr, p: int) -> PRes<SpecExpr>
    decreases ts.len() - p, 7int,
{
    match cmp_op(tok(ts, p)) {
        Some(op) => if !fwd(ts, p, p + 1) {
            Err(stuck())
        } else {
            match p_addition(ts, p + 1) {
                Err(x) => Err(x),
                Ok((r, p1)) => if fwd(ts, p, p1) {
                    p_comp_loop(ts, SpecExpr::Binary(Box::new(left), op, Box::new(r)), p1)
                } else {
                    Err(stuck())
                },
            }
        },
        None => Ok((left, p)),
    }
}

pub open spec fn p_comparison(ts: Seq<SpecToken>, p: int) -> PRes<SpecExpr>
    decreases ts.len() - p, 8int,
{
    match p_addition(ts, p) {
        Err(x) => Err(x),
        Ok((l, p1)) => if fwd(ts, p, p1) {
            p_comp_loop(ts, l, p1)
        } else {
            Err(stuck())
        },
    }
}

/// An expression: comparisons of sums of products of unary expressions.
pub open spec fn p_expr(ts: Seq<SpecToken>, p: int) -> PRes<SpecExpr>
    decreases ts.len() - p, 9int,
{
    p_comparison(ts, p)
}

/// `let name = expr;`
pub open spec fn p_let(ts: Seq<SpecToken>, p: int) -> PRes<SpecStmt>
    decreases ts.len() - p, 10int,
{
    match tok(ts, p + 1) {
        SpecToken::Ident(name) => match expect_at(ts, p + 2, SpecToken::Assign) {
            Err(x) => Err(x),
            Ok(q) => if !fwd(ts, p, q) {
                Err(stuck())
            } else {
                match p_expr(ts, q) {
                    Err(x) => Err(x),
                    Ok((e, p1)) => match expect_at(ts, p1, SpecToken::Semicolon) {
                        Err(x) => Err(x),
                        Ok(p2) => Ok((SpecStmt::Let(name, e), p2)),
                    },
                }
            },
        },
        t => Err(perr("expected identifier, got "@ + token_name(t), p + 2)),
    }
}

/// `if cond { block } [else { block } | else if ..]` as a statement.
pub open spec fn p_if_stmt(ts: Seq<SpecToken>, p: int) -> PRes<SpecStmt>
    decreases ts.len() - p, 10int,
{
    if !fwd(ts, p, p + 1) {
        Err(stuck())
    } else {
        match p_expr(ts, p + 1) {
            Err(x) => Err(x),
            Ok((c, p1)) => match expect_at(ts, p1, SpecToken::LBrace) {
                Err(x) => Err(x),
                Ok(q1) => if !fwd(ts, p, q1) {
                    Err(stuck())
                } else {
                    match p_block(ts, q1) {
                        Err(x) => Err(x),
                        Ok((tb, p2)) => match expect_at(ts, p2, SpecToken::RBrace) {
                            Err(x) => Err(x),
                            Ok(p3) => if tok(ts, p3) is Else {
                                if tok(ts, p3 + 1) is If {
                                    if !fwd(ts, p, p3 + 1) {
                                        Err(stuck())
                                    } else {
                                        match p_if_stmt(ts, p3 + 1) {
                                            Err(x) => Err(x),
                                            Ok((s, p4)) => Ok((SpecStmt::If(c, tb, seq![s]), p4)),
                                        }
                                    }
                                } else {
                                    match expect_at(ts, p3 + 1, SpecToken::LBrace) {
                                        Err(x) => Err(x),
                                        Ok(q2) => if !fwd(ts, p, q2) {
                                            Err(stuck())
                                        } else {
                                            match p_block(ts, q2) {
                                                Err(x) => Err(x),
                                                Ok((eb, p4)) => match expect_at(ts, p4, SpecToken::RBrace) {
                                                    Err(x) => Err(x),
                                                    Ok(p5) => Ok((SpecStmt::If(c, tb, eb), p5)),
                                                },
                                            }
                                        },
                                    }
                                }
                            } else {
                                Ok((SpecStmt::If(c, tb, seq![]), p3))
                            },
                        },
                    }
                },
            },
        }
    }
}

/// `return expr;`
pub open spec fn p_return(ts: Seq<SpecToken>, p: int) -> PRes<SpecStmt>
    decreases ts.len() - p, 10int,
{
    if !fwd(ts, p, p + 1) {
        Err(stuck())
    } else {
        match p_expr(ts, p + 1) {
            Err(x) => Err(x),
            Ok((e, p1)) => match expect_at(ts, p1, SpecToken::Semicolon) {
                Err(x) => Err(x),
                Ok(p2) => Ok((SpecStmt::Return(e), p2)),
            },
        }
    }
}

/// `expr;`
pub open spec fn p_expr_stmt(ts: Seq<SpecToken>, p: int) -> PRes<SpecStmt>
    decreases ts.len() - p, 10int,
{
    match p_expr(ts, p) {
        Err(x) => Err(x),
        Ok((e, p1)) => match expect_at(ts, p1, SpecToken::Semicolon) {
            Err(x) => Err(x),
            Ok(p2) => Ok((SpecStmt::Expr(e), p2)),
        },
    }
}

/// A statement: a binding, a conditional, a return, an assignment
/// `name = expr;` or an expression statement.
pub open spec fn p_stmt(ts: Seq<SpecToken>, p: int) -> PRes<SpecStmt>
    decreases ts.len() - p, 11int,
{
    match tok(ts, p) {
        SpecToken::Let => p_let(ts, p),
        SpecToken::If => p_if_stmt(ts, p),
        SpecToken::Return => p_return(ts, p),
        SpecToken::Ident(name) => if tok(ts, p + 1) is Assign {
            if !fwd(ts, p, p + 2) {
                Err(stuck())
            } else {
                match p_expr(ts, p + 2) {
                    Err(x) => Err(x),
                    Ok((e, p1)) => match expect_at(ts, p1, SpecToken::Semicolon) {
                        Err(x) => Err(x),
                        Ok(p2) => Ok((SpecStmt::Assign(name, e), p2)),
                    },
                }
            }
        } else {
            p_expr_stmt(ts, p)
        },
        _ => p_expr_stmt(ts, p),
    }
}

/// Statements up to a closing brace or the end.
pub open spec fn p_block(ts: Seq<SpecToken>, p: int) -> PRes<Seq<SpecStmt>>
    decreases ts.len() - p, 12int,
{
    if tok(ts, p) is RBrace || tok(ts, p) is Eof {
        Ok((seq![], p))
    } else {
        match p_stmt(ts, p) {
            Err(x) => Err(x),
            Ok((s, p1)) => if !fwd(ts, p, p1) {
                Err(stuck())
            } else {
                match p_block(ts, p1) {
                    Err(x) => Err(x),
                    Ok((ss, p2)) => Ok((seq![s] + ss, p2)),
                }
            },
        }
    }
}

/// Statements up to the end of the tokens.
pub open spec fn p_program(ts: Seq<SpecToken>, p: int) -> PRes<Seq<SpecStmt>>
    decreases ts.len() - p, 13int,
{
    if tok(ts, p) is Eof {
        Ok((seq![], p))
    } else {
        match p_stmt(ts, p) {
            Err(x) => Err(x),
            Ok((s, p1)) => if !fwd(ts, p, p1) {
                Err(stuck())
            } else {
                match p_program(ts, p1) {
                    Err(x) => Err(x),
                    Ok((ss, p2)) => Ok((seq![s] + ss, p2)),
                }
            },
        }
    }
}

} // verus!

verus! {

// ── Parser ─────────────────────────────────────────────────────────────

pub open spec fn expr_agrees(r: Result<Expr, GroveError>, s: PRes<SpecExpr>, q: int) -> bool {
    match s {
        Ok((v, p)) => r matches Ok(x) && x@ == v && q == p,
        Err(e) => r matches Err(x) && x@ == e && parse_failure(e, q),
    }
}

pub open spec fn stmt_agrees(r: Result<Stmt, GroveError>, s: PRes<SpecStmt>, q: int) -> bool {
    match s {
        Ok((v, p)) => r matches Ok(x) && x@ == v && q == p,
        Err(e) => r matches Err(x) && x@ == e && parse_failure(e, q),
    }
}

pub open spec fn block_agrees(r: Result<Vec<Stmt>, GroveError>, s: PRes<Seq<SpecStmt>>, q: int) -> bool {
    match s {
        Ok((v, p)) => r matches Ok(x) && stmts_view(x@) == v && q == p,
        Err(e) => r matches Err(x) && x@ == e && parse_failure(e, q),
    }
}

/// A parse error, as the parser reports them: a `Parse` error with a
/// message (never `stuck()`), at the position where the parser stopped.
pub open spec fn parse_failure(e: SpecError, q: int) -> bool {
    &&& e is Parse
    &&& e->Parse_message.len() > 0
    &&& q == e->Parse_pos
}

/// A successful parse moves forward within the tokens.
pub open spec fn moves<T>(s: PRes<T>, ts: Seq<SpecToken>, p: int) -> bool {
    s matches Ok((_, q)) ==> fwd(ts, p, q)
}

/// Lex and parse a source text into a program.
pub fn spring(source: &str) -> (r: Result<Program, GroveError>)
    requires
        source@.len() + 1 < usize::MAX,
    ensures
        match lex_from(source@, 0) {
            Err(e) => r matches Err(x) && x@ == e,
            Ok(ts) => match p_program(ts, 0) {
                Ok((ss, _)) => r matches Ok(prog) && prog@ == ss,
                Err(e) => r matches Err(x) && x@ == e && e is Parse && e->Parse_message.len() > 0,
            },
        },
{
    let mut lexer = Lexer::new(source);
    let tokens = match lexer.tokenize() {
        Err(e) => return Err(e),
        Ok(ts) => ts,
    };
    proof {
        lemma_tokens_end_with_eof(source@, 0);
    }
    let mut parser = Parser::new(tokens);
    parser.parse_program()
}

/// A successful parse stays within the tokens, never moving back.
pub open spec fn within<T>(s: PRes<T>, ts: Seq<SpecToken>, p: int) -> bool {
    s matches Ok((_, q)) ==> p <= q <= ts.len()
}

/// `pre` followed by the statements of `r`, when `r` has them.
pub open spec fn prepend_stmts(pre: Seq<SpecStmt>, r: PRes<Seq<SpecStmt>>) -> PRes<Seq<SpecStmt>> {
    match r {
        Ok((ss, q)) => Ok((pre + ss, q)),
        Err(e) => Err(e),
    }
}

/// Parser: recursive-descent parser producing a program.
pub struct Parser {
    tokens: Vec<Token>,
    pos: usize,
}

impl Parser {
    #[verifier::type_invariant]
    spec fn inv(self) -> bool {
        self.tokens.len() < usize::MAX
    }

    /// The tokens being parsed.
    pub closed spec fn toks(self) -> Seq<SpecToken> {
        tokens_view(self.tokens@)
    }

    /// The position of the next token.
    pub closed spec fn position(self) -> int {
        self.pos as int
    }

    /// Create a new parser from a token stream.
    pub fn new(tokens: Vec<Token>) -> (r: Self)
        requires
            tokens@.len() < usize::MAX,
        ensures
            r.toks() == tokens_view(tokens@),
            r.position() == 0,
    {
        Parser { tokens, pos: 0 }
    }

    fn peek(&self) -> (r: Token)
        ensures
            r@ == tok(tokens_view(self.tokens@), self.pos as int),
    {
        if self.pos < self.tokens.len() {
            self.tokens[self.pos].clone()
        } else {
            Token::Eof
        }
    }

    /// Whether the next token is `t`.
    fn at(&self, t: &Token) -> (r: bool)
        ensures
            r == (tok(tokens_view(self.tokens@), self.pos as int) == t@),
    {
        if self.pos < self.tokens.len() {
            self.tokens[self.pos].same_as(t)
        } else {
            Token::Eof.same_as(t)
        }
    }

    fn advance(&mut self) -> (r: Token)
        requires
            old(self).pos <= old(self).tokens.len(),
        ensures
            r@ == tok(tokens_view(old(self).tokens@), old(self).pos as int),
            final(self).pos == old(self).pos + 1,
            final(self).tokens == old(self).tokens,
    {
        proof {
            use_type_invariant(&*self);
        }
        let tok = self.peek();
        self.pos += 1;
        tok
    }

    fn expect(&mut self, expected: &Token) -> (r: Result<(), GroveError>)
        requires
            old(self).pos <= old(self).tokens.len(),
        ensures
            final(self).tokens == old(self).tokens,
            final(self).pos == old(self).pos + 1,
            match expect_at(tokens_view(old(self).tokens@), old(self).pos as int, expected@) {
                Ok(q) => r is Ok && final(self).pos == q,
                Err(e) => r matches Err(x) && x@ == e && parse_failure(e, final(self).pos as int),
            },
    {
        proof {
            reveal_strlit("expected ");
        }
        let tok = self.advance();
        if tok.same_as(expected) {
            Ok(())
        } else {
            let mut message = String::from_str("expected ");
            message.append(expected.name());
            message.append(", got ");
            message.append(tok.name());
            Err(GroveError::Parse { message, pos: self.pos })
        }
    }

    /// Parse a full program.
    pub fn parse_program(&mut self) -> (r: Result<Program, GroveError>)
        ensures
            final(self).toks() == old(self).toks(),
            match p_program(old(self).toks(), old(self).position()) {
                Ok((ss, q)) => r matches Ok(prog) && prog@ == ss && final(self).position() == q,
                Err(e) => r matches Err(x) && x@ == e && parse_failure(e, final(self).position()),
            },
    {
        let ghost ts = tokens_view(self.tokens@);
        let ghost p0 = self.pos as int;
        let mut stmts: Vec<Stmt> = Vec::new();
        assert(stmts_view(stmts@) =~= Seq::<SpecStmt>::empty());
        assert(prepend_stmts(Seq::<SpecStmt>::empty(), p_program(ts, p0)) =~~= p_program(ts, p0));
        while !self.at(&Token::Eof)
            invariant
                ts == tokens_view(self.tokens@),
                self.tokens == old(self).tokens,
                p0 == old(self).pos,
                p0 <= self.pos,
                p0 < self.pos ==> self.pos <= self.tokens.len(),
                p_program(ts, p0) == prepend_stmts(stmts_view(stmts@), p_program(ts, self.pos as int)),
            decreases self.tokens@.len() - self.pos,
        {
            match self.parse_stmt() {
                Err(e) => return Err(e),
                Ok(st) => {
                    let ghost before = stmts_view(stmts@);
                    stmts.push(st);
                    proof {
                        assert(stmts_view(stmts@) =~= before.push(st@));
                        lemma_prepend_stmts(before, st@, p_program(ts, self.pos as int));
                    }
                },
            }
        }
        proof {
            assert(prepend_stmts(stmts_view(stmts@), Ok((Seq::<SpecStmt>::empty(), self.pos as int)))
                =~~= Ok::<(Seq<SpecStmt>, int), SpecError>((stmts_view(stmts@), self.pos as int)));
        }
        Ok(Program { stmts })
    }

    fn parse_expr(&mut self) -> (r: Result<Expr, GroveError>)
        requires
            old(self).pos <= old(self).tokens.len(),
        ensures
            final(self).tokens == old(self).tokens,
            expr_agrees(r, p_expr(tokens_view(old(self).tokens@), old(self).pos as int), final(self).pos as int),
            moves(p_expr(tokens_view(old(self).tokens@), old(self).pos as int), tokens_view(old(self).tokens@), old(self).pos as int),
        decreases old(self).tokens@.len() - old(self).pos, 9int,
    {
        self.parse_comparison()
    }

    fn parse_comparison(&mut self) -> (r: Result<Expr, GroveError>)
        requires
            old(self).pos <= old(self).tokens.len(),
        ensures
            final(self).tokens == old(self).tokens,
            expr_agrees(r, p_comparison(tokens_view(old(self).tokens@), old(self).pos as int), final(self).pos as int),
            moves(p_comparison(tokens_view(old(self).tokens@), old(self).pos as int), tokens_view(old(self).tokens@), old(self).pos as int),
        decreases old(self).tokens@.len() - old(self).pos, 8int,
    {
        let ghost ts = tokens_view(self.tokens@);
        let ghost p0 = self.pos as int;
        let mut left = match self.parse_addition() {
            Err(e) => return Err(e),
            Ok(l) => l,
        };
        loop
            invariant
                ts == tokens_view(self.tokens@),
                self.tokens == old(self).tokens,
                p0 == old(self).pos,
                p0 < self.pos <= self.tokens.len(),
                p_comparison(ts, p0) == p_comp_loop(ts, left@, self.pos as int),
            decreases self.tokens@.len() - self.pos,
        {
            let t = self.peek();
            let op = match BinOp::from_token(&t) {
                Some(op) => {
                    if matches!(op, BinOp::Eq | BinOp::Neq | BinOp::Lt | BinOp::Gt | BinOp::Le | BinOp::Ge) {
                        op
                    } else {
                        return Ok(left);
                    }
                },
                None => return Ok(left),
            };
            self.advance();
            match self.parse_addition() {
                Err(e) => return Err(e),
                Ok(right) => {
                    left = Expr::Binary(Box::new(left), op, Box::new(right));
                },
            }
        }
    }

    fn parse_addition(&mut self) -> (r: Result<Expr, GroveError>)
        requires
            old(self).pos <= old(self).tokens.len(),
        ensures
            final(self).tokens == old(self).tokens,
            expr_agrees(r, p_addition(tokens_view(old(self).tokens@), old(self).pos as int), final(self).pos as int),
            moves(p_addition(tokens_view(old(self).tokens@), old(self).pos as int), tokens_view(old(self).tokens@), old(self).pos as int),
        decreases old(self).tokens@.len() - old(self).pos, 6int,
    {
        let ghost ts = tokens_view(self.tokens@);
        let ghost p0 = self.pos as int;
        let mut left = match self.parse_multiplication() {
            Err(e) => return Err(e),
            Ok(l) => l,
        };
        loop
            invariant
                ts == tokens_view(self.tokens@),
                self.tokens == old(self).tokens,
                p0 == old(self).pos,
                p0 < self.pos <= self.tokens.len(),
                p_addition(ts, p0) == p_add_loop(ts, left@, self.pos as int),
            decreases self.tokens@.len() - self.pos,
        {
            let op = if self.at(&Token::Plus) {
                BinOp::Add
            } else if self.at(&Token::Minus) {
                BinOp::Sub
            } else {
                return Ok(left);
            };
            self.advance();
            match self.parse_multiplication() {
                Err(e) => return Err(e),
                Ok(right) => {
                    left = Expr::Binary(Box::new(left), op, Box::new(right));
                },
            }
        }
    }

    fn parse_multiplication(&mut self) -> (r: Result<Expr, GroveError>)
        requires
            old(self).pos <= old(self).tokens.len(),
        ensures
            final(self).tokens == old(self).tokens,
            expr_agrees(r, p_multiplication(tokens_view(old(self).tokens@), old(self).pos as int), final(self).pos as int),
            moves(p_multiplication(tokens_view(old(self).tokens@), old(self).pos as int), tokens_view(old(self).tokens@), old(self).pos as int),
        decreases old(self).tokens@.len() - old(self).pos, 4int,
    {
        let ghost ts = tokens_view(self.tokens@);
        let ghost p0 = self.pos as int;
        let mut left = match self.parse_unary() {
            Err(e) => return Err(e),
            Ok(l) => l,
        };
        loop
            invariant
                ts == tokens_view(self.tokens@),
                self.tokens == old(self).tokens,
                p0 == old(self).pos,
                p0 < self.pos <= self.tokens.len(),
                p_multiplication(ts, p0) == p_mul_loop(ts, left@, self.pos as int),
            decreases self.tokens@.len() - self.pos,
        {
            let op = if self.at(&Token::Star) {
                BinOp::Mul
            } else if self.at(&Token::Slash) {
                BinOp::Div
            } else {
                return Ok(left);
            };
            self.advance();
            match self.parse_unary() {
                Err(e) => return Err(e),
                Ok(right) => {
                    left = Expr::Binary(Box::new(left), op, Box::new(right));
                },
            }
        }
    }

    fn parse_unary(&mut self) -> (r: Result<Expr, GroveError>)
        requires
            old(self).pos <= old(self).tokens.len(),
        ensures
            final(self).tokens == old(self).tokens,
            expr_agrees(r, p_unary(tokens_view(old(self).tokens@), old(self).pos as int), final(self).pos as int),
            moves(p_unary(tokens_view(old(self).tokens@), old(self).pos as int), tokens_view(old(self).tokens@), old(self).pos as int),
        decreases old(self).tokens@.len() - old(self).pos, 2int,
    {
        if self.at(&Token::Minus) {
            self.advance();
            match self.parse_unary() {
                Err(e) => Err(e),
                Ok(x) => Ok(Expr::Unary(UnOp::Neg, Box::new(x))),
            }
        } else {
            self.parse_primary()
        }
    }

    fn parse_primary(&mut self) -> (r: Result<Expr, GroveError>)
        requires
            old(self).pos <= old(self).tokens.len(),
        ensures
            final(self).tokens == old(self).tokens,
            expr_agrees(r, p_primary(tokens_view(old(self).tokens@), old(self).pos as int), final(self).pos as int),
            moves(p_primary(tokens_view(old(self).tokens@), old(self).pos as int), tokens_view(old(self).tokens@), old(self).pos as int),
        decreases old(self).tokens@.len() - old(self).pos, 1int,
    {
        let ghost ts = tokens_view(self.tokens@);
        let ghost p0 = self.pos as int;
        let t = self.peek();
        match t {
            Token::Number(n) => {
                self.advance();
                Ok(Expr::Literal(n))
            },
            Token::Numeral(text) => {
                self.advance();
                Ok(Expr::Numeral(text))
            },
            Token::Ident(name) => {
                self.advance();
                if self.at(&Token::LParen) {
                    self.parse_call(name)
                } else {
                    Ok(Expr::Var(name))
                }
            },
            Token::LParen => {
                self.advance();
                let e = match self.parse_expr() {
                    Err(e) => return Err(e),
                    Ok(e) => e,
                };
                match self.expect(&Token::RParen) {
                    Err(x) => Err(x),
                    Ok(_) => Ok(e),
                }
            },
            Token::If => self.parse_if_expr(),
            tok => {
                proof {
                    reveal_strlit("unexpected token in expression: ");
                }
                let mut message = String::from_str("unexpected token in expression: ");
                message.append(tok.name());
                Err(GroveError::Parse { message, pos: self.pos })
            },
        }
    }

    /// The call whose name was just consumed; the next token is `(`.
    fn parse_call(&mut self, name: String) -> (r: Result<Expr, GroveError>)
        requires
            1 <= old(self).pos <= old(self).tokens.len(),
            tok(tokens_view(old(self).tokens@), old(self).pos as int) is LParen,
        ensures
            final(self).tokens == old(self).tokens,
            expr_agrees(r, p_call(tokens_view(old(self).tokens@), name@, old(self).pos - 1), final(self).pos as int),
            moves(p_call(tokens_view(old(self).tokens@), name@, old(self).pos - 1), tokens_view(old(self).tokens@), old(self).pos - 1),
        decreases old(self).tokens@.len() - old(self).pos, 0int,
    {
        let ghost ts = tokens_view(self.tokens@);
        let ghost p0 = self.pos - 1;
        self.advance();
        let mut args: Vec<Expr> = Vec::new();
        if !self.at(&Token::RParen) {
            match self.parse_expr() {
                Err(e) => return Err(e),
                Ok(a) => {
                    args.push(a);
                },
            }
            assert(exprs_view(args@) =~= seq![args@[0]@]);
            while self.at(&Token::Comma)
                invariant
                    ts == tokens_view(self.tokens@),
                    self.tokens == old(self).tokens,
                    p0 == old(self).pos - 1,
                    p0 < self.pos <= self.tokens.len(),
                    p_call(ts, name@, p0) == finish_call(ts, name@, p_args(ts, exprs_view(args@), self.pos as int)),
                decreases self.tokens@.len() - self.pos,
            {
                self.advance();
                match self.parse_expr() {
                    Err(e) => return Err(e),
                    Ok(a) => {
                        let ghost before = exprs_view(args@);
                        args.push(a);
                        assert(exprs_view(args@) =~= before.push(a@));
                    },
                }
            }
            assert(p_args(ts, exprs_view(args@), self.pos as int) == Ok::<(Seq<SpecExpr>, int), SpecError>((exprs_view(args@), self.pos as int)));
        } else {
            assert(exprs_view(args@) =~= Seq::<SpecExpr>::empty());
        }
        assert(p_call(ts, name@, p0) == finish_call(ts, name@, Ok((exprs_view(args@), self.pos as int))));
        match self.expect(&Token::RParen) {
            Err(e) => return Err(e),
            Ok(_) => {},
        }
        let r = Expr::Call(name, args);
        assert(r@ == SpecExpr::Call(name@, exprs_view(args@))) by {
            assert(r@->Call_1 =~= exprs_view(args@));
        }
        Ok(r)
    }

    fn parse_if_expr(&mut self) -> (r: Result<Expr, GroveError>)
        requires
            old(self).pos <= old(self).tokens.len(),
            tok(tokens_view(old(self).tokens@), old(self).pos as int) is If,
        ensures
            final(self).tokens == old(self).tokens,
            expr_agrees(r, p_if_expr(tokens_view(old(self).tokens@), old(self).pos as int), final(self).pos as int),
            moves(p_if_expr(tokens_view(old(self).tokens@), old(self).pos as int), tokens_view(old(self).tokens@), old(self).pos as int),
        decreases old(self).tokens@.len() - old(self).pos, 0int,
    {
        let ghost ts = tokens_view(self.tokens@);
        let ghost p0 = self.pos as int;
        self.advance();
        let cond = match self.parse_expr() {
            Err(e) => return Err(e),
            Ok(c) => c,
        };
        match self.expect(&Token::LBrace) {
            Err(e) => return Err(e),
            Ok(_) => {},
        }
        let then_block = match self.parse_block() {
            Err(e) => return Err(e),
            Ok(b) => b,
        };
        match self.expect(&Token::RBrace) {
            Err(e) => return Err(e),
            Ok(_) => {},
        }
        let then_expr = branch_expr(then_block);
        let else_expr = if self.at(&Token::Else) {
            self.advance();
            if self.at(&Token::LBrace) {
                self.advance();
                let else_block = match self.parse_block() {
                    Err(e) => return Err(e),
                    Ok(b) => b,
                };
                match self.expect(&Token::RBrace) {
                    Err(e) => return Err(e),
                    Ok(_) => {},
                }
                branch_expr(else_block)
            } else if self.at(&Token::If) {
                match self.parse_if_expr() {
                    Err(e) => return Err(e),
                    Ok(x) => x,
                }
            } else {
                Expr::Literal(Num::from_int(0))
            }
        } else {
            Expr::Literal(Num::from_int(0))
        };
        Ok(Expr::If(Box::new(cond), Box::new(then_expr), Box::new(else_expr)))
    }

    /// Statements up to a closing brace or the end of the tokens.
    fn parse_block(&mut self) -> (r: Result<Vec<Stmt>, GroveError>)
        requires
            old(self).pos <= old(self).tokens.len(),
        ensures
            final(self).tokens == old(self).tokens,
            block_agrees(r, p_block(tokens_view(old(self).tokens@), old(self).pos as int), final(self).pos as int),
            within(p_block(tokens_view(old(self).tokens@), old(self).pos as int), tokens_view(old(self).tokens@), old(self).pos as int),
        decreases old(self).tokens@.len() - old(self).pos, 12int,
    {
        let ghost ts = tokens_view(self.tokens@);
        let ghost p0 = self.pos as int;
        let mut stmts: Vec<Stmt> = Vec::new();
        assert(stmts_view(stmts@) =~= Seq::<SpecStmt>::empty());
        assert(prepend_stmts(Seq::<SpecStmt>::empty(), p_block(ts, p0)) =~~= p_block(ts, p0));
        while !self.at(&Token::RBrace) && !self.at(&Token::Eof)
            invariant
                ts == tokens_view(self.tokens@),
                self.tokens == old(self).tokens,
                p0 == old(self).pos,
                p0 <= self.pos <= self.tokens.len(),
                p_block(ts, p0) == prepend_stmts(stmts_view(stmts@), p_block(ts, self.pos as int)),
            decreases self.tokens@.len() - self.pos,
        {
            let ghost p = self.pos as int;
            match self.parse_stmt() {
                Err(e) => return Err(e),
                Ok(st) => {
                    let ghost before = stmts_view(stmts@);
                    stmts.push(st);
                    proof {
                        assert(stmts_view(stmts@) =~= before.push(st@));
                        lemma_prepend_stmts(before, st@, p_block(ts, self.pos as int));
                    }
                },
            }
        }
        proof {
            assert(prepend_stmts(stmts_view(stmts@), Ok((Seq::<SpecStmt>::empty(), self.pos as int)))
                =~~= Ok::<(Seq<SpecStmt>, int), SpecError>((stmts_view(stmts@), self.pos as int)));
        }
        Ok(stmts)
    }

    /// A statement.
    fn parse_stmt(&mut self) -> (r: Result<Stmt, GroveError>)
        requires
            old(self).pos <= old(self).tokens.len(),
        ensures
            final(self).tokens == old(self).tokens,
            stmt_agrees(r, p_stmt(tokens_view(old(self).tokens@), old(self).pos as int), final(self).pos as int),
            moves(p_stmt(tokens_view(old(self).tokens@), old(self).pos as int), tokens_view(old(self).tokens@), old(self).pos as int),
        decreases old(self).tokens@.len() - old(self).pos, 11int,
    {
        let t = self.peek();
        match t {
            Token::Let => self.parse_let(),
            Token::If => self.parse_if_stmt(),
            Token::Return => self.parse_return(),
            Token::Ident(name) => {
                // An assignment, or an expression statement that starts
                // with a name: look one token ahead.
                proof {
                    use_type_invariant(&*self);
                }
                let start = self.pos;
                self.advance();
                if self.at(&Token::Assign) {
                    self.advance();
                    let expr = match self.parse_expr() {
                        Err(e) => return Err(e),
                        Ok(e) => e,
                    };
                    match self.expect(&Token::Semicolon) {
                        Err(e) => Err(e),
                        Ok(_) => Ok(Stmt::Assign(name, expr)),
                    }
                } else {
                    self.pos = start;
                    self.parse_expr_stmt()
                }
            },
            _ => self.parse_expr_stmt(),
        }
    }

    fn parse_expr_stmt(&mut self) -> (r: Result<Stmt, GroveError>)
        requires
            old(self).pos <= old(self).tokens.len(),
        ensures
            final(self).tokens == old(self).tokens,
            stmt_agrees(r, p_expr_stmt(tokens_view(old(self).tokens@), old(self).pos as int), final(self).pos as int),
            moves(p_expr_stmt(tokens_view(old(self).tokens@), old(self).pos as int), tokens_view(old(self).tokens@), old(self).pos as int),
        decreases old(self).tokens@.len() - old(self).pos, 10int,
    {
        let expr = match self.parse_expr() {
            Err(e) => return Err(e),
            Ok(e) => e,
        };
        match self.expect(&Token::Semicolon) {
            Err(e) => Err(e),
            Ok(_) => Ok(Stmt::Expr(expr)),
        }
    }

    fn parse_let(&mut self) -> (r: Result<Stmt, GroveError>)
        requires
            old(self).pos <= old(self).tokens.len(),
            tok(tokens_view(old(self).tokens@), old(self).pos as int) is Let,
        ensures
            final(self).tokens == old(self).tokens,
            stmt_agrees(r, p_let(tokens_view(old(self).tokens@), old(self).pos as int), final(self).pos as int),
            moves(p_let(tokens_view(old(self).tokens@), old(self).pos as int), tokens_view(old(self).tokens@), old(self).pos as int),
        decreases old(self).tokens@.len() - old(self).pos, 10int,
    {
        self.advance();
        let name = match self.advance() {
            Token::Ident(s) => s,
            tok => {
                proof {
                    reveal_strlit("expected identifier, got ");
                }
                let mut message = String::from_str("expected identifier, got ");
                message.append(tok.name());
                return Err(GroveError::Parse { message, pos: self.pos });
            },
        };
        match self.expect(&Token::Assign) {
            Err(e) => return Err(e),
            Ok(_) => {},
        }
        let expr = match self.parse_expr() {
            Err(e) => return Err(e),
            Ok(e) => e,
        };
        match self.expect(&Token::Semicolon) {
            Err(e) => Err(e),
            Ok(_) => Ok(Stmt::Let(name, expr)),
        }
    }

    fn parse_if_stmt(&mut self) -> (r: Result<Stmt, GroveError>)
        requires
            old(self).pos <= old(self).tokens.len(),
            tok(tokens_view(old(self).tokens@), old(self).pos as int) is If,
        ensures
            final(self).tokens == old(self).tokens,
            stmt_agrees(r, p_if_stmt(tokens_view(old(self).tokens@), old(self).pos as int), final(self).pos as int),
            moves(p_if_stmt(tokens_view(old(self).tokens@), old(self).pos as int), tokens_view(old(self).tokens@), old(self).pos as int),
        decreases old(self).tokens@.len() - old(self).pos, 10int,
    {
        self.advance();
        let cond = match self.parse_expr() {
            Err(e) => return Err(e),
            Ok(c) => c,
        };
        match self.expect(&Token::LBrace) {
            Err(e) => return Err(e),
            Ok(_) => {},
        }
        let then_branch = match self.parse_block() {
            Err(e) => return Err(e),
            Ok(b) => b,
        };
        match self.expect(&Token::RBrace) {
            Err(e) => return Err(e),
            Ok(_) => {},
        }
        let else_branch = if self.at(&Token::Else) {
            self.advance();
            if self.at(&Token::If) {
                let st = match self.parse_if_stmt() {
                    Err(e) => return Err(e),
                    Ok(st) => st,
                };
                let v = vec![st];
                assert(stmts_view(v@) =~= seq![st@]);
                v
            } else {
                match self.expect(&Token::LBrace) {
                    Err(e) => return Err(e),
                    Ok(_) => {},
                }
                let stmts = match self.parse_block() {
                    Err(e) => return Err(e),
                    Ok(b) => b,
                };
                match self.expect(&Token::RBrace) {
                    Err(e) => return Err(e),
                    Ok(_) => {},
                }
                stmts
            }
        } else {
            let v: Vec<Stmt> = Vec::new();
            assert(stmts_view(v@) =~= Seq::<SpecStmt>::empty());
            v
        };
        let r = Stmt::If(cond, then_branch, else_branch);
        assert(r@ == SpecStmt::If(cond@, stmts_view(then_branch@), stmts_view(else_branch@))) by {
            assert(r@->If_1 =~= stmts_view(then_branch@));
            assert(r@->If_2 =~= stmts_view(else_branch@));
        }
        Ok(r)
    }

    fn parse_return(&mut self) -> (r: Result<Stmt, GroveError>)
        requires
            old(self).pos <= old(self).tokens.len(),
            tok(tokens_view(old(self).tokens@), old(self).pos as int) is Return,
        ensures
            final(self).tokens == old(self).tokens,
            stmt_agrees(r, p_return(tokens_view(old(self).tokens@), old(self).pos as int), final(self).pos as int),
            moves(p_return(tokens_view(old(self).tokens@), old(self).pos as int), tokens_view(old(self).tokens@), old(self).pos as int),
        decreases old(self).tokens@.len() - old(self).pos, 10int,
    {
        self.advance();
        let expr = match self.parse_expr() {
            Err(e) => return Err(e),
            Ok(e) => e,
        };
        match self.expect(&Token::Semicolon) {
            Err(e) => Err(e),
            Ok(_) => Ok(Stmt::Return(expr)),
        }
    }
}

/// The value of a branch block used as an expression: its only statement
/// when that is an expression or `return` statement, otherwise zero.
fn branch_expr(block: Vec<Stmt>) -> (r: Expr)
    ensures
        r@ == single_expr(stmts_view(block@)),
{
    let mut block = block;
    if block.len() == 1 {
        let ghost only = block@[0];
        match block.pop() {
            Some(Stmt::Expr(e)) => e,
            Some(Stmt::Return(e)) => e,
            _ => Expr::Literal(Num::from_int(0)),
        }
    } else {
        Expr::Literal(Num::from_int(0))
    }
}

proof fn lemma_prepend_stmts(pre: Seq<SpecStmt>, s: SpecStmt, rest: PRes<Seq<SpecStmt>>)
    ensures
        prepend_stmts(pre, prepend_stmts(seq![s], rest)) == prepend_stmts(pre.push(s), rest),
{
    if let Ok((ss, q)) = rest {
        assert(pre + (seq![s] + ss) =~= pre.push(s) + ss);
    }
}

/// A binary operation between two names parses as that operation on the
/// two variables: for every operator token `t`, the tokens `x t y ;`
/// give the expression `x op y`, `op` being the operator `t` stands for.
pub proof fn lemma_binary_parse(x: Seq<char>, t: SpecToken, y: Seq<char>)
    requires
        binop_of(t) is Some,
    ensures
        p_expr(seq![SpecToken::Ident(x), t, SpecToken::Ident(y), SpecToken::Semicolon], 0) == Ok::<
            (SpecExpr, int),
            SpecError,
        >(
            (
                SpecExpr::Binary(
                    Box::new(SpecExpr::Var(x)),
                    binop_of(t)->Some_0,
                    Box::new(SpecExpr::Var(y)),
                ),
                3,
            ),
        ),
{
    let ts = seq![SpecToken::Ident(x), t, SpecToken::Ident(y), SpecToken::Semicolon];
    let op = binop_of(t)->Some_0;
    let vx = SpecExpr::Var(x);
    let vy = SpecExpr::Var(y);
    let b = SpecExpr::Binary(Box::new(vx), op, Box::new(vy));
    assert(tok(ts, 0) == SpecToken::Ident(x));
    assert(tok(ts, 1) == t);
    assert(tok(ts, 2) == SpecToken::Ident(y));
    assert(tok(ts, 3) == SpecToken::Semicolon);
    assert(p_primary(ts, 0) == Ok::<(SpecExpr, int), SpecError>((vx, 1)));
    assert(p_unary(ts, 0) == Ok::<(SpecExpr, int), SpecError>((vx, 1)));
    assert(p_primary(ts, 2) == Ok::<(SpecExpr, int), SpecError>((vy, 3)));
    assert(p_unary(ts, 2) == Ok::<(SpecExpr, int), SpecError>((vy, 3)));
    assert(p_mul_loop(ts, vy, 3) == Ok::<(SpecExpr, int), SpecError>((vy, 3)));
    assert(p_multiplication(ts, 2) == Ok::<(SpecExpr, int), SpecError>((vy, 3)));
    assert(p_add_loop(ts, vy, 3) == Ok::<(SpecExpr, int), SpecError>((vy, 3)));
    assert(p_addition(ts, 2) == Ok::<(SpecExpr, int), SpecError>((vy, 3)));
    assert(p_mul_loop(ts, b, 3) == Ok::<(SpecExpr, int), SpecError>((b, 3)));
    assert(p_add_loop(ts, b, 3) == Ok::<(SpecExpr, int), SpecError>((b, 3)));
    assert(p_comp_loop(ts, b, 3) == Ok::<(SpecExpr, int), SpecError>((b, 3)));
    if mul_op(t) is Some {
        assert(p_mul_loop(ts, vx, 1) == Ok::<(SpecExpr, int), SpecError>((b, 3)));
        assert(p_multiplication(ts, 0) == Ok::<(SpecExpr, int), SpecError>((b, 3)));
        assert(p_add_loop(ts, b, 3) == Ok::<(SpecExpr, int), SpecError>((b, 3)));
        assert(p_addition(ts, 0) == Ok::<(SpecExpr, int), SpecError>((b, 3)));
    } else {
        assert(p_mul_loop(ts, vx, 1) == Ok::<(SpecExpr, int), SpecError>((vx, 1)));
        assert(p_multiplication(ts, 0) == Ok::<(SpecExpr, int), SpecError>((vx, 1)));
        if add_op(t) is Some {
            assert(p_add_loop(ts, vx, 1) == Ok::<(SpecExpr, int), SpecError>((b, 3)));
            assert(p_addition(ts, 0) == Ok::<(SpecExpr, int), SpecError>((b, 3)));
        } else {
            assert(p_add_loop(ts, vx, 1) == Ok::<(SpecExpr, int), SpecError>((vx, 1)));
            assert(p_addition(ts, 0) == Ok::<(SpecExpr, int), SpecError>((vx, 1)));
            assert(cmp_op(t) == Some(op));
            assert(p_comp_loop(ts, vx, 1) == Ok::<(SpecExpr, int), SpecError>((b, 3)));
        }
    }
}

/// Products bind tighter than sums, on the right: for an additive token
/// `ta` (`+`, `-`) and a multiplicative one `tm` (`*`, `/`), `x ta y tm z ;`
/// parses as `x ta (y tm z)`.
#[verifier::spinoff_prover]
#[verifier::rlimit(40)]
pub proof fn lemma_product_binds_right(x: Seq<char>, ta: SpecToken, y: Seq<char>, tm: SpecToken, z: Seq<char>)
    requires
        ta is Plus || ta is Minus,
        tm is Star || tm is Slash,
    ensures
        p_expr(
            seq![SpecToken::Ident(x), ta, SpecToken::Ident(y), tm, SpecToken::Ident(z), SpecToken::Semicolon],
            0,
        ) == Ok::<(SpecExpr, int), SpecError>(
            (
                SpecExpr::Binary(
                    Box::new(SpecExpr::Var(x)),
                    binop_of(ta)->Some_0,
                    Box::new(SpecExpr::Binary(Box::new(SpecExpr::Var(y)), binop_of(tm)->Some_0, Box::new(SpecExpr::Var(z)))),
                ),
                5,
            ),
        ),
{
    let a = binop_of(ta)->Some_0;
    let m = binop_of(tm)->Some_0;
    let (vx, vy, vz) = (SpecExpr::Var(x), SpecExpr::Var(y), SpecExpr::Var(z));
    let ts = seq![SpecToken::Ident(x), ta, SpecToken::Ident(y), tm, SpecToken::Ident(z), SpecToken::Semicolon];
    let ym = SpecExpr::Binary(Box::new(vy), m, Box::new(vz));
    let r1 = SpecExpr::Binary(Box::new(vx), a, Box::new(ym));
    assert(tok(ts, 0) == SpecToken::Ident(x) && tok(ts, 1) == ta && tok(ts, 2) == SpecToken::Ident(y));
    assert(tok(ts, 3) == tm && tok(ts, 4) == SpecToken::Ident(z) && tok(ts, 5) == SpecToken::Semicolon);
    assert(p_unary(ts, 0) == Ok::<(SpecExpr, int), SpecError>((vx, 1)));
    assert(p_mul_loop(ts, vx, 1) == Ok::<(SpecExpr, int), SpecError>((vx, 1)));
    assert(p_multiplication(ts, 0) == Ok::<(SpecExpr, int), SpecError>((vx, 1)));
    assert(p_unary(ts, 2) == Ok::<(SpecExpr, int), SpecError>((vy, 3)));
    assert(p_unary(ts, 4) == Ok::<(SpecExpr, int), SpecError>((vz, 5)));
    assert(p_mul_loop(ts, ym, 5) == Ok::<(SpecExpr, int), SpecError>((ym, 5)));
    assert(p_mul_loop(ts, vy, 3) == Ok::<(SpecExpr, int), SpecError>((ym, 5)));
    assert(p_multiplication(ts, 2) == Ok::<(SpecExpr, int), SpecError>((ym, 5)));
    assert(p_add_loop(ts, r1, 5) == Ok::<(SpecExpr, int), SpecError>((r1, 5)));
    assert(p_add_loop(ts, vx, 1) == Ok::<(SpecExpr, int), SpecError>((r1, 5)));
    assert(p_addition(ts, 0) == Ok::<(SpecExpr, int), SpecError>((r1, 5)));
    assert(p_comp_loop(ts, r1, 5) == Ok::<(SpecExpr, int), SpecError>((r1, 5)));
}

/// Products bind tighter than sums, on the left: `x tm y ta z ;` parses as
/// `(x tm y) ta z`.
#[verifier::spinoff_prover]
#[verifier::rlimit(40)]
pub proof fn lemma_product_binds_left(x: Seq<char>, tm: SpecToken, y: Seq<char>, ta: SpecToken, z: Seq<char>)
    requires
        ta is Plus || ta is Minus,
        tm is Star || tm is Slash,
    ensures
        p_expr(
            seq![SpecToken::Ident(x), tm, SpecToken::Ident(y), ta, SpecToken::Ident(z), SpecToken::Semicolon],
            0,
        ) == Ok::<(SpecExpr, int), SpecError>(
            (
                SpecExpr::Binary(
                    Box::new(SpecExpr::Binary(Box::new(SpecExpr::Var(x)), binop_of(tm)->Some_0, Box::new(SpecExpr::Var(y)))),
                    binop_of(ta)->Some_0,
                    Box::new(SpecExpr::Var(z)),
                ),
                5,
            ),
        ),
{
    let a = binop_of(ta)->Some_0;
    let m = binop_of(tm)->Some_0;
    let (vx, vy, vz) = (SpecExpr::Var(x), SpecExpr::Var(y), SpecExpr::Var(z));
    let us = seq![SpecToken::Ident(x), tm, SpecToken::Ident(y), ta, SpecToken::Ident(z), SpecToken::Semicolon];
    let xm = SpecExpr::Binary(Box::new(vx), m, Box::new(vy));
    let r2 = SpecExpr::Binary(Box::new(xm), a, Box::new(vz));
    assert(tok(us, 0) == SpecToken::Ident(x) && tok(us, 1) == tm && tok(us, 2) == SpecToken::Ident(y));
    assert(tok(us, 3) == ta && tok(us, 4) == SpecToken::Ident(z) && tok(us, 5) == SpecToken::Semicolon);
    assert(p_unary(us, 0) == Ok::<(SpecExpr, int), SpecError>((vx, 1)));
    assert(p_unary(us, 2) == Ok::<(SpecExpr, int), SpecError>((vy, 3)));
    assert(p_mul_loop(us, xm, 3) == Ok::<(SpecExpr, int), SpecError>((xm, 3)));
    assert(p_mul_loop(us, vx, 1) == Ok::<(SpecExpr, int), SpecError>((xm, 3)));
    assert(p_multiplication(us, 0) == Ok::<(SpecExpr, int), SpecError>((xm, 3)));
    assert(p_unary(us, 4) == Ok::<(SpecExpr, int), SpecError>((vz, 5)));
    assert(p_mul_loop(us, vz, 5) == Ok::<(SpecExpr, int), SpecError>((vz, 5)));
    assert(p_multiplication(us, 4) == Ok::<(SpecExpr, int), SpecError>((vz, 5)));
    assert(p_add_loop(us, r2, 5) == Ok::<(SpecExpr, int), SpecError>((r2, 5)));
    assert(p_add_loop(us, xm, 3) == Ok::<(SpecExpr, int), SpecError>((r2, 5)));
    assert(p_addition(us, 0) == Ok::<(SpecExpr, int), SpecError>((r2, 5)));
    assert(p_comp_loop(us, r2, 5) == Ok::<(SpecExpr, int), SpecError>((r2, 5)));
}

} // verus!
