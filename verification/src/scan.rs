//! The specification of reading: what each part of the tokenizer does to
//! the reading state, as functions of the source and the state, and how far
//! each part moves.
//!
//! `c` is the whole source; a state holds the position of the next unread
//! character, the current location and the tokens pushed so far.

use vstd::prelude::*;
use crate::text::FailureView;
use crate::tokenizer::{int_of_digits, is_digit, is_line_end, is_user_emoji, loc_text, Kind, Location, TokenView};

verus! {

pub struct ScanState {
    pub pos: int,
    pub loc: Location,
    pub toks: Seq<TokenView>,
}

pub open spec fn scan_start() -> ScanState {
    ScanState { pos: 0, loc: Location::start(), toks: Seq::empty() }
}

/// The character at the state's position, if there is one.
pub open spec fn sc_at(c: Seq<char>, s: ScanState) -> Option<char> {
    if 0 <= s.pos < c.len() {
        Some(c[s.pos])
    } else {
        None
    }
}

/// Pushes a token of kind `k` at the current location.
pub open spec fn sc_push(s: ScanState, k: Kind) -> ScanState {
    ScanState { toks: s.toks.push(TokenView { kind: k, location: s.loc }), ..s }
}

/// Drops one character without moving the location.
pub open spec fn sc_drop(s: ScanState) -> ScanState {
    ScanState { pos: s.pos + 1, ..s }
}

/// Reads one character: a line break moves to the next line, anything else
/// one column right.
pub open spec fn sc_step(c: Seq<char>, s: ScanState) -> ScanState {
    if is_line_end(c[s.pos]) {
        ScanState { pos: s.pos + 1, loc: s.loc.next_line(), ..s }
    } else {
        ScanState { pos: s.pos + 1, loc: s.loc.next_col(), ..s }
    }
}

/// The rest of a comment: dropped up to a line break, which is read.
pub open spec fn sc_comment_rest(c: Seq<char>, s: ScanState) -> ScanState
    decreases c.len() - s.pos,
{
    if !(0 <= s.pos < c.len()) {
        s
    } else if is_line_end(c[s.pos]) {
        sc_step(c, s)
    } else {
        sc_comment_rest(c, sc_drop(s))
    }
}

/// Drops a comment that starts at the position.
pub open spec fn sc_check_comment(c: Seq<char>, s: ScanState) -> ScanState {
    if sc_at(c, s) == Some('🙈') {
        sc_comment_rest(c, sc_drop(s))
    } else {
        s
    }
}

/// Reads the spaces at the position.
pub open spec fn sc_skip_spaces(c: Seq<char>, s: ScanState) -> ScanState
    decreases c.len() - s.pos,
{
    if 0 <= s.pos < c.len() && c[s.pos] == ' ' {
        sc_skip_spaces(c, ScanState { pos: s.pos + 1, loc: s.loc.next_col(), ..s })
    } else {
        s
    }
}

/// The layout that looking ahead drops: one comment, then spaces.
pub open spec fn sc_layout(c: Seq<char>, s: ScanState) -> ScanState {
    sc_skip_spaces(c, sc_check_comment(c, s))
}

/// The blank and comment lines ahead: spaces, comments and line breaks are
/// read up to the next character that is none of them.
pub open spec fn sc_gap(c: Seq<char>, s: ScanState) -> ScanState
    decreases c.len() - s.pos,
{
    if !(0 <= s.pos < c.len()) {
        s
    } else if c[s.pos] == ' ' || is_line_end(c[s.pos]) {
        sc_gap(c, sc_step(c, s))
    } else if c[s.pos] == '🙈' {
        proof {
            lemma_comment_rest(c, sc_drop(s));
        }
        sc_gap(c, sc_comment_rest(c, sc_drop(s)))
    } else {
        s
    }
}

pub open spec fn slice_panic() -> Seq<char> {
    "range start index 1 out of range for slice of length 0"@
}

pub open spec fn mul_overflow_panic() -> Seq<char> {
    "attempt to multiply with overflow"@
}

pub open spec fn add_overflow_panic() -> Seq<char> {
    "attempt to add with overflow"@
}

/// Advancing by one character: a comment at the position is dropped, then
/// the layout before the next character, and that character is read. Where
/// only layout is left after the comment, reading gives up.
pub open spec fn sc_next(c: Seq<char>, s: ScanState) -> Result<ScanState, FailureView> {
    let s1 = sc_check_comment(c, s);
    if sc_at(c, s1) is None {
        Ok(s1)
    } else {
        let s2 = sc_layout(c, s1);
        if sc_at(c, s2) is None {
            Err(FailureView::Panic(slice_panic()))
        } else {
            Ok(sc_step(c, s2))
        }
    }
}

/// `msg at line:column>`.
pub open spec fn err_at(msg: Seq<char>, l: Location) -> FailureView {
    FailureView::Error(msg + " at "@ + loc_text(l))
}

/// Reads the character `ch`, or fails naming it.
pub open spec fn sc_expect(c: Seq<char>, s: ScanState, ch: char) -> Result<ScanState, FailureView> {
    let t = sc_layout(c, s);
    match sc_next(c, t) {
        Err(e) => Err(e),
        Ok(u) => if sc_at(c, t) == Some(ch) {
            Ok(u)
        } else {
            Err(FailureView::Error("expected '"@ + seq![ch] + "' at "@ + loc_text(u.loc)))
        },
    }
}

/// The end of a line: a line break ('\n', '\r' or '\u{2403}'), or the end
/// of the source.
pub open spec fn sc_eol(c: Seq<char>, s: ScanState) -> Result<ScanState, FailureView> {
    let t = sc_layout(c, s);
    match sc_at(c, t) {
        None => Ok(sc_push(ScanState { loc: t.loc.next_col(), ..t }, Kind::EOL)),
        Some(ch) => if is_line_end(ch) {
            Ok(sc_step(c, sc_push(t, Kind::EOL)))
        } else {
            Err(FailureView::Error("expected eol, instead found at "@ + seq![ch]))
        },
    }
}

/// The further emojis of a name.
pub open spec fn sc_emoji_tail(c: Seq<char>, s: ScanState, name: Seq<char>) -> (ScanState, Seq<char>)
    decreases c.len() - s.pos,
{
    if !(0 <= s.pos < c.len()) {
        (s, name)
    } else {
        let t = sc_layout(c, s);
        proof {
            lemma_layout(c, s);
        }
        match sc_at(c, t) {
            Some(ch) => if is_user_emoji(ch) {
                sc_emoji_tail(c, sc_step(c, t), name.push(ch))
            } else {
                (t, name)
            },
            None => (t, name),
        }
    }
}

/// A variable name: one or more emojis.
pub open spec fn sc_emojis(c: Seq<char>, s: ScanState) -> Result<ScanState, FailureView> {
    let t = sc_layout(c, s);
    match sc_next(c, t) {
        Err(e) => Err(e),
        Ok(u) => match sc_at(c, t) {
            Some(ch) => if is_user_emoji(ch) {
                let (v, name) = sc_emoji_tail(c, u, seq![ch]);
                Ok(sc_push(v, Kind::Emojis(name)))
            } else {
                Err(err_at("expected emojis"@, u.loc))
            },
            None => Err(err_at("expected emojis"@, u.loc)),
        },
    }
}

/// The further digits of an integer.
pub open spec fn sc_digit_tail(c: Seq<char>, s: ScanState, ds: Seq<char>) -> (ScanState, Seq<char>)
    decreases c.len() - s.pos,
{
    if !(0 <= s.pos < c.len()) {
        (s, ds)
    } else {
        let t = sc_layout(c, s);
        proof {
            lemma_layout(c, s);
        }
        match sc_at(c, t) {
            Some(ch) => if is_digit(ch) {
                sc_digit_tail(c, sc_step(c, t), ds.push(ch))
            } else {
                (t, ds)
            },
            None => (t, ds),
        }
    }
}

/// An integer: one or more digits.
pub open spec fn sc_integer(c: Seq<char>, s: ScanState) -> Result<ScanState, FailureView> {
    let t = sc_layout(c, s);
    match sc_at(c, t) {
        Some(ch) => if is_digit(ch) {
            let (v, ds) = sc_digit_tail(c, t, Seq::empty());
            match int_of_digits(ds) {
                Ok(n) => Ok(sc_push(v, Kind::Int(n))),
                Err(m) => Err(FailureView::Panic(m)),
            }
        } else {
            Err(err_at("expected integer"@, t.loc))
        },
        None => Err(err_at("expected integer"@, t.loc)),
    }
}

/// A variable name or an integer.
pub open spec fn sc_identifier(c: Seq<char>, s: ScanState) -> Result<ScanState, FailureView> {
    let t = sc_layout(c, s);
    match sc_at(c, t) {
        Some(ch) => if is_user_emoji(ch) {
            sc_emojis(c, t)
        } else if is_digit(ch) {
            sc_integer(c, t)
        } else {
            Err(err_at("expected identifier"@, t.loc))
        },
        None => Err(err_at("expected identifier"@, t.loc)),
    }
}

/// Where reading one expected character stands after it met another: past
/// the layout and the character it met, with no token added.
pub open spec fn sc_expect_halt(c: Seq<char>, s: ScanState) -> ScanState {
    match sc_next(c, sc_layout(c, s)) {
        Ok(u) => u,
        Err(_) => sc_layout(c, s),
    }
}

/// Where reading a comparison stands after it found none: past the layout
/// (and past a '👎' and the layout after it); after '👉' the token of the
/// equality is already added, and reading stands where reading the '👈'
/// stopped.
pub open spec fn sc_cmp_halt(c: Seq<char>, s: ScanState) -> ScanState {
    let t = sc_layout(c, s);
    if sc_at(c, t) == Some('👎') {
        sc_layout(c, sc_step(c, t))
    } else if sc_at(c, t) == Some('👉') {
        sc_expect_halt(c, sc_step(c, sc_push(t, Kind::EQ)))
    } else {
        t
    }
}

/// A comparison: '👉👈' (equal), '🐊' (greater), '🐰' (less), '👎🐰' (not
/// less), '👎🐊' (not greater), '👎👈' (not equal).
pub open spec fn sc_cmp(c: Seq<char>, s: ScanState) -> Result<ScanState, FailureView> {
    let t = sc_layout(c, s);
    match sc_at(c, t) {
        Some(ch) => if ch == '👎' {
            let w = sc_layout(c, sc_step(c, t));
            match sc_at(c, w) {
                Some(d) => if d == '🐰' {
                    Ok(sc_step(c, sc_push(w, Kind::GEQ)))
                } else if d == '🐊' {
                    Ok(sc_step(c, sc_push(w, Kind::LEQ)))
                } else if d == '👈' {
                    Ok(sc_step(c, sc_push(w, Kind::NEQ)))
                } else {
                    Err(err_at("expected '🐰'|'🐊'|'👈'"@, w.loc))
                },
                None => Err(err_at("expected '🐰'|'🐊'|'👈'"@, w.loc)),
            }
        } else if ch == '🐰' {
            Ok(sc_step(c, sc_push(t, Kind::LT)))
        } else if ch == '🐊' {
            Ok(sc_step(c, sc_push(t, Kind::GT)))
        } else if ch == '👉' {
            sc_expect(c, sc_step(c, sc_push(t, Kind::EQ)), '👈')
        } else {
            Err(err_at("expected cmp"@, t.loc))
        },
        None => Err(err_at("expected cmp"@, t.loc)),
    }
}

/// Reading a statement where the next character is neither absent nor a
/// space advances.
pub open spec fn must_advance(c: Seq<char>, s: ScanState) -> bool {
    sc_at(c, s) is Some && sc_at(c, s) != Some(' ')
}

/// `a` is no further than `b`, which lies within the source.
pub open spec fn within(c: Seq<char>, a: ScanState, b: ScanState) -> bool {
    a.pos <= b.pos <= c.len()
}

/// What the recursive readers report where a reader that must advance did
/// not (which never happens: see `lemma_statement_advances`).
pub open spec fn stalled() -> FailureView {
    FailureView::Panic(Seq::empty())
}

/// A factor: a parenthesised expression, a negated factor, or an identifier.
pub open spec fn sc_factor(c: Seq<char>, s: ScanState) -> Result<ScanState, FailureView>
    decreases c.len() - s.pos, 0int,
{
    let t = sc_layout(c, s);
    proof {
        lemma_layout(c, s);
    }
    match sc_at(c, t) {
        Some(ch) => if ch == '✋' {
            match sc_expression(c, sc_step(c, sc_push(t, Kind::LParen))) {
                Err(e) => Err(e),
                Ok(v) => {
                    let w = sc_layout(c, v);
                    if sc_at(c, w) == Some('🤚') {
                        Ok(sc_step(c, sc_push(w, Kind::RParen)))
                    } else {
                        Err(FailureView::Error("expected '🤚' at "@ + loc_text(w.loc)))
                    }
                },
            }
        } else if ch == '➖' {
            sc_factor(c, sc_step(c, sc_push(t, Kind::Subtract)))
        } else {
            sc_identifier(c, t)
        },
        None => Err(err_at("expected factor"@, t.loc)),
    }
}

/// A term: factors joined by '❎' (times) and '➗' (divided by).
pub open spec fn sc_term(c: Seq<char>, s: ScanState) -> Result<ScanState, FailureView>
    decreases c.len() - s.pos, 1int,
{
    match sc_factor(c, s) {
        Err(e) => Err(e),
        Ok(u) => if !within(c, s, u) {
            Err(stalled())
        } else {
            let t = sc_layout(c, u);
            proof {
                lemma_layout(c, u);
            }
            match sc_at(c, t) {
                Some(ch) => if ch == '❎' {
                    sc_term(c, sc_step(c, sc_push(t, Kind::Multiply)))
                } else if ch == '➗' {
                    sc_term(c, sc_step(c, sc_push(t, Kind::Divide)))
                } else {
                    Ok(t)
                },
                None => Ok(t),
            }
        },
    }
}

/// An expression: terms joined by '➕' (plus) and '➖' (minus).
pub open spec fn sc_expression(c: Seq<char>, s: ScanState) -> Result<ScanState, FailureView>
    decreases c.len() - s.pos, 2int,
{
    match sc_term(c, s) {
        Err(e) => Err(e),
        Ok(u) => if !within(c, s, u) {
            Err(stalled())
        } else {
            let t = sc_layout(c, u);
            proof {
                lemma_layout(c, u);
            }
            match sc_at(c, t) {
                Some(ch) => if ch == '➕' {
                    sc_expression(c, sc_step(c, sc_push(t, Kind::Add)))
                } else if ch == '➖' {
                    sc_expression(c, sc_step(c, sc_push(t, Kind::Subtract)))
                } else {
                    Ok(t)
                },
                None => Ok(t),
            }
        },
    }
}

/// An assignment: a name, '👈', an expression, the end of the line.
pub open spec fn sc_assertion(c: Seq<char>, s: ScanState) -> Result<ScanState, FailureView> {
    match sc_emojis(c, s) {
        Err(e) => Err(e),
        Ok(u) => {
            let t = sc_layout(c, u);
            if sc_at(c, t) == Some('👈') {
                match sc_expression(c, sc_push(sc_step(c, t), Kind::Assign)) {
                    Err(e) => Err(e),
                    Ok(w) => sc_eol(c, w),
                }
            } else {
                Err(FailureView::Error("expected '👈' at "@ + loc_text(t.loc.next_col())))
            }
        },
    }
}

/// A print statement: '💬', '✋', an expression, '🤚', the end of the line.
pub open spec fn sc_print(c: Seq<char>, s: ScanState) -> Result<ScanState, FailureView> {
    match sc_expect(c, s, '💬') {
        Err(e) => Err(e),
        Ok(u) => match sc_expect(c, sc_push(u, Kind::PrintKeyword), '✋') {
            Err(e) => Err(e),
            Ok(v) => match sc_expression(c, sc_push(v, Kind::LParen)) {
                Err(e) => Err(e),
                Ok(w) => match sc_expect(c, w, '🤚') {
                    Err(e) => Err(e),
                    Ok(x) => sc_eol(c, sc_push(x, Kind::RParen)),
                },
            },
        },
    }
}

/// The statements of a block, up to its closing '🫴' or the end of the
/// source; blank and comment lines between them are skipped. Where `need`,
/// the block must hold a statement before its '🫴'.
pub open spec fn sc_block(c: Seq<char>, s: ScanState, need: bool) -> Result<ScanState, FailureView>
    decreases c.len() - s.pos, 4int,
{
    let t = sc_gap(c, s);
    proof {
        lemma_gap(c, s);
    }
    match sc_at(c, t) {
        None => Ok(t),
        Some(ch) => if ch == '🫴' {
            if need {
                Err(err_at("expected identifier"@, t.loc))
            } else {
                Ok(t)
            }
        } else {
            match sc_statement(c, t) {
                Err(e) => Err(e),
                Ok(u) => if t.pos < u.pos <= c.len() {
                    sc_block(c, u, false)
                } else {
                    Err(stalled())
                },
            }
        },
    }
}

/// A loop: '🔄', '🫳', the end of the line, the statements of its block,
/// '🫴', the end of the line.
pub open spec fn sc_loop(c: Seq<char>, s: ScanState) -> Result<ScanState, FailureView>
    decreases c.len() - s.pos, 2int,
{
    match sc_expect(c, s, '🔄') {
        Err(e) => Err(e),
        Ok(u) => match sc_expect(c, sc_push(u, Kind::LoopKeyword), '🫳') {
            Err(e) => Err(e),
            Ok(v) => match sc_eol(c, sc_push(v, Kind::LBrace)) {
                Err(e) => Err(e),
                Ok(w) => {
                    proof {
                        lemma_expect(c, s, '🔄');
                        lemma_expect(c, sc_push(u, Kind::LoopKeyword), '🫳');
                        lemma_eol(c, sc_push(v, Kind::LBrace));
                    }
                    match sc_block(c, w, true) {
                        Err(e) => Err(e),
                        Ok(x) => match sc_expect(c, x, '🫴') {
                            Err(e) => Err(e),
                            Ok(y) => sc_eol(c, sc_push(y, Kind::RBrace)),
                        },
                    }
                },
            },
        },
    }
}

/// A conditional: '👀', an expression, a comparison, an expression, '🫳',
/// the end of the line, the statements of its block, '🫴', the end of the
/// line.
pub open spec fn sc_if(c: Seq<char>, s: ScanState) -> Result<ScanState, FailureView>
    decreases c.len() - s.pos, 2int,
{
    match sc_expect(c, s, '👀') {
        Err(e) => Err(e),
        Ok(u) => match sc_expression(c, sc_push(u, Kind::IfKeyword)) {
            Err(e) => Err(e),
            Ok(v) => match sc_cmp(c, v) {
                Err(e) => Err(e),
                Ok(w) => match sc_expression(c, w) {
                    Err(e) => Err(e),
                    Ok(x) => match sc_expect(c, x, '🫳') {
                        Err(e) => Err(e),
                        Ok(y) => match sc_eol(c, sc_push(y, Kind::LBrace)) {
                            Err(e) => Err(e),
                            Ok(z) => {
                                proof {
                                    lemma_expect(c, s, '👀');
                                    lemma_expression(c, sc_push(u, Kind::IfKeyword));
                                    lemma_cmp(c, v);
                                    lemma_expression(c, w);
                                    lemma_expect(c, x, '🫳');
                                    lemma_eol(c, sc_push(y, Kind::LBrace));
                                }
                                match sc_block(c, z, true) {
                                    Err(e) => Err(e),
                                    Ok(b) => match sc_expect(c, b, '🫴') {
                                        Err(e) => Err(e),
                                        Ok(r) => sc_eol(c, sc_push(r, Kind::RBrace)),
                                    },
                                }
                            },
                        },
                    },
                },
            },
        },
    }
}

/// A statement, chosen by its first character: an assignment, a
/// conditional, a loop, a print statement or a break. The end of the source
/// is an empty statement; anything else is refused.
pub open spec fn sc_statement(c: Seq<char>, s: ScanState) -> Result<ScanState, FailureView>
    decreases c.len() - s.pos, 3int,
{
    let t = sc_layout(c, s);
    proof {
        lemma_layout(c, s);
    }
    match sc_at(c, t) {
        None => Ok(t),
        Some(ch) => if is_user_emoji(ch) {
            sc_assertion(c, t)
        } else if ch == '👀' {
            sc_if(c, t)
        } else if ch == '🔄' {
            sc_loop(c, t)
        } else if ch == '💬' {
            sc_print(c, t)
        } else if ch == '🔚' {
            sc_eol(c, sc_step(c, sc_push(t, Kind::BreakKeyword)))
        } else {
            Err(err_at("expected identifier"@, t.loc))
        },
    }
}

/// The statements of a program, with blank and comment lines between them.
pub open spec fn sc_program(c: Seq<char>, s: ScanState) -> Result<ScanState, FailureView>
    decreases c.len() - s.pos,
{
    if !(0 <= s.pos < c.len()) {
        Ok(s)
    } else {
        let t = sc_gap(c, s);
        proof {
            lemma_gap(c, s);
        }
        match sc_at(c, t) {
            None => Ok(t),
            Some(_) => match sc_statement(c, t) {
                Err(e) => Err(e),
                Ok(u) => if t.pos < u.pos <= c.len() {
                    sc_program(c, u)
                } else {
                    Err(stalled())
                },
            },
        }
    }
}

/// The tokens of a source, or why it is refused.
pub open spec fn tokenize_spec(c: Seq<char>) -> Result<Seq<TokenView>, FailureView> {
    match sc_program(c, scan_start()) {
        Ok(s) => Ok(s.toks),
        Err(e) => Err(e),
    }
}


// ---------------------------------------------------------------------------
// How far the readers move

pub proof fn lemma_comment_rest(c: Seq<char>, s: ScanState)
    requires
        0 <= s.pos,
    ensures
        s.pos <= sc_comment_rest(c, s).pos,
        s.pos <= c.len() ==> sc_comment_rest(c, s).pos <= c.len(),
        sc_comment_rest(c, s).toks == s.toks,
    decreases c.len() - s.pos,
{
    if 0 <= s.pos < c.len() && !is_line_end(c[s.pos]) {
        lemma_comment_rest(c, sc_drop(s));
    }
}

pub proof fn lemma_skip_spaces(c: Seq<char>, s: ScanState)
    ensures
        s.pos <= sc_skip_spaces(c, s).pos,
        s.pos <= c.len() ==> sc_skip_spaces(c, s).pos <= c.len(),
        sc_skip_spaces(c, s).toks == s.toks,
        sc_at(c, sc_skip_spaces(c, s)) != Some(' '),
    decreases c.len() - s.pos,
{
    if 0 <= s.pos < c.len() && c[s.pos] == ' ' {
        lemma_skip_spaces(c, ScanState { pos: s.pos + 1, loc: s.loc.next_col(), ..s });
    }
}

pub proof fn lemma_layout(c: Seq<char>, s: ScanState)
    ensures
        s.pos <= sc_layout(c, s).pos,
        s.pos <= c.len() ==> sc_layout(c, s).pos <= c.len(),
        sc_layout(c, s).toks == s.toks,
        sc_at(c, sc_layout(c, s)) != Some(' '),
{
    if sc_at(c, s) == Some('🙈') {
        lemma_comment_rest(c, sc_drop(s));
    }
    lemma_skip_spaces(c, sc_check_comment(c, s));
}

pub proof fn lemma_gap(c: Seq<char>, s: ScanState)
    ensures
        s.pos <= sc_gap(c, s).pos,
        s.pos <= c.len() ==> sc_gap(c, s).pos <= c.len(),
        sc_gap(c, s).toks == s.toks,
        sc_at(c, sc_gap(c, s)) matches Some(ch) ==> ch != ' ' && ch != '🙈' && !is_line_end(ch),
        sc_layout(c, sc_gap(c, s)) == sc_gap(c, s),
    decreases c.len() - s.pos,
{
    if 0 <= s.pos < c.len() {
        if c[s.pos] == ' ' || is_line_end(c[s.pos]) {
            lemma_gap(c, sc_step(c, s));
        } else if c[s.pos] == '🙈' {
            lemma_comment_rest(c, sc_drop(s));
            lemma_gap(c, sc_comment_rest(c, sc_drop(s)));
        }
    }
}

pub proof fn lemma_next(c: Seq<char>, s: ScanState)
    ensures
        sc_next(c, s) matches Ok(u) ==> s.pos <= u.pos && (s.pos <= c.len() ==> u.pos <= c.len()) && u.toks == s.toks,
        sc_next(c, s) matches Err(e) ==> e == FailureView::Panic(slice_panic()),
{
    let s1 = sc_check_comment(c, s);
    if sc_at(c, s) == Some('🙈') {
        lemma_comment_rest(c, sc_drop(s));
    }
    lemma_layout(c, s1);
}

pub proof fn lemma_expect(c: Seq<char>, s: ScanState, ch: char)
    requires
        ch != '🙈',
        ch != ' ',
    ensures
        sc_expect(c, s, ch) matches Ok(u) ==> s.pos < u.pos && (s.pos <= c.len() ==> u.pos <= c.len()),
{
    let t = sc_layout(c, s);
    lemma_layout(c, s);
    lemma_layout(c, t);
}

pub proof fn lemma_eol(c: Seq<char>, s: ScanState)
    ensures
        sc_eol(c, s) matches Ok(u) ==> s.pos <= u.pos && (s.pos <= c.len() ==> u.pos <= c.len()),
{
    lemma_layout(c, s);
}

pub proof fn lemma_cmp(c: Seq<char>, s: ScanState)
    ensures
        sc_cmp(c, s) matches Ok(u) ==> s.pos <= u.pos && (s.pos <= c.len() ==> u.pos <= c.len()),
{
    let t = sc_layout(c, s);
    lemma_layout(c, s);
    if sc_at(c, t) == Some('👎') {
        lemma_layout(c, sc_step(c, t));
    }
    if sc_at(c, t) == Some('👉') {
        lemma_expect(c, sc_step(c, sc_push(t, Kind::EQ)), '👈');
    }
}

pub proof fn lemma_emoji_tail(c: Seq<char>, s: ScanState, name: Seq<char>)
    ensures
        s.pos <= sc_emoji_tail(c, s, name).0.pos,
        s.pos <= c.len() ==> sc_emoji_tail(c, s, name).0.pos <= c.len(),
        sc_emoji_tail(c, s, name).0.toks == s.toks,
    decreases c.len() - s.pos,
{
    if 0 <= s.pos < c.len() {
        let t = sc_layout(c, s);
        lemma_layout(c, s);
        if let Some(ch) = sc_at(c, t) {
            if is_user_emoji(ch) {
                lemma_emoji_tail(c, sc_step(c, t), name.push(ch));
            }
        }
    }
}

pub proof fn lemma_digit_tail(c: Seq<char>, s: ScanState, ds: Seq<char>)
    ensures
        s.pos <= sc_digit_tail(c, s, ds).0.pos,
        s.pos <= c.len() ==> sc_digit_tail(c, s, ds).0.pos <= c.len(),
        sc_digit_tail(c, s, ds).0.toks == s.toks,
    decreases c.len() - s.pos,
{
    if 0 <= s.pos < c.len() {
        let t = sc_layout(c, s);
        lemma_layout(c, s);
        if let Some(ch) = sc_at(c, t) {
            if is_digit(ch) {
                lemma_digit_tail(c, sc_step(c, t), ds.push(ch));
            }
        }
    }
}

pub proof fn lemma_identifier(c: Seq<char>, s: ScanState)
    ensures
        sc_identifier(c, s) matches Ok(u) ==> s.pos < u.pos && (s.pos <= c.len() ==> u.pos <= c.len()),
{
    let t = sc_layout(c, s);
    lemma_layout(c, s);
    lemma_emojis(c, t);
    if let Some(ch) = sc_at(c, t) {
        if is_digit(ch) && !is_user_emoji(ch) {
            assert(sc_layout(c, t) == t);
            lemma_digit_tail(c, sc_step(c, t), seq![ch]);
        }
    }
}

pub proof fn lemma_factor(c: Seq<char>, s: ScanState)
    ensures
        sc_factor(c, s) matches Ok(u) ==> s.pos < u.pos && (s.pos <= c.len() ==> u.pos <= c.len()),
    decreases c.len() - s.pos, 0int,
{
    let t = sc_layout(c, s);
    lemma_layout(c, s);
    if let Some(ch) = sc_at(c, t) {
        if ch == '✋' {
            let a = sc_step(c, sc_push(t, Kind::LParen));
            lemma_expression(c, a);
            if let Ok(v) = sc_expression(c, a) {
                lemma_layout(c, v);
            }
        } else if ch == '➖' {
            lemma_factor(c, sc_step(c, sc_push(t, Kind::Subtract)));
        } else {
            lemma_identifier(c, t);
        }
    }
}

pub proof fn lemma_term(c: Seq<char>, s: ScanState)
    ensures
        sc_term(c, s) matches Ok(u) ==> s.pos < u.pos && (s.pos <= c.len() ==> u.pos <= c.len()),
    decreases c.len() - s.pos, 1int,
{
    lemma_factor(c, s);
    if let Ok(u) = sc_factor(c, s) {
        if within(c, s, u) {
            let t = sc_layout(c, u);
            lemma_layout(c, u);
            if let Some(ch) = sc_at(c, t) {
                if ch == '❎' {
                    lemma_term(c, sc_step(c, sc_push(t, Kind::Multiply)));
                } else if ch == '➗' {
                    lemma_term(c, sc_step(c, sc_push(t, Kind::Divide)));
                }
            }
        }
    }
}

pub proof fn lemma_expression(c: Seq<char>, s: ScanState)
    ensures
        sc_expression(c, s) matches Ok(u) ==> s.pos < u.pos && (s.pos <= c.len() ==> u.pos <= c.len()),
    decreases c.len() - s.pos, 2int,
{
    lemma_term(c, s);
    if let Ok(u) = sc_term(c, s) {
        if within(c, s, u) {
            let t = sc_layout(c, u);
            lemma_layout(c, u);
            if let Some(ch) = sc_at(c, t) {
                if ch == '➕' {
                    lemma_expression(c, sc_step(c, sc_push(t, Kind::Add)));
                } else if ch == '➖' {
                    lemma_expression(c, sc_step(c, sc_push(t, Kind::Subtract)));
                }
            }
        }
    }
}

pub proof fn lemma_assertion(c: Seq<char>, s: ScanState)
    ensures
        sc_assertion(c, s) matches Ok(u) ==> s.pos < u.pos,
{
    lemma_emojis(c, s);
    if let Ok(u) = sc_emojis(c, s) {
        let t = sc_layout(c, u);
        lemma_layout(c, u);
        if sc_at(c, t) == Some('👈') {
            let a = sc_push(sc_step(c, t), Kind::Assign);
            lemma_expression(c, a);
            if let Ok(w) = sc_expression(c, a) {
                lemma_eol(c, w);
            }
        }
    }
}

pub proof fn lemma_print(c: Seq<char>, s: ScanState)
    ensures
        sc_print(c, s) matches Ok(u) ==> s.pos < u.pos,
{
    lemma_expect(c, s, '💬');
    if let Ok(u) = sc_expect(c, s, '💬') {
        let u1 = sc_push(u, Kind::PrintKeyword);
        lemma_expect(c, u1, '✋');
        if let Ok(v) = sc_expect(c, u1, '✋') {
            let v1 = sc_push(v, Kind::LParen);
            lemma_expression(c, v1);
            if let Ok(w) = sc_expression(c, v1) {
                lemma_expect(c, w, '🤚');
                if let Ok(x) = sc_expect(c, w, '🤚') {
                    lemma_eol(c, sc_push(x, Kind::RParen));
                }
            }
        }
    }
}

pub proof fn lemma_emojis(c: Seq<char>, s: ScanState)
    ensures
        sc_emojis(c, s) matches Ok(u) ==> s.pos < u.pos && (s.pos <= c.len() ==> u.pos <= c.len()),
{
    let t = sc_layout(c, s);
    lemma_layout(c, s);
    lemma_next(c, t);
    if let Ok(u) = sc_next(c, t) {
        if let Some(ch) = sc_at(c, t) {
            lemma_emoji_tail(c, u, seq![ch]);
        }
    }
}

} // verus!
