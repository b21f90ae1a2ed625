//! What holds of every run of the tokenizer: it only appends tokens, the
//! integers it reads are never negative, the names it reads are made of the
//! listed emojis, every statement it accepts ends
//! with an end-of-line token, a comment line between statements is
//! ignored, and it fails only with an error for the user
//! or where reading gives up (an index past the end, an overflowing
//! integer).

use vstd::prelude::*;
use crate::text::FailureView;
use crate::scan::{ScanState, lemma_comment_rest, lemma_digit_tail, lemma_emoji_tail, lemma_emojis, lemma_expect, lemma_factor, lemma_gap, lemma_layout, lemma_next, lemma_print, lemma_skip_spaces, lemma_term, must_advance, add_overflow_panic, mul_overflow_panic, sc_assertion, sc_at, sc_block, sc_check_comment, sc_cmp, sc_comment_rest, sc_digit_tail, sc_drop, sc_emoji_tail, sc_emojis, sc_eol, sc_expect, sc_expression, sc_factor, sc_gap, sc_identifier, sc_if, sc_integer, sc_layout, sc_loop, sc_next, sc_print, sc_program, sc_push, sc_statement, sc_step, sc_term, scan_start, slice_panic, stalled, tokenize_spec};
use crate::tokenizer::{Kind, TokenView, digits_value, int_of_digits, is_line_end, is_user_emoji};

verus! {

/// An integer token is never negative, and a name is one or more of the
/// emojis that names are made of.
pub open spec fn good_tok(t: TokenView) -> bool {
    &&& t.kind matches Kind::Int(n) ==> n >= 0
    &&& t.kind matches Kind::Emojis(name) ==> is_name(name)
}

/// One or more of the emojis that names are made of.
pub open spec fn is_name(name: Seq<char>) -> bool {
    name.len() > 0 && forall|i: int| 0 <= i < name.len() ==> is_user_emoji(#[trigger] name[i])
}

/// `b` is `a` with tokens appended, none of them a negative integer.
pub open spec fn extends(a: Seq<TokenView>, b: Seq<TokenView>) -> bool {
    &&& a.len() <= b.len()
    &&& b.subrange(0, a.len() as int) == a
    &&& forall|i: int| a.len() <= i < b.len() ==> good_tok(#[trigger] b[i])
}

/// `b` is `a`, or ends with an end-of-line token.
pub open spec fn eol_or_same(a: Seq<TokenView>, b: Seq<TokenView>) -> bool {
    b == a || (b.len() > 0 && b.last().kind is EOL)
}

/// A failure that the tokenizer reports: an error for the user, or one of
/// the conditions where reading gives up.
pub open spec fn genuine(e: FailureView) -> bool {
    ||| e is Error
    ||| e == FailureView::Panic(slice_panic())
    ||| e == FailureView::Panic(mul_overflow_panic())
    ||| e == FailureView::Panic(add_overflow_panic())
}

/// The number of tokens of kind `k`.
pub open spec fn count_kind(ts: Seq<TokenView>, k: Kind) -> nat
    decreases ts.len(),
{
    if ts.len() == 0 {
        0
    } else {
        count_kind(ts.drop_last(), k) + if ts.last().kind == k { 1nat } else { 0nat }
    }
}

/// The tokens that `b` adds to `a` hold as many '✋' as '🤚', and as many
/// '🫳' as '🫴'.
pub open spec fn balanced(a: Seq<TokenView>, b: Seq<TokenView>) -> bool {
    &&& count_kind(b, Kind::LParen) + count_kind(a, Kind::RParen) == count_kind(b, Kind::RParen) + count_kind(a, Kind::LParen)
    &&& count_kind(b, Kind::LBrace) + count_kind(a, Kind::RBrace) == count_kind(b, Kind::RBrace) + count_kind(a, Kind::LBrace)
}

/// What a reader that started at `s` and reported `r` satisfies.
pub open spec fn read_ok(c: Seq<char>, s: ScanState, r: Result<ScanState, FailureView>) -> bool {
    match r {
        Ok(u) => s.pos <= u.pos <= c.len() && extends(s.toks, u.toks) && balanced(s.toks, u.toks),
        Err(e) => genuine(e),
    }
}

/// Whether a state is one the tokenizer can be in.
pub open spec fn in_source(c: Seq<char>, s: ScanState) -> bool {
    0 <= s.pos <= c.len()
}

proof fn lemma_extends_refl(a: Seq<TokenView>)
    ensures
        extends(a, a),
{
    assert(a.subrange(0, a.len() as int) =~= a);
}

proof fn lemma_extends_trans(a: Seq<TokenView>, b: Seq<TokenView>, d: Seq<TokenView>)
    requires
        extends(a, b),
        extends(b, d),
    ensures
        extends(a, d),
{
    assert(d.subrange(0, a.len() as int) =~= b.subrange(0, a.len() as int)) by {
        assert forall|i: int| 0 <= i < a.len() implies d[i] == b[i] by {
            assert(d.subrange(0, b.len() as int)[i] == b[i]);
        }
    }
    assert forall|i: int| a.len() <= i < d.len() implies good_tok(#[trigger] d[i]) by {
        if i < b.len() {
            assert(d.subrange(0, b.len() as int)[i] == b[i]);
        }
    }
}

proof fn lemma_extends_push(a: Seq<TokenView>, t: TokenView)
    requires
        good_tok(t),
    ensures
        extends(a, a.push(t)),
        forall|k: Kind| #[trigger] count_kind(a.push(t), k) == count_kind(a, k) + if t.kind == k { 1nat } else { 0nat },
{
    assert(a.push(t).subrange(0, a.len() as int) =~= a);
    assert(a.push(t).drop_last() =~= a);
}

proof fn lemma_eol_trans(a: Seq<TokenView>, b: Seq<TokenView>, d: Seq<TokenView>)
    requires
        extends(a, b),
        eol_or_same(a, b),
        eol_or_same(b, d),
    ensures
        eol_or_same(a, d),
{
}

proof fn lemma_digits_nonneg(ds: Seq<char>)
    ensures
        digits_value(ds) >= 0,
    decreases ds.len(),
{
    if ds.len() > 0 {
        lemma_digits_nonneg(ds.drop_last());
    }
}

proof fn lemma_expect_ok(c: Seq<char>, s: ScanState, ch: char)
    requires
        in_source(c, s),
    ensures
        read_ok(c, s, sc_expect(c, s, ch)),
{
    let t = sc_layout(c, s);
    lemma_layout(c, s);
    lemma_next(c, t);
    lemma_extends_refl(s.toks);
}

proof fn lemma_eol_ok(c: Seq<char>, s: ScanState)
    requires
        in_source(c, s),
    ensures
        read_ok(c, s, sc_eol(c, s)),
        sc_eol(c, s) matches Ok(u) ==> u.toks.len() > 0 && u.toks.last().kind is EOL,
{
    let t = sc_layout(c, s);
    lemma_layout(c, s);
    let tok = TokenView { kind: Kind::EOL, location: t.loc };
    lemma_extends_push(s.toks, tok);
    lemma_extends_push(s.toks, TokenView { kind: Kind::EOL, location: t.loc.next_col() });
}

proof fn lemma_emojis_ok(c: Seq<char>, s: ScanState)
    requires
        in_source(c, s),
    ensures
        read_ok(c, s, sc_emojis(c, s)),
{
    let t = sc_layout(c, s);
    lemma_layout(c, s);
    lemma_next(c, t);
    lemma_emojis(c, s);
    if let Ok(u) = sc_next(c, t) {
        if let Some(ch) = sc_at(c, t) {
            lemma_emoji_tail(c, u, seq![ch]);
            if is_user_emoji(ch) {
                let first = seq![ch];
                assert(first[0] == ch);
                assert(is_name(first));
                lemma_emoji_tail_name(c, u, first);
                let (v, name) = sc_emoji_tail(c, u, first);
                lemma_extends_push(s.toks, TokenView { kind: Kind::Emojis(name), location: v.loc });
            }
        }
    }
}

proof fn lemma_emoji_tail_name(c: Seq<char>, s: ScanState, name: Seq<char>)
    requires
        is_name(name),
    ensures
        is_name(sc_emoji_tail(c, s, name).1),
    decreases c.len() - s.pos,
{
    if 0 <= s.pos < c.len() {
        let t = sc_layout(c, s);
        lemma_layout(c, s);
        if let Some(ch) = sc_at(c, t) {
            if is_user_emoji(ch) {
                let n2 = name.push(ch);
                assert forall|i: int| 0 <= i < n2.len() implies is_user_emoji(#[trigger] n2[i]) by {
                    if i < name.len() {
                        assert(n2[i] == name[i]);
                    }
                }
                lemma_emoji_tail_name(c, sc_step(c, t), n2);
            }
        }
    }
}

proof fn lemma_integer_ok(c: Seq<char>, s: ScanState)
    requires
        in_source(c, s),
    ensures
        read_ok(c, s, sc_integer(c, s)),
{
    let t = sc_layout(c, s);
    lemma_layout(c, s);
    lemma_digit_tail(c, t, Seq::empty());
    let (v, ds) = sc_digit_tail(c, t, Seq::empty());
    lemma_digits_nonneg(ds);
    if let Ok(n) = int_of_digits(ds) {
        lemma_extends_push(s.toks, TokenView { kind: Kind::Int(n), location: v.loc });
    }
}

proof fn lemma_identifier_ok(c: Seq<char>, s: ScanState)
    requires
        in_source(c, s),
    ensures
        read_ok(c, s, sc_identifier(c, s)),
{
    let t = sc_layout(c, s);
    lemma_layout(c, s);
    lemma_emojis_ok(c, t);
    lemma_integer_ok(c, t);
}

proof fn lemma_cmp_ok(c: Seq<char>, s: ScanState)
    requires
        in_source(c, s),
    ensures
        read_ok(c, s, sc_cmp(c, s)),
{
    let t = sc_layout(c, s);
    lemma_layout(c, s);
    if let Some(ch) = sc_at(c, t) {
        if ch == '👎' {
            let w = sc_layout(c, sc_step(c, t));
            lemma_layout(c, sc_step(c, t));
            lemma_extends_push(s.toks, TokenView { kind: Kind::GEQ, location: w.loc });
            lemma_extends_push(s.toks, TokenView { kind: Kind::LEQ, location: w.loc });
            lemma_extends_push(s.toks, TokenView { kind: Kind::NEQ, location: w.loc });
        } else if ch == '👉' {
            let a = sc_step(c, sc_push(t, Kind::EQ));
            lemma_extends_push(s.toks, TokenView { kind: Kind::EQ, location: t.loc });
            lemma_expect_ok(c, a, '👈');
            if let Ok(u) = sc_expect(c, a, '👈') {
                lemma_extends_trans(s.toks, a.toks, u.toks);
            }
        } else {
            lemma_extends_push(s.toks, TokenView { kind: Kind::LT, location: t.loc });
            lemma_extends_push(s.toks, TokenView { kind: Kind::GT, location: t.loc });
        }
    }
}

proof fn lemma_factor_ok(c: Seq<char>, s: ScanState)
    requires
        in_source(c, s),
    ensures
        read_ok(c, s, sc_factor(c, s)),
    decreases c.len() - s.pos, 0int,
{
    let t = sc_layout(c, s);
    lemma_layout(c, s);
    if let Some(ch) = sc_at(c, t) {
        if ch == '✋' {
            let a = sc_step(c, sc_push(t, Kind::LParen));
            lemma_extends_push(s.toks, TokenView { kind: Kind::LParen, location: t.loc });
            lemma_expression_ok(c, a);
            if let Ok(v) = sc_expression(c, a) {
                lemma_extends_trans(s.toks, a.toks, v.toks);
                let w = sc_layout(c, v);
                lemma_layout(c, v);
                lemma_extends_push(v.toks, TokenView { kind: Kind::RParen, location: w.loc });
                lemma_extends_trans(s.toks, v.toks, v.toks.push(TokenView { kind: Kind::RParen, location: w.loc }));
            }
        } else if ch == '➖' {
            let a = sc_step(c, sc_push(t, Kind::Subtract));
            lemma_extends_push(s.toks, TokenView { kind: Kind::Subtract, location: t.loc });
            lemma_factor_ok(c, a);
            if let Ok(v) = sc_factor(c, a) {
                lemma_extends_trans(s.toks, a.toks, v.toks);
            }
        } else {
            lemma_identifier_ok(c, t);
        }
    }
}

proof fn lemma_term_ok(c: Seq<char>, s: ScanState)
    requires
        in_source(c, s),
    ensures
        read_ok(c, s, sc_term(c, s)),
    decreases c.len() - s.pos, 1int,
{
    lemma_factor_ok(c, s);
    lemma_factor(c, s);
    if let Ok(u) = sc_factor(c, s) {
        let t = sc_layout(c, u);
        lemma_layout(c, u);
        if let Some(ch) = sc_at(c, t) {
            let k = if ch == '❎' { Kind::Multiply } else { Kind::Divide };
            if ch == '❎' || ch == '➗' {
                let a = sc_step(c, sc_push(t, k));
                lemma_extends_push(u.toks, TokenView { kind: k, location: t.loc });
                lemma_extends_trans(s.toks, u.toks, a.toks);
                lemma_term_ok(c, a);
                if let Ok(v) = sc_term(c, a) {
                    lemma_extends_trans(s.toks, a.toks, v.toks);
                }
            }
        }
    }
}

proof fn lemma_expression_ok(c: Seq<char>, s: ScanState)
    requires
        in_source(c, s),
    ensures
        read_ok(c, s, sc_expression(c, s)),
    decreases c.len() - s.pos, 2int,
{
    lemma_term_ok(c, s);
    lemma_term(c, s);
    if let Ok(u) = sc_term(c, s) {
        let t = sc_layout(c, u);
        lemma_layout(c, u);
        if let Some(ch) = sc_at(c, t) {
            let k = if ch == '➕' { Kind::Add } else { Kind::Subtract };
            if ch == '➕' || ch == '➖' {
                let a = sc_step(c, sc_push(t, k));
                lemma_extends_push(u.toks, TokenView { kind: k, location: t.loc });
                lemma_extends_trans(s.toks, u.toks, a.toks);
                lemma_expression_ok(c, a);
                if let Ok(v) = sc_expression(c, a) {
                    lemma_extends_trans(s.toks, a.toks, v.toks);
                }
            }
        }
    }
}


proof fn lemma_assertion_ok(c: Seq<char>, s: ScanState)
    requires
        in_source(c, s),
    ensures
        read_ok(c, s, sc_assertion(c, s)),
        sc_assertion(c, s) matches Ok(u) ==> u.toks.len() > 0 && u.toks.last().kind is EOL && s.pos < u.pos,
{
    lemma_emojis_ok(c, s);
    lemma_emojis(c, s);
    if let Ok(u) = sc_emojis(c, s) {
        let t = sc_layout(c, u);
        lemma_layout(c, u);
        if sc_at(c, t) == Some('👈') {
            let a = sc_push(sc_step(c, t), Kind::Assign);
            lemma_extends_push(u.toks, TokenView { kind: Kind::Assign, location: sc_step(c, t).loc });
            lemma_extends_trans(s.toks, u.toks, a.toks);
            lemma_expression_ok(c, a);
            if let Ok(w) = sc_expression(c, a) {
                lemma_extends_trans(s.toks, a.toks, w.toks);
                lemma_eol_ok(c, w);
                if let Ok(x) = sc_eol(c, w) {
                    lemma_extends_trans(s.toks, w.toks, x.toks);
                }
            }
        }
    }
}

proof fn lemma_print_ok(c: Seq<char>, s: ScanState)
    requires
        in_source(c, s),
    ensures
        read_ok(c, s, sc_print(c, s)),
        sc_print(c, s) matches Ok(u) ==> u.toks.len() > 0 && u.toks.last().kind is EOL && s.pos < u.pos,
{
    lemma_print(c, s);
    lemma_expect_ok(c, s, '💬');
    if let Ok(u) = sc_expect(c, s, '💬') {
        let u1 = sc_push(u, Kind::PrintKeyword);
        lemma_extends_push(u.toks, TokenView { kind: Kind::PrintKeyword, location: u.loc });
        lemma_extends_trans(s.toks, u.toks, u1.toks);
        lemma_expect_ok(c, u1, '✋');
        if let Ok(v) = sc_expect(c, u1, '✋') {
            lemma_extends_trans(s.toks, u1.toks, v.toks);
            let v1 = sc_push(v, Kind::LParen);
            lemma_extends_push(v.toks, TokenView { kind: Kind::LParen, location: v.loc });
            lemma_extends_trans(s.toks, v.toks, v1.toks);
            lemma_expression_ok(c, v1);
            if let Ok(w) = sc_expression(c, v1) {
                lemma_extends_trans(s.toks, v1.toks, w.toks);
                lemma_expect_ok(c, w, '🤚');
                if let Ok(x) = sc_expect(c, w, '🤚') {
                    lemma_extends_trans(s.toks, w.toks, x.toks);
                    let x1 = sc_push(x, Kind::RParen);
                    lemma_extends_push(x.toks, TokenView { kind: Kind::RParen, location: x.loc });
                    lemma_extends_trans(s.toks, x.toks, x1.toks);
                    lemma_eol_ok(c, x1);
                    if let Ok(y) = sc_eol(c, x1) {
                        lemma_extends_trans(s.toks, x1.toks, y.toks);
                    }
                }
            }
        }
    }
}

proof fn lemma_comment_advances(c: Seq<char>, s: ScanState)
    requires
        in_source(c, s),
        sc_at(c, s) == Some('🙈'),
    ensures
        s.pos < sc_layout(c, s).pos,
{
    lemma_comment_rest(c, sc_drop(s));
    lemma_skip_spaces(c, sc_check_comment(c, s));
}

proof fn lemma_block_ok(c: Seq<char>, s: ScanState, need: bool)
    requires
        in_source(c, s),
    ensures
        read_ok(c, s, sc_block(c, s, need)),
        sc_block(c, s, need) matches Ok(u) ==> eol_or_same(s.toks, u.toks),
    decreases c.len() - s.pos, 4int,
{
    let t = sc_gap(c, s);
    lemma_gap(c, s);
    lemma_extends_refl(s.toks);
    if let Some(ch) = sc_at(c, t) {
        if ch != '🫴' {
            lemma_statement_ok(c, t);
            if let Ok(u) = sc_statement(c, t) {
                lemma_block_ok(c, u, false);
                if let Ok(v) = sc_block(c, u, false) {
                    lemma_extends_trans(s.toks, u.toks, v.toks);
                    lemma_eol_trans(s.toks, u.toks, v.toks);
                }
            }
        }
    }
}

proof fn lemma_loop_ok(c: Seq<char>, s: ScanState)
    requires
        in_source(c, s),
    ensures
        read_ok(c, s, sc_loop(c, s)),
        sc_loop(c, s) matches Ok(u) ==> u.toks.len() > 0 && u.toks.last().kind is EOL && s.pos < u.pos,
    decreases c.len() - s.pos, 2int,
{
    lemma_expect(c, s, '🔄');
    lemma_expect_ok(c, s, '🔄');
    if let Ok(u) = sc_expect(c, s, '🔄') {
        let u1 = sc_push(u, Kind::LoopKeyword);
        lemma_extends_push(u.toks, TokenView { kind: Kind::LoopKeyword, location: u.loc });
        lemma_extends_trans(s.toks, u.toks, u1.toks);
        lemma_expect_ok(c, u1, '🫳');
        if let Ok(v) = sc_expect(c, u1, '🫳') {
            lemma_extends_trans(s.toks, u1.toks, v.toks);
            let v1 = sc_push(v, Kind::LBrace);
            lemma_extends_push(v.toks, TokenView { kind: Kind::LBrace, location: v.loc });
            lemma_extends_trans(s.toks, v.toks, v1.toks);
            lemma_eol_ok(c, v1);
            if let Ok(w) = sc_eol(c, v1) {
                lemma_extends_trans(s.toks, v1.toks, w.toks);
                lemma_block_ok(c, w, true);
                if let Ok(x) = sc_block(c, w, true) {
                    lemma_extends_trans(s.toks, w.toks, x.toks);
                    lemma_expect_ok(c, x, '🫴');
                    if let Ok(y) = sc_expect(c, x, '🫴') {
                        lemma_extends_trans(s.toks, x.toks, y.toks);
                        let y1 = sc_push(y, Kind::RBrace);
                        lemma_extends_push(y.toks, TokenView { kind: Kind::RBrace, location: y.loc });
                        lemma_extends_trans(s.toks, y.toks, y1.toks);
                        lemma_eol_ok(c, y1);
                        if let Ok(z) = sc_eol(c, y1) {
                            lemma_extends_trans(s.toks, y1.toks, z.toks);
                        }
                    }
                }
            }
        }
    }
}

proof fn lemma_if_ok(c: Seq<char>, s: ScanState)
    requires
        in_source(c, s),
    ensures
        read_ok(c, s, sc_if(c, s)),
        sc_if(c, s) matches Ok(u) ==> u.toks.len() > 0 && u.toks.last().kind is EOL && s.pos < u.pos,
    decreases c.len() - s.pos, 2int,
{
    lemma_expect(c, s, '👀');
    lemma_expect_ok(c, s, '👀');
    if let Ok(u) = sc_expect(c, s, '👀') {
        let u1 = sc_push(u, Kind::IfKeyword);
        lemma_extends_push(u.toks, TokenView { kind: Kind::IfKeyword, location: u.loc });
        lemma_extends_trans(s.toks, u.toks, u1.toks);
        lemma_expression_ok(c, u1);
        if let Ok(v) = sc_expression(c, u1) {
            lemma_extends_trans(s.toks, u1.toks, v.toks);
            lemma_cmp_ok(c, v);
            if let Ok(w) = sc_cmp(c, v) {
                lemma_extends_trans(s.toks, v.toks, w.toks);
                lemma_expression_ok(c, w);
                if let Ok(x) = sc_expression(c, w) {
                    lemma_extends_trans(s.toks, w.toks, x.toks);
                    lemma_expect_ok(c, x, '🫳');
                    if let Ok(y) = sc_expect(c, x, '🫳') {
                        lemma_extends_trans(s.toks, x.toks, y.toks);
                        let y1 = sc_push(y, Kind::LBrace);
                        lemma_extends_push(y.toks, TokenView { kind: Kind::LBrace, location: y.loc });
                        lemma_extends_trans(s.toks, y.toks, y1.toks);
                        lemma_eol_ok(c, y1);
                        if let Ok(z) = sc_eol(c, y1) {
                            lemma_extends_trans(s.toks, y1.toks, z.toks);
                            lemma_block_ok(c, z, true);
                            if let Ok(b) = sc_block(c, z, true) {
                                lemma_extends_trans(s.toks, z.toks, b.toks);
                                lemma_expect_ok(c, b, '🫴');
                                if let Ok(r) = sc_expect(c, b, '🫴') {
                                    lemma_extends_trans(s.toks, b.toks, r.toks);
                                    let r1 = sc_push(r, Kind::RBrace);
                                    lemma_extends_push(r.toks, TokenView { kind: Kind::RBrace, location: r.loc });
                                    lemma_extends_trans(s.toks, r.toks, r1.toks);
                                    lemma_eol_ok(c, r1);
                                    if let Ok(q) = sc_eol(c, r1) {
                                        lemma_extends_trans(s.toks, r1.toks, q.toks);
                                    }
                                }
                            }
                        }
                    }
                }
            }
        }
    }
}

proof fn lemma_statement_ok(c: Seq<char>, s: ScanState)
    requires
        in_source(c, s),
    ensures
        read_ok(c, s, sc_statement(c, s)),
        sc_statement(c, s) matches Ok(u) ==> eol_or_same(s.toks, u.toks),
        must_advance(c, s) ==> (sc_statement(c, s) matches Ok(u) ==> s.pos < u.pos),
    decreases c.len() - s.pos, 3int,
{
    let t = sc_layout(c, s);
    lemma_layout(c, s);
    lemma_extends_refl(s.toks);
    if sc_at(c, s) == Some('🙈') {
        lemma_comment_advances(c, s);
    }
    if let Some(ch) = sc_at(c, t) {
        if is_user_emoji(ch) {
            lemma_assertion_ok(c, t);
        } else if ch == '👀' {
            lemma_if_ok(c, t);
        } else if ch == '🔄' {
            lemma_loop_ok(c, t);
        } else if ch == '💬' {
            lemma_print_ok(c, t);
        } else if ch == '🔚' {
            let a = sc_step(c, sc_push(t, Kind::BreakKeyword));
            lemma_extends_push(s.toks, TokenView { kind: Kind::BreakKeyword, location: t.loc });
            lemma_eol_ok(c, a);
            if let Ok(u) = sc_eol(c, a) {
                lemma_extends_trans(s.toks, a.toks, u.toks);
            }
        }
    }
}

proof fn lemma_program_ok(c: Seq<char>, s: ScanState)
    requires
        in_source(c, s),
    ensures
        read_ok(c, s, sc_program(c, s)),
        sc_program(c, s) matches Ok(u) ==> eol_or_same(s.toks, u.toks),
    decreases c.len() - s.pos,
{
    lemma_extends_refl(s.toks);
    if 0 <= s.pos < c.len() {
        let t = sc_gap(c, s);
        lemma_gap(c, s);
        if let Some(ch) = sc_at(c, t) {
            lemma_statement_ok(c, t);
            if let Ok(u) = sc_statement(c, t) {
                lemma_program_ok(c, u);
                if let Ok(v) = sc_program(c, u) {
                    lemma_extends_trans(s.toks, u.toks, v.toks);
                    lemma_eol_trans(s.toks, u.toks, v.toks);
                }
            }
        }
    }
}

/// Tokenizing fails only with an error for the user, or where reading gives
/// up: an index past the end of the source, or an overflow (of a
/// multiplication or an addition) while computing an integer.
pub proof fn law_tokenize_failures(c: Seq<char>)
    ensures
        tokenize_spec(c) matches Err(e) ==> genuine(e),
        !genuine(stalled()),
{
    lemma_program_ok(c, scan_start());
    reveal_strlit("range start index 1 out of range for slice of length 0");
    reveal_strlit("attempt to multiply with overflow");
    reveal_strlit("attempt to add with overflow");
    assert(slice_panic().len() > 0);
    assert(mul_overflow_panic().len() > 0);
    assert(add_overflow_panic().len() > 0);
}

/// Every integer token is non-negative, and every name token is one or more
/// of the emojis that names are made of.
pub proof fn law_tokens_well_formed(c: Seq<char>)
    ensures
        tokenize_spec(c) matches Ok(ts) ==> forall|i: int| 0 <= i < ts.len() ==> good_tok(#[trigger] ts[i]),
{
    lemma_program_ok(c, scan_start());
}

/// The tokens of an accepted source are none at all, or end with an
/// end-of-line token.
pub proof fn law_tokens_end_with_eol(c: Seq<char>)
    ensures
        tokenize_spec(c) matches Ok(ts) ==> ts.len() == 0 || ts.last().kind is EOL,
{
    lemma_program_ok(c, scan_start());
}

/// In the tokens of an accepted source, every '✋' has its '🤚' and every
/// '🫳' its '🫴': each opening kind occurs as often as its closing kind.
pub proof fn law_brackets_balance(c: Seq<char>)
    ensures
        tokenize_spec(c) matches Ok(ts) ==> {
            &&& count_kind(ts, Kind::LParen) == count_kind(ts, Kind::RParen)
            &&& count_kind(ts, Kind::LBrace) == count_kind(ts, Kind::RBrace)
        },
{
    lemma_program_ok(c, scan_start());
    let e: Seq<TokenView> = Seq::empty();
    assert(count_kind(e, Kind::LParen) == 0);
    assert(count_kind(e, Kind::RParen) == 0);
    assert(count_kind(e, Kind::LBrace) == 0);
    assert(count_kind(e, Kind::RBrace) == 0);
}

/// Where a comment runs from `s` to the line end at `p`, reading the rest
/// of it lands just after that line end, on the next line, with no token.
proof fn lemma_comment_line(c: Seq<char>, s: ScanState, p: int)
    requires
        0 <= s.pos <= p < c.len(),
        is_line_end(c[p]),
        forall|j: int| s.pos <= j < p ==> !is_line_end(#[trigger] c[j]),
    ensures
        sc_comment_rest(c, s) == (ScanState { pos: p + 1, loc: s.loc.next_line(), toks: s.toks }),
    decreases p - s.pos,
{
    if s.pos < p {
        lemma_comment_line(c, sc_drop(s), p);
    }
}

/// A comment line between statements is ignored: reading a program (or the
/// statements of a block) from the start of a line that holds only a
/// comment gives what reading from the next line gives.
pub proof fn law_comment_line_ignored(c: Seq<char>, s: ScanState, p: int)
    requires
        0 <= s.pos < p < c.len(),
        c[s.pos] == '🙈',
        forall|j: int| s.pos < j < p ==> !is_line_end(#[trigger] c[j]),
        is_line_end(c[p]),
    ensures
        ({
            let after = ScanState { pos: p + 1, loc: s.loc.next_line(), toks: s.toks };
            &&& sc_program(c, s) == sc_program(c, after)
            &&& forall|need: bool| #[trigger] sc_block(c, s, need) == sc_block(c, after, need)
        }),
{
    lemma_comment_line(c, sc_drop(s), p);
}

proof fn lemma_emoji_run(c: Seq<char>, s: ScanState, name: Seq<char>, q: int)
    requires
        0 <= s.pos <= q <= c.len(),
        forall|j: int| s.pos <= j < q ==> is_user_emoji(#[trigger] c[j]),
        q < c.len() ==> !is_user_emoji(c[q]) && c[q] != ' ' && c[q] != '🙈',
    ensures
        sc_emoji_tail(c, s, name).0.pos == q,
        sc_emoji_tail(c, s, name).0.toks == s.toks,
        sc_emoji_tail(c, s, name).1 == name + c.subrange(s.pos, q),
    decreases c.len() - s.pos,
{
    if s.pos < q {
        assert(is_user_emoji(c[s.pos]));
        assert(c[s.pos] != '🙈' && c[s.pos] != ' ') by {
            assert(!crate::tokenizer::user_emoji_table().contains('🙈'));
            assert(!crate::tokenizer::user_emoji_table().contains(' '));
        }
        assert(sc_layout(c, s) == s);
        assert(!is_line_end(c[s.pos]));
        let n2 = name.push(c[s.pos]);
        lemma_emoji_run(c, sc_step(c, s), n2, q);
        assert(n2 + c.subrange(s.pos + 1, q) =~= name + c.subrange(s.pos, q));
    } else {
        assert(c.subrange(s.pos, q) =~= Seq::<char>::empty());
        assert(name + c.subrange(s.pos, q) =~= name);
        if s.pos < c.len() {
            assert(sc_layout(c, s) == s);
        }
    }
}

/// A name is exactly the run of emojis it is read from: where the source
/// holds, from the reading position, the emojis `c[p..q]` of names and then
/// neither such an emoji nor layout (or its end), reading a name reads that
/// whole run and adds one token, the name `c[p..q]`.
pub proof fn law_name_is_the_emoji_run(c: Seq<char>, s: ScanState, q: int)
    requires
        0 <= s.pos < q <= c.len(),
        forall|j: int| s.pos <= j < q ==> is_user_emoji(#[trigger] c[j]),
        q < c.len() ==> !is_user_emoji(c[q]) && c[q] != ' ' && c[q] != '🙈',
    ensures
        sc_emojis(c, s) matches Ok(u) && {
            &&& u.pos == q
            &&& u.toks.len() == s.toks.len() + 1
            &&& u.toks.drop_last() == s.toks
            &&& u.toks.last().kind == Kind::Emojis(c.subrange(s.pos, q))
        },
{
    let p = s.pos;
    assert(is_user_emoji(c[p]));
    assert(c[p] != '🙈' && c[p] != ' ') by {
        assert(!crate::tokenizer::user_emoji_table().contains('🙈'));
        assert(!crate::tokenizer::user_emoji_table().contains(' '));
    }
    assert(sc_layout(c, s) == s);
    assert(!is_line_end(c[p]));
    let u = sc_step(c, s);
    assert(sc_next(c, s) == Ok::<ScanState, FailureView>(u));
    lemma_emoji_run(c, u, seq![c[p]], q);
    assert(seq![c[p]] + c.subrange(p + 1, q) =~= c.subrange(p, q));
    let v = sc_emoji_tail(c, u, seq![c[p]]).0;
    let pushed = v.toks.push(TokenView { kind: Kind::Emojis(c.subrange(p, q)), location: v.loc });
    assert(pushed.drop_last() =~= s.toks);
}

/// The comparison tokens: where the source holds, from the reading
/// position, '🐊', '🐰', '👎🐰', '👎🐊', '👎👈' or '👉👈', reading a
/// comparison reads it and adds one token: greater, less, not less (`GEQ`),
/// not greater (`LEQ`), not equal (`NEQ`) or equal (`EQ`).
pub proof fn law_comparison_tokens(c: Seq<char>, s: ScanState)
    requires
        0 <= s.pos < c.len(),
        c[s.pos] == '🐊' || c[s.pos] == '🐰' || (s.pos + 1 < c.len() && (
            (c[s.pos] == '👎' && (c[s.pos + 1] == '🐰' || c[s.pos + 1] == '🐊' || c[s.pos + 1] == '👈'))
            || (c[s.pos] == '👉' && c[s.pos + 1] == '👈'))),
    ensures
        sc_cmp(c, s) matches Ok(u) && {
            &&& u.toks.len() == s.toks.len() + 1
            &&& u.toks.drop_last() == s.toks
            &&& u.toks.last().kind == if c[s.pos] == '🐊' {
                Kind::GT
            } else if c[s.pos] == '🐰' {
                Kind::LT
            } else if c[s.pos] == '👉' {
                Kind::EQ
            } else if c[s.pos + 1] == '🐰' {
                Kind::GEQ
            } else if c[s.pos + 1] == '🐊' {
                Kind::LEQ
            } else {
                Kind::NEQ
            }
        },
{
    let p = s.pos;
    assert(sc_layout(c, s) == s);
    let t1 = sc_step(c, s);
    if c[p] == '👎' || c[p] == '👉' {
        assert(sc_layout(c, t1) == t1);
        assert(sc_layout(c, sc_step(c, sc_push(s, Kind::EQ))) == sc_step(c, sc_push(s, Kind::EQ)));
    }
    let k = if c[p] == '🐊' {
        Kind::GT
    } else if c[p] == '🐰' {
        Kind::LT
    } else if c[p] == '👉' {
        Kind::EQ
    } else if c[p + 1] == '🐰' {
        Kind::GEQ
    } else if c[p + 1] == '🐊' {
        Kind::LEQ
    } else {
        Kind::NEQ
    };
    if c[p] == '👎' {
        let w = t1;
        assert(w.toks.push(TokenView { kind: k, location: w.loc }).drop_last() =~= s.toks);
    } else {
        assert(s.toks.push(TokenView { kind: k, location: s.loc }).drop_last() =~= s.toks);
    }
}

} // verus!
