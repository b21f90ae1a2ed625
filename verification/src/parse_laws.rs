//! How the parser reads a token sequence statement by statement: each
//! statement's extent is fixed by its own tokens, so complete statements
//! parse one after another, in order, whatever follows them; and a
//! conditional's block ends at the '🫴' that matches its '🫳'.

use vstd::prelude::*;
use crate::parser::{
    Ast, Stop, closes, if_rest, lemma_if_parts, lemma_loop_parts, lemma_statement_rests, loop_rest, opens, p_assignment,
    p_block, p_body, p_break, p_collect, p_cons, p_expr, p_if, p_if_head, p_loop, p_next, p_prepend, p_print,
    p_statements, stops, scoped_stmt, scoped_stmts, law_parse_checks_variables,
};
use crate::tokenizer::{Kind, TokenView};

verus! {

// ---------------------------------------------------------------------------
// Reading with more tokens after

proof fn lemma_next_append(r: Seq<TokenView>, b: Seq<TokenView>)
    requires
        r.len() > 0,
    ensures
        p_next(r + b) == p_next(r) + b,
        p_next(r).len() > 0 ==> p_next(r).last() == r.last(),
{
    assert((r + b).drop_first() =~= r.drop_first() + b);
    if r.len() > 1 {
        assert(r.drop_first().last() == r.last());
    }
}

proof fn lemma_collect_append(ts: Seq<TokenView>, stop: Stop, acc: Seq<TokenView>, b: Seq<TokenView>)
    ensures
        p_collect(ts, stop, acc) matches Ok((e, r)) ==> {
            &&& p_collect(ts + b, stop, acc) == Ok::<(Seq<TokenView>, Seq<TokenView>), Seq<char>>((e, r + b))
            &&& r.len() > 0
            &&& r.last() == ts.last()
        },
    decreases ts.len(),
{
    if ts.len() > 0 {
        assert((ts + b)[0] == ts[0]);
        assert((ts + b).drop_first() =~= ts.drop_first() + b);
        if !stops(stop, ts[0].kind) {
            lemma_collect_append(ts.drop_first(), stop, acc.push(ts[0]), b);
            if ts.len() > 1 {
                assert(ts.drop_first().last() == ts.last());
            }
        }
    }
}

proof fn lemma_block_append(ts: Seq<TokenView>, parens: bool, depth: nat, acc: Seq<TokenView>, b: Seq<TokenView>)
    ensures
        p_block(ts, parens, depth, acc) matches Ok((e, r)) ==> {
            &&& p_block(ts + b, parens, depth, acc) == Ok::<(Seq<TokenView>, Seq<TokenView>), Seq<char>>((e, r + b))
            &&& r.len() > 0
            &&& r.last() == ts.last()
            &&& closes(r[0].kind, parens)
        },
    decreases ts.len(),
{
    if ts.len() > 0 {
        assert((ts + b)[0] == ts[0]);
        assert((ts + b).drop_first() =~= ts.drop_first() + b);
        if ts.len() > 1 {
            assert(ts.drop_first().last() == ts.last());
        }
        if opens(ts[0].kind, parens) {
            lemma_block_append(ts.drop_first(), parens, depth + 1, acc.push(ts[0]), b);
        } else if closes(ts[0].kind, parens) {
            if depth != 0 {
                lemma_block_append(ts.drop_first(), parens, (depth - 1) as nat, acc.push(ts[0]), b);
            }
        } else {
            lemma_block_append(ts.drop_first(), parens, depth, acc.push(ts[0]), b);
        }
    }
}

/// The block after a '🫳' and its end of line, with more tokens after it.
proof fn lemma_body_append(r1: Seq<TokenView>, b: Seq<TokenView>)
    requires
        p_body(r1) is Ok,
        r1.len() > 0,
        r1.last().kind is EOL,
    ensures
        p_body(r1) matches Ok((body, rest)) ==> {
            &&& p_body(r1 + b) == Ok::<(Seq<TokenView>, Seq<TokenView>), Seq<char>>((body, rest + b))
            &&& rest.len() > 0 ==> rest.last() == r1.last()
        },
{
    lemma_next_append(r1, b);
    let n1 = p_next(r1);
    assert(n1.len() > 0) by {
        if n1.len() == 0 {
            assert(p_next(n1).len() == 0);
        }
    }
    lemma_next_append(n1, b);
    let n2 = p_next(n1);
    lemma_block_append(n2, false, 0, Seq::empty(), b);
    if let Ok((body, r)) = p_block(n2, false, 0, Seq::empty()) {
        if n2.len() > 0 {
            assert(r.last() == r1.last());
        }
        assert(r.len() > 1) by {
            if r.len() == 1 {
                assert(closes(r[0].kind, false));
            }
        }
        lemma_next_append(r, b);
        lemma_next_append(p_next(r), b);
    }
}

proof fn lemma_assignment_append(ts: Seq<TokenView>, b: Seq<TokenView>, st: Set<Seq<char>>)
    requires
        p_assignment(ts, st) is Ok,
    ensures
        p_assignment(ts, st) matches Ok((x, r, st2)) ==> {
            &&& p_assignment(ts + b, st) == Ok::<(Ast, Seq<TokenView>, Set<Seq<char>>), Seq<char>>((x, r + b, st2))
            &&& r.len() > 0 ==> r.last() == ts.last()
        },
{
    let ab = ts + b;
    assert(ab.subrange(2, ab.len() as int) =~= ts.subrange(2, ts.len() as int) + b);
    assert(ab[0] == ts[0] && ab[1] == ts[1]);
    let sub = ts.subrange(2, ts.len() as int);
    lemma_collect_append(sub, Stop::Eol, Seq::empty(), b);
    if let Ok((e, r)) = p_collect(sub, Stop::Eol, Seq::empty()) {
        assert(sub.last() == ts.last());
        lemma_next_append(r, b);
    }
}

proof fn lemma_print_append(ts: Seq<TokenView>, b: Seq<TokenView>, st: Set<Seq<char>>)
    requires
        p_print(ts, st) is Ok,
        ts.last().kind is EOL,
    ensures
        p_print(ts, st) matches Ok((x, r)) ==> {
            &&& p_print(ts + b, st) == Ok::<(Ast, Seq<TokenView>), Seq<char>>((x, r + b))
            &&& r.len() > 0 ==> r.last() == ts.last()
        },
{
    let ab = ts + b;
    assert(ab[0] == ts[0]);
    let d = ts.drop_first();
    assert(ab.drop_first() =~= d + b);
    assert(d.len() > 0) by {
        if d.len() == 0 {
            assert(p_next(d).len() == 0);
        }
    }
    assert(d.last() == ts.last());
    lemma_next_append(d, b);
    let n = p_next(d);
    lemma_block_append(n, true, 0, Seq::empty(), b);
    if let Ok((e, r)) = p_block(n, true, 0, Seq::empty()) {
        if n.len() > 0 {
            assert(r.last() == ts.last());
        }
        assert(r.len() > 1) by {
            if r.len() == 1 {
                assert(closes(r[0].kind, true));
            }
        }
        lemma_next_append(r, b);
        lemma_next_append(p_next(r), b);
    }
}

proof fn lemma_break_append(ts: Seq<TokenView>, b: Seq<TokenView>)
    requires
        ts.len() > 0,
        ts[0].kind is BreakKeyword,
        ts.last().kind is EOL,
    ensures
        p_break(ts) matches Ok((x, r)) ==> {
            &&& p_break(ts + b) == Ok::<(Ast, Seq<TokenView>), Seq<char>>((x, r + b))
            &&& r.len() > 0 ==> r.last() == ts.last()
        },
{
    let ab = ts + b;
    assert(ab[0] == ts[0]);
    let d = ts.drop_first();
    assert(ab.drop_first() =~= d + b);
    assert(d.len() > 0);
    assert(d.last() == ts.last());
    lemma_next_append(d, b);
}

proof fn lemma_if_append(ts: Seq<TokenView>, b: Seq<TokenView>, st: Set<Seq<char>>)
    requires
        p_if(ts, st) is Ok,
        ts.len() > 0,
        ts.last().kind is EOL,
    ensures
        p_if(ts + b, st) == p_if(ts, st),
        if_rest(ts + b) == if_rest(ts) + b,
        if_rest(ts).len() > 0 ==> if_rest(ts).last() == ts.last(),
{
    let ab = ts + b;
    assert(ab[0] == ts[0]);
    let d = ts.drop_first();
    assert(ab.drop_first() =~= d + b);
    if d.len() > 0 {
        assert(d.last() == ts.last());
    }
    lemma_collect_append(d, Stop::Cmp, Seq::empty(), b);
    if let Ok((e0, r0)) = p_collect(d, Stop::Cmp, Seq::empty()) {
        assert((r0 + b)[0] == r0[0]);
        let d1 = r0.drop_first();
        assert((r0 + b).drop_first() =~= d1 + b);
        if d1.len() > 0 {
            assert(d1.last() == ts.last());
        }
        lemma_collect_append(d1, Stop::Cmp, Seq::empty(), b);
        lemma_collect_append(d1, Stop::LBrace, Seq::empty(), b);
        if let Ok((e1, r1)) = p_collect(d1, Stop::LBrace, Seq::empty()) {
            assert(p_if_head(ab) == Ok::<(TokenView, Seq<TokenView>, TokenView, Seq<TokenView>, Seq<TokenView>), Seq<char>>((ts[0], e0, r0[0], e1, r1 + b)));
            lemma_body_append(r1, b);
        }
    }
}

proof fn lemma_loop_append(ts: Seq<TokenView>, b: Seq<TokenView>, st: Set<Seq<char>>)
    requires
        p_loop(ts, st) is Ok,
        ts.last().kind is EOL,
    ensures
        p_loop(ts + b, st) == p_loop(ts, st),
        loop_rest(ts + b) == loop_rest(ts) + b,
        loop_rest(ts).len() > 0 ==> loop_rest(ts).last() == ts.last(),
{
    let ab = ts + b;
    assert(ab[0] == ts[0]);
    lemma_next_append(ts, b);
    let d = p_next(ts);
    assert(d.len() > 0) by {
        if d.len() == 0 {
            assert(p_next(p_next(d)).len() == 0);
        }
    }
    assert(d.last() == ts.last());
    lemma_body_append(d, b);
}

proof fn lemma_prepend_cons(x: Ast, xs: Seq<Ast>, r: Result<(Seq<Ast>, Set<Seq<char>>), Seq<char>>)
    ensures
        p_cons(x, p_prepend(xs, r)) == p_prepend(seq![x] + xs, r),
{
    if let Ok((stmts, s)) = r {
        assert(seq![x] + (xs + stmts) =~= (seq![x] + xs) + stmts);
    }
}

/// Statements read one after another: where the tokens `a` are complete
/// statements (the parser accepts them, and they end with an end of line),
/// the statements of `a` followed by `b` are those of `a`, in order, then
/// those that `b` gives with the variables set after `a`.
pub proof fn law_statements_concat(a: Seq<TokenView>, b: Seq<TokenView>, st: Set<Seq<char>>)
    requires
        p_statements(a, st) is Ok,
        a.len() > 0 ==> a.last().kind is EOL,
    ensures
        p_statements(a, st) matches Ok((xs, st1)) ==> p_statements(a + b, st) == p_prepend(xs, p_statements(b, st1)),
    decreases a.len(),
{
    let ab = a + b;
    if a.len() == 0 {
        assert(ab =~= b);
        if let Ok((ys, s2)) = p_statements(b, st) {
            assert(Seq::<Ast>::empty() + ys =~= ys);
        }
    } else {
        assert(ab[0] == a[0]);
        assert(ab.len() > 0);
        lemma_statement_rests(a, st);
        match a[0].kind {
            Kind::Emojis(_) => {
                lemma_assignment_append(a, b, st);
                if let Ok((x, r, st2)) = p_assignment(a, st) {
                    law_statements_concat(r, b, st2);
                    if let Ok((xs, s3)) = p_statements(r, st2) {
                        lemma_prepend_cons(x, xs, p_statements(b, s3));
                    }
                }
            },
            Kind::IfKeyword => {
                lemma_if_append(a, b, st);
                lemma_if_parts(a);
                if let Ok((x, st2)) = p_if(a, st) {
                    law_statements_concat(if_rest(a), b, st2);
                    if let Ok((xs, s3)) = p_statements(if_rest(a), st2) {
                        lemma_prepend_cons(x, xs, p_statements(b, s3));
                    }
                }
            },
            Kind::PrintKeyword => {
                lemma_print_append(a, b, st);
                if let Ok((x, r)) = p_print(a, st) {
                    law_statements_concat(r, b, st);
                    if let Ok((xs, s3)) = p_statements(r, st) {
                        lemma_prepend_cons(x, xs, p_statements(b, s3));
                    }
                }
            },
            Kind::LoopKeyword => {
                lemma_loop_append(a, b, st);
                lemma_loop_parts(a);
                if let Ok((x, st2)) = p_loop(a, st) {
                    law_statements_concat(loop_rest(a), b, st2);
                    if let Ok((xs, s3)) = p_statements(loop_rest(a), st2) {
                        lemma_prepend_cons(x, xs, p_statements(b, s3));
                    }
                }
            },
            Kind::BreakKeyword => {
                lemma_break_append(a, b);
                if let Ok((x, r)) = p_break(a) {
                    law_statements_concat(r, b, st);
                    if let Ok((xs, s3)) = p_statements(r, st) {
                        lemma_prepend_cons(x, xs, p_statements(b, s3));
                    }
                }
            },
            _ => {},
        }
    }
}

/// The statements that the token sequences `ss` give, each read after
/// those before it and with the variables that they set.
pub open spec fn p_each(ss: Seq<Seq<TokenView>>, st: Set<Seq<char>>) -> Result<(Seq<Ast>, Set<Seq<char>>), Seq<char>>
    decreases ss.len(),
{
    if ss.len() == 0 {
        Ok((Seq::empty(), st))
    } else {
        match p_statements(ss[0], st) {
            Err(e) => Err(e),
            Ok((xs, st1)) => p_prepend(xs, p_each(ss.drop_first(), st1)),
        }
    }
}

/// Complete statements give their nodes in order: where each of `ss` is
/// the tokens of complete statements (each ends with an end of line) that
/// the parser accepts after those before it, the statements of all of them
/// together are those of each, in order, and the variables set after them
/// are those set after the last. Where each of `ss` is one statement, that
/// is one node for each, in the order of `ss`.
pub proof fn law_statements_in_order(ss: Seq<Seq<TokenView>>, st: Set<Seq<char>>)
    requires
        forall|i: int| 0 <= i < ss.len() ==> #[trigger] ss[i].len() > 0 && ss[i].last().kind is EOL,
        p_each(ss, st) is Ok,
    ensures
        p_statements(ss.flatten(), st) == p_each(ss, st),
        (forall|i: int, s: Set<Seq<char>>| 0 <= i < ss.len() ==> (#[trigger] p_statements(ss[i], s) matches Ok((ys, _)) ==> ys.len() == 1))
            ==> p_each(ss, st)->Ok_0.0.len() == ss.len(),
    decreases ss.len(),
{
    if ss.len() == 0 {
        assert(ss.flatten() =~= Seq::<TokenView>::empty());
    } else {
        let rest = ss.drop_first();
        assert(ss.flatten() == ss[0] + rest.flatten());
        assert(ss[0].len() > 0 && ss[0].last().kind is EOL);
        if let Ok((xs, st1)) = p_statements(ss[0], st) {
            assert forall|i: int| 0 <= i < rest.len() implies #[trigger] rest[i].len() > 0 && rest[i].last().kind is EOL by {
                assert(rest[i] == ss[i + 1]);
            }
            law_statements_in_order(rest, st1);
            law_statements_concat(ss[0], rest.flatten(), st);
            if forall|i: int, s: Set<Seq<char>>| 0 <= i < ss.len() ==> (#[trigger] p_statements(ss[i], s) matches Ok((ys, _)) ==> ys.len() == 1) {
                assert forall|i: int, s: Set<Seq<char>>| 0 <= i < rest.len() implies (#[trigger] p_statements(rest[i], s) matches Ok((ys, _)) ==> ys.len() == 1) by {
                    assert(rest[i] == ss[i + 1]);
                    assert(p_statements(ss[i + 1], s) matches Ok((ys, _)) ==> ys.len() == 1);
                }
                assert(p_statements(ss[0], st) matches Ok((ys, _)) ==> ys.len() == 1);
            }
        }
    }
}

/// The variable that a statement node assigns, if it is an assignment: a
/// name below it, then an expression.
pub open spec fn assigns(a: Ast) -> Option<Seq<char>> {
    match a {
        Ast::Tok(_, Some(v)) => if v.len() == 2 {
            match (v[0], v[1]) {
                (Ast::Tok(t, None), Ast::Tok(_, _)) => match t.kind {
                    Kind::Emojis(n) => Some(n),
                    _ => None,
                },
                _ => None,
            }
        } else {
            None
        },
        _ => None,
    }
}

proof fn lemma_scoped_grows(a: Ast, st: Set<Seq<char>>)
    ensures
        scoped_stmt(a, st) matches Some(s2) ==> st.subset_of(s2),
        scoped_stmt(a, st) matches Some(s2) ==> (assigns(a) matches Some(n) ==> s2.contains(n)),
    decreases a, 0nat,
{
    if let Ast::Tok(_, Some(v)) = a {
        if v.len() == 1 {
            if let Ast::Stmts(b) = v[0] {
                lemma_scoped_all_grow(b, st);
            }
        } else if v.len() == 2 {
            if let (Ast::Tok(_, Some(w)), Ast::Stmts(b)) = (v[0], v[1]) {
                lemma_scoped_all_grow(b, st);
            }
        }
    }
}

proof fn lemma_scoped_all_grow(ss: Seq<Ast>, st: Set<Seq<char>>)
    ensures
        scoped_stmts(ss, st) matches Some(s2) ==> st.subset_of(s2),
        scoped_stmts(ss, st) matches Some(s2) ==> forall|i: int| 0 <= i < ss.len() ==> (#[trigger] assigns(ss[i]) matches Some(n) ==> s2.contains(n)),
    decreases ss, ss.len(),
{
    if ss.len() > 0 {
        lemma_scoped_grows(ss[0], st);
        if let Some(s1) = scoped_stmt(ss[0], st) {
            let rest = ss.drop_first();
            lemma_scoped_all_grow(rest, s1);
            if let Some(s2) = scoped_stmts(rest, s1) {
                assert forall|i: int| 0 <= i < ss.len() implies (#[trigger] assigns(ss[i]) matches Some(n) ==> s2.contains(n)) by {
                    if i > 0 {
                        assert(ss[i] == rest[i - 1]);
                    }
                }
            }
        }
    }
}

/// The variables set after the statements that the parser accepts include
/// those set before them and the target of every assignment among them.
pub proof fn law_targets_set(ts: Seq<TokenView>, st: Set<Seq<char>>)
    ensures
        p_statements(ts, st) matches Ok((stmts, st2)) ==> {
            &&& st.subset_of(st2)
            &&& forall|i: int| 0 <= i < stmts.len() ==> (#[trigger] assigns(stmts[i]) matches Some(n) ==> st2.contains(n))
        },
{
    law_parse_checks_variables(ts, st);
    if let Ok((stmts, st2)) = p_statements(ts, st) {
        lemma_scoped_all_grow(stmts, st);
    }
}

/// From depth `d`, the tokens `ts` never close a group ('🫴', or '🤚' where
/// `parens`) that they did not open.
pub open spec fn group_stays(ts: Seq<TokenView>, parens: bool, d: nat) -> bool
    decreases ts.len(),
{
    if ts.len() == 0 {
        true
    } else if opens(ts[0].kind, parens) {
        group_stays(ts.drop_first(), parens, d + 1)
    } else if closes(ts[0].kind, parens) {
        d > 0 && group_stays(ts.drop_first(), parens, (d - 1) as nat)
    } else {
        group_stays(ts.drop_first(), parens, d)
    }
}

/// The group depth after the tokens `ts`, from depth `d`.
pub open spec fn group_depth(ts: Seq<TokenView>, parens: bool, d: nat) -> nat
    decreases ts.len(),
{
    if ts.len() == 0 {
        d
    } else if opens(ts[0].kind, parens) {
        group_depth(ts.drop_first(), parens, d + 1)
    } else if closes(ts[0].kind, parens) {
        group_depth(ts.drop_first(), parens, if d > 0 { (d - 1) as nat } else { 0 })
    } else {
        group_depth(ts.drop_first(), parens, d)
    }
}

proof fn lemma_block_prefix(body: Seq<TokenView>, tail: Seq<TokenView>, parens: bool, d: nat, acc: Seq<TokenView>)
    requires
        group_stays(body, parens, d),
    ensures
        p_block(body + tail, parens, d, acc) == p_block(tail, parens, group_depth(body, parens, d), acc + body),
    decreases body.len(),
{
    if body.len() == 0 {
        assert(body + tail =~= tail);
        assert(acc + body =~= acc);
    } else {
        let bt = body + tail;
        assert(bt[0] == body[0]);
        assert(bt.drop_first() =~= body.drop_first() + tail);
        assert(acc.push(body[0]) + body.drop_first() =~= acc + body);
        if opens(body[0].kind, parens) {
            lemma_block_prefix(body.drop_first(), tail, parens, d + 1, acc.push(body[0]));
        } else if closes(body[0].kind, parens) {
            lemma_block_prefix(body.drop_first(), tail, parens, (d - 1) as nat, acc.push(body[0]));
        } else {
            lemma_block_prefix(body.drop_first(), tail, parens, d, acc.push(body[0]));
        }
    }
}

proof fn lemma_collect_prefix(e: Seq<TokenView>, tail: Seq<TokenView>, stop: Stop, acc: Seq<TokenView>)
    requires
        forall|i: int| 0 <= i < e.len() ==> !stops(stop, #[trigger] e[i].kind),
        tail.len() > 0,
        stops(stop, tail[0].kind),
    ensures
        p_collect(e + tail, stop, acc) == Ok::<(Seq<TokenView>, Seq<TokenView>), Seq<char>>((acc + e, tail)),
    decreases e.len(),
{
    if e.len() == 0 {
        assert(e + tail =~= tail);
        assert(acc + e =~= acc);
    } else {
        let et = e + tail;
        assert(et[0] == e[0]);
        assert(et.drop_first() =~= e.drop_first() + tail);
        assert(acc.push(e[0]) + e.drop_first() =~= acc + e);
        assert forall|i: int| 0 <= i < e.drop_first().len() implies !stops(stop, #[trigger] e.drop_first()[i].kind) by {
            assert(e.drop_first()[i] == e[i + 1]);
        }
        lemma_collect_prefix(e.drop_first(), tail, stop, acc.push(e[0]));
    }
}

/// A conditional's block ends at the '🫴' that matches its '🫳': for the
/// tokens of a conditional (the keyword, a first expression with no
/// comparison in it, the comparison, a second expression with no '🫳' in
/// it, '🫳' and its end of line, a block whose '🫳' and '🫴' match, '🫴' and
/// its end of line) followed by any tokens `rest`, the conditional is its
/// comparison over the two expressions and the statements of exactly that
/// block, and the parser goes on at `rest`.
pub proof fn law_if_block_matches(
    kw: TokenView,
    e0: Seq<TokenView>,
    cmp: TokenView,
    e1: Seq<TokenView>,
    lb: TokenView,
    eol1: TokenView,
    body: Seq<TokenView>,
    rb: TokenView,
    eol2: TokenView,
    rest: Seq<TokenView>,
    st: Set<Seq<char>>,
)
    requires
        forall|i: int| 0 <= i < e0.len() ==> !stops(Stop::Cmp, #[trigger] e0[i].kind),
        stops(Stop::Cmp, cmp.kind),
        forall|i: int| 0 <= i < e1.len() ==> !(#[trigger] e1[i].kind is LBrace),
        lb.kind is LBrace,
        group_stays(body, false, 0),
        group_depth(body, false, 0) == 0,
        rb.kind is RBrace,
    ensures
        ({
            let ts = seq![kw] + e0 + seq![cmp] + e1 + seq![lb, eol1] + body + seq![rb, eol2] + rest;
            &&& if_rest(ts) == rest
            &&& p_if(ts, st) == match p_expr(e0, st) {
                Err(e) => Err(e),
                Ok(a0) => match p_expr(e1, st) {
                    Err(e) => Err(e),
                    Ok(a1) => match p_statements(body, st) {
                        Err(e) => Err(e),
                        Ok((stmts, st2)) => Ok((
                            Ast::Tok(kw, Some(seq![Ast::Tok(cmp, Some(seq![a0, a1])), Ast::Stmts(stmts)])),
                            st2,
                        )),
                    },
                },
            }
        }),
{
    let tail3 = seq![rb, eol2] + rest;
    let r1 = seq![lb, eol1] + body + tail3;
    let r0 = seq![cmp] + e1 + r1;
    let ts = seq![kw] + e0 + seq![cmp] + e1 + seq![lb, eol1] + body + seq![rb, eol2] + rest;
    assert(ts =~= seq![kw] + (e0 + r0));
    assert(ts.drop_first() =~= e0 + r0);
    assert(ts[0] == kw);
    assert(r0[0] == cmp);
    lemma_collect_prefix(e0, r0, Stop::Cmp, Seq::empty());
    assert(Seq::<TokenView>::empty() + e0 =~= e0);
    assert(r0.drop_first() =~= e1 + r1);
    assert(r1[0] == lb);
    assert forall|i: int| 0 <= i < e1.len() implies !stops(Stop::LBrace, #[trigger] e1[i].kind) by {
        assert(!(e1[i].kind is LBrace));
    }
    lemma_collect_prefix(e1, r1, Stop::LBrace, Seq::empty());
    assert(Seq::<TokenView>::empty() + e1 =~= e1);
    assert(p_next(p_next(r1)) =~= body + tail3);
    lemma_block_prefix(body, tail3, false, 0, Seq::empty());
    assert(Seq::<TokenView>::empty() + body =~= body);
    assert(tail3[0] == rb);
    assert(p_next(p_next(tail3)) =~= rest);
}

} // verus!
