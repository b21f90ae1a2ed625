//! What the expression parser makes of small expressions, stated by their
//! shape: '❎' and '➗' bind tighter than '➕' and '➖', operators of one
//! level group to the left, a '➖' after an operator negates the next
//! operand, and a parenthesised operand is exactly its inside.

use vstd::prelude::*;
use crate::parser::{
    Ast, depth_of, depth_stays, law_split_is_last, p_expr, paren_delta, redundant_parens, split_index,
    splits_here,
};
use crate::tokenizer::{Kind, TokenView};

verus! {

/// A single operand: an integer, or a variable that is set.
pub open spec fn operand(t: TokenView, st: Set<Seq<char>>) -> bool {
    t.kind is Int || (t.kind matches Kind::Emojis(n) && st.contains(n))
}

/// One of the four arithmetic operators.
pub open spec fn arith(t: TokenView) -> bool {
    t.kind is Add || t.kind is Subtract || t.kind is Multiply || t.kind is Divide
}

/// '❎' or '➗'.
pub open spec fn tight(t: TokenView) -> bool {
    t.kind is Multiply || t.kind is Divide
}

// ---------------------------------------------------------------------------
// Depths

proof fn lemma_depth_concat(x: Seq<TokenView>, y: Seq<TokenView>)
    ensures
        depth_of(x + y) == depth_of(x) + depth_of(y),
    decreases y.len(),
{
    if y.len() == 0 {
        assert(x + y =~= x);
    } else {
        assert((x + y).drop_last() =~= x + y.drop_last());
        assert((x + y).last() == y.last());
        lemma_depth_concat(x, y.drop_last());
    }
}

proof fn lemma_depth_one(t: TokenView)
    ensures
        depth_of(seq![t]) == paren_delta(t.kind),
{
    assert(seq![t].drop_last() =~= Seq::<TokenView>::empty());
    assert(seq![t].last() == t);
    assert(depth_of(Seq::<TokenView>::empty()) == 0);
}

proof fn lemma_depth_flat(ts: Seq<TokenView>)
    requires
        forall|i: int| 0 <= i < ts.len() ==> paren_delta(#[trigger] ts[i].kind) == 0,
    ensures
        depth_of(ts) == 0,
    decreases ts.len(),
{
    if ts.len() > 0 {
        assert(ts.last() == ts[ts.len() - 1]);
        lemma_depth_flat(ts.drop_last());
    }
}

proof fn lemma_stays_concat(x: Seq<TokenView>, y: Seq<TokenView>, d: int)
    ensures
        depth_stays(x + y, d) == (depth_stays(x, d) && depth_stays(y, d + depth_of(x))),
    decreases x.len(),
{
    if x.len() == 0 {
        assert(x + y =~= y);
    } else {
        let t = x[0];
        let r = x.drop_first();
        assert((x + y)[0] == t);
        assert((x + y).drop_first() =~= r + y);
        assert(x =~= seq![t] + r);
        lemma_depth_concat(seq![t], r);
        lemma_depth_one(t);
        lemma_stays_concat(r, y, d + paren_delta(t.kind));
    }
}

proof fn lemma_stays_nonneg(x: Seq<TokenView>, d: int)
    requires
        depth_stays(x, d),
        d >= 0,
    ensures
        d + depth_of(x) >= 0,
    decreases x.len(),
{
    if x.len() > 0 {
        let t = x[0];
        let r = x.drop_first();
        assert(x =~= seq![t] + r);
        lemma_depth_concat(seq![t], r);
        lemma_depth_one(t);
        lemma_stays_nonneg(r, d + paren_delta(t.kind));
    }
}

/// Every prefix of a run whose depth stays at or above 0 has depth 0 or
/// more.
proof fn lemma_prefix_depth(a: Seq<TokenView>, k: int)
    requires
        depth_stays(a, 0),
        0 <= k <= a.len(),
    ensures
        depth_of(a.subrange(0, k)) >= 0,
{
    assert(a =~= a.subrange(0, k) + a.subrange(k, a.len() as int));
    lemma_stays_concat(a.subrange(0, k), a.subrange(k, a.len() as int), 0);
    lemma_stays_nonneg(a.subrange(0, k), 0);
}

// ---------------------------------------------------------------------------
// Split points

proof fn lemma_unique_split(ts: Seq<TokenView>, lvl: bool, k: int)
    requires
        splits_here(ts, lvl, k),
        forall|j: int| k < j < ts.len() ==> !#[trigger] splits_here(ts, lvl, j),
    ensures
        split_index(ts, lvl) == Some(k),
{
    law_split_is_last(ts, lvl);
}

proof fn lemma_no_split(ts: Seq<TokenView>, lvl: bool)
    requires
        forall|j: int| 0 <= j < ts.len() ==> !#[trigger] splits_here(ts, lvl, j),
    ensures
        split_index(ts, lvl) is None,
{
    law_split_is_last(ts, lvl);
}

/// In a run without parentheses, every prefix has depth 0.
proof fn lemma_flat_prefixes(ts: Seq<TokenView>)
    requires
        forall|i: int| 0 <= i < ts.len() ==> paren_delta(#[trigger] ts[i].kind) == 0,
    ensures
        forall|j: int| 0 <= j <= ts.len() ==> #[trigger] depth_of(ts.subrange(0, j)) == 0,
{
    assert forall|j: int| 0 <= j <= ts.len() implies #[trigger] depth_of(ts.subrange(0, j)) == 0 by {
        let p = ts.subrange(0, j);
        assert forall|i: int| 0 <= i < p.len() implies paren_delta(#[trigger] p[i].kind) == 0 by {
            assert(p[i] == ts[i]);
        }
        lemma_depth_flat(p);
    }
}

proof fn lemma_single(x: TokenView, st: Set<Seq<char>>)
    requires
        operand(x, st),
    ensures
        p_expr(seq![x], st) == Ok::<Ast, Seq<char>>(Ast::Tok(x, None)),
{
    assert(seq![x][0] == x);
}

/// `x op y` for single operands is `op` over them.
proof fn lemma_pair(x: TokenView, op: TokenView, y: TokenView, st: Set<Seq<char>>)
    requires
        operand(x, st),
        operand(y, st),
        arith(op),
    ensures
        p_expr(seq![x, op, y], st) == Ok::<Ast, Seq<char>>(Ast::Tok(op, Some(seq![Ast::Tok(x, None), Ast::Tok(y, None)]))),
{
    let ts = seq![x, op, y];
    assert(ts[0] == x && ts[1] == op && ts[2] == y);
    lemma_flat_prefixes(ts);
    assert(!redundant_parens(ts));
    let lvl = op.kind is Add || op.kind is Subtract;
    assert(depth_of(ts.subrange(0, 1)) == 0);
    assert forall|j: int, l: bool| 0 <= j < 3 && j != 1 implies !#[trigger] splits_here(ts, l, j) by {
        assert(!arith(ts[j]));
    }
    assert(splits_here(ts, lvl, 1));
    assert(!splits_here(ts, !lvl, 1));
    lemma_unique_split(ts, lvl, 1);
    if !lvl {
        lemma_no_split(ts, true);
    }
    assert(ts.subrange(0, 1) =~= seq![x]);
    assert(ts.subrange(2, 3) =~= seq![y]);
    lemma_single(x, st);
    lemma_single(y, st);
}

/// Precedence and grouping of two operators over three single operands:
/// where the second operator is '❎' or '➗' and the first '➕' or '➖', the
/// second binds first (`1➕6➗2` is `1➕(6➗2)`); otherwise the first does
/// (`5➖3➖1` is `(5➖3)➖1`, `8➗4➗2` is `(8➗4)➗2`, `2❎3➕1` is
/// `(2❎3)➕1`).
pub proof fn law_precedence(x: TokenView, o1: TokenView, y: TokenView, o2: TokenView, z: TokenView, st: Set<Seq<char>>)
    requires
        operand(x, st),
        operand(y, st),
        operand(z, st),
        arith(o1),
        arith(o2),
    ensures
        p_expr(seq![x, o1, y, o2, z], st) == if tight(o2) && !tight(o1) {
            Ok::<Ast, Seq<char>>(Ast::Tok(o1, Some(seq![Ast::Tok(x, None), Ast::Tok(o2, Some(seq![Ast::Tok(y, None), Ast::Tok(z, None)]))])))
        } else {
            Ok::<Ast, Seq<char>>(Ast::Tok(o2, Some(seq![Ast::Tok(o1, Some(seq![Ast::Tok(x, None), Ast::Tok(y, None)])), Ast::Tok(z, None)])))
        },
{
    let ts = seq![x, o1, y, o2, z];
    assert(ts[0] == x && ts[1] == o1 && ts[2] == y && ts[3] == o2 && ts[4] == z);
    lemma_flat_prefixes(ts);
    assert(!redundant_parens(ts));
    assert(ts.subrange(0, 1) =~= seq![x]);
    assert(ts.subrange(0, 3) =~= seq![x, o1, y]);
    assert(ts.subrange(2, 5) =~= seq![y, o2, z]);
    assert(ts.subrange(4, 5) =~= seq![z]);
    lemma_single(x, st);
    lemma_single(z, st);
    lemma_pair(x, o1, y, st);
    lemma_pair(y, o2, z, st);
    assert(ts.subrange(0, 1).len() == 1 && ts.subrange(0, 3).len() == 3);
    assert(depth_of(ts.subrange(0, 1)) == 0 && depth_of(ts.subrange(0, 3)) == 0);
    assert forall|j: int, lvl: bool| 0 <= j < 5 && j != 1 && j != 3 implies !#[trigger] splits_here(ts, lvl, j) by {
        assert(!arith(ts[j]));
    }
    assert(splits_here(ts, !tight(o1), 1));
    assert(splits_here(ts, !tight(o2), 3));
    assert(!splits_here(ts, tight(o1), 1));
    assert(!splits_here(ts, tight(o2), 3));
    if !tight(o2) {
        lemma_unique_split(ts, true, 3);
    } else if !tight(o1) {
        lemma_unique_split(ts, true, 1);
    } else {
        lemma_no_split(ts, true);
        lemma_unique_split(ts, false, 3);
    }
}

/// A '➖' right after an operator negates the next operand: for single
/// operands `x`, `y` and any of the four operators `op`, `x op ➖y` is `op`
/// over `x` and the negation of `y`.
pub proof fn law_minus_after_operator(x: TokenView, op: TokenView, m: TokenView, y: TokenView, st: Set<Seq<char>>)
    requires
        operand(x, st),
        operand(y, st),
        arith(op),
        m.kind is Subtract,
    ensures
        p_expr(seq![x, op, m, y], st) == Ok::<Ast, Seq<char>>(
            Ast::Tok(op, Some(seq![Ast::Tok(x, None), Ast::Tok(m, Some(seq![Ast::Tok(y, None)]))])),
        ),
{
    let ts = seq![x, op, m, y];
    assert(ts[0] == x && ts[1] == op && ts[2] == m && ts[3] == y);
    lemma_flat_prefixes(ts);
    assert(!redundant_parens(ts));
    let lvl = op.kind is Add || op.kind is Subtract;
    assert(depth_of(ts.subrange(0, 1)) == 0);
    assert forall|j: int, l: bool| 0 <= j < 4 && j != 1 implies !#[trigger] splits_here(ts, l, j) by {
        if j != 2 {
            assert(!arith(ts[j]));
        }
    }
    assert(splits_here(ts, lvl, 1));
    assert(!splits_here(ts, !lvl, 1));
    lemma_unique_split(ts, lvl, 1);
    if !lvl {
        lemma_no_split(ts, true);
    }
    assert(ts.subrange(0, 1) =~= seq![x]);
    let r = ts.subrange(2, 4);
    assert(r =~= seq![m, y]);
    assert(r[0] == m && r[1] == y);
    lemma_flat_prefixes(r);
    assert(!redundant_parens(r));
    assert forall|j: int, l: bool| 0 <= j < 2 implies !#[trigger] splits_here(r, l, j) by {
        if j == 1 {
            assert(!arith(r[1]));
        }
    }
    lemma_no_split(r, true);
    lemma_no_split(r, false);
    assert(r.subrange(1, 2) =~= seq![y]);
    lemma_single(x, st);
    lemma_single(y, st);
    assert(r.len() == 2);
    assert(p_expr(r, st) == Ok::<Ast, Seq<char>>(Ast::Tok(m, Some(seq![Ast::Tok(y, None)]))));
    assert(ts.len() == 4);
    assert(split_index(ts, lvl) == Some(1int));
}

/// A parenthesised run whose parentheses match among themselves parses as
/// the run itself.
pub proof fn law_parens_group(lp: TokenView, a: Seq<TokenView>, rp: TokenView, st: Set<Seq<char>>)
    requires
        lp.kind is LParen,
        rp.kind is RParen,
        depth_stays(a, 0),
    ensures
        p_expr(seq![lp] + a + seq![rp], st) == p_expr(a, st),
{
    let ts = seq![lp] + a + seq![rp];
    assert(ts[0] == lp);
    assert(ts[ts.len() - 1] == rp);
    assert(ts.subrange(1, ts.len() - 1) =~= a);
}

/// Parentheses are dropped only where the first '✋' matches the last '🤚':
/// for runs `a` and `b` whose parentheses match, `✋a🤚 op ✋b🤚` is `op`
/// over the trees of `a` and `b`.
pub proof fn law_parenthesised_operands(
    lp1: TokenView,
    a: Seq<TokenView>,
    rp1: TokenView,
    op: TokenView,
    lp2: TokenView,
    b: Seq<TokenView>,
    rp2: TokenView,
    st: Set<Seq<char>>,
)
    requires
        lp1.kind is LParen,
        rp1.kind is RParen,
        lp2.kind is LParen,
        rp2.kind is RParen,
        arith(op),
        depth_stays(a, 0),
        depth_of(a) == 0,
        depth_stays(b, 0),
    ensures
        p_expr(seq![lp1] + a + seq![rp1, op, lp2] + b + seq![rp2], st) == match p_expr(a, st) {
            Err(e) => Err(e),
            Ok(x) => match p_expr(b, st) {
                Err(e) => Err(e),
                Ok(y) => Ok(Ast::Tok(op, Some(seq![x, y]))),
            },
        },
{
    let n = a.len() as int;
    let left = seq![lp1] + a + seq![rp1];
    let right = seq![lp2] + b + seq![rp2];
    let ts = seq![lp1] + a + seq![rp1, op, lp2] + b + seq![rp2];
    assert(ts =~= left + seq![op] + right);
    let k = n + 2;
    assert(ts[k] == op);
    assert(ts[k - 1] == rp1);
    assert(ts[0] == lp1);
    assert(ts.subrange(0, k) =~= left);
    assert(ts.subrange(k + 1, ts.len() as int) =~= right);
    // The outer pair does not wrap the whole run.
    let inner = ts.subrange(1, ts.len() - 1);
    let tail = seq![rp1, op, lp2] + b;
    assert(inner =~= a + tail);
    lemma_stays_concat(a, tail, 0);
    assert(tail[0] == rp1);
    assert(!depth_stays(tail, 0));
    assert(!redundant_parens(ts));
    // The depth before each token.
    lemma_depth_one(lp1);
    lemma_depth_one(rp1);
    lemma_depth_one(op);
    lemma_depth_one(lp2);
    lemma_depth_concat(seq![lp1], a);
    lemma_depth_concat(seq![lp1] + a, seq![rp1]);
    assert(depth_of(left) == 0);
    assert forall|j: int, l: bool| 0 <= j < ts.len() && j != k implies !#[trigger] splits_here(ts, l, j) by {
        if j == 0 || j == k - 1 || j == k + 1 || j == ts.len() - 1 {
            assert(!arith(ts[j]));
        } else if j < k {
            assert(ts.subrange(0, j) =~= seq![lp1] + a.subrange(0, j - 1));
            lemma_depth_concat(seq![lp1], a.subrange(0, j - 1));
            lemma_prefix_depth(a, j - 1);
        } else {
            let m = j - (k + 2);
            assert(0 <= m < b.len());
            assert(ts.subrange(0, j) =~= (left + seq![op, lp2]) + b.subrange(0, m));
            lemma_depth_concat(left + seq![op, lp2], b.subrange(0, m));
            assert(left + seq![op, lp2] =~= (left + seq![op]) + seq![lp2]);
            lemma_depth_concat(left + seq![op], seq![lp2]);
            lemma_depth_concat(left, seq![op]);
            lemma_prefix_depth(b, m);
        }
    }
    let lvl = op.kind is Add || op.kind is Subtract;
    assert(splits_here(ts, lvl, k));
    lemma_unique_split(ts, lvl, k);
    if !lvl {
        assert(!splits_here(ts, true, k));
        lemma_no_split(ts, true);
    }
    law_parens_group(lp1, a, rp1, st);
    law_parens_group(lp2, b, rp2, st);
}

} // verus!
