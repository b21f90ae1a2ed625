//! The parser: it builds a syntax tree from the tokens of a program and
//! checks that every variable is assigned before an expression reads it.

use vstd::prelude::*;
use crate::text::{push_str, string_of, Failure, FailureView};
use crate::tokenizer::{loc_text, token_views, Kind, Token, TokenType, TokenView};

verus! {

/// Builds the syntax tree of a program from its tokens.
pub struct Parser {
    token_vec: TokenVec,
}

/// A node of the syntax tree: a sequence of statements, or a token with
/// (optionally) the nodes below it.
#[derive(Debug)]
pub enum ASTnode {
    StatementSeq(Vec<ASTnode>),
    Node(ASTtoken),
}

/// A token of the syntax tree with the nodes below it, if any.
#[derive(Debug)]
pub struct ASTtoken {
    pub token: Token,
    pub children: Option<Vec<ASTnode>>,
}

/// The mathematical counterpart of [`ASTnode`].
pub enum Ast {
    Stmts(Seq<Ast>),
    Tok(TokenView, Option<Seq<Ast>>),
}

pub open spec fn ast_of(n: ASTnode) -> Ast
    decreases n, 0nat,
{
    match n {
        ASTnode::StatementSeq(v) => Ast::Stmts(asts_of(v@)),
        ASTnode::Node(t) => match t.children {
            None => Ast::Tok(t.token@, None),
            Some(v) => Ast::Tok(t.token@, Some(asts_of(v@))),
        },
    }
}

pub open spec fn asts_of(s: Seq<ASTnode>) -> Seq<Ast>
    decreases s, s.len(),
{
    if s.len() == 0 {
        Seq::empty()
    } else {
        asts_of(s.drop_last()).push(ast_of(s.last()))
    }
}

/// The views of the children of a token of the tree.
pub open spec fn children_of(c: Option<Vec<ASTnode>>) -> Option<Seq<Ast>> {
    match c {
        None => None,
        Some(v) => Some(asts_of(v@)),
    }
}

pub proof fn lemma_asts_index(s: Seq<ASTnode>)
    ensures
        asts_of(s).len() == s.len(),
        forall|i: int| 0 <= i < s.len() ==> #[trigger] asts_of(s)[i] == ast_of(s[i]),
    decreases s.len(),
{
    if s.len() > 0 {
        lemma_asts_index(s.drop_last());
        assert forall|i: int| 0 <= i < s.len() implies #[trigger] asts_of(s)[i] == ast_of(s[i]) by {
            if i < s.len() - 1 {
                assert(s.drop_last()[i] == s[i]);
            }
        }
    }
}

impl View for ASTnode {
    type V = Ast;

    open spec fn view(&self) -> Ast {
        ast_of(*self)
    }
}


// ---------------------------------------------------------------------------
// The specification
//
// A parse reads a sequence of tokens from the front. Where the parser gives
// up (it reads past the end of its tokens, meets a statement it cannot
// start, cannot split an expression, or an expression reads a variable that
// no earlier assignment has set), the result is `Err` with the message.

/// A token that stands alone in the tree.
pub open spec fn leaf(t: TokenView) -> Ast {
    Ast::Tok(t, None)
}

pub open spec fn empty_msg() -> Seq<char> {
    "should not be empty"@
}

pub open spec fn arm_msg() -> Seq<char> {
    "arm not complete"@
}

pub open spec fn unsplit_msg() -> Seq<char> {
    "not finsished! bajs"@
}

/// `"name" is undefined at: line:column>`.
pub open spec fn undefined_msg(name: Seq<char>, t: TokenView) -> Seq<char> {
    "\""@ + name + "\" is undefined at: "@ + loc_text(t.location)
}

/// Drops the first token, if there is one.
pub open spec fn p_next(ts: Seq<TokenView>) -> Seq<TokenView> {
    if ts.len() == 0 {
        ts
    } else {
        ts.drop_first()
    }
}

/// Where collecting the tokens of an expression stops.
#[derive(Clone, Copy)]
pub enum Stop {
    Eol,
    Cmp,
    LBrace,
}

pub open spec fn stops(stop: Stop, k: Kind) -> bool {
    match stop {
        Stop::Eol => k is EOL,
        Stop::Cmp => k is EQ || k is NEQ || k is GT || k is GEQ || k is LT || k is LEQ,
        Stop::LBrace => k is LBrace,
    }
}

/// The tokens before the first one at which `stop` stops (added to `acc`),
/// and the rest from that token on; `Err` where no token stops.
pub open spec fn p_collect(ts: Seq<TokenView>, stop: Stop, acc: Seq<TokenView>) -> Result<(Seq<TokenView>, Seq<TokenView>), Seq<char>>
    decreases ts.len(),
{
    if ts.len() == 0 {
        Err(empty_msg())
    } else if stops(stop, ts[0].kind) {
        Ok((acc, ts))
    } else {
        p_collect(ts.drop_first(), stop, acc.push(ts[0]))
    }
}

/// The token that opens a group: '✋' where `parens`, else '🫳'.
pub open spec fn opens(k: Kind, parens: bool) -> bool {
    if parens { k is LParen } else { k is LBrace }
}

/// The token that closes a group: '🤚' where `parens`, else '🫴'.
pub open spec fn closes(k: Kind, parens: bool) -> bool {
    if parens { k is RParen } else { k is RBrace }
}

/// The tokens of a group (added to `acc`), up to the token that closes it
/// at depth `depth` ('🤚' where `parens`, else '🫴'), and the rest from
/// that token on.
pub open spec fn p_block(ts: Seq<TokenView>, parens: bool, depth: nat, acc: Seq<TokenView>) -> Result<(Seq<TokenView>, Seq<TokenView>), Seq<char>>
    decreases ts.len(),
{
    if ts.len() == 0 {
        Err(empty_msg())
    } else if opens(ts[0].kind, parens) {
        p_block(ts.drop_first(), parens, depth + 1, acc.push(ts[0]))
    } else if closes(ts[0].kind, parens) {
        if depth == 0 {
            Ok((acc, ts))
        } else {
            p_block(ts.drop_first(), parens, (depth - 1) as nat, acc.push(ts[0]))
        }
    } else {
        p_block(ts.drop_first(), parens, depth, acc.push(ts[0]))
    }
}

/// The change of parenthesis depth over one token.
pub open spec fn paren_delta(k: Kind) -> int {
    match k {
        Kind::LParen => 1,
        Kind::RParen => -1,
        _ => 0,
    }
}

/// The operators at which an expression splits: '➕' and '➖', or '❎' and
/// '➗'.
pub open spec fn is_split_op(k: Kind, add_sub: bool) -> bool {
    if add_sub {
        k is Add || k is Subtract
    } else {
        k is Multiply || k is Divide
    }
}

/// The four arithmetic operators.
pub open spec fn is_operator(k: Kind) -> bool {
    k is Add || k is Subtract || k is Multiply || k is Divide
}

/// The operator at `i` joins two operands: a token that is no operator
/// stands before it. (A '➖' at the start or after another operator negates
/// the factor after it.)
pub open spec fn binary_at(ts: Seq<TokenView>, i: int) -> bool {
    0 < i < ts.len() && !is_operator(ts[i - 1].kind)
}

/// Where an expression splits: an operator of the level (`add_sub`: '➕' or
/// '➖', else '❎' or '➗') that stands at parenthesis depth 0 and joins two
/// operands.
pub open spec fn splits_at(ts: Seq<TokenView>, add_sub: bool, i: int, d: int) -> bool {
    is_split_op(ts[i].kind, add_sub) && d == 0 && binary_at(ts, i)
}

/// The last index from `i` on where the expression splits, or `last` where
/// there is none; `d` is the depth before token `i`.
pub open spec fn split_from(ts: Seq<TokenView>, add_sub: bool, i: int, d: int, last: Option<int>) -> Option<int>
    decreases ts.len() - i,
{
    if !(0 <= i < ts.len()) {
        last
    } else {
        split_from(ts, add_sub, i + 1, d + paren_delta(ts[i].kind), if splits_at(ts, add_sub, i, d) { Some(i) } else { last })
    }
}

/// The last index where the expression splits at level `add_sub`: as the
/// operators of a level group to the left, the last one is applied last.
pub open spec fn split_index(ts: Seq<TokenView>, add_sub: bool) -> Option<int> {
    split_from(ts, add_sub, 0, 0, None)
}

/// The parenthesis depth never drops below 0 over `ts`, from depth `d`.
pub open spec fn depth_stays(ts: Seq<TokenView>, d: int) -> bool
    decreases ts.len(),
{
    if ts.len() == 0 {
        true
    } else {
        d + paren_delta(ts[0].kind) >= 0 && depth_stays(ts.drop_first(), d + paren_delta(ts[0].kind))
    }
}

/// The expression is wrapped in one pair of parentheses that can be dropped:
/// it starts with '✋', ends with '🤚', and the depth between them never
/// drops below 0.
pub open spec fn redundant_parens(ts: Seq<TokenView>) -> bool {
    ts.len() > 0 && ts[0].kind is LParen && ts[ts.len() - 1].kind is RParen
        && depth_stays(ts.subrange(1, ts.len() - 1), 0)
}

/// The tree of an expression, which may read the variables in `st`: a single
/// token is a leaf; redundant parentheses are dropped; otherwise the
/// expression splits at its last '➕' or '➖' that joins two operands at depth
/// 0, else at its last such '❎' or '➗', else a leading '➖' negates the
/// factor after it. So the operators of a level group to the left, '❎' and
/// '➗' bind tighter than '➕' and '➖', and a negation binds tightest.
pub open spec fn p_expr(ts: Seq<TokenView>, st: Set<Seq<char>>) -> Result<Ast, Seq<char>>
    decreases ts.len(),
{
    if ts.len() == 1 {
        match ts[0].kind {
            Kind::Emojis(name) => if st.contains(name) {
                Ok(leaf(ts[0]))
            } else {
                Err(undefined_msg(name, ts[0]))
            },
            _ => Ok(leaf(ts[0])),
        }
    } else if redundant_parens(ts) {
        p_expr(ts.subrange(1, ts.len() - 1), st)
    } else {
        proof {
            lemma_split_bounds(ts, true, 0, 0, None);
            lemma_split_bounds(ts, false, 0, 0, None);
        }
        match split_index(ts, true) {
            Some(i) => p_binary(ts, i, p_expr(ts.subrange(0, i), st), p_expr(ts.subrange(i + 1, ts.len() as int), st)),
            None => match split_index(ts, false) {
                Some(i) => p_binary(ts, i, p_expr(ts.subrange(0, i), st), p_expr(ts.subrange(i + 1, ts.len() as int), st)),
                None => if ts.len() > 1 && ts[0].kind is Subtract {
                    match p_expr(ts.subrange(1, ts.len() as int), st) {
                        Err(e) => Err(e),
                        Ok(a) => Ok(Ast::Tok(ts[0], Some(seq![a]))),
                    }
                } else {
                    Err(unsplit_msg())
                },
            },
        }
    }
}

/// The node of operator `ts[i]` over its two operands; the left one is
/// parsed first.
pub open spec fn p_binary(ts: Seq<TokenView>, i: int, l: Result<Ast, Seq<char>>, r: Result<Ast, Seq<char>>) -> Result<Ast, Seq<char>> {
    match l {
        Err(e) => Err(e),
        Ok(a) => match r {
            Err(e) => Err(e),
            Ok(b) => Ok(Ast::Tok(ts[i], Some(seq![a, b]))),
        },
    }
}

pub proof fn lemma_split_bounds(ts: Seq<TokenView>, add_sub: bool, i: int, d: int, last: Option<int>)
    requires
        last matches Some(j) ==> 0 < j < ts.len() && is_split_op(ts[j].kind, add_sub),
    ensures
        split_from(ts, add_sub, i, d, last) matches Some(j) ==> 0 < j < ts.len() && is_split_op(ts[j].kind, add_sub),
    decreases ts.len() - i,
{
    if 0 <= i < ts.len() {
        lemma_split_bounds(ts, add_sub, i + 1, d + paren_delta(ts[i].kind), if splits_at(ts, add_sub, i, d) { Some(i) } else { last });
    }
}

/// An assignment: a name, the assignment token, the tokens of an expression
/// up to the end of the line. The name counts as set only after its
/// expression is parsed.
pub open spec fn p_assignment(ts: Seq<TokenView>, st: Set<Seq<char>>) -> Result<(Ast, Seq<TokenView>, Set<Seq<char>>), Seq<char>> {
    if ts.len() < 2 {
        Err(empty_msg())
    } else {
        match p_collect(ts.subrange(2, ts.len() as int), Stop::Eol, Seq::empty()) {
            Err(e) => Err(e),
            Ok((expr, rest)) => match p_expr(expr, st) {
                Err(e) => Err(e),
                Ok(a) => Ok((
                    Ast::Tok(ts[1], Some(seq![leaf(ts[0]), a])),
                    p_next(rest),
                    match ts[0].kind {
                        Kind::Emojis(name) => st.insert(name),
                        _ => st,
                    },
                )),
            },
        }
    }
}

/// A print statement: the keyword, '✋', the tokens of an expression up to
/// the '🤚' that closes that '✋', then that token and one more (the end of
/// the line).
pub open spec fn p_print(ts: Seq<TokenView>, st: Set<Seq<char>>) -> Result<(Ast, Seq<TokenView>), Seq<char>> {
    if ts.len() == 0 {
        Err(empty_msg())
    } else {
        match p_block(p_next(ts.drop_first()), true, 0, Seq::empty()) {
            Err(e) => Err(e),
            Ok((expr, rest)) => match p_expr(expr, st) {
                Err(e) => Err(e),
                Ok(a) => Ok((Ast::Tok(ts[0], Some(seq![a])), p_next(p_next(rest)))),
            },
        }
    }
}

/// The break keyword, then one more token (the end of the line).
pub open spec fn p_break(ts: Seq<TokenView>) -> Result<(Ast, Seq<TokenView>), Seq<char>> {
    if ts.len() == 0 {
        Err(empty_msg())
    } else {
        Ok((leaf(ts[0]), p_next(ts.drop_first())))
    }
}

/// The head of a conditional: the keyword, the tokens of the first
/// expression up to a comparison, the comparison, the tokens of the second
/// expression up to '🫳', and the tokens from '🫳' on.
pub open spec fn p_if_head(ts: Seq<TokenView>) -> Result<(TokenView, Seq<TokenView>, TokenView, Seq<TokenView>, Seq<TokenView>), Seq<char>> {
    if ts.len() == 0 {
        Err(empty_msg())
    } else {
        match p_collect(ts.drop_first(), Stop::Cmp, Seq::empty()) {
            Err(e) => Err(e),
            Ok((e0, r0)) => if r0.len() == 0 {
                Err(empty_msg())
            } else {
                match p_collect(r0.drop_first(), Stop::LBrace, Seq::empty()) {
                    Err(e) => Err(e),
                    Ok((e1, r1)) => Ok((ts[0], e0, r0[0], e1, r1)),
                }
            },
        }
    }
}

/// A block after its '🫳' and end of line (the two tokens of `ts` that are
/// dropped first): its tokens, and the rest after its '🫴' and end of line.
pub open spec fn p_body(ts: Seq<TokenView>) -> Result<(Seq<TokenView>, Seq<TokenView>), Seq<char>> {
    match p_block(p_next(p_next(ts)), false, 0, Seq::empty()) {
        Err(e) => Err(e),
        Ok((body, rest)) => Ok((body, p_next(p_next(rest)))),
    }
}

/// The tokens after a conditional.
pub open spec fn if_rest(ts: Seq<TokenView>) -> Seq<TokenView> {
    match p_if_head(ts) {
        Ok((_, _, _, _, r1)) => match p_body(r1) {
            Ok((_, rest)) => rest,
            Err(_) => Seq::empty(),
        },
        Err(_) => Seq::empty(),
    }
}

/// The tokens after a loop (its keyword, then its body).
pub open spec fn loop_rest(ts: Seq<TokenView>) -> Seq<TokenView> {
    match p_body(p_next(ts)) {
        Ok((_, rest)) => rest,
        Err(_) => Seq::empty(),
    }
}

/// A conditional: its comparison node over the two expressions, then the
/// sequence of the statements of its block. The variables that the block
/// sets stay set after it.
pub open spec fn p_if(ts: Seq<TokenView>, st: Set<Seq<char>>) -> Result<(Ast, Set<Seq<char>>), Seq<char>>
    decreases ts.len(), 1nat,
{
    match p_if_head(ts) {
        Err(e) => Err(e),
        Ok((tok, e0, cmp, e1, r1)) => match p_expr(e0, st) {
            Err(e) => Err(e),
            Ok(a0) => match p_expr(e1, st) {
                Err(e) => Err(e),
                Ok(a1) => match p_body(r1) {
                    Err(e) => Err(e),
                    Ok((body, _)) => {
                        proof {
                            lemma_if_parts(ts);
                        }
                        match p_statements(body, st) {
                            Err(e) => Err(e),
                            Ok((stmts, st2)) => Ok((
                                Ast::Tok(tok, Some(seq![Ast::Tok(cmp, Some(seq![a0, a1])), Ast::Stmts(stmts)])),
                                st2,
                            )),
                        }
                    },
                },
            },
        },
    }
}

/// A loop: the sequence of the statements of its block. The variables that
/// the block sets stay set after it.
pub open spec fn p_loop(ts: Seq<TokenView>, st: Set<Seq<char>>) -> Result<(Ast, Set<Seq<char>>), Seq<char>>
    decreases ts.len(), 1nat,
{
    if ts.len() == 0 {
        Err(empty_msg())
    } else {
        match p_body(p_next(ts)) {
            Err(e) => Err(e),
            Ok((body, _)) => {
                proof {
                    lemma_loop_parts(ts);
                }
                match p_statements(body, st) {
                    Err(e) => Err(e),
                    Ok((stmts, st2)) => Ok((Ast::Tok(ts[0], Some(seq![Ast::Stmts(stmts)])), st2)),
                }
            },
        }
    }
}

/// The statements of a token sequence, each chosen by its first token, and
/// the variables set after them.
pub open spec fn p_statements(ts: Seq<TokenView>, st: Set<Seq<char>>) -> Result<(Seq<Ast>, Set<Seq<char>>), Seq<char>>
    decreases ts.len(), 2nat,
{
    if ts.len() == 0 {
        Ok((Seq::empty(), st))
    } else {
        proof {
            lemma_statement_rests(ts, st);
        }
        match ts[0].kind {
            Kind::Emojis(_) => match p_assignment(ts, st) {
                Err(e) => Err(e),
                Ok((a, rest, st2)) => p_cons(a, p_statements(rest, st2)),
            },
            Kind::IfKeyword => match p_if(ts, st) {
                Err(e) => Err(e),
                Ok((a, st2)) => p_cons(a, p_statements(if_rest(ts), st2)),
            },
            Kind::PrintKeyword => match p_print(ts, st) {
                Err(e) => Err(e),
                Ok((a, rest)) => p_cons(a, p_statements(rest, st)),
            },
            Kind::LoopKeyword => match p_loop(ts, st) {
                Err(e) => Err(e),
                Ok((a, st2)) => p_cons(a, p_statements(loop_rest(ts), st2)),
            },
            Kind::BreakKeyword => match p_break(ts) {
                Err(e) => Err(e),
                Ok((a, rest)) => p_cons(a, p_statements(rest, st)),
            },
            _ => Err(arm_msg()),
        }
    }
}

pub open spec fn p_cons(a: Ast, r: Result<(Seq<Ast>, Set<Seq<char>>), Seq<char>>) -> Result<(Seq<Ast>, Set<Seq<char>>), Seq<char>> {
    match r {
        Err(e) => Err(e),
        Ok((stmts, st)) => Ok((seq![a] + stmts, st)),
    }
}

/// The tree of a program: the sequence of its statements, starting with no
/// variable set.
pub open spec fn parse_spec(ts: Seq<TokenView>) -> Result<Ast, Seq<char>> {
    match p_statements(ts, Set::empty()) {
        Err(e) => Err(e),
        Ok((stmts, _)) => Ok(Ast::Stmts(stmts)),
    }
}

// ---------------------------------------------------------------------------
// Lengths

pub proof fn lemma_collect(ts: Seq<TokenView>, stop: Stop, acc: Seq<TokenView>)
    ensures
        p_collect(ts, stop, acc) matches Ok((e, r)) ==> r.len() <= ts.len() && e.len() + r.len() == acc.len() + ts.len(),
    decreases ts.len(),
{
    if ts.len() > 0 && !stops(stop, ts[0].kind) {
        lemma_collect(ts.drop_first(), stop, acc.push(ts[0]));
    }
}

pub proof fn lemma_block(ts: Seq<TokenView>, parens: bool, depth: nat, acc: Seq<TokenView>)
    ensures
        p_block(ts, parens, depth, acc) matches Ok((b, r)) ==> r.len() <= ts.len() && b.len() + r.len() == acc.len() + ts.len(),
    decreases ts.len(),
{
    if ts.len() > 0 {
        if opens(ts[0].kind, parens) {
            lemma_block(ts.drop_first(), parens, depth + 1, acc.push(ts[0]));
        } else if closes(ts[0].kind, parens) {
            if depth != 0 {
                lemma_block(ts.drop_first(), parens, (depth - 1) as nat, acc.push(ts[0]));
            }
        } else {
            lemma_block(ts.drop_first(), parens, depth, acc.push(ts[0]));
        }
    }
}

pub proof fn lemma_body(ts: Seq<TokenView>)
    ensures
        p_body(ts) matches Ok((b, r)) ==> b.len() <= ts.len() && r.len() <= ts.len(),
{
    lemma_block(p_next(p_next(ts)), false, 0, Seq::empty());
}

pub proof fn lemma_if_parts(ts: Seq<TokenView>)
    ensures
        p_if_head(ts) matches Ok((_, _, _, _, r1)) ==> r1.len() < ts.len() && (p_body(r1) matches Ok((b, r)) ==> b.len() < ts.len() && r.len() < ts.len()),
        ts.len() > 0 ==> if_rest(ts).len() < ts.len(),
{
    if ts.len() > 0 {
        lemma_collect(ts.drop_first(), Stop::Cmp, Seq::empty());
        if let Ok((e0, r0)) = p_collect(ts.drop_first(), Stop::Cmp, Seq::empty()) {
            if r0.len() > 0 {
                lemma_collect(r0.drop_first(), Stop::LBrace, Seq::empty());
                if let Ok((e1, r1)) = p_collect(r0.drop_first(), Stop::LBrace, Seq::empty()) {
                    lemma_body(r1);
                }
            }
        }
    }
}

pub proof fn lemma_loop_parts(ts: Seq<TokenView>)
    requires
        ts.len() > 0,
    ensures
        p_body(p_next(ts)) matches Ok((b, r)) ==> b.len() < ts.len() && r.len() < ts.len(),
        loop_rest(ts).len() < ts.len(),
{
    lemma_body(p_next(ts));
}

pub proof fn lemma_statement_rests(ts: Seq<TokenView>, st: Set<Seq<char>>)
    requires
        ts.len() > 0,
    ensures
        p_assignment(ts, st) matches Ok((_, r, _)) ==> r.len() < ts.len(),
        p_print(ts, st) matches Ok((_, r)) ==> r.len() < ts.len(),
        p_break(ts) matches Ok((_, r)) ==> r.len() < ts.len(),
        if_rest(ts).len() < ts.len(),
        loop_rest(ts).len() < ts.len(),
{
    if ts.len() >= 2 {
        lemma_collect(ts.subrange(2, ts.len() as int), Stop::Eol, Seq::empty());
    }
    lemma_block(p_next(ts.drop_first()), true, 0, Seq::empty());
    lemma_if_parts(ts);
    lemma_loop_parts(ts);
}


// ---------------------------------------------------------------------------
// Building trees

impl ASTnode {
    fn new_empty_node(token: Token) -> (n: ASTnode)
        ensures
            n@ == leaf(token@),
    {
        ASTnode::Node(ASTtoken { token: token, children: None })
    }
}

impl ASTtoken {
    fn new(token: Token) -> (t: ASTtoken)
        ensures
            t.token@ == token@,
            t.children is None,
    {
        ASTtoken { token: token, children: None }
    }
}

proof fn lemma_asts_push(s: Seq<ASTnode>, n: ASTnode)
    ensures
        asts_of(s.push(n)) == asts_of(s).push(ast_of(n)),
{
    assert(s.push(n).drop_last() =~= s);
}

proof fn lemma_asts_one(a: ASTnode)
    ensures
        asts_of(seq![a]) == seq![ast_of(a)],
{
    lemma_asts_push(Seq::empty(), a);
    assert(Seq::<ASTnode>::empty().push(a) =~= seq![a]);
    assert(asts_of(Seq::<ASTnode>::empty()) =~= Seq::<Ast>::empty());
    assert(Seq::<Ast>::empty().push(ast_of(a)) =~= seq![ast_of(a)]);
}

proof fn lemma_asts_two(a: ASTnode, b: ASTnode)
    ensures
        asts_of(seq![a, b]) == seq![ast_of(a), ast_of(b)],
{
    lemma_asts_one(a);
    lemma_asts_push(seq![a], b);
    assert(seq![a].push(b) =~= seq![a, b]);
    assert(seq![ast_of(a)].push(ast_of(b)) =~= seq![ast_of(a), ast_of(b)]);
}

/// A node over one child.
fn node1(token: Token, a: ASTnode) -> (n: ASTnode)
    ensures
        n@ == Ast::Tok(token@, Some(seq![a@])),
{
    let v: Vec<ASTnode> = vec![a];
    proof {
        assert(v@ =~= seq![a]);
        lemma_asts_one(a);
    }
    ASTnode::Node(ASTtoken { token: token, children: Some(v) })
}

/// A node over two children.
fn node2(token: Token, a: ASTnode, b: ASTnode) -> (n: ASTnode)
    ensures
        n@ == Ast::Tok(token@, Some(seq![a@, b@])),
{
    let v: Vec<ASTnode> = vec![a, b];
    proof {
        assert(v@ =~= seq![a, b]);
        lemma_asts_two(a, b);
    }
    ASTnode::Node(ASTtoken { token: token, children: Some(v) })
}

pub open spec fn ast_outcome(r: Result<ASTnode, String>) -> Result<Ast, Seq<char>> {
    match r {
        Ok(n) => Ok(n@),
        Err(m) => Err(m@),
    }
}

// ---------------------------------------------------------------------------
// Token sequences read from the front

/// A sequence of tokens that is read from the front.
pub struct TokenVec {
    token_vec: Vec<Token>,
    start: usize,
}

impl View for TokenVec {
    type V = Seq<TokenView>;

    closed spec fn view(&self) -> Seq<TokenView> {
        token_views(self.token_vec@).skip(self.start as int)
    }
}

impl TokenVec {
    pub closed spec fn wf(&self) -> bool {
        self.start <= self.token_vec@.len()
    }

    fn new() -> (v: TokenVec)
        ensures
            v.wf(),
            v@ == Seq::<TokenView>::empty(),
    {
        let v = TokenVec { token_vec: Vec::new(), start: 0 };
        assert(v@ =~= Seq::<TokenView>::empty());
        v
    }

    fn from_vec(token_vec: Vec<Token>) -> (v: TokenVec)
        ensures
            v.wf(),
            v@ == token_views(token_vec@),
    {
        let v = TokenVec { token_vec: token_vec, start: 0 };
        assert(v@ =~= token_views(token_vec@));
        v
    }

    fn push(&mut self, new_token: Token)
        requires
            old(self).wf(),
        ensures
            final(self).wf(),
            final(self)@ == old(self)@.push(new_token@),
    {
        let ghost before = self.token_vec@;
        self.token_vec.push(new_token);
        assert(token_views(self.token_vec@) =~= token_views(before).push(new_token@));
        assert(final(self)@ =~= old(self)@.push(new_token@));
    }

    fn is_empty(&self) -> (b: bool)
        requires
            self.wf(),
        ensures
            b == (self@.len() == 0),
            !b ==> self.start < self.token_vec.len(),
    {
        self.start >= self.token_vec.len()
    }

    /// The number of tokens left.
    fn remaining(&self) -> (n: usize)
        requires
            self.wf(),
        ensures
            n == self@.len(),
    {
        self.token_vec.len() - self.start
    }

    fn peek(&self) -> (t: Option<&Token>)
        requires
            self.wf(),
        ensures
            match t {
                Some(t) => self@.len() > 0 && t@ == self@[0],
                None => self@.len() == 0,
            },
    {
        if self.is_empty() {
            None
        } else {
            Some(&self.token_vec[self.start])
        }
    }

    fn next(&mut self)
        requires
            old(self).wf(),
        ensures
            final(self).wf(),
            final(self)@ == p_next(old(self)@),
    {
        if !self.is_empty() {
            self.start = self.start + 1;
            assert(final(self)@ =~= old(self)@.drop_first());
        }
    }

    fn get_next(&mut self) -> (t: Option<Token>)
        requires
            old(self).wf(),
        ensures
            final(self).wf(),
            final(self)@ == p_next(old(self)@),
            match t {
                Some(t) => old(self)@.len() > 0 && t@ == old(self)@[0],
                None => old(self)@.len() == 0,
            },
    {
        let tmp = match self.peek() {
            Some(t) => Some(t.copy()),
            None => None,
        };
        self.next();
        tmp
    }

    /// A copy holding the same tokens.
    fn copy(&self) -> (v: TokenVec)
        requires
            self.wf(),
        ensures
            v.wf(),
            v@ == self@,
    {
        let mut v = TokenVec::new();
        let mut i = self.start;
        while i < self.token_vec.len()
            invariant
                self.wf(),
                self.start <= i <= self.token_vec@.len(),
                v.wf(),
                v@ == token_views(self.token_vec@).subrange(self.start as int, i as int),
            decreases self.token_vec@.len() - i,
        {
            v.push(self.token_vec[i].copy());
            i = i + 1;
            assert(v@ =~= token_views(self.token_vec@).subrange(self.start as int, i as int));
        }
        assert(v@ =~= self@);
        v
    }
}

fn stops_at(stop: Stop, t: &TokenType) -> (b: bool)
    ensures
        b == stops(stop, t@),
{
    match stop {
        Stop::Eol => matches!(t, TokenType::EOL),
        Stop::Cmp => matches!(t, TokenType::EQ | TokenType::NEQ | TokenType::GT | TokenType::GEQ | TokenType::LT | TokenType::LEQ),
        Stop::LBrace => matches!(t, TokenType::LBrace),
    }
}

/// Takes the tokens before the first one at which `stop` stops.
fn collect_until(tv: &mut TokenVec, stop: Stop) -> (r: Result<Vec<Token>, String>)
    requires
        old(tv).wf(),
    ensures
        final(tv).wf(),
        match (r, p_collect(old(tv)@, stop, Seq::empty())) {
            (Ok(e), Ok((e2, rest))) => token_views(e@) == e2 && final(tv)@ == rest,
            (Err(m), Err(m2)) => m@ == m2,
            _ => false,
        },
{
    let mut acc: Vec<Token> = Vec::new();
    assert(token_views(acc@) =~= Seq::<TokenView>::empty());
    let ghost goal = p_collect(tv@, stop, Seq::empty());
    loop
        invariant
            tv.wf(),
            goal == p_collect(old(tv)@, stop, Seq::empty()),
            p_collect(tv@, stop, token_views(acc@)) == goal,
        decreases tv@.len(),
    {
        let stop_here = match tv.peek() {
            None => return Err(string_of("should not be empty")),
            Some(t) => stops_at(stop, &t.token_type),
        };
        if stop_here {
            return Ok(acc);
        }
        let ghost before = acc@;
        let t = tv.get_next().unwrap();
        acc.push(t);
        assert(token_views(acc@) =~= token_views(before).push(t@));
    }
}

fn opens_group(t: &TokenType, parens: bool) -> (b: bool)
    ensures
        b == opens(t@, parens),
{
    if parens {
        matches!(t, TokenType::LParen)
    } else {
        matches!(t, TokenType::LBrace)
    }
}

fn closes_group(t: &TokenType, parens: bool) -> (b: bool)
    ensures
        b == closes(t@, parens),
{
    if parens {
        matches!(t, TokenType::RParen)
    } else {
        matches!(t, TokenType::RBrace)
    }
}

/// Takes the tokens of a group up to the token that closes it: '🤚' where
/// `parens`, else '🫴'.
fn collect_block(tv: &mut TokenVec, parens: bool) -> (r: Result<TokenVec, String>)
    requires
        old(tv).wf(),
    ensures
        final(tv).wf(),
        match (r, p_block(old(tv)@, parens, 0, Seq::empty())) {
            (Ok(b), Ok((b2, rest))) => b.wf() && b@ == b2 && final(tv)@ == rest,
            (Err(m), Err(m2)) => m@ == m2,
            _ => false,
        },
{
    let mut statements = TokenVec::new();
    let mut brace_depth: usize = 0;
    let _ = tv.remaining();
    let ghost goal = p_block(tv@, parens, 0, Seq::empty());
    loop
        invariant
            tv.wf(),
            statements.wf(),
            goal == p_block(old(tv)@, parens, 0, Seq::empty()),
            p_block(tv@, parens, brace_depth as nat, statements@) == goal,
            brace_depth + tv@.len() <= old(tv)@.len(),
            old(tv)@.len() <= usize::MAX,
        decreases tv@.len(),
    {
        let t = match tv.peek() {
            None => return Err(string_of("should not be empty")),
            Some(t) => t,
        };
        if opens_group(&t.token_type, parens) {
            brace_depth = brace_depth + 1;
        } else if closes_group(&t.token_type, parens) {
            if brace_depth == 0 {
                return Ok(statements);
            } else {
                brace_depth = brace_depth - 1;
            }
        }
        let t = tv.get_next().unwrap();
        statements.push(t);
    }
}

// ---------------------------------------------------------------------------
// The variables set so far

/// The variables that the statements so far have set.
pub struct SymbolTracker {
    names: Vec<String>,
}

impl View for SymbolTracker {
    type V = Set<Seq<char>>;

    closed spec fn view(&self) -> Set<Seq<char>> {
        Set::new(|n: Seq<char>| exists|i: int| 0 <= i < self.names@.len() && self.names@[i]@ == n)
    }
}

impl SymbolTracker {
    pub fn new() -> (st: SymbolTracker)
        ensures
            st@ == Set::<Seq<char>>::empty(),
    {
        let st = SymbolTracker { names: Vec::new() };
        assert(st@ =~= Set::<Seq<char>>::empty());
        st
    }

    fn contains(&self, name: &String) -> (b: bool)
        ensures
            b == self@.contains(name@),
    {
        let mut i: usize = 0;
        while i < self.names.len()
            invariant
                i <= self.names@.len(),
                forall|j: int| 0 <= j < i ==> self.names@[j]@ != name@,
            decreases self.names@.len() - i,
        {
            if self.names[i] == *name {
                return true;
            }
            i = i + 1;
        }
        false
    }

    /// Sets the variable that the token names.
    fn insert(&mut self, new_symb_token: Token)
        requires
            new_symb_token@.kind is Emojis,
        ensures
            final(self)@ == old(self)@.insert(new_symb_token@.kind->Emojis_0),
    {
        match new_symb_token.token_type {
            TokenType::Emojis(s) => {
                if !self.contains(&s) {
                    let ghost before = self.names@;
                    let ghost sv = s@;
                    self.names.push(s);
                    assert(self.names@[before.len() as int]@ == sv);
                    assert forall|n: Seq<char>| final(self)@.contains(n) <==> #[trigger] old(self)@.insert(sv).contains(n) by {
                        if old(self)@.contains(n) {
                            let i = choose|i: int| 0 <= i < before.len() && before[i]@ == n;
                            assert(self.names@[i] == before[i]);
                        }
                        if final(self)@.contains(n) && n != sv {
                            let i = choose|i: int| 0 <= i < self.names@.len() && self.names@[i]@ == n;
                            assert(i < before.len());
                            assert(self.names@[i] == before[i]);
                        }
                    }
                    assert(final(self)@ =~= old(self)@.insert(sv));
                } else {
                    assert(final(self)@ =~= old(self)@.insert(s@));
                }
            },
            _ => {},
        }
    }

    /// Whether the variable that the token names is set; the message names
    /// the variable and the token's location where it is not.
    fn check(&self, token: &Token) -> (r: Result<(), String>)
        requires
            token@.kind is Emojis,
        ensures
            match r {
                Ok(_) => self@.contains(token@.kind->Emojis_0),
                Err(m) => !self@.contains(token@.kind->Emojis_0) && m@ == undefined_msg(token@.kind->Emojis_0, token@),
            },
    {
        match &token.token_type {
            TokenType::Emojis(s) => {
                if self.contains(s) {
                    Ok(())
                } else {
                    let mut m = string_of("\"");
                    push_str(&mut m, s.as_str());
                    push_str(&mut m, "\" is undefined at: ");
                    let l = token.location.to_string();
                    push_str(&mut m, l.as_str());
                    assert(m@ =~= undefined_msg(s@, token@));
                    Err(m)
                }
            },
            _ => Ok(()),
        }
    }
}


// ---------------------------------------------------------------------------
// Expressions

fn is_split_token(t: &TokenType, add_sub: bool) -> (b: bool)
    ensures
        b == is_split_op(t@, add_sub),
{
    if add_sub {
        matches!(t, TokenType::Add | TokenType::Subtract)
    } else {
        matches!(t, TokenType::Multiply | TokenType::Divide)
    }
}

fn is_operator_token(t: &TokenType) -> (b: bool)
    ensures
        b == is_operator(t@),
{
    matches!(t, TokenType::Add | TokenType::Subtract | TokenType::Multiply | TokenType::Divide)
}

/// An index found in `ts[lo..]`, counted from `lo`.
spec fn from_lo(found: Option<usize>, lo: usize) -> Option<int> {
    match found {
        Some(f) => Some(f - lo),
        None => None,
    }
}

impl Parser {
    /// The index of the last operator in `ts[lo..hi]` at which that
    /// expression splits (see [`split_index`]): '➕' or '➖' where `add_sub`,
    /// else '❎' or '➗'.
    fn get_idx_of(&self, ts: &Vec<Token>, lo: usize, hi: usize, add_sub: bool) -> (r: Option<usize>)
        requires
            lo <= hi <= ts@.len(),
        ensures
            match r {
                Some(i) => lo <= i < hi && split_index(token_views(ts@).subrange(lo as int, hi as int), add_sub) == Some(i - lo),
                None => split_index(token_views(ts@).subrange(lo as int, hi as int), add_sub) is None,
            },
    {
        let ghost sub = token_views(ts@).subrange(lo as int, hi as int);
        let mut i = lo;
        let mut opens: usize = 0;
        let mut closes: usize = 0;
        let mut found: Option<usize> = None;
        while i < hi
            invariant
                lo <= i <= hi <= ts@.len(),
                sub == token_views(ts@).subrange(lo as int, hi as int),
                opens <= i - lo,
                closes <= i - lo,
                found matches Some(f) ==> lo <= f < i,
                split_from(sub, add_sub, i - lo, opens - closes, from_lo(found, lo)) == split_index(sub, add_sub),
            decreases hi - i,
        {
            let t = &ts[i].token_type;
            assert(sub[i - lo] == ts@[i as int]@);
            let binary = i > lo && !is_operator_token(&ts[i - 1].token_type);
            proof {
                if i > lo {
                    assert(sub[i - lo - 1] == ts@[i - 1]@);
                }
            }
            if is_split_token(t, add_sub) && opens == closes && binary {
                found = Some(i);
            }
            match t {
                TokenType::LParen => {
                    opens = opens + 1;
                },
                TokenType::RParen => {
                    closes = closes + 1;
                },
                _ => {},
            }
            i = i + 1;
        }
        found
    }

    /// Whether `ts[lo..hi]` is wrapped in one pair of parentheses that can be
    /// dropped.
    fn redundant_parens_wrapping(&self, ts: &Vec<Token>, lo: usize, hi: usize) -> (b: bool)
        requires
            lo <= hi <= ts@.len(),
        ensures
            b == redundant_parens(token_views(ts@).subrange(lo as int, hi as int)),
    {
        let ghost sub = token_views(ts@).subrange(lo as int, hi as int);
        if hi == lo {
            return false;
        }
        assert(sub[0] == ts@[lo as int]@);
        assert(sub[sub.len() - 1] == ts@[hi - 1]@);
        if matches!(ts[lo].token_type, TokenType::LParen) && matches!(ts[hi - 1].token_type, TokenType::RParen) {
            let mut i = lo + 1;
            let mut opens: usize = 0;
            let mut closes: usize = 0;
            while i < hi - 1
                invariant
                    lo + 1 <= i <= hi - 1,
                    hi <= ts@.len(),
                    sub == token_views(ts@).subrange(lo as int, hi as int),
                    sub.len() >= 2,
                    opens <= i - lo,
                    closes <= opens,
                    depth_stays(sub.subrange(1, sub.len() - 1), 0) == depth_stays(sub.subrange(i - lo, sub.len() - 1), opens - closes),
                decreases hi - i,
            {
                let ghost rest = sub.subrange(i - lo, sub.len() - 1);
                assert(rest[0] == ts@[i as int]@);
                assert(rest.drop_first() =~= sub.subrange(i - lo + 1, sub.len() - 1));
                match &ts[i].token_type {
                    TokenType::LParen => {
                        opens = opens + 1;
                    },
                    TokenType::RParen => {
                        if closes == opens {
                            return false;
                        }
                        closes = closes + 1;
                    },
                    _ => {},
                }
                i = i + 1;
            }
            assert(sub.subrange(i - lo, sub.len() - 1).len() == 0);
            true
        } else {
            false
        }
    }

    /// The tree of the expression `ts[lo..hi]`, which may read the variables
    /// in `st`; the message says why there is none.
    fn parse_expression(&self, ts: &Vec<Token>, lo: usize, hi: usize, st: &SymbolTracker) -> (r: Result<ASTnode, String>)
        requires
            lo <= hi <= ts@.len(),
        ensures
            ast_outcome(r) == p_expr(token_views(ts@).subrange(lo as int, hi as int), st@),
        decreases hi - lo, 1nat,
    {
        let ghost sub = token_views(ts@).subrange(lo as int, hi as int);
        let length = hi - lo;
        if length == 1 {
            let cur_token = &ts[lo];
            assert(sub[0] == cur_token@);
            match &cur_token.token_type {
                TokenType::Emojis(_) => {
                    match st.check(cur_token) {
                        Ok(_) => {},
                        Err(e) => return Err(e),
                    }
                },
                _ => {},
            }
            return Ok(ASTnode::new_empty_node(cur_token.copy()));
        }
        if self.redundant_parens_wrapping(ts, lo, hi) {
            assert(sub.subrange(1, sub.len() - 1) =~= token_views(ts@).subrange(lo + 1, hi - 1));
            return self.parse_expression(ts, lo + 1, hi - 1, st);
        }
        match self.get_idx_of(ts, lo, hi, true) {
            Some(i) => {
                assert(sub[i - lo] == ts@[i as int]@);
                return self.parse_binary(ts, lo, i, hi, st);
            },
            None => {},
        }
        match self.get_idx_of(ts, lo, hi, false) {
            Some(i) => {
                assert(sub[i - lo] == ts@[i as int]@);
                return self.parse_binary(ts, lo, i, hi, st);
            },
            None => {},
        }
        if length > 1 && matches!(ts[lo].token_type, TokenType::Subtract) {
            assert(sub[0] == ts@[lo as int]@);
            assert(sub.subrange(1, sub.len() as int) =~= token_views(ts@).subrange(lo + 1, hi as int));
            return match self.parse_expression(ts, lo + 1, hi, st) {
                Err(e) => Err(e),
                Ok(a) => Ok(node1(ts[lo].copy(), a)),
            };
        }
        Err(string_of("not finsished! bajs"))
    }

    /// The node of the operator `ts[i]` over `ts[lo..i]` and `ts[i+1..hi]`.
    fn parse_binary(&self, ts: &Vec<Token>, lo: usize, i: usize, hi: usize, st: &SymbolTracker) -> (r: Result<ASTnode, String>)
        requires
            lo <= i < hi <= ts@.len(),
        ensures
            ({
                let sub = token_views(ts@).subrange(lo as int, hi as int);
                let k = i - lo;
                ast_outcome(r) == p_binary(sub, k, p_expr(sub.subrange(0, k), st@), p_expr(sub.subrange(k + 1, sub.len() as int), st@))
            }),
        decreases hi - lo, 0nat,
    {
        let ghost sub = token_views(ts@).subrange(lo as int, hi as int);
        assert(sub.subrange(0, i - lo) =~= token_views(ts@).subrange(lo as int, i as int));
        assert(sub.subrange(i - lo + 1, sub.len() as int) =~= token_views(ts@).subrange(i + 1, hi as int));
        assert(sub[i - lo] == ts@[i as int]@);
        let a = match self.parse_expression(ts, lo, i, st) {
            Err(e) => return Err(e),
            Ok(a) => a,
        };
        let b = match self.parse_expression(ts, i + 1, hi, st) {
            Err(e) => return Err(e),
            Ok(b) => b,
        };
        Ok(node2(ts[i].copy(), a, b))
    }
}


// ---------------------------------------------------------------------------
// Statements

/// The statements `pre` before those of `r`.
pub open spec fn p_prepend(pre: Seq<Ast>, r: Result<(Seq<Ast>, Set<Seq<char>>), Seq<char>>) -> Result<(Seq<Ast>, Set<Seq<char>>), Seq<char>> {
    match r {
        Err(e) => Err(e),
        Ok((stmts, st)) => Ok((pre + stmts, st)),
    }
}

impl Parser {
    pub closed spec fn wf(&self) -> bool {
        self.token_vec.wf()
    }

    /// The tokens of the program.
    pub closed spec fn tokens(&self) -> Seq<TokenView> {
        self.token_vec@
    }

    /// A parser for the program whose tokens are `token_vec`.
    pub fn new(token_vec: Vec<Token>) -> (p: Parser)
        ensures
            p.wf(),
            p.tokens() == token_views(token_vec@),
    {
        Parser { token_vec: TokenVec::from_vec(token_vec) }
    }

    /// An assignment: the name, then its expression, parsed with the
    /// variables set before it (the name is set only after its expression is
    /// checked). Where the parser gives up (here: the expression reads a
    /// variable that is not set, or the tokens run out), the `Err` holds the
    /// message that the parser panics with; as for every private reader of
    /// the parser, the panic itself is made at the public edge:
    /// [`Parser::try_parse`] reports it as `Failure::Panic`, and
    /// [`Parser::parse`] and [`Parser::parse_statements`] leave such tokens
    /// out by their `requires`.
    fn parse_assignment(&self, token_vec: &mut TokenVec, st: &mut SymbolTracker) -> (r: Result<ASTnode, String>)
        requires
            old(token_vec).wf(),
            old(token_vec)@.len() > 0,
            old(token_vec)@[0].kind is Emojis,
        ensures
            final(token_vec).wf(),
            match (r, p_assignment(old(token_vec)@, old(st)@)) {
                (Ok(n), Ok((a, rest, st2))) => n@ == a && final(token_vec)@ == rest && final(st)@ == st2,
                (Err(m), Err(m2)) => m@ == m2,
                _ => false,
            },
    {
        let ghost ts = token_vec@;
        let new_symbol_to_store = token_vec.get_next().unwrap();
        let first = new_symbol_to_store.copy();
        let n0 = ASTnode::new_empty_node(first);
        let cur_node = match token_vec.get_next() {
            None => return Err(string_of("should not be empty")),
            Some(t) => t,
        };
        assert(token_vec@ =~= ts.subrange(2, ts.len() as int));
        let expr_vec = match collect_until(token_vec, Stop::Eol) {
            Err(e) => return Err(e),
            Ok(v) => v,
        };
        token_vec.next();
        let len = expr_vec.len();
        assert(token_views(expr_vec@).subrange(0, len as int) =~= token_views(expr_vec@));
        let ast_node = match self.parse_expression(&expr_vec, 0, len, st) {
            Err(e) => return Err(e),
            Ok(a) => a,
        };
        st.insert(new_symbol_to_store);
        Ok(node2(cur_node, n0, ast_node))
    }

    fn parse_print(&self, token_vec: &mut TokenVec, st: &SymbolTracker) -> (r: Result<ASTnode, String>)
        requires
            old(token_vec).wf(),
            old(token_vec)@.len() > 0,
        ensures
            final(token_vec).wf(),
            match (r, p_print(old(token_vec)@, st@)) {
                (Ok(n), Ok((a, rest))) => n@ == a && final(token_vec)@ == rest,
                (Err(m), Err(m2)) => m@ == m2,
                _ => false,
            },
    {
        let cur_token = token_vec.get_next().unwrap();
        token_vec.next();
        let expr = match collect_block(token_vec, true) {
            Err(e) => return Err(e),
            Ok(v) => v,
        };
        token_vec.next();
        token_vec.next();
        let len = expr.token_vec.len();
        assert(token_views(expr.token_vec@).subrange(expr.start as int, len as int) =~= expr@);
        match self.parse_expression(&expr.token_vec, expr.start, len, st) {
            Err(e) => Err(e),
            Ok(a) => Ok(node1(cur_token, a)),
        }
    }

    fn parse_break_kw(&self, token_vec: &mut TokenVec) -> (r: ASTnode)
        requires
            old(token_vec).wf(),
            old(token_vec)@.len() > 0,
        ensures
            final(token_vec).wf(),
            p_break(old(token_vec)@) == Ok::<(Ast, Seq<TokenView>), Seq<char>>((r@, final(token_vec)@)),
    {
        let cur_token = ASTtoken::new(token_vec.get_next().unwrap());
        token_vec.next();
        ASTnode::Node(cur_token)
    }

    fn parse_if(&self, token_vec: &mut TokenVec, st: SymbolTracker) -> (r: Result<(ASTnode, SymbolTracker), String>)
        requires
            old(token_vec).wf(),
            old(token_vec)@.len() > 0,
        ensures
            final(token_vec).wf(),
            match (r, p_if(old(token_vec)@, st@)) {
                (Ok((n, st2)), Ok((a, s2))) => n@ == a && st2@ == s2 && final(token_vec)@ == if_rest(old(token_vec)@),
                (Err(m), Err(m2)) => m@ == m2,
                _ => false,
            },
        decreases old(token_vec)@.len(), 1nat,
    {
        let ghost ts = token_vec@;
        proof {
            lemma_if_parts(ts);
        }
        let cur_token = token_vec.get_next().unwrap();
        let expr_0 = match collect_until(token_vec, Stop::Cmp) {
            Err(e) => return Err(e),
            Ok(v) => v,
        };
        let relation_token = match token_vec.get_next() {
            None => return Err(string_of("should not be empty")),
            Some(t) => t,
        };
        let expr_1 = match collect_until(token_vec, Stop::LBrace) {
            Err(e) => return Err(e),
            Ok(v) => v,
        };
        let ghost r1 = token_vec@;
        let len0 = expr_0.len();
        let len1 = expr_1.len();
        assert(token_views(expr_0@).subrange(0, len0 as int) =~= token_views(expr_0@));
        assert(token_views(expr_1@).subrange(0, len1 as int) =~= token_views(expr_1@));
        let n0 = match self.parse_expression(&expr_0, 0, len0, &st) {
            Err(e) => return Err(e),
            Ok(a) => a,
        };
        let n1 = match self.parse_expression(&expr_1, 0, len1, &st) {
            Err(e) => return Err(e),
            Ok(a) => a,
        };
        let relation_node = node2(relation_token, n0, n1);
        token_vec.next();
        token_vec.next();
        let statements = match collect_block(token_vec, false) {
            Err(e) => return Err(e),
            Ok(b) => b,
        };
        token_vec.next();
        token_vec.next();
        let (statement_node, st2) = match self.statements(statements, st) {
            Err(e) => return Err(e),
            Ok(p) => p,
        };
        Ok((node2(cur_token, relation_node, statement_node), st2))
    }

    fn parse_loop(&self, token_vec: &mut TokenVec, st: SymbolTracker) -> (r: Result<(ASTnode, SymbolTracker), String>)
        requires
            old(token_vec).wf(),
            old(token_vec)@.len() > 0,
        ensures
            final(token_vec).wf(),
            match (r, p_loop(old(token_vec)@, st@)) {
                (Ok((n, st2)), Ok((a, s2))) => n@ == a && st2@ == s2 && final(token_vec)@ == loop_rest(old(token_vec)@),
                (Err(m), Err(m2)) => m@ == m2,
                _ => false,
            },
        decreases old(token_vec)@.len(), 1nat,
    {
        let ghost ts = token_vec@;
        proof {
            lemma_loop_parts(ts);
        }
        let cur_token = token_vec.get_next().unwrap();
        token_vec.next();
        token_vec.next();
        let statements = match collect_block(token_vec, false) {
            Err(e) => return Err(e),
            Ok(b) => b,
        };
        token_vec.next();
        token_vec.next();
        let (statements_node, st2) = match self.statements(statements, st) {
            Err(e) => return Err(e),
            Ok(p) => p,
        };
        Ok((node1(cur_token, statements_node), st2))
    }

    /// The statements of `token_vec` and the variables set after them; the
    /// message says why the parser gives up, where it does.
    fn statements(&self, tokens: TokenVec, symbols: SymbolTracker) -> (r: Result<(ASTnode, SymbolTracker), String>)
        requires
            tokens.wf(),
        ensures
            match (r, p_statements(tokens@, symbols@)) {
                (Ok((n, st2)), Ok((stmts, s2))) => n@ == Ast::Stmts(stmts) && st2@ == s2,
                (Err(m), Err(m2)) => m@ == m2,
                _ => false,
            },
        decreases tokens@.len(), 2nat,
    {
        let ghost ts0 = tokens@;
        let ghost st0 = symbols@;
        let mut token_vec = tokens;
        let mut st = symbols;
        let mut seq_vec: Vec<ASTnode> = Vec::new();
        assert(p_prepend(asts_of(seq_vec@), p_statements(token_vec@, st@)) =~~= p_statements(ts0, st0)) by {
            assert(asts_of(seq_vec@) =~= Seq::<Ast>::empty());
            match p_statements(ts0, st0) {
                Ok((stmts, s2)) => {
                    assert(Seq::<Ast>::empty() + stmts =~= stmts);
                },
                Err(_) => {},
            }
        }
        while !token_vec.is_empty()
            invariant
                token_vec.wf(),
                ts0 == tokens@,
                st0 == symbols@,
                token_vec@.len() <= ts0.len(),
                p_prepend(asts_of(seq_vec@), p_statements(token_vec@, st@)) == p_statements(ts0, st0),
            decreases token_vec@.len(),
        {
            let ghost ts = token_vec@;
            let ghost pre = asts_of(seq_vec@);
            proof {
                lemma_statement_rests(ts, st@);
            }
            let which: u8 = match token_vec.peek() {
                Some(t) => match &t.token_type {
                    TokenType::Emojis(_) => 0,
                    TokenType::IfKeyword => 1,
                    TokenType::PrintKeyword => 2,
                    TokenType::LoopKeyword => 3,
                    TokenType::BreakKeyword => 4,
                    _ => 5,
                },
                None => 5,
            };
            let seq: ASTnode;
            if which == 0 {
                seq = match self.parse_assignment(&mut token_vec, &mut st) {
                    Err(e) => return Err(e),
                    Ok(n) => n,
                };
            } else if which == 1 {
                let (n, st2) = match self.parse_if(&mut token_vec, st) {
                    Err(e) => return Err(e),
                    Ok(p) => p,
                };
                seq = n;
                st = st2;
            } else if which == 2 {
                seq = match self.parse_print(&mut token_vec, &st) {
                    Err(e) => return Err(e),
                    Ok(n) => n,
                };
            } else if which == 3 {
                let (n, st2) = match self.parse_loop(&mut token_vec, st) {
                    Err(e) => return Err(e),
                    Ok(p) => p,
                };
                seq = n;
                st = st2;
            } else if which == 4 {
                seq = self.parse_break_kw(&mut token_vec);
            } else {
                return Err(string_of("arm not complete"));
            }
            let ghost before = seq_vec@;
            seq_vec.push(seq);
            proof {
                lemma_asts_push(before, seq);
                match p_statements(token_vec@, st@) {
                    Ok((stmts, s2)) => {
                        assert(pre + (seq![seq@] + stmts) =~= pre.push(seq@) + stmts);
                    },
                    Err(_) => {},
                }
            }
        }
        assert(p_statements(token_vec@, st@) == Ok::<(Seq<Ast>, Set<Seq<char>>), Seq<char>>((Seq::empty(), st@)));
        assert(asts_of(seq_vec@) + Seq::<Ast>::empty() =~= asts_of(seq_vec@));
        Ok((ASTnode::StatementSeq(seq_vec), st))
    }

    /// The statements of `token_vec` and the variables set after them. Not
    /// for tokens on which the parser gives up.
    pub fn parse_statements(&mut self, token_vec: TokenVec, st: SymbolTracker) -> (r: (ASTnode, SymbolTracker))
        requires
            token_vec.wf(),
            p_statements(token_vec@, st@) is Ok,
        ensures
            p_statements(token_vec@, st@) matches Ok((stmts, s2)) && r.0@ == Ast::Stmts(stmts) && r.1@ == s2,
    {
        match self.statements(token_vec, st) {
            Ok(p) => p,
            Err(_) => {
                assert(false);
                (ASTnode::StatementSeq(Vec::new()), SymbolTracker::new())
            },
        }
    }

    /// The syntax tree of the program, or (as `Failure::Panic`) why the
    /// parser gives up.
    pub fn try_parse(&mut self) -> (r: Result<ASTnode, Failure>)
        requires
            old(self).wf(),
        ensures
            final(self).wf(),
            final(self).tokens() == old(self).tokens(),
            match (r, parse_spec(old(self).tokens())) {
                (Ok(n), Ok(a)) => n@ == a,
                (Err(f), Err(m)) => f@ == FailureView::Panic(m),
                _ => false,
            },
    {
        let st = SymbolTracker::new();
        match self.statements(self.token_vec.copy(), st) {
            Ok((root, _)) => Ok(root),
            Err(m) => Err(Failure::Panic(m)),
        }
    }

    /// The syntax tree of the program. Not for tokens on which the parser
    /// gives up (see [`Parser::try_parse`]).
    pub fn parse(&mut self) -> (r: Result<ASTnode, String>)
        requires
            old(self).wf(),
            parse_spec(old(self).tokens()) is Ok,
        ensures
            final(self).wf(),
            final(self).tokens() == old(self).tokens(),
            r matches Ok(n) && parse_spec(old(self).tokens()) == Ok::<Ast, Seq<char>>(n@),
    {
        match self.try_parse() {
            Ok(root) => Ok(root),
            Err(_) => {
                assert(false);
                Err(String::new())
            },
        }
    }
}


// ---------------------------------------------------------------------------
// Laws

/// Every variable that the tree reads is in `st`.
pub open spec fn reads_in(a: Ast, st: Set<Seq<char>>) -> bool
    decreases a, 0nat,
{
    match a {
        Ast::Stmts(ss) => all_read_in(ss, st),
        Ast::Tok(t, ch) => (t.kind matches Kind::Emojis(n) ==> st.contains(n)) && match ch {
            None => true,
            Some(v) => all_read_in(v, st),
        },
    }
}

pub open spec fn all_read_in(s: Seq<Ast>, st: Set<Seq<char>>) -> bool
    decreases s, s.len(),
{
    if s.len() == 0 {
        true
    } else {
        all_read_in(s.drop_last(), st) && reads_in(s.last(), st)
    }
}

proof fn lemma_all_read_in_one(a: Ast, st: Set<Seq<char>>)
    ensures
        all_read_in(seq![a], st) == reads_in(a, st),
{
    assert(seq![a].drop_last() =~= Seq::<Ast>::empty());
    assert(all_read_in(Seq::<Ast>::empty(), st));
    assert(all_read_in(seq![a].drop_last(), st));
    assert(seq![a].last() == a);
}

proof fn lemma_all_read_in_two(a: Ast, b: Ast, st: Set<Seq<char>>)
    ensures
        all_read_in(seq![a, b], st) == (reads_in(a, st) && reads_in(b, st)),
{
    assert(seq![a, b].drop_last() =~= seq![a]);
    assert(seq![a, b].last() == b);
    lemma_all_read_in_one(a, st);
}

proof fn lemma_expr_is_node(ts: Seq<TokenView>, st: Set<Seq<char>>)
    ensures
        p_expr(ts, st) matches Ok(a) ==> a is Tok,
    decreases ts.len(),
{
    if ts.len() != 1 && redundant_parens(ts) {
        lemma_expr_is_node(ts.subrange(1, ts.len() - 1), st);
    }
}

/// An expression tree reads only variables that are set: the parser refuses
/// an expression that reads any other.
pub proof fn law_expression_reads_set_variables(ts: Seq<TokenView>, st: Set<Seq<char>>)
    ensures
        p_expr(ts, st) matches Ok(a) ==> reads_in(a, st),
    decreases ts.len(),
{
    if ts.len() == 1 {
        assert(reads_in(leaf(ts[0]), st) == (ts[0].kind matches Kind::Emojis(n) ==> st.contains(n)));
    } else if redundant_parens(ts) {
        law_expression_reads_set_variables(ts.subrange(1, ts.len() - 1), st);
    } else {
        lemma_split_bounds(ts, true, 0, 0, None);
        lemma_split_bounds(ts, false, 0, 0, None);
        match split_index(ts, true) {
            Some(i) => {
                law_expression_reads_set_variables(ts.subrange(0, i), st);
                law_expression_reads_set_variables(ts.subrange(i + 1, ts.len() as int), st);
                if let (Ok(a), Ok(b)) = (p_expr(ts.subrange(0, i), st), p_expr(ts.subrange(i + 1, ts.len() as int), st)) {
                    lemma_all_read_in_two(a, b, st);
                }
            },
            None => match split_index(ts, false) {
                Some(i) => {
                    law_expression_reads_set_variables(ts.subrange(0, i), st);
                    law_expression_reads_set_variables(ts.subrange(i + 1, ts.len() as int), st);
                    if let (Ok(a), Ok(b)) = (p_expr(ts.subrange(0, i), st), p_expr(ts.subrange(i + 1, ts.len() as int), st)) {
                        lemma_all_read_in_two(a, b, st);
                    }
                },
                None => if ts.len() > 1 && ts[0].kind is Subtract {
                    law_expression_reads_set_variables(ts.subrange(1, ts.len() as int), st);
                    if let Ok(a) = p_expr(ts.subrange(1, ts.len() as int), st) {
                        lemma_all_read_in_one(a, st);
                    }
                },
            },
        }
    }
}

proof fn lemma_assignment_keeps(ts: Seq<TokenView>, st: Set<Seq<char>>)
    ensures
        p_assignment(ts, st) matches Ok((_, _, st2)) ==> st.subset_of(st2),
{
}

proof fn lemma_if_keeps(ts: Seq<TokenView>, st: Set<Seq<char>>)
    ensures
        p_if(ts, st) matches Ok((_, st2)) ==> st.subset_of(st2),
    decreases ts.len(), 1nat,
{
    if let Ok((tok, e0, cmp, e1, r1)) = p_if_head(ts) {
        if let Ok((body, _)) = p_body(r1) {
            lemma_if_parts(ts);
            law_variables_stay_set(body, st);
        }
    }
}

proof fn lemma_loop_keeps(ts: Seq<TokenView>, st: Set<Seq<char>>)
    ensures
        p_loop(ts, st) matches Ok((_, st2)) ==> st.subset_of(st2),
    decreases ts.len(), 1nat,
{
    if ts.len() > 0 {
        if let Ok((body, _)) = p_body(p_next(ts)) {
            lemma_loop_parts(ts);
            law_variables_stay_set(body, st);
        }
    }
}

/// A variable once set stays set: the statements of a block can set more
/// variables, and those stay set after the block too.
pub proof fn law_variables_stay_set(ts: Seq<TokenView>, st: Set<Seq<char>>)
    ensures
        p_statements(ts, st) matches Ok((_, st2)) ==> st.subset_of(st2),
    decreases ts.len(), 2nat,
{
    if ts.len() > 0 {
        lemma_statement_rests(ts, st);
        match ts[0].kind {
            Kind::Emojis(_) => {
                lemma_assignment_keeps(ts, st);
                if let Ok((a, rest, st2)) = p_assignment(ts, st) {
                    law_variables_stay_set(rest, st2);
                }
            },
            Kind::IfKeyword => {
                lemma_if_keeps(ts, st);
                if let Ok((a, st2)) = p_if(ts, st) {
                    law_variables_stay_set(if_rest(ts), st2);
                }
            },
            Kind::PrintKeyword => {
                if let Ok((a, rest)) = p_print(ts, st) {
                    law_variables_stay_set(rest, st);
                }
            },
            Kind::LoopKeyword => {
                lemma_loop_keeps(ts, st);
                if let Ok((a, st2)) = p_loop(ts, st) {
                    law_variables_stay_set(loop_rest(ts), st2);
                }
            },
            Kind::BreakKeyword => {
                if let Ok((a, rest)) = p_break(ts) {
                    law_variables_stay_set(rest, st);
                }
            },
            _ => {},
        }
    }
}


/// The variables set after a statement of a program tree, starting from
/// `st`; `None` where an expression reads a variable that is not set. The
/// kind of a statement shows in the shape of its node: an assignment has a
/// name and an expression below it, a print statement one expression, a
/// conditional a comparison and a block, a loop a block, a break nothing.
/// A block's variables stay set after it.
pub open spec fn scoped_stmt(a: Ast, st: Set<Seq<char>>) -> Option<Set<Seq<char>>>
    decreases a, 0nat,
{
    match a {
        Ast::Stmts(_) => None,
        Ast::Tok(_, None) => Some(st),
        Ast::Tok(_, Some(v)) => if v.len() == 1 {
            match v[0] {
                Ast::Tok(_, _) => if reads_in(v[0], st) { Some(st) } else { None },
                Ast::Stmts(b) => scoped_stmts(b, st),
            }
        } else if v.len() == 2 {
            match (v[0], v[1]) {
                (Ast::Tok(t, None), Ast::Tok(_, _)) => match t.kind {
                    Kind::Emojis(n) => if reads_in(v[1], st) { Some(st.insert(n)) } else { None },
                    _ => None,
                },
                (Ast::Tok(_, Some(w)), Ast::Stmts(b)) => if w.len() == 2 && reads_in(w[0], st) && reads_in(w[1], st) {
                    scoped_stmts(b, st)
                } else {
                    None
                },
                _ => None,
            }
        } else {
            None
        },
    }
}

/// The variables set after a sequence of statements; each statement sees
/// those set before it.
pub open spec fn scoped_stmts(ss: Seq<Ast>, st: Set<Seq<char>>) -> Option<Set<Seq<char>>>
    decreases ss, ss.len(),
{
    if ss.len() == 0 {
        Some(st)
    } else {
        match scoped_stmt(ss[0], st) {
            None => None,
            Some(st2) => scoped_stmts(ss.drop_first(), st2),
        }
    }
}

proof fn lemma_scoped_cons(a: Ast, ss: Seq<Ast>, st: Set<Seq<char>>)
    ensures
        scoped_stmts(seq![a] + ss, st) == match scoped_stmt(a, st) {
            None => None,
            Some(st2) => scoped_stmts(ss, st2),
        },
{
    assert((seq![a] + ss)[0] == a);
    assert((seq![a] + ss).drop_first() =~= ss);
}

proof fn lemma_if_scoped(ts: Seq<TokenView>, st: Set<Seq<char>>)
    ensures
        p_if(ts, st) matches Ok((a, st2)) ==> scoped_stmt(a, st) == Some(st2),
    decreases ts.len(), 1nat,
{
    if let Ok((tok, e0, cmp, e1, r1)) = p_if_head(ts) {
        law_expression_reads_set_variables(e0, st);
        law_expression_reads_set_variables(e1, st);
        if let Ok((body, _)) = p_body(r1) {
            lemma_if_parts(ts);
            law_parse_checks_variables(body, st);
            if let (Ok(a0), Ok(a1)) = (p_expr(e0, st), p_expr(e1, st)) {
                if let Ok((stmts, st2)) = p_statements(body, st) {
                    let w = seq![a0, a1];
                    assert(w[0] == a0 && w[1] == a1 && w.len() == 2);
                    let v = seq![Ast::Tok(cmp, Some(w)), Ast::Stmts(stmts)];
                    assert(v[0] == Ast::Tok(cmp, Some(w)) && v[1] == Ast::Stmts(stmts) && v.len() == 2);
                }
            }
        }
    }
}

proof fn lemma_loop_scoped(ts: Seq<TokenView>, st: Set<Seq<char>>)
    ensures
        p_loop(ts, st) matches Ok((a, st2)) ==> scoped_stmt(a, st) == Some(st2),
    decreases ts.len(), 1nat,
{
    if ts.len() > 0 {
        if let Ok((body, _)) = p_body(p_next(ts)) {
            lemma_loop_parts(ts);
            law_parse_checks_variables(body, st);
            if let Ok((stmts, st2)) = p_statements(body, st) {
                let v = seq![Ast::Stmts(stmts)];
                assert(v[0] == Ast::Stmts(stmts) && v.len() == 1);
            }
        }
    }
}

/// The parser accepts a sequence of statements only where every expression
/// in it reads variables that earlier statements set (those set in an
/// earlier block included); the variables set after it are those it reports.
pub proof fn law_parse_checks_variables(ts: Seq<TokenView>, st: Set<Seq<char>>)
    ensures
        p_statements(ts, st) matches Ok((stmts, st2)) ==> scoped_stmts(stmts, st) == Some(st2),
    decreases ts.len(), 2nat,
{
    if ts.len() > 0 {
        lemma_statement_rests(ts, st);
        match ts[0].kind {
            Kind::Emojis(_) => {
                if let Ok((a, rest, st2)) = p_assignment(ts, st) {
                    law_parse_checks_variables(rest, st2);
                    if let Ok((expr, _)) = p_collect(ts.subrange(2, ts.len() as int), Stop::Eol, Seq::empty()) {
                        law_expression_reads_set_variables(expr, st);
                        lemma_expr_is_node(expr, st);
                        if let Ok(e) = p_expr(expr, st) {
                            let v = seq![leaf(ts[0]), e];
                            assert(v[0] == leaf(ts[0]) && v[1] == e && v.len() == 2);
                        }
                    }
                    if let Ok((stmts, st3)) = p_statements(rest, st2) {
                        lemma_scoped_cons(a, stmts, st);
                    }
                }
            },
            Kind::IfKeyword => {
                lemma_if_scoped(ts, st);
                if let Ok((a, st2)) = p_if(ts, st) {
                    law_parse_checks_variables(if_rest(ts), st2);
                    if let Ok((stmts, st3)) = p_statements(if_rest(ts), st2) {
                        lemma_scoped_cons(a, stmts, st);
                    }
                }
            },
            Kind::PrintKeyword => {
                if let Ok((a, rest)) = p_print(ts, st) {
                    law_parse_checks_variables(rest, st);
                    if let Ok((expr, _)) = p_block(p_next(ts.drop_first()), true, 0, Seq::empty()) {
                        law_expression_reads_set_variables(expr, st);
                        lemma_expr_is_node(expr, st);
                        if let Ok(e) = p_expr(expr, st) {
                            let v = seq![e];
                            assert(v[0] == e && v.len() == 1);
                        }
                    }
                    if let Ok((stmts, st3)) = p_statements(rest, st) {
                        lemma_scoped_cons(a, stmts, st);
                    }
                }
            },
            Kind::LoopKeyword => {
                lemma_loop_scoped(ts, st);
                if let Ok((a, st2)) = p_loop(ts, st) {
                    law_parse_checks_variables(loop_rest(ts), st2);
                    if let Ok((stmts, st3)) = p_statements(loop_rest(ts), st2) {
                        lemma_scoped_cons(a, stmts, st);
                    }
                }
            },
            Kind::BreakKeyword => {
                if let Ok((a, rest)) = p_break(ts) {
                    law_parse_checks_variables(rest, st);
                    if let Ok((stmts, st3)) = p_statements(rest, st) {
                        lemma_scoped_cons(a, stmts, st);
                    }
                }
            },
            _ => {},
        }
    }
}


/// The parenthesis depth after the tokens `ts`.
pub open spec fn depth_of(ts: Seq<TokenView>) -> int
    decreases ts.len(),
{
    if ts.len() == 0 {
        0
    } else {
        depth_of(ts.drop_last()) + paren_delta(ts.last().kind)
    }
}

/// The expression `ts` can split at `j`: an operator of the level stands
/// there at parenthesis depth 0 and joins two operands.
pub open spec fn splits_here(ts: Seq<TokenView>, add_sub: bool, j: int) -> bool {
    &&& 0 <= j < ts.len()
    &&& is_split_op(ts[j].kind, add_sub)
    &&& depth_of(ts.subrange(0, j)) == 0
    &&& binary_at(ts, j)
}

proof fn lemma_split_from_last(ts: Seq<TokenView>, add_sub: bool, i: int, d: int, last: Option<int>)
    requires
        0 <= i <= ts.len(),
        d == depth_of(ts.subrange(0, i)),
        last matches Some(k) ==> 0 <= k < i && splits_here(ts, add_sub, k) && forall|j: int| k < j < i ==> !#[trigger] splits_here(ts, add_sub, j),
        last is None ==> forall|j: int| 0 <= j < i ==> !#[trigger] splits_here(ts, add_sub, j),
    ensures
        split_from(ts, add_sub, i, d, last) matches Some(k) ==> splits_here(ts, add_sub, k) && forall|j: int| k < j < ts.len() ==> !#[trigger] splits_here(ts, add_sub, j),
        split_from(ts, add_sub, i, d, last) is None ==> forall|j: int| 0 <= j < ts.len() ==> !#[trigger] splits_here(ts, add_sub, j),
    decreases ts.len() - i,
{
    if i < ts.len() {
        assert(ts.subrange(0, i + 1).drop_last() =~= ts.subrange(0, i));
        assert(ts.subrange(0, i + 1).last() == ts[i]);
        assert(splits_at(ts, add_sub, i, d) == splits_here(ts, add_sub, i));
        let next = if splits_at(ts, add_sub, i, d) { Some(i) } else { last };
        lemma_split_from_last(ts, add_sub, i + 1, d + paren_delta(ts[i].kind), next);
    }
}

/// An expression splits at the last operator of the level that stands at
/// parenthesis depth 0 and joins two operands, and it splits nowhere where
/// there is no such operator: the operators of a level group to the left.
pub proof fn law_split_is_last(ts: Seq<TokenView>, add_sub: bool)
    ensures
        split_index(ts, add_sub) matches Some(k) ==> splits_here(ts, add_sub, k) && forall|j: int| k < j < ts.len() ==> !#[trigger] splits_here(ts, add_sub, j),
        split_index(ts, add_sub) is None ==> forall|j: int| 0 <= j < ts.len() ==> !#[trigger] splits_here(ts, add_sub, j),
{
    assert(ts.subrange(0, 0) =~= Seq::<TokenView>::empty());
    lemma_split_from_last(ts, add_sub, 0, 0, None);
}

/// `x op y`, where `y` is a single operand and `op` is an operator of a
/// level that joins `x` to it, is `op` over the trees of `x` and `y`: so
/// `5➖3➖1` is `(5➖3)➖1` and `8➗4➗2` is `(8➗4)➗2`. For '❎' and '➗' this
/// holds where `x` has no '➕' or '➖' that joins two operands at depth 0,
/// since those bind looser: `1➕2❎3` is `1➕(2❎3)`.
pub proof fn law_left_grouping(x: Seq<TokenView>, op: TokenView, y: TokenView, add_sub: bool, st: Set<Seq<char>>)
    requires
        x.len() > 0,
        !is_operator(x.last().kind),
        depth_of(x) == 0,
        is_split_op(op.kind, add_sub),
        y.kind is Int || y.kind is Emojis,
        !add_sub ==> split_index(x, true) is None,
    ensures
        ({
            let ts = x.push(op).push(y);
            p_expr(ts, st) == p_binary(ts, x.len() as int, p_expr(x, st), p_expr(seq![y], st))
        }),
{
    let ts = x.push(op).push(y);
    let n = x.len() as int;
    assert(ts[n] == op);
    assert(ts[n + 1] == y);
    assert(ts[n - 1] == x.last());
    assert(ts.subrange(0, n) =~= x);
    assert(ts.subrange(n + 1, ts.len() as int) =~= seq![y]);
    assert(splits_here(ts, add_sub, n));
    assert(!splits_here(ts, add_sub, n + 1));
    assert(!redundant_parens(ts));
    law_split_is_last(ts, add_sub);
    if !add_sub {
        law_split_is_last(ts, true);
        law_split_is_last(x, true);
        assert forall|j: int| 0 <= j < ts.len() implies !#[trigger] splits_here(ts, true, j) by {
            if j < n {
                assert(ts[j] == x[j]);
                assert(ts.subrange(0, j) =~= x.subrange(0, j));
                if j > 0 {
                    assert(ts[j - 1] == x[j - 1]);
                }
                assert(!splits_here(x, true, j));
            }
        }
    }
}

/// A leading '➖' negates the factor after it: where no operator of `ts`
/// joins two operands at depth 0, a `ts` that starts with '➖' is the
/// negation of the rest (`➖➖1` is `➖(➖1)`, and in `➖1➕2` the '➕' joins
/// `➖1` to `2`).
pub proof fn law_negation(ts: Seq<TokenView>, st: Set<Seq<char>>)
    requires
        ts.len() > 1,
        ts[0].kind is Subtract,
        forall|j: int| 0 <= j < ts.len() ==> !#[trigger] splits_here(ts, true, j),
        forall|j: int| 0 <= j < ts.len() ==> !#[trigger] splits_here(ts, false, j),
    ensures
        p_expr(ts, st) == match p_expr(ts.subrange(1, ts.len() as int), st) {
            Err(e) => Err(e),
            Ok(a) => Ok(Ast::Tok(ts[0], Some(seq![a]))),
        },
{
    law_split_is_last(ts, true);
    law_split_is_last(ts, false);
}

} // verus!
