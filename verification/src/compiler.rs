//! The compiler: it prints the syntax tree of a program as a C program.
//!
//! Every variable becomes an `int` named `v0`, `v1`, … in the order in which
//! the compiler first meets an assignment to it. Every operand of an
//! operator is printed in parentheses.

use vstd::prelude::*;
use crate::text::{law_decimal_injective, decimal, int_text, push_char, push_decimal, push_int, push_str, string_of, Failure, FailureView};
use crate::tokenizer::{Kind, TokenType, TokenView};
use crate::parser::{ast_of, asts_of, children_of, lemma_asts_index, ASTnode, ASTtoken, Ast};

verus! {

// ---------------------------------------------------------------------------
// The specification
//
// Each part of the tree yields the text that it writes and its outcome. The
// text is written even where the outcome is a failure (up to the failure).

/// The variables met so far, in order; variable `i` is `v<i>` in C.
pub type Table = Seq<Seq<char>>;

/// Written text, and the outcome.
pub type Emit<T> = (Seq<char>, Result<T, FailureView>);

/// The C name of the variable at index `i`.
pub open spec fn c_name(i: int) -> Seq<char> {
    seq!['v'] + decimal(i as nat)
}

/// The first index from `i` on at which `k` stands in `t`.
pub open spec fn index_from(t: Table, k: Seq<char>, i: int) -> Option<int>
    decreases t.len() - i,
{
    if !(0 <= i < t.len()) {
        None
    } else if t[i] == k {
        Some(i)
    } else {
        index_from(t, k, i + 1)
    }
}

pub open spec fn t_index(t: Table, k: Seq<char>) -> Option<int> {
    index_from(t, k, 0)
}

/// The C name of a variable that the table holds.
pub open spec fn t_get(t: Table, k: Seq<char>) -> Option<Seq<char>> {
    match t_index(t, k) {
        Some(i) => Some(c_name(i)),
        None => None,
    }
}

/// The table after an assignment to `k`, and the C name of `k`: a new
/// variable is added at the end.
pub open spec fn t_assign(t: Table, k: Seq<char>) -> (Table, Seq<char>) {
    match t_index(t, k) {
        Some(i) => (t, c_name(i)),
        None => (t.push(k), c_name(t.len() as int)),
    }
}

pub open spec fn explicit_panic() -> FailureView {
    FailureView::Panic("explicit panic"@)
}

/// What indexing a vector of length `n` at `n` panics with.
pub open spec fn index_panic(n: nat) -> FailureView {
    FailureView::Panic("index out of bounds: the len is "@ + decimal(n) + " but the index is "@ + decimal(n))
}

pub open spec fn err(msg: Seq<char>) -> FailureView {
    FailureView::Error(msg)
}

/// `pre` written before what `e` wrote.
pub open spec fn after<T>(pre: Seq<char>, e: Emit<T>) -> Emit<T> {
    (pre + e.0, e.1)
}

/// The C operator of a comparison.
pub open spec fn relation_text(k: Kind) -> Option<Seq<char>> {
    match k {
        Kind::EQ => Some("=="@),
        Kind::NEQ => Some("!="@),
        Kind::GT => Some(">"@),
        Kind::LT => Some("<"@),
        Kind::GEQ => Some(">="@),
        Kind::LEQ => Some("<="@),
        _ => None,
    }
}

/// The C operator of '➕', '❎' and '➗'.
pub open spec fn operator_text(k: Kind) -> Seq<char> {
    match k {
        Kind::Add => "+"@,
        Kind::Multiply => "*"@,
        _ => "/"@,
    }
}

/// An expression: an integer, a variable's C name, a negation `-(a)`, or an
/// operation `(a)op(b)`.
pub open spec fn c_expr(a: Ast, t: Table) -> Emit<()>
    decreases a,
{
    match a {
        Ast::Stmts(_) => (Seq::empty(), Err(explicit_panic())),
        Ast::Tok(tok, ch) => match tok.kind {
            Kind::Int(i) => (int_text(i as int), Ok(())),
            Kind::Emojis(s) => match t_get(t, s) {
                Some(n) => (n, Ok(())),
                None => (Seq::empty(), Err(FailureView::Panic(s + ", is undefined"@))),
            },
            Kind::Subtract => match ch {
                None => (Seq::empty(), Err(err("no children found"@))),
                Some(v) => if v.len() == 1 {
                    if v[0] is Tok {
                        let (o, r) = c_expr(v[0], t);
                        match r {
                            Err(e) => ("-("@ + o, Err(e)),
                            Ok(_) => ("-("@ + o + ")"@, Ok(())),
                        }
                    } else {
                        (Seq::empty(), Err(explicit_panic()))
                    }
                } else if v.len() == 2 {
                    if v[0] is Tok && v[1] is Tok {
                        c_join(c_expr(v[0], t), "-"@, c_expr(v[1], t))
                    } else {
                        (Seq::empty(), Err(explicit_panic()))
                    }
                } else {
                    (Seq::empty(), Err(explicit_panic()))
                },
            },
            Kind::Add | Kind::Multiply | Kind::Divide => match ch {
                None => (Seq::empty(), Err(err("expected two children"@))),
                Some(v) => if v.len() == 0 {
                    (Seq::empty(), Err(index_panic(0)))
                } else if !(v[0] is Tok) {
                    (Seq::empty(), Err(explicit_panic()))
                } else if v.len() == 1 {
                    (Seq::empty(), Err(index_panic(1)))
                } else if !(v[1] is Tok) {
                    (Seq::empty(), Err(explicit_panic()))
                } else {
                    c_join(c_expr(v[0], t), operator_text(tok.kind), c_expr(v[1], t))
                },
            },
            _ => (Seq::empty(), Err(err("unexpected tokentype"@))),
        },
    }
}

/// `(a)op(b)`, from what the two operands write; the right one is written
/// only where the left one succeeds.
pub open spec fn c_join(ea: Emit<()>, op: Seq<char>, eb: Emit<()>) -> Emit<()> {
    match ea.1 {
        Err(e) => ("("@ + ea.0, Err(e)),
        Ok(_) => match eb.1 {
            Err(e) => ("("@ + ea.0 + ")"@ + op + "("@ + eb.0, Err(e)),
            Ok(_) => ("("@ + ea.0 + ")"@ + op + "("@ + eb.0 + ")"@, Ok(())),
        },
    }
}


/// A print statement: `printf("%d\n", e);`.
pub open spec fn c_print(ch: Option<Seq<Ast>>, t: Table) -> Emit<Table> {
    let pre = "printf(\"%d\\n\", "@;
    match ch {
        None => (pre, Err(err("print should have child"@))),
        Some(v) => if v.len() == 0 {
            (pre, Err(index_panic(0)))
        } else if !(v[0] is Tok) {
            (pre, Err(err("child of print must be ASTtoken"@)))
        } else {
            let (o, r) = c_expr(v[0], t);
            match r {
                Err(e) => (pre + o, Err(e)),
                Ok(_) => (pre + o + ");\n"@, Ok(t)),
            }
        },
    }
}

/// An assignment: `int ` for a variable met for the first time, then
/// `name = e;`. The expression is printed with the table that already holds
/// the variable.
pub open spec fn c_assign(ch: Option<Seq<Ast>>, t: Table) -> Emit<Table> {
    match ch {
        None => (Seq::empty(), Err(err("expected children"@))),
        Some(v) => if v.len() == 0 {
            (Seq::empty(), Err(index_panic(0)))
        } else if !(v[0] is Tok) {
            (Seq::empty(), Err(explicit_panic()))
        } else if v.len() == 1 {
            (Seq::empty(), Err(index_panic(1)))
        } else if !(v[1] is Tok) {
            (Seq::empty(), Err(explicit_panic()))
        } else {
            match v[0] {
                Ast::Tok(lt, _) => match lt.kind {
                    Kind::Emojis(var) => {
                        let decl = if t_index(t, var) is None { "int "@ } else { Seq::empty() };
                        let (t2, cname) = t_assign(t, var);
                        let pre = decl + cname + " = "@;
                        let (o, r) = c_expr(v[1], t2);
                        match r {
                            Err(e) => (pre + o, Err(e)),
                            Ok(_) => (pre + o + ";\n"@, Ok(t2)),
                        }
                    },
                    _ => (Seq::empty(), Err(explicit_panic())),
                },
                _ => (Seq::empty(), Err(explicit_panic())),
            }
        },
    }
}

/// The condition of a conditional: `e0 op e1`.
pub open spec fn c_condition(ctok: TokenView, cch: Option<Seq<Ast>>, t: Table) -> Emit<()> {
    match cch {
        None => (Seq::empty(), Err(err("expected children of cmp"@))),
        Some(w) => if w.len() == 0 {
            (Seq::empty(), Err(index_panic(0)))
        } else if !(w[0] is Tok) {
            (Seq::empty(), Err(explicit_panic()))
        } else if w.len() == 1 {
            (Seq::empty(), Err(index_panic(1)))
        } else if !(w[1] is Tok) {
            (Seq::empty(), Err(explicit_panic()))
        } else {
            let (o0, r0) = c_expr(w[0], t);
            match r0 {
                Err(e) => (o0, Err(e)),
                Ok(_) => match relation_text(ctok.kind) {
                    None => (o0, Err(err("token not cmp"@))),
                    Some(rel) => {
                        let (o1, r1) = c_expr(w[1], t);
                        (o0 + rel + o1, r1)
                    },
                },
            }
        },
    }
}

/// A conditional: `if (condition) {`, its block, `}`. The variables first
/// met in the block are forgotten after it.
pub open spec fn c_if(ch: Option<Seq<Ast>>, t: Table) -> Emit<Table>
    decreases ch,
{
    let pre = "if ("@;
    match ch {
        None => (pre, Err(err("expected children"@))),
        Some(v) => if v.len() == 0 {
            (pre, Err(index_panic(0)))
        } else if !(v[0] is Tok) {
            (pre, Err(explicit_panic()))
        } else if v.len() == 1 {
            (pre, Err(index_panic(1)))
        } else {
            match v[1] {
                Ast::Stmts(ssq) => match v[0] {
                    Ast::Tok(ctok, cch) => {
                        let (oc, rc) = c_condition(ctok, cch, t);
                        match rc {
                            Err(e) => (pre + oc, Err(e)),
                            Ok(_) => {
                                let pre2 = pre + oc + ") {\n"@;
                                let (o, r) = c_stmts(ssq, t);
                                match r {
                                    Err(e) => (pre2 + o, Err(e)),
                                    Ok(_) => (pre2 + o + "}\n"@, Ok(t)),
                                }
                            },
                        }
                    },
                    _ => (pre, Err(explicit_panic())),
                },
                _ => (pre, Err(explicit_panic())),
            }
        },
    }
}

/// A loop: `while(1){`, its block, `}`. The variables first met in the
/// block are forgotten after it.
pub open spec fn c_loop(ch: Option<Seq<Ast>>, t: Table) -> Emit<Table>
    decreases ch,
{
    let pre = "while(1){\n"@;
    match ch {
        None => (pre, Err(err("expected children"@))),
        Some(v) => if v.len() == 0 {
            (pre, Err(index_panic(0)))
        } else {
            match v[0] {
                Ast::Stmts(ssq) => {
                    let (o, r) = c_stmts(ssq, t);
                    match r {
                        Err(e) => (pre + o, Err(e)),
                        Ok(_) => (pre + o + "}\n"@, Ok(t)),
                    }
                },
                _ => (pre, Err(explicit_panic())),
            }
        },
    }
}

/// A statement.
pub open spec fn c_stmt(a: Ast, t: Table) -> Emit<Table>
    decreases a,
{
    match a {
        Ast::Stmts(_) => (Seq::empty(), Err(err("only ASTnodes in seq"@))),
        Ast::Tok(tok, ch) => match tok.kind {
            Kind::PrintKeyword => c_print(ch, t),
            Kind::Assign => c_assign(ch, t),
            Kind::IfKeyword => c_if(ch, t),
            Kind::LoopKeyword => c_loop(ch, t),
            Kind::BreakKeyword => ("break;\n"@, Ok(t)),
            _ => (Seq::empty(), Err(err("unexpected tokentype in compile_stmt()"@))),
        },
    }
}

/// A sequence of statements; each one sees the variables of those before.
pub open spec fn c_stmts(ss: Seq<Ast>, t: Table) -> Emit<()>
    decreases ss,
{
    if ss.len() == 0 {
        (Seq::empty(), Ok(()))
    } else {
        let (o, r) = c_stmt(ss[0], t);
        match r {
            Err(e) => (o, Err(e)),
            Ok(t2) => after(o, c_stmts(ss.drop_first(), t2)),
        }
    }
}

pub open spec fn opening() -> Seq<char> {
    "#include <stdio.h>\nint main() {\n"@
}

pub open spec fn closing() -> Seq<char> {
    "return 0;\n}"@
}

/// A program: `main` around its statements, starting with no variable.
pub open spec fn compile_spec(a: Ast) -> Emit<()> {
    match a {
        Ast::Stmts(ss) => {
            let (o, r) = c_stmts(ss, Seq::empty());
            match r {
                Err(e) => (opening() + o, Err(e)),
                Ok(_) => (opening() + o + closing(), Ok(())),
            }
        },
        Ast::Tok(_, _) => (Seq::empty(), Err(err("root is always statement seq"@))),
    }
}


// ---------------------------------------------------------------------------
// The variables

/// The variables met so far, in order.
struct SymbolTable {
    table: Vec<String>,
}

impl View for SymbolTable {
    type V = Table;

    closed spec fn view(&self) -> Table {
        self.table@.map_values(|s: String| s@)
    }
}

/// `v<i>`.
fn c_name_of(i: usize) -> (s: String)
    ensures
        s@ == c_name(i as int),
{
    let mut s = String::new();
    push_char(&mut s, 'v');
    push_decimal(&mut s, i as u64);
    assert(s@ =~= c_name(i as int));
    s
}

impl SymbolTable {
    fn new() -> (st: SymbolTable)
        ensures
            st@ == Seq::<Seq<char>>::empty(),
    {
        let st = SymbolTable { table: Vec::new() };
        assert(st@ =~= Seq::<Seq<char>>::empty());
        st
    }

    fn find(&self, k: &String) -> (r: Option<usize>)
        ensures
            match r {
                Some(i) => t_index(self@, k@) == Some(i as int),
                None => t_index(self@, k@) is None,
            },
    {
        let mut i: usize = 0;
        while i < self.table.len()
            invariant
                i <= self.table@.len(),
                index_from(self@, k@, i as int) == t_index(self@, k@),
            decreases self.table@.len() - i,
        {
            if self.table[i] == *k {
                return Some(i);
            }
            i = i + 1;
        }
        None
    }

    /// The C name of a variable; a message naming the variable where it is
    /// not in the table.
    fn get(&self, k: &String) -> (r: Result<String, Failure>)
        ensures
            match t_get(self@, k@) {
                Some(n) => r matches Ok(s) && s@ == n,
                None => r matches Err(f) && f@ == FailureView::Panic(k@ + ", is undefined"@),
            },
    {
        match self.find(k) {
            Some(i) => Ok(c_name_of(i)),
            None => {
                let mut m = k.clone();
                push_str(&mut m, ", is undefined");
                Err(Failure::Panic(m))
            },
        }
    }

    /// Adds a variable met for the first time; the variable's C name.
    fn assign(&mut self, k: String) -> (r: String)
        ensures
            (final(self)@, r@) == t_assign(old(self)@, k@),
    {
        match self.find(&k) {
            None => {
                let new_name = c_name_of(self.table.len());
                let ghost before = self.table@;
                let ghost kv = k@;
                self.table.push(k);
                assert(final(self)@ =~= old(self)@.push(kv));
                new_name
            },
            Some(i) => c_name_of(i),
        }
    }

    fn contains(&self, k: &String) -> (b: bool)
        ensures
            b == (t_index(self@, k@) is Some),
    {
        self.find(k).is_some()
    }

    /// A copy holding the same variables.
    fn copy(&self) -> (st: SymbolTable)
        ensures
            st@ == self@,
    {
        let mut table: Vec<String> = Vec::new();
        let mut i: usize = 0;
        while i < self.table.len()
            invariant
                i <= self.table@.len(),
                table@.len() == i,
                forall|j: int| 0 <= j < i ==> table@[j] == self.table@[j],
            decreases self.table@.len() - i,
        {
            table.push(self.table[i].clone());
            i = i + 1;
        }
        let st = SymbolTable { table: table };
        assert(st@ =~= self@);
        st
    }
}

// ---------------------------------------------------------------------------
// The C text

struct CWriter {
    c_code: String,
}

impl CWriter {
    fn new() -> (w: CWriter)
        ensures
            w.c_code@ == Seq::<char>::empty(),
    {
        CWriter { c_code: String::new() }
    }

    fn nl(&mut self)
        ensures
            final(self).c_code@ == old(self).c_code@.push('\n'),
    {
        push_char(&mut self.c_code, '\n');
    }

    fn write_int(&mut self, i: i32)
        ensures
            final(self).c_code@ == old(self).c_code@ + int_text(i as int),
    {
        push_int(&mut self.c_code, i);
    }

    fn write(&mut self, str: &str)
        ensures
            final(self).c_code@ == old(self).c_code@ + str@,
    {
        push_str(&mut self.c_code, str);
    }

    fn write_String(&mut self, Str: String)
        ensures
            final(self).c_code@ == old(self).c_code@ + Str@,
    {
        push_str(&mut self.c_code, Str.as_str());
    }

    fn write_opening(&mut self)
        ensures
            final(self).c_code@ == old(self).c_code@ + opening(),
    {
        self.write("#include <stdio.h>\nint main() {\n");
    }

    fn write_closing(&mut self)
        ensures
            final(self).c_code@ == old(self).c_code@ + closing(),
    {
        self.write("return 0;\n}");
    }
}

// ---------------------------------------------------------------------------
// The compiler

/// The outcome that a failure or success stands for.
pub open spec fn unit_outcome(r: Result<(), Failure>) -> Result<(), FailureView> {
    match r {
        Ok(_) => Ok(()),
        Err(f) => Err(f@),
    }
}

/// Prints syntax trees as C programs.
pub struct Compiler {
    cw: CWriter,
}

fn explicit_panic_failure() -> (f: Failure)
    ensures
        f@ == explicit_panic(),
{
    Failure::Panic(string_of("explicit panic"))
}

fn index_panic_failure(n: u64) -> (f: Failure)
    ensures
        f@ == index_panic(n as nat),
{
    let mut s = string_of("index out of bounds: the len is ");
    push_decimal(&mut s, n);
    push_str(&mut s, " but the index is ");
    push_decimal(&mut s, n);
    assert(s@ =~= "index out of bounds: the len is "@ + decimal(n as nat) + " but the index is "@ + decimal(n as nat));
    Failure::Panic(s)
}

fn error_failure(msg: &str) -> (f: Failure)
    ensures
        f@ == err(msg@),
{
    Failure::Error(string_of(msg))
}

impl Compiler {
    /// All the C text written so far.
    pub closed spec fn text(&self) -> Seq<char> {
        self.cw.c_code@
    }

    pub fn new() -> (c: Compiler)
        ensures
            c.text() == Seq::<char>::empty(),
    {
        Compiler { cw: CWriter::new() }
    }

    fn compile_expr(&mut self, cur_token: &ASTtoken, st: &SymbolTable) -> (r: Result<(), Failure>)
        ensures
            ({
                let e = c_expr(ast_of(ASTnode::Node(*cur_token)), st@);
                final(self).text() == old(self).text() + e.0 && unit_outcome(r) == e.1
            }),
        decreases cur_token, 1nat,
    {
        let ghost a = ast_of(ASTnode::Node(*cur_token));
        let ghost before = self.text();
        match &cur_token.token.token_type {
            TokenType::Int(i) => {
                self.cw.write_int(*i);
                return Ok(());
            },
            TokenType::Emojis(s) => {
                match st.get(s) {
                    Ok(name) => {
                        self.cw.write_String(name);
                        return Ok(());
                    },
                    Err(f) => {
                        assert(self.text() =~= before + Seq::<char>::empty());
                        return Err(f);
                    },
                }
            },
            TokenType::Subtract => {},
            TokenType::Add => {},
            TokenType::Multiply => {},
            TokenType::Divide => {},
            _ => {
                assert(self.text() =~= before + Seq::<char>::empty());
                return Err(error_failure("unexpected tokentype"));
            },
        }
        self.compile_composite(cur_token, st)
    }

    /// A negation or an operation.
    #[verifier::spinoff_prover]
    #[verifier::rlimit(80)]
    fn compile_composite(&mut self, cur_token: &ASTtoken, st: &SymbolTable) -> (r: Result<(), Failure>)
        requires
            cur_token.token.token_type@ is Subtract || cur_token.token.token_type@ is Add
                || cur_token.token.token_type@ is Multiply || cur_token.token.token_type@ is Divide,
        ensures
            ({
                let e = c_expr(ast_of(ASTnode::Node(*cur_token)), st@);
                final(self).text() == old(self).text() + e.0 && unit_outcome(r) == e.1
            }),
        decreases cur_token, 0nat,
    {
        let ghost before = self.text();
        let is_sub = matches!(cur_token.token.token_type, TokenType::Subtract);
        let v = match &cur_token.children {
            None => {
                assert(self.text() =~= before + Seq::<char>::empty());
                return Err(if is_sub {
                    error_failure("no children found")
                } else {
                    error_failure("expected two children")
                });
            },
            Some(v) => v,
        };
        proof {
            lemma_asts_index(v@);
        }
        if is_sub && v.len() == 1 {
            match &v[0] {
                ASTnode::Node(t0) => {
                    self.cw.write("-(");
                    let ghost mid = self.text();
                    match self.compile_expr(t0, st) {
                        Err(e) => {
                            assert(self.text() =~= before + ("-("@ + (self.text().subrange(mid.len() as int, self.text().len() as int))));
                            return Err(e);
                        },
                        Ok(_) => {},
                    }
                    self.cw.write(")");
                    assert(self.text() =~= before + ("-("@ + c_expr(ast_of(v@[0]), st@).0 + ")"@));
                    return Ok(());
                },
                _ => {
                    assert(self.text() =~= before + Seq::<char>::empty());
                    return Err(explicit_panic_failure());
                },
            }
        }
        if is_sub && v.len() != 2 {
            assert(self.text() =~= before + Seq::<char>::empty());
            return Err(explicit_panic_failure());
        }
        if v.len() == 0 {
            assert(self.text() =~= before + Seq::<char>::empty());
            return Err(index_panic_failure(0));
        }
        let t0 = match &v[0] {
            ASTnode::Node(t0) => t0,
            _ => {
                assert(self.text() =~= before + Seq::<char>::empty());
                return Err(explicit_panic_failure());
            },
        };
        if v.len() == 1 {
            assert(self.text() =~= before + Seq::<char>::empty());
            return Err(index_panic_failure(1));
        }
        let t1 = match &v[1] {
            ASTnode::Node(t1) => t1,
            _ => {
                assert(self.text() =~= before + Seq::<char>::empty());
                return Err(explicit_panic_failure());
            },
        };
        let op: &str = match &cur_token.token.token_type {
            TokenType::Add => "+",
            TokenType::Multiply => "*",
            TokenType::Subtract => "-",
            _ => "/",
        };
        let ghost op_text = op@;
        assert(op_text == (if is_sub { "-"@ } else { operator_text(cur_token.token.token_type@) }));
        let ghost e0 = c_expr(ast_of(v@[0]), st@);
        let ghost e1 = c_expr(ast_of(v@[1]), st@);
        self.cw.write("(");
        match self.compile_expr(t0, st) {
            Err(e) => {
                assert(self.text() =~= before + ("("@ + e0.0));
                return Err(e);
            },
            Ok(_) => {},
        }
        self.cw.write(")");
        self.cw.write(op);
        self.cw.write("(");
        match self.compile_expr(t1, st) {
            Err(e) => {
                assert(self.text() =~= before + ("("@ + e0.0 + ")"@ + op_text + "("@ + e1.0));
                return Err(e);
            },
            Ok(_) => {},
        }
        self.cw.write(")");
        assert(self.text() =~= before + ("("@ + e0.0 + ")"@ + op_text + "("@ + e1.0 + ")"@));
        Ok(())
    }
}


/// The outcome that a failure or a table stands for.
spec fn table_outcome(r: Result<SymbolTable, Failure>) -> Result<Table, FailureView> {
    match r {
        Ok(st) => Ok(st@),
        Err(f) => Err(f@),
    }
}

impl Compiler {
    fn compile_print(&mut self, cur_token: &ASTtoken, st: SymbolTable) -> (r: Result<SymbolTable, Failure>)
        ensures
            ({
                let e = c_print(children_of(cur_token.children), st@);
                final(self).text() == old(self).text() + e.0 && table_outcome(r) == e.1
            }),
    {
        let ghost before = self.text();
        let ghost pre = "printf(\"%d\\n\", "@;
        self.cw.write("printf(\"%d\\n\", ");
        let c = match &cur_token.children {
            None => return Err(error_failure("print should have child")),
            Some(v) => v,
        };
        proof {
            lemma_asts_index(c@);
        }
        if c.len() == 0 {
            return Err(index_panic_failure(0));
        }
        let expr_token = match &c[0] {
            ASTnode::Node(t) => t,
            _ => return Err(error_failure("child of print must be ASTtoken")),
        };
        let ghost e = c_expr(ast_of(c@[0]), st@);
        match self.compile_expr(expr_token, &st) {
            Err(f) => {
                assert(self.text() =~= before + (pre + e.0));
                return Err(f);
            },
            Ok(_) => {},
        }
        self.cw.write(");\n");
        assert(self.text() =~= before + (pre + e.0 + ");\n"@));
        Ok(st)
    }

    fn compile_assign(&mut self, cur_token: &ASTtoken, st: SymbolTable) -> (r: Result<SymbolTable, Failure>)
        ensures
            ({
                let e = c_assign(children_of(cur_token.children), st@);
                final(self).text() == old(self).text() + e.0 && table_outcome(r) == e.1
            }),
    {
        let ghost before = self.text();
        let mut st = st;
        let ghost t = st@;
        let v = match &cur_token.children {
            None => {
                assert(self.text() =~= before + Seq::<char>::empty());
                return Err(error_failure("expected children"));
            },
            Some(v) => v,
        };
        proof {
            lemma_asts_index(v@);
        }
        assert(self.text() =~= before + Seq::<char>::empty());
        if v.len() == 0 {
            return Err(index_panic_failure(0));
        }
        let lc = match &v[0] {
            ASTnode::Node(t0) => t0,
            _ => return Err(explicit_panic_failure()),
        };
        if v.len() == 1 {
            return Err(index_panic_failure(1));
        }
        let rc = match &v[1] {
            ASTnode::Node(t1) => t1,
            _ => return Err(explicit_panic_failure()),
        };
        let var = match &lc.token.token_type {
            TokenType::Emojis(s) => s.clone(),
            _ => return Err(explicit_panic_failure()),
        };
        let is_new = !st.contains(&var);
        if is_new {
            self.cw.write("int ");
        }
        let ghost decl = if is_new { "int "@ } else { Seq::<char>::empty() };
        assert(self.text() =~= before + decl);
        let var_in_c = st.assign(var);
        self.cw.write_String(var_in_c);
        self.cw.write(" = ");
        let ghost pre = decl + var_in_c@ + " = "@;
        let ghost e = c_expr(ast_of(v@[1]), st@);
        match self.compile_expr(rc, &st) {
            Err(f) => {
                assert(self.text() =~= before + (pre + e.0));
                return Err(f);
            },
            Ok(_) => {},
        }
        self.cw.write(";\n");
        assert(self.text() =~= before + (pre + e.0 + ";\n"@));
        Ok(st)
    }

    fn compile_break(&mut self, st: SymbolTable) -> (r: Result<SymbolTable, Failure>)
        ensures
            final(self).text() == old(self).text() + "break;\n"@,
            r matches Ok(s) && s@ == st@,
    {
        self.cw.write("break;\n");
        Ok(st)
    }

    /// The condition of a conditional.
    fn compile_condition(&mut self, relation: &ASTtoken, st: &SymbolTable) -> (r: Result<(), Failure>)
        ensures
            ({
                let e = c_condition(relation.token@, children_of(relation.children), st@);
                final(self).text() == old(self).text() + e.0 && unit_outcome(r) == e.1
            }),
    {
        let ghost before = self.text();
        assert(self.text() =~= before + Seq::<char>::empty());
        let w = match &relation.children {
            None => return Err(error_failure("expected children of cmp")),
            Some(w) => w,
        };
        proof {
            lemma_asts_index(w@);
        }
        if w.len() == 0 {
            return Err(index_panic_failure(0));
        }
        let expr0 = match &w[0] {
            ASTnode::Node(t) => t,
            _ => return Err(explicit_panic_failure()),
        };
        if w.len() == 1 {
            return Err(index_panic_failure(1));
        }
        let expr1 = match &w[1] {
            ASTnode::Node(t) => t,
            _ => return Err(explicit_panic_failure()),
        };
        let ghost e0 = c_expr(ast_of(w@[0]), st@);
        let ghost e1 = c_expr(ast_of(w@[1]), st@);
        match self.compile_expr(expr0, st) {
            Err(f) => return Err(f),
            Ok(_) => {},
        }
        let relation_str: &str = match &relation.token.token_type {
            TokenType::EQ => "==",
            TokenType::NEQ => "!=",
            TokenType::GT => ">",
            TokenType::LT => "<",
            TokenType::GEQ => ">=",
            TokenType::LEQ => "<=",
            _ => return Err(error_failure("token not cmp")),
        };
        assert(relation_text(relation.token@.kind) == Some(relation_str@));
        self.cw.write(relation_str);
        let r = self.compile_expr(expr1, st);
        assert(self.text() =~= before + (e0.0 + relation_str@ + e1.0));
        r
    }
}


impl Compiler {
    fn compile_loop(&mut self, cur_token: &ASTtoken, st: SymbolTable) -> (r: Result<SymbolTable, Failure>)
        ensures
            ({
                let e = c_loop(children_of(cur_token.children), st@);
                final(self).text() == old(self).text() + e.0 && table_outcome(r) == e.1
            }),
        decreases cur_token, 0nat,
    {
        let ghost before = self.text();
        let ghost pre = "while(1){\n"@;
        self.cw.write("while(1){\n");
        let v = match &cur_token.children {
            None => return Err(error_failure("expected children")),
            Some(v) => v,
        };
        proof {
            lemma_asts_index(v@);
        }
        if v.len() == 0 {
            return Err(index_panic_failure(0));
        }
        let stmt_seq = match &v[0] {
            ASTnode::StatementSeq(ssq) => ssq,
            _ => return Err(explicit_panic_failure()),
        };
        let ghost e = c_stmts(asts_of(stmt_seq@), st@);
        match self.compile_stmts(stmt_seq, st.copy()) {
            Err(f) => {
                assert(self.text() =~= before + (pre + e.0));
                return Err(f);
            },
            Ok(_) => {},
        }
        self.cw.write("}\n");
        assert(self.text() =~= before + (pre + e.0 + "}\n"@));
        Ok(st)
    }

    fn compile_if(&mut self, cur_token: &ASTtoken, st: SymbolTable) -> (r: Result<SymbolTable, Failure>)
        ensures
            ({
                let e = c_if(children_of(cur_token.children), st@);
                final(self).text() == old(self).text() + e.0 && table_outcome(r) == e.1
            }),
        decreases cur_token, 0nat,
    {
        let ghost before = self.text();
        let ghost pre = "if ("@;
        self.cw.write("if (");
        let v = match &cur_token.children {
            None => return Err(error_failure("expected children")),
            Some(v) => v,
        };
        proof {
            lemma_asts_index(v@);
        }
        if v.len() == 0 {
            return Err(index_panic_failure(0));
        }
        let relation = match &v[0] {
            ASTnode::Node(t) => t,
            _ => return Err(explicit_panic_failure()),
        };
        if v.len() == 1 {
            return Err(index_panic_failure(1));
        }
        let stmt_seq = match &v[1] {
            ASTnode::StatementSeq(ssq) => ssq,
            _ => return Err(explicit_panic_failure()),
        };
        let ghost ec = c_condition(relation.token@, children_of(relation.children), st@);
        match self.compile_condition(relation, &st) {
            Err(f) => {
                assert(self.text() =~= before + (pre + ec.0));
                return Err(f);
            },
            Ok(_) => {},
        }
        self.cw.write(") {\n");
        let ghost pre2 = pre + ec.0 + ") {\n"@;
        let ghost e = c_stmts(asts_of(stmt_seq@), st@);
        match self.compile_stmts(stmt_seq, st.copy()) {
            Err(f) => {
                assert(self.text() =~= before + (pre2 + e.0));
                return Err(f);
            },
            Ok(_) => {},
        }
        self.cw.write("}\n");
        assert(self.text() =~= before + (pre2 + e.0 + "}\n"@));
        Ok(st)
    }

    fn compile_stmt(&mut self, stmt: &ASTnode, st: SymbolTable) -> (r: Result<SymbolTable, Failure>)
        ensures
            ({
                let e = c_stmt(ast_of(*stmt), st@);
                final(self).text() == old(self).text() + e.0 && table_outcome(r) == e.1
            }),
        decreases stmt, 1nat,
    {
        let ghost before = self.text();
        let ast_token = match stmt {
            ASTnode::StatementSeq(_) => {
                assert(self.text() =~= before + Seq::<char>::empty());
                return Err(error_failure("only ASTnodes in seq"));
            },
            ASTnode::Node(t) => t,
        };
        match &ast_token.token.token_type {
            TokenType::PrintKeyword => self.compile_print(ast_token, st),
            TokenType::Assign => self.compile_assign(ast_token, st),
            TokenType::IfKeyword => self.compile_if(ast_token, st),
            TokenType::LoopKeyword => self.compile_loop(ast_token, st),
            TokenType::BreakKeyword => self.compile_break(st),
            _ => {
                assert(self.text() =~= before + Seq::<char>::empty());
                Err(error_failure("unexpected tokentype in compile_stmt()"))
            },
        }
    }

    fn compile_stmts(&mut self, stmts: &Vec<ASTnode>, table: SymbolTable) -> (r: Result<(), Failure>)
        ensures
            ({
                let e = c_stmts(asts_of(stmts@), table@);
                final(self).text() == old(self).text() + e.0 && unit_outcome(r) == e.1
            }),
        decreases stmts, 2nat,
    {
        let ghost before = self.text();
        let ghost ss = asts_of(stmts@);
        let ghost goal = c_stmts(ss, table@);
        proof {
            lemma_asts_index(stmts@);
            assert(ss.subrange(0, ss.len() as int) =~= ss);
        }
        let mut st = table;
        let mut i: usize = 0;
        while i < stmts.len()
            invariant
                i <= stmts@.len(),
                ss == asts_of(stmts@),
                ss.len() == stmts@.len(),
                forall|k: int| 0 <= k < stmts@.len() ==> #[trigger] ss[k] == ast_of(stmts@[k]),
                goal == c_stmts(ss, table@),
                before == old(self).text(),
                self.text().len() >= before.len(),
                after(self.text().subrange(before.len() as int, self.text().len() as int), c_stmts(ss.subrange(i as int, ss.len() as int), st@)) == goal,
                self.text() =~= before + self.text().subrange(before.len() as int, self.text().len() as int),
            decreases stmts@.len() - i,
        {
            let ghost sub = ss.subrange(i as int, ss.len() as int);
            let ghost written = self.text().subrange(before.len() as int, self.text().len() as int);
            let ghost e = c_stmt(ss[i as int], st@);
            assert(sub[0] == ss[i as int]);
            match self.compile_stmt(&stmts[i], st) {
                Err(f) => {
                    assert(self.text() =~= before + (written + e.0));
                    return Err(f);
                },
                Ok(st2) => {
                    st = st2;
                },
            }
            assert(sub.drop_first() =~= ss.subrange(i + 1, ss.len() as int));
            i = i + 1;
            assert(self.text().subrange(before.len() as int, self.text().len() as int) =~= written + e.0);
        }
        assert(ss.subrange(i as int, ss.len() as int).len() == 0);
        assert(self.text() =~= before + self.text().subrange(before.len() as int, self.text().len() as int));
        assert(self.text().subrange(before.len() as int, self.text().len() as int) + Seq::<char>::empty() =~= self.text().subrange(before.len() as int, self.text().len() as int));
        Ok(())
    }

    /// The C program of a syntax tree (all the C text written so far, where
    /// this compiler has compiled another tree before); or why there is
    /// none, where the compiler gives up too.
    pub fn try_compile(&mut self, root: ASTnode) -> (r: Result<String, Failure>)
        ensures
            final(self).text() == old(self).text() + compile_spec(root@).0,
            match (r, compile_spec(root@).1) {
                (Ok(s), Ok(_)) => s@ == final(self).text(),
                (Err(f), Err(e)) => f@ == e,
                _ => false,
            },
    {
        let ghost before = self.text();
        let stmts = match root {
            ASTnode::StatementSeq(v) => v,
            ASTnode::Node(_) => {
                assert(self.text() =~= before + Seq::<char>::empty());
                return Err(error_failure("root is always statement seq"));
            },
        };
        self.cw.write_opening();
        let st = SymbolTable::new();
        let ghost e = c_stmts(asts_of(stmts@), Seq::empty());
        match self.compile_stmts(&stmts, st) {
            Err(f) => {
                assert(self.text() =~= before + (opening() + e.0));
                return Err(f);
            },
            Ok(_) => {},
        }
        self.cw.write_closing();
        assert(self.text() =~= before + (opening() + e.0 + closing()));
        Ok(self.cw.c_code.clone())
    }

    /// The C program of a syntax tree, or the message of the error that
    /// stops the compiler. Not for trees on which the compiler gives up (see
    /// [`Compiler::try_compile`]).
    pub fn compile(&mut self, root: ASTnode) -> (r: Result<String, String>)
        requires
            !(compile_spec(root@).1 matches Err(FailureView::Panic(_))),
        ensures
            final(self).text() == old(self).text() + compile_spec(root@).0,
            match (r, compile_spec(root@).1) {
                (Ok(s), Ok(_)) => s@ == final(self).text(),
                (Err(m), Err(FailureView::Error(e))) => m@ == e,
                _ => false,
            },
    {
        match self.try_compile(root) {
            Ok(s) => Ok(s),
            Err(Failure::Error(m)) => Err(m),
            Err(Failure::Panic(_)) => Err(String::new()),
        }
    }
}


// ---------------------------------------------------------------------------
// Laws

proof fn lemma_index_from(t: Table, k: Seq<char>, i: int)
    requires
        0 <= i,
    ensures
        index_from(t, k, i) matches Some(j) ==> i <= j < t.len() && t[j] == k && forall|l: int| i <= l < j ==> t[l] != k,
        index_from(t, k, i) is None ==> forall|l: int| i <= l < t.len() ==> t[l] != k,
    decreases t.len() - i,
{
    if 0 <= i < t.len() && t[i] != k {
        lemma_index_from(t, k, i + 1);
    }
}

/// After an assignment to a variable, its C name is the one the assignment
/// gave.
pub proof fn law_assign_then_get(t: Table, k: Seq<char>)
    ensures
        t_get(t_assign(t, k).0, k) == Some(t_assign(t, k).1),
{
    lemma_index_from(t, k, 0);
    let t2 = t.push(k);
    lemma_index_from(t2, k, 0);
    if t_index(t, k) is None {
        if let Some(j) = t_index(t2, k) {
            assert(j == t.len()) by {
                if j < t.len() {
                    assert(t2[j] == t[j]);
                }
            }
        }
        assert(t2[t.len() as int] == k);
    }
}

/// Assigning to a variable again keeps the table and the variable's C name.
pub proof fn law_assign_again(t: Table, k: Seq<char>)
    ensures
        t_assign(t_assign(t, k).0, k) == t_assign(t, k),
{
    law_assign_then_get(t, k);
}

/// A variable met for the first time is named after the number of variables
/// met before it.
pub proof fn law_new_variable_name(t: Table, k: Seq<char>)
    requires
        t_get(t, k) is None,
    ensures
        t_assign(t, k) == (t.push(k), c_name(t.len() as int)),
{
}

/// Different variables of a table have different C names.
pub proof fn law_names_distinct(t: Table, k1: Seq<char>, k2: Seq<char>)
    requires
        t_get(t, k1) is Some,
        t_get(t, k1) == t_get(t, k2),
    ensures
        k1 == k2,
{
    lemma_index_from(t, k1, 0);
    lemma_index_from(t, k2, 0);
    let i = t_index(t, k1).unwrap();
    let j = t_index(t, k2).unwrap();
    assert(c_name(i) == c_name(j));
    assert(decimal(i as nat) =~= c_name(i).drop_first());
    assert(decimal(j as nat) =~= c_name(j).drop_first());
    law_decimal_injective(i as nat, j as nat);
}

/// A compiled program is `main` around the text of its statements.
pub proof fn law_program_frame(a: Ast)
    ensures
        compile_spec(a).1 is Ok ==> exists|body: Seq<char>| compile_spec(a).0 == opening() + body + closing(),
{
    if let Ast::Stmts(ss) = a {
        let (o, r) = c_stmts(ss, Seq::empty());
        if r is Ok {
            assert(compile_spec(a).0 == opening() + o + closing());
        }
    }
}

/// An expression tree that prints: an integer, a variable that the table
/// holds, '➖' over one expression (a negation) or two, or '➕', '❎', '➗'
/// over two.
pub open spec fn expr_ok(a: Ast, t: Table) -> bool
    decreases a,
{
    match a {
        Ast::Stmts(_) => false,
        Ast::Tok(tok, ch) => match tok.kind {
            Kind::Int(_) => true,
            Kind::Emojis(s) => t_get(t, s) is Some,
            Kind::Subtract => match ch {
                Some(v) => if v.len() == 1 {
                    expr_ok(v[0], t)
                } else if v.len() == 2 {
                    expr_ok(v[0], t) && expr_ok(v[1], t)
                } else {
                    false
                },
                None => false,
            },
            Kind::Add | Kind::Multiply | Kind::Divide => match ch {
                Some(v) => v.len() == 2 && expr_ok(v[0], t) && expr_ok(v[1], t),
                None => false,
            },
            _ => false,
        },
    }
}

/// The C text of an expression tree with exactly its operator tree: an
/// integer in decimal, a variable by its C name, a negation as `-(e)`, and
/// an operation as `(a)op(b)`, where '➕' is `+`, '➖' is `-`, '❎' is `*` and
/// '➗' is `/`.
pub open spec fn expr_text(a: Ast, t: Table) -> Seq<char>
    decreases a,
{
    match a {
        Ast::Stmts(_) => Seq::empty(),
        Ast::Tok(tok, ch) => match tok.kind {
            Kind::Int(i) => int_text(i as int),
            Kind::Emojis(s) => match t_get(t, s) {
                Some(n) => n,
                None => Seq::empty(),
            },
            Kind::Subtract => match ch {
                Some(v) => if v.len() == 1 {
                    "-("@ + expr_text(v[0], t) + ")"@
                } else if v.len() == 2 {
                    "("@ + expr_text(v[0], t) + ")"@ + "-"@ + "("@ + expr_text(v[1], t) + ")"@
                } else {
                    Seq::empty()
                },
                None => Seq::empty(),
            },
            Kind::Add | Kind::Multiply | Kind::Divide => match ch {
                Some(v) => if v.len() == 2 {
                    "("@ + expr_text(v[0], t) + ")"@ + match tok.kind {
                        Kind::Add => "+"@,
                        Kind::Multiply => "*"@,
                        _ => "/"@,
                    } + "("@ + expr_text(v[1], t) + ")"@
                } else {
                    Seq::empty()
                },
                None => Seq::empty(),
            },
            _ => Seq::empty(),
        },
    }
}

/// Every well-formed expression tree prints and succeeds, and what it
/// prints is a C expression with exactly the tree's operators, each operand
/// in parentheses, and each variable by its C name.
pub proof fn law_expression_prints(a: Ast, t: Table)
    requires
        expr_ok(a, t),
    ensures
        c_expr(a, t) == (expr_text(a, t), Ok::<(), FailureView>(())),
    decreases a,
{
    if let Ast::Tok(tok, ch) = a {
        if let Some(v) = ch {
            if v.len() >= 1 && (tok.kind is Subtract || tok.kind is Add || tok.kind is Multiply || tok.kind is Divide) {
                law_expression_prints(v[0], t);
                if v.len() == 2 {
                    law_expression_prints(v[1], t);
                }
            }
        }
    }
}

/// A comparison over two well-formed expressions prints the first
/// expression, the C operator of the comparison, and the second: '👉👈' is
/// `==`, '👎👈' is `!=`, '🐊' is `>`, '🐰' is `<`, '👎🐰' (not less) is `>=`
/// and '👎🐊' (not greater) is `<=`. So different comparisons print
/// different operators.
pub proof fn law_condition_prints(ctok: TokenView, a: Ast, b: Ast, t: Table)
    requires
        expr_ok(a, t),
        expr_ok(b, t),
        ctok.kind is EQ || ctok.kind is NEQ || ctok.kind is GT || ctok.kind is LT || ctok.kind is GEQ || ctok.kind is LEQ,
    ensures
        c_condition(ctok, Some(seq![a, b]), t) == (
            expr_text(a, t) + match ctok.kind {
                Kind::EQ => "=="@,
                Kind::NEQ => "!="@,
                Kind::GT => ">"@,
                Kind::LT => "<"@,
                Kind::GEQ => ">="@,
                _ => "<="@,
            } + expr_text(b, t),
            Ok::<(), FailureView>(()),
        ),
{
    law_expression_prints(a, t);
    law_expression_prints(b, t);
    let w = seq![a, b];
    assert(w[0] == a && w[1] == b && w.len() == 2);
}

} // verus!
