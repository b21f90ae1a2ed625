use pajson::compiler::Compiler;
use pajson::parser::{ASTnode, ASTtoken, Parser};
use pajson::text::Failure;
use pajson::tokenizer::{Token, TokenType, Tokenizer};

fn tokens_of(src: &str) -> Result<Vec<Token>, Failure> {
    let mut t = Tokenizer::new(src.chars().collect());
    t.try_tokenize()
}

fn error_of(src: &str) -> String {
    match tokens_of(src) {
        Err(Failure::Error(m)) => m,
        _ => panic!("expected an error"),
    }
}

fn parse_failure(src: &str) -> String {
    let toks = tokens_of(src).ok().unwrap();
    match Parser::new(toks).try_parse() {
        Err(Failure::Panic(m)) => m,
        _ => panic!("expected the parser to give up"),
    }
}

/// One token of kind `kind`, read from a small program.
fn token(src: &str, index: usize) -> Token {
    tokens_of(src).ok().unwrap().remove(index)
}

fn leaf(t: Token) -> ASTnode {
    ASTnode::Node(ASTtoken { token: t, children: None })
}

fn compile_failure(root: ASTnode) -> Failure {
    match Compiler::new().try_compile(root) {
        Err(f) => f,
        Ok(_) => panic!("expected a failure"),
    }
}

#[test]
fn unclosed_parenthesis() {
    assert_eq!(error_of("😘👈✋🕐"), "expected '🤚' at 1:5>");
}

#[test]
fn print_needs_its_hand() {
    assert_eq!(error_of("💬🕐"), "expected '✋' at 1:3>");
}

#[test]
fn comparison_is_required() {
    assert_eq!(error_of("👀🕐🕑🫳\n🫴"), "expected cmp at 1:4>");
}

#[test]
fn negated_comparison_needs_its_second_half() {
    assert_eq!(error_of("👀🕐👎🕑🫳\n🫴"), "expected '🐰'|'🐊'|'👈' at 1:4>");
}

#[test]
fn statement_must_start_with_identifier() {
    assert_eq!(error_of("🤚"), "expected identifier at 1:1>");
}

#[test]
fn loop_must_be_closed() {
    assert_eq!(error_of("🔄🫳\n🔚\n"), "expected '🫴' at 3:0>");
}

#[test]
fn space_after_comment_line_gives_up() {
    assert!(matches!(tokens_of("💬 🙈x\n   "), Err(Failure::Panic(_))));
}

#[test]
fn comment_after_code_is_not_an_end_of_line() {
    assert_eq!(error_of("😘👈🕐 🙈 one\n💬✋😘🤚"), "expected eol, instead found at 💬");
}

#[test]
fn parser_gives_up_on_unsplittable_expression() {
    let mut toks = tokens_of("💬✋🕐➕🕑🤚").ok().unwrap();
    toks.remove(3);
    match Parser::new(toks).try_parse() {
        Err(Failure::Panic(m)) => assert_eq!(m, "not finsished! bajs"),
        _ => panic!("expected the parser to give up"),
    }
}

#[test]
fn parser_gives_up_on_statement_that_is_an_integer() {
    let toks: Vec<Token> = tokens_of("😘👈🕐\n").ok().unwrap().into_iter().skip(2).collect();
    match Parser::new(toks).try_parse() {
        Err(Failure::Panic(m)) => assert_eq!(m, "arm not complete"),
        _ => panic!("expected the parser to give up"),
    }
}

#[test]
fn tokenizer_refuses_a_statement_that_is_an_integer() {
    assert_eq!(error_of("🕐\n"), "expected identifier at 1:1>");
}

#[test]
fn parser_gives_up_on_missing_tokens() {
    let first = token("😘👈🕐", 0);
    match Parser::new(vec![first]).try_parse() {
        Err(Failure::Panic(m)) => assert_eq!(m, "should not be empty"),
        _ => panic!("expected the parser to give up"),
    }
}

#[test]
fn assignment_in_a_block_stays_set_for_the_parser() {
    let toks = tokens_of("👀🕐🐊🕑🫳\n😘👈🕐\n🫴\n💬✋😘🤚\n").ok().unwrap();
    assert!(Parser::new(toks).try_parse().is_ok());
}

#[test]
fn variable_cannot_read_itself_when_first_set() {
    assert_eq!(parse_failure("😘👈😘"), "\"😘\" is undefined at: 1:4>");
}

#[test]
fn root_must_be_a_sequence() {
    let f = compile_failure(leaf(token("🔚", 0)));
    assert!(matches!(f, Failure::Error(ref m) if m == "root is always statement seq"));
}

#[test]
fn sequence_inside_sequence_is_refused() {
    let f = compile_failure(ASTnode::StatementSeq(vec![ASTnode::StatementSeq(vec![])]));
    assert!(matches!(f, Failure::Error(ref m) if m == "only ASTnodes in seq"));
}

#[test]
fn statement_of_unknown_kind_is_refused() {
    let f = compile_failure(ASTnode::StatementSeq(vec![leaf(token("🔚", 1))]));
    assert!(matches!(f, Failure::Error(ref m) if m == "unexpected tokentype in compile_stmt()"));
}

#[test]
fn print_without_child_is_refused() {
    let f = compile_failure(ASTnode::StatementSeq(vec![leaf(token("💬✋🕐🤚", 0))]));
    assert!(matches!(f, Failure::Error(ref m) if m == "print should have child"));
}

#[test]
fn print_of_a_sequence_is_refused() {
    let print = ASTtoken { token: token("💬✋🕐🤚", 0), children: Some(vec![ASTnode::StatementSeq(vec![])]) };
    let f = compile_failure(ASTnode::StatementSeq(vec![ASTnode::Node(print)]));
    assert!(matches!(f, Failure::Error(ref m) if m == "child of print must be ASTtoken"));
}

#[test]
fn assignment_without_children_is_refused() {
    let f = compile_failure(ASTnode::StatementSeq(vec![leaf(token("😘👈🕐", 1))]));
    assert!(matches!(f, Failure::Error(ref m) if m == "expected children"));
}

#[test]
fn expression_of_unknown_kind_is_refused() {
    let print = ASTtoken { token: token("💬✋🕐🤚", 0), children: Some(vec![leaf(token("💬✋🕐🤚", 1))]) };
    let f = compile_failure(ASTnode::StatementSeq(vec![ASTnode::Node(print)]));
    assert!(matches!(f, Failure::Error(ref m) if m == "unexpected tokentype"));
}

#[test]
fn operation_without_children_is_refused() {
    let print = ASTtoken { token: token("💬✋🕐🤚", 0), children: Some(vec![leaf(token("😘👈🕐➕🕐", 3))]) };
    let f = compile_failure(ASTnode::StatementSeq(vec![ASTnode::Node(print)]));
    assert!(matches!(f, Failure::Error(ref m) if m == "expected two children"));
}

#[test]
fn negation_without_children_is_refused() {
    let print = ASTtoken { token: token("💬✋🕐🤚", 0), children: Some(vec![leaf(token("😘👈➖🕐", 2))]) };
    let f = compile_failure(ASTnode::StatementSeq(vec![ASTnode::Node(print)]));
    assert!(matches!(f, Failure::Error(ref m) if m == "no children found"));
}

#[test]
fn operation_with_one_child_gives_up() {
    let plus = ASTtoken { token: token("😘👈🕐➕🕐", 3), children: Some(vec![leaf(token("😘👈🕐", 2))]) };
    let print = ASTtoken { token: token("💬✋🕐🤚", 0), children: Some(vec![ASTnode::Node(plus)]) };
    let f = compile_failure(ASTnode::StatementSeq(vec![ASTnode::Node(print)]));
    assert!(matches!(f, Failure::Panic(ref m) if m == "index out of bounds: the len is 1 but the index is 1"));
}

#[test]
fn condition_without_children_is_refused() {
    let relation = ASTtoken { token: token("👀🕐🐊🕐🫳\n🔚\n🫴", 2), children: None };
    let cond = ASTtoken {
        token: token("👀🕐🐊🕐🫳\n🔚\n🫴", 0),
        children: Some(vec![ASTnode::Node(relation), ASTnode::StatementSeq(vec![])]),
    };
    let f = compile_failure(ASTnode::StatementSeq(vec![ASTnode::Node(cond)]));
    assert!(matches!(f, Failure::Error(ref m) if m == "expected children of cmp"));
}

#[test]
fn condition_needs_a_comparison() {
    let one = || leaf(token("😘👈🕐", 2));
    let relation = ASTtoken { token: token("😘👈🕐➕🕐", 3), children: Some(vec![one(), one()]) };
    let cond = ASTtoken {
        token: token("👀🕐🐊🕐🫳\n🔚\n🫴", 0),
        children: Some(vec![ASTnode::Node(relation), ASTnode::StatementSeq(vec![])]),
    };
    let f = compile_failure(ASTnode::StatementSeq(vec![ASTnode::Node(cond)]));
    assert!(matches!(f, Failure::Error(ref m) if m == "token not cmp"));
}

#[test]
fn loop_without_children_is_refused() {
    let f = compile_failure(ASTnode::StatementSeq(vec![leaf(token("🔄🫳\n🔚\n🫴", 0))]));
    assert!(matches!(f, Failure::Error(ref m) if m == "expected children"));
}

#[test]
fn compile_reports_token_types_of_statements() {
    let toks = tokens_of("😘👈🕐\n").ok().unwrap();
    assert_eq!(toks.last().unwrap().token_type, TokenType::EOL);
}

#[test]
fn operation_with_no_children_gives_up() {
    let plus = ASTtoken { token: token("😘👈🕐➕🕐", 3), children: Some(vec![]) };
    let print = ASTtoken { token: token("💬✋🕐🤚", 0), children: Some(vec![ASTnode::Node(plus)]) };
    let f = compile_failure(ASTnode::StatementSeq(vec![ASTnode::Node(print)]));
    assert!(matches!(f, Failure::Panic(ref m) if m == "index out of bounds: the len is 0 but the index is 0"));
}
