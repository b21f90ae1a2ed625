use pajson::compiler::Compiler;
use pajson::parser::{ASTnode, Parser};
use pajson::text::Failure;
use pajson::tokenizer::{Token, TokenType, Tokenizer};

fn tokens_of(src: &str) -> Result<Vec<Token>, Failure> {
    let mut t = Tokenizer::new(src.chars().collect());
    t.try_tokenize()
}

fn transpile(src: &str) -> Result<String, String> {
    let mut t = Tokenizer::new(src.chars().collect());
    let tokens = t.tokenize()?;
    let mut p = Parser::new(tokens);
    let root = p.parse()?;
    let mut c = Compiler::new();
    c.compile(root)
}

const FIB: &str = "🙈 fibonacci\n😘👈🕛\n😍👈🕐\n🤓👈🕛\n😡👈🕐🕛\n\n💬✋😘🤚\n\n🔄🫳\n    💬✋😍🤚\n\n    🙈 update a_{i}, a_{i+1}\n    💀👈😘➕😍\n    😘👈😍\n    😍👈💀\n\n    🙈 increment counter 🤓 and check if exit condition is met\n    🤓👈🤓➕🕐\n    👀🤓🐊😡🫳\n        🔚\n    🫴\n🫴\n";

const FIB_C: &str = "#include <stdio.h>\nint main() {\nint v0 = 0;\nint v1 = 1;\nint v2 = 0;\nint v3 = 10;\nprintf(\"%d\\n\", v0);\nwhile(1){\nprintf(\"%d\\n\", v1);\nint v4 = (v0)+(v1);\nv0 = v1;\nv1 = v4;\nv2 = (v2)+(1);\nif (v2>v3) {\nbreak;\n}\n}\nreturn 0;\n}";

#[test]
fn fibonacci_example_transpiles_as_documented() {
    assert_eq!(transpile(FIB), Ok(FIB_C.to_string()));
}

#[test]
fn assignment_tokens_and_locations() {
    let toks = tokens_of("😘👈🕐🕛").ok().unwrap();
    let kinds: Vec<TokenType> = toks.iter().map(|t| t.token_type.clone()).collect();
    assert_eq!(
        kinds,
        vec![TokenType::Emojis("😘".to_string()), TokenType::Assign, TokenType::Int(10), TokenType::EOL]
    );
    let locs: Vec<String> = toks.iter().map(|t| t.location.to_string()).collect();
    assert_eq!(locs, vec!["1:2>", "1:3>", "1:5>", "1:6>"]);
}

#[test]
fn digits_read_most_significant_first() {
    let toks = tokens_of("😘👈🕑🕐🕘🕔").ok().unwrap();
    assert_eq!(toks[2].token_type, TokenType::Int(2195));
}

#[test]
fn missing_factor_is_reported_with_location() {
    let r = tokens_of("😘👈");
    assert!(matches!(r, Err(Failure::Error(ref m)) if m == "expected factor at 1:3>"));
}

#[test]
fn missing_assign_is_reported() {
    let r = tokens_of("😘🕐");
    assert!(matches!(r, Err(Failure::Error(ref m)) if m == "expected '👈' at 1:3>"));
}

#[test]
fn trailing_text_is_not_an_end_of_line() {
    let r = tokens_of("😘👈🕐 ✋");
    assert!(matches!(r, Err(Failure::Error(ref m)) if m == "expected eol, instead found at ✋"));
}

#[test]
fn eleven_digits_overflow() {
    let r = tokens_of("😘👈🕐🕛🕛🕛🕛🕛🕛🕛🕛🕛🕛");
    assert!(matches!(r, Err(Failure::Panic(ref m)) if m == "attempt to multiply with overflow"));
}

#[test]
fn largest_int_fits() {
    let toks = tokens_of("😘👈🕑🕐🕓🕖🕓🕗🕒🕕🕓🕖").ok().unwrap();
    assert_eq!(toks[2].token_type, TokenType::Int(2147483647));
    let r = tokens_of("😘👈🕑🕐🕓🕖🕓🕗🕒🕕🕓🕗");
    assert!(matches!(r, Err(Failure::Panic(ref m)) if m == "attempt to add with overflow"));
}

#[test]
fn undefined_variable_is_rejected_by_parser() {
    let toks = tokens_of("💬✋😘🤚").ok().unwrap();
    let mut p = Parser::new(toks);
    let r = p.try_parse();
    assert!(matches!(r, Err(Failure::Panic(ref m)) if m == "\"😘\" is undefined at: 1:4>"));
}

#[test]
fn comparisons_compile() {
    let src = "😘👈🕐\n👀😘👎🐰🕑🫳\n💬✋😘🤚\n🫴\n👀😘👉👈🕑🫳\n🔚\n🫴\n";
    let out = transpile(src).unwrap();
    assert_eq!(
        out,
        "#include <stdio.h>\nint main() {\nint v0 = 1;\nif (v0>=2) {\nprintf(\"%d\\n\", v0);\n}\nif (v0==2) {\nbreak;\n}\nreturn 0;\n}"
    );
}

#[test]
fn precedence_and_parentheses() {
    let src = "😘👈🕐➕🕑❎✋🕒➖🕓🤚\n";
    let out = transpile(src).unwrap();
    assert_eq!(
        out,
        "#include <stdio.h>\nint main() {\nint v0 = (1)+((2)*((3)-(4)));\nreturn 0;\n}"
    );
}

#[test]
fn negation_compiles() {
    let out = transpile("😘👈➖🕐\n").unwrap();
    assert_eq!(out, "#include <stdio.h>\nint main() {\nint v0 = -(1);\nreturn 0;\n}");
}

#[test]
fn variable_first_set_in_loop_is_forgotten_by_compiler() {
    let src = "🔄🫳\n😘👈🕐\n🔚\n🫴\n💬✋😘🤚\n";
    let toks = tokens_of(src).ok().unwrap();
    let mut p = Parser::new(toks);
    let root = p.try_parse().ok().unwrap();
    let mut c = Compiler::new();
    let r = c.try_compile(root);
    assert!(matches!(r, Err(Failure::Panic(ref m)) if m == "😘, is undefined"));
}

#[test]
fn comments_and_blank_lines_are_skipped() {
    let out = transpile("🙈 a comment\n\n   \n😘👈🕐\n🙈 end").unwrap();
    assert_eq!(out, "#include <stdio.h>\nint main() {\nint v0 = 1;\nreturn 0;\n}");
}

#[test]
fn empty_program() {
    assert_eq!(transpile(""), Ok("#include <stdio.h>\nint main() {\nreturn 0;\n}".to_string()));
}

#[test]
fn if_block_holds_several_statements() {
    let src = "😘👈🕐\n👀😘🐰🕑🫳\n💬✋😘🤚\n😍👈😘➗🕑\n🫴\n";
    assert_eq!(
        transpile(src),
        Ok("#include <stdio.h>\nint main() {\nint v0 = 1;\nif (v0<2) {\nprintf(\"%d\\n\", v0);\nint v1 = (v0)/(2);\n}\nreturn 0;\n}".to_string())
    );
}

#[test]
fn nested_blocks() {
    let src = "😘👈🕛\n🔄🫳\n👀😘👎🐊🕐🫳\n🔚\n🫴\n😘👈😘➕🕐\n🫴\n";
    assert_eq!(
        transpile(src),
        Ok("#include <stdio.h>\nint main() {\nint v0 = 0;\nwhile(1){\nif (v0<=1) {\nbreak;\n}\nv0 = (v0)+(1);\n}\nreturn 0;\n}".to_string())
    );
}

#[test]
fn variables_are_named_in_order_of_first_assignment() {
    let src = "😘👈🕐\n😍👈🕑\n😘👈😍\n🤓👈😘\n";
    assert_eq!(
        transpile(src),
        Ok("#include <stdio.h>\nint main() {\nint v0 = 1;\nint v1 = 2;\nv0 = v1;\nint v2 = v0;\nreturn 0;\n}".to_string())
    );
}

#[test]
fn tokens_end_with_end_of_line() {
    let toks = tokens_of("💬✋🕐🤚\n\n").ok().unwrap();
    assert_eq!(toks.last().unwrap().token_type, TokenType::EOL);
    assert_eq!(toks.len(), 5);
}

#[test]
fn integers_read_are_not_negative() {
    let toks = tokens_of("😘👈➖🕐").ok().unwrap();
    assert_eq!(toks[2].token_type, TokenType::Subtract);
    assert_eq!(toks[3].token_type, TokenType::Int(1));
}

#[test]
fn not_equal_and_less_or_equal() {
    let toks = tokens_of("👀🕐👎👈🕑🫳\n🔚\n🫴\n👀🕐👎🐊🕑🫳\n🔚\n🫴").ok().unwrap();
    let kinds: Vec<TokenType> = toks.iter().map(|t| t.token_type.clone()).collect();
    assert!(kinds.contains(&TokenType::NEQ));
    assert!(kinds.contains(&TokenType::LEQ));
}

#[test]
fn locations_move_to_the_next_line() {
    let toks = tokens_of("🔚\n  🔚").ok().unwrap();
    let locs: Vec<String> = toks.iter().map(|t| t.location.to_string()).collect();
    assert_eq!(locs, vec!["1:1>", "1:2>", "2:2>", "2:4>"]);
}

#[test]
fn brackets_come_in_pairs() {
    let toks = tokens_of("😘👈✋✋🕐➕🕑🤚❎🕒🤚\n🔄🫳\n👀😘🐰🕐🫳\n🔚\n🫴\n🫴\n").ok().unwrap();
    let count = |k: TokenType| toks.iter().filter(|t| t.token_type == k).count();
    assert_eq!(count(TokenType::LParen), 2);
    assert_eq!(count(TokenType::RParen), 2);
    assert_eq!(count(TokenType::LBrace), 2);
    assert_eq!(count(TokenType::RBrace), 2);
}

fn assigned_expression(src: &str) -> String {
    let out = transpile(src).unwrap();
    let start = out.find("int v0 = ").unwrap() + "int v0 = ".len();
    let end = out[start..].find(";").unwrap() + start;
    out[start..end].to_string()
}

#[test]
fn subtraction_groups_to_the_left() {
    assert_eq!(assigned_expression("😘👈🕔➖🕒➖🕐\n"), "((5)-(3))-(1)");
}

#[test]
fn division_groups_to_the_left() {
    assert_eq!(assigned_expression("😘👈🕗➗🕓➗🕑\n"), "((8)/(4))/(2)");
}

#[test]
fn leading_minus_negates_one_factor() {
    assert_eq!(assigned_expression("😘👈➖🕐➕🕑\n"), "(-(1))+(2)");
}

#[test]
fn minus_after_an_operator_negates() {
    assert_eq!(assigned_expression("😘👈🕐❎➖🕑\n"), "(1)*(-(2))");
    assert_eq!(assigned_expression("😘👈🕐➖➖🕑\n"), "(1)-(-(2))");
    assert_eq!(assigned_expression("😘👈➖🕑❎🕒\n"), "(-(2))*(3)");
}

#[test]
fn negation_of_a_parenthesised_expression() {
    assert_eq!(assigned_expression("😘👈➖✋🕐➕🕑🤚\n"), "-((1)+(2))");
}

#[test]
fn equality_and_not_less_are_c_operators() {
    let src = "👀🕐👉👈🕐🫳\n🔚\n🫴\n👀🕑👎🐰🕐🫳\n🔚\n🫴\n";
    assert_eq!(
        transpile(src),
        Ok("#include <stdio.h>\nint main() {\nif (1==1) {\nbreak;\n}\nif (2>=1) {\nbreak;\n}\nreturn 0;\n}".to_string())
    );
}

#[test]
fn print_of_a_parenthesised_expression() {
    assert_eq!(
        transpile("😘👈🕐\n💬✋✋😘🤚➕🕐🤚\n"),
        Ok("#include <stdio.h>\nint main() {\nint v0 = 1;\nprintf(\"%d\\n\", (v0)+(1));\nreturn 0;\n}".to_string())
    );
}

fn kinds(src: &str) -> Vec<TokenType> {
    tokens_of(src).ok().unwrap().iter().map(|t| t.token_type.clone()).collect()
}

#[test]
fn indented_comment_line_before_block_end() {
    assert_eq!(
        kinds("🔄🫳\n🔚\n  🙈 x\n🫴"),
        vec![
            TokenType::LoopKeyword,
            TokenType::LBrace,
            TokenType::EOL,
            TokenType::BreakKeyword,
            TokenType::EOL,
            TokenType::RBrace,
            TokenType::EOL,
        ]
    );
}

#[test]
fn comment_lines_are_ignored_anywhere_between_statements() {
    let with = kinds("🔄🫳\n🔚\n🙈 a\n🙈 b\n🫴\n  🙈 c\n   🙈 d\n🔚\n");
    let without = kinds("🔄🫳\n🔚\n🫴\n🔚\n");
    assert_eq!(with, without);
}

#[test]
fn carriage_return_and_end_of_text_end_lines() {
    assert_eq!(
        kinds("🔚\r🔚\u{2403}"),
        vec![TokenType::BreakKeyword, TokenType::EOL, TokenType::BreakKeyword, TokenType::EOL]
    );
}

#[test]
fn bare_integer_is_not_a_statement() {
    assert!(matches!(tokens_of("🕐"), Err(Failure::Error(ref m)) if m == "expected identifier at 1:1>"));
}

#[test]
fn ten_digits_from_three_billion_overflow_the_multiplication() {
    let r = tokens_of("😘👈🕒🕛🕛🕛🕛🕛🕛🕛🕛🕛");
    assert!(matches!(r, Err(Failure::Panic(ref m)) if m == "attempt to multiply with overflow"));
}

#[test]
fn eleven_digits_with_a_large_low_part_overflow_the_addition() {
    let r = tokens_of("😘👈🕛🕑🕘🕘🕘🕘🕘🕘🕘🕘🕘");
    assert!(matches!(r, Err(Failure::Panic(ref m)) if m == "attempt to add with overflow"));
}

#[test]
fn leading_zeros_beyond_ten_digits_overflow() {
    let r = tokens_of("😘👈🕛🕛🕛🕛🕛🕛🕛🕛🕛🕛🕐");
    assert!(matches!(r, Err(Failure::Panic(ref m)) if m == "attempt to multiply with overflow"));
}

#[test]
fn conditional_block_needs_a_statement() {
    assert!(matches!(tokens_of("👀🕐🐊🕑🫳\n🫴\n"), Err(Failure::Error(ref m)) if m == "expected identifier at 2:0>"));
}

#[test]
fn loop_block_needs_a_statement() {
    assert!(matches!(tokens_of("🔄🫳\n🫴\n"), Err(Failure::Error(ref m)) if m == "expected identifier at 2:0>"));
}

fn parse_tree(src: &str) -> ASTnode {
    Parser::new(tokens_of(src).ok().unwrap()).try_parse().ok().unwrap()
}

fn statements_of(n: &ASTnode) -> &Vec<ASTnode> {
    match n {
        ASTnode::StatementSeq(v) => v,
        _ => panic!("expected a statement sequence"),
    }
}

fn token_type_of(n: &ASTnode) -> TokenType {
    match n {
        ASTnode::Node(t) => t.token.token_type.clone(),
        _ => panic!("expected a token node"),
    }
}

#[test]
fn statements_give_one_node_each_in_order() {
    let root = parse_tree("😘👈🕐\n💬✋😘🤚\n🔄🫳\n🔚\n🫴\n😘👈🕑\n");
    let kinds: Vec<TokenType> = statements_of(&root).iter().map(token_type_of).collect();
    assert_eq!(kinds, vec![TokenType::Assign, TokenType::PrintKeyword, TokenType::LoopKeyword, TokenType::Assign]);
}

#[test]
fn conditional_block_ends_at_its_matching_close() {
    let root = parse_tree("👀🕐🐊🕑🫳\n👀🕐🐰🕑🫳\n🔚\n🫴\n🔚\n🫴\n💬✋🕐🤚\n");
    let top = statements_of(&root);
    assert_eq!(top.len(), 2);
    assert_eq!(token_type_of(&top[1]), TokenType::PrintKeyword);
    let outer = match &top[0] {
        ASTnode::Node(t) => t.children.as_ref().unwrap(),
        _ => panic!("expected the conditional"),
    };
    let block = statements_of(&outer[1]);
    assert_eq!(block.len(), 2);
    assert_eq!(token_type_of(&block[0]), TokenType::IfKeyword);
    assert_eq!(token_type_of(&block[1]), TokenType::BreakKeyword);
}
