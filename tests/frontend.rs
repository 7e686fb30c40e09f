use sprout::ast::{BinaryOp, Expr, UnaryOp};
use sprout::codegen::codegen_module;
use sprout::lexer::{is_ident_continue, is_ident_start, lex, Token};
use sprout::lower::lower_program_to_module;
use sprout::opt::optimize_module;
use sprout::parser::{parse_statement, parse_tokens, ParseError, Parser};
use sprout::run::run_cfg;

fn run_source(src: &str) -> i64 {
    let exprs = parse_tokens(lex(src)).expect("parse");
    let mut m = lower_program_to_module(&exprs).expect("lowering");
    optimize_module(&mut m);
    run_cfg(&codegen_module(&m).expect("codegen")).expect("run")
}

#[test]
fn lexes_assignment_and_use() {
    let t = lex("a = 5; a + 1");
    assert_eq!(t.len(), 8);
    assert!(matches!(&t[0], Token::Ident(s) if s == "a"));
    assert!(matches!(t[1], Token::Equals));
    assert!(matches!(t[2], Token::Number(5)));
    assert!(matches!(t[3], Token::Semicolon));
    assert!(matches!(t[5], Token::Plus));
    assert!(matches!(t[6], Token::Number(1)));
    assert!(matches!(t[7], Token::Eof));
}

#[test]
fn lexes_keywords_comments_and_comparisons() {
    let t = lex("x == 3 # ignored ; 1\nif else iffy");
    assert_eq!(t.len(), 7);
    assert!(matches!(t[1], Token::EqComp));
    assert!(matches!(t[2], Token::Number(3)));
    assert!(matches!(t[3], Token::If));
    assert!(matches!(t[4], Token::Else));
    assert!(matches!(&t[5], Token::Ident(s) if s == "iffy"));
    assert!(matches!(t[6], Token::Eof));
}

#[test]
fn lexes_punctuation_and_skips_unknown() {
    let t = lex("(1,2) : < > - * / $");
    let kinds: Vec<bool> = vec![
        matches!(t[0], Token::LParen),
        matches!(t[1], Token::Number(1)),
        matches!(t[2], Token::Comma),
        matches!(t[3], Token::Number(2)),
        matches!(t[4], Token::RParen),
        matches!(t[5], Token::Colon),
        matches!(t[6], Token::Lt),
        matches!(t[7], Token::Gt),
        matches!(t[8], Token::Minus),
        matches!(t[9], Token::Star),
        matches!(t[10], Token::Slash),
        matches!(t[11], Token::Eof),
    ];
    assert!(kinds.iter().all(|k| *k));
    assert_eq!(t.len(), 12);
}

#[test]
fn large_literal_wraps() {
    let t = lex("9223372036854775808");
    assert!(matches!(t[0], Token::Number(i64::MIN)));
}

#[test]
fn empty_input_is_just_eof() {
    let t = lex("");
    assert_eq!(t.len(), 1);
    assert!(matches!(t[0], Token::Eof));
}

#[test]
fn identifier_classes() {
    assert!(is_ident_start('_'));
    assert!(is_ident_start('Q'));
    assert!(!is_ident_start('7'));
    assert!(is_ident_continue('7'));
    assert!(!is_ident_continue('-'));
}

#[test]
fn parses_precedence() {
    let es = parse_tokens(lex("1 + 2 * 3")).expect("parse");
    assert_eq!(es.len(), 1);
    match &es[0] {
        Expr::Binary { left, op: BinaryOp::Add, right } => {
            assert!(matches!(**left, Expr::Number(1)));
            assert!(matches!(**right, Expr::Binary { op: BinaryOp::Mul, .. }));
        }
        other => panic!("unexpected {:?}", other),
    }
    assert_eq!(run_source("1 + 2 * 3"), 7);
}

#[test]
fn parses_negation() {
    let es = parse_tokens(lex("-(4 - 2)")).expect("parse");
    assert!(matches!(es[0], Expr::Unary { op: UnaryOp::Neg, .. }));
    assert_eq!(run_source("-(4 - 2)"), -2);
}

#[test]
fn parses_statements_and_assignment() {
    let es = parse_tokens(lex("a = 5; a + 1")).expect("parse");
    assert_eq!(es.len(), 2);
    assert!(matches!(es[0], Expr::Binary { op: BinaryOp::Assign, .. }));
    assert_eq!(run_source("a = 5; a + 1"), 6);
    assert_eq!(run_source("a = 5; a + 1;"), 6);
}

#[test]
fn parses_if_else() {
    let es = parse_tokens(lex("if (1 > 0) 10 else 20")).expect("parse");
    assert!(matches!(es[0], Expr::If { else_branch: Some(_), .. }));
    assert_eq!(run_source("if (1 > 0) 10 else 20"), 10);
    assert_eq!(run_source("if (0 > 1) 10 else 20"), 20);
    assert_eq!(run_source("if (0 > 1) 10"), 0);
}

#[test]
fn parses_calls() {
    let es = parse_tokens(lex("f(1, 2 + 3)")).expect("parse");
    match &es[0] {
        Expr::Call { callee, args } => {
            assert!(matches!(&**callee, Expr::Ident(s) if s == "f"));
            assert_eq!(args.len(), 2);
        }
        other => panic!("unexpected {:?}", other),
    }
    let es = parse_tokens(lex("g()")).expect("parse");
    assert!(matches!(&es[0], Expr::Call { args, .. } if args.is_empty()));
}

#[test]
fn reports_parse_errors() {
    assert!(matches!(parse_tokens(lex("(1")), Err(ParseError::ExpectedRParen { .. })));
    assert!(matches!(parse_tokens(lex("1 2")), Err(ParseError::TrailingTokens { pos: 1 })));
    assert!(matches!(parse_tokens(lex(")")), Err(ParseError::UnexpectedToken { pos: 0 })));
    assert!(matches!(parse_tokens(lex("f(1 2)")), Err(ParseError::ExpectedArgSeparator { .. })));
}

#[test]
fn splits_statements_skipping_empty_ones() {
    let stmts = parse_statement(&lex(";;1; 2 + 3"));
    assert_eq!(stmts.len(), 2);
    assert_eq!(stmts[0].len(), 1);
    assert_eq!(stmts[1].len(), 3);
    assert!(parse_tokens(lex("")).expect("parse").is_empty());
}

#[test]
fn parser_steps_through_tokens() {
    let mut p = Parser::new(lex("7 + 8"));
    assert!(matches!(p.peek(), Token::Number(7)));
    p.next();
    assert!(matches!(p.peek(), Token::Plus));
    assert_eq!(Parser::precedence(p.peek()), Some((2, true)));
    p.next();
    p.next();
    p.next();
    assert!(matches!(p.peek(), Token::Eof));
    let mut q = Parser::new(lex("2 * (3 + 4)"));
    assert!(matches!(q.parse_expression(), Ok(Expr::Binary { op: BinaryOp::Mul, .. })));
}

#[test]
fn comparisons_bind_looser_than_arithmetic() {
    assert_eq!(run_source("1 + 1 == 2"), 1);
    assert_eq!(run_source("2 * 3 < 5"), 0);
}

#[test]
fn same_level_operators_associate_left() {
    let es = parse_tokens(lex("8 - 3 - 2")).expect("parse");
    match &es[0] {
        Expr::Binary { left, op: BinaryOp::Sub, right } => {
            assert!(matches!(**left, Expr::Binary { op: BinaryOp::Sub, .. }));
            assert!(matches!(**right, Expr::Number(2)));
        }
        other => panic!("unexpected {:?}", other),
    }
    assert_eq!(run_source("8 - 3 - 2"), 3);
    assert_eq!(run_source("16 / 4 / 2"), 2);
}

#[test]
fn first_failing_statement_decides_the_error() {
    assert!(matches!(parse_tokens(lex("1; (2; 3 4")), Err(ParseError::ExpectedRParen { pos: 2 })));
}
