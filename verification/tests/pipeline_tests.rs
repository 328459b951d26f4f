use grove_compiler::ast::ternary::{decode_int, encode_int};
use grove_compiler::ast::UnOp;
use grove_compiler::autumn::optimize_expr;
use grove_compiler::num::Num;
use grove_compiler::spring::{Lexer, Parser};
use grove_compiler::summer::const_eval;
use grove_compiler::winter::simple_hash;
use grove_compiler::ast::Constant;
use grove_compiler::{autumn, spring, summer, winter, BinOp, Expr, GroveError, Stmt, Token, Trit};

fn num(v: i32) -> Num {
    Num::from_int(v)
}

fn parse_error(message: &str, pos: usize) -> GroveError {
    GroveError::Parse { message: message.to_string(), pos }
}

// ── Spring: the lexer ───────────────────────────────────────────────────

#[test]
fn lex_tokens_end_with_eof() {
    let tokens = Lexer::new("let x = 1;").tokenize().unwrap();
    assert_eq!(tokens.len(), 6);
    assert_eq!(tokens[5], Token::Eof);
    assert!(tokens[..5].iter().all(|t| *t != Token::Eof));
}

#[test]
fn lex_unicode_white_space_and_letters() {
    let tokens = Lexer::new("let\tcafé\n=\u{a0}1;").tokenize().unwrap();
    assert_eq!(
        tokens,
        vec![
            Token::Let,
            Token::Ident("café".into()),
            Token::Assign,
            Token::Number(num(1)),
            Token::Semicolon,
            Token::Eof,
        ]
    );
}

#[test]
fn lex_fraction_is_exact() {
    let tokens = Lexer::new("0.25 12.").tokenize().unwrap();
    assert_eq!(tokens[0], Token::Number(Num::ratio(1, 4).unwrap()));
    assert_eq!(tokens[1], Token::Number(num(12)));
}

#[test]
fn lex_two_dots_is_zero() {
    let tokens = Lexer::new("1.5.2").tokenize().unwrap();
    assert_eq!(tokens[0], Token::Number(num(0)));
    assert_eq!(tokens[1], Token::Eof);
}

#[test]
fn lex_error_positions() {
    assert_eq!(
        Lexer::new("x @").tokenize(),
        Err(GroveError::Lex { message: "unexpected character: @".into(), pos: 2 })
    );
    assert_eq!(
        Lexer::new("a ! b").tokenize(),
        Err(GroveError::Lex { message: "expected '=' after '!'".into(), pos: 3 })
    );
}

#[test]
fn lex_numeral_beyond_num() {
    let tokens = Lexer::new("99999999999999999999").tokenize().unwrap();
    assert_eq!(tokens, vec![Token::Numeral("99999999999999999999".into()), Token::Eof]);
    let fine = format!("0.{}1", "0".repeat(39));
    let tokens = Lexer::new(&fine).tokenize().unwrap();
    assert_eq!(tokens, vec![Token::Numeral(fine.clone()), Token::Eof]);
    // A numeral is carried through to the constant pool as written.
    let prog = spring("let big = 99999999999999999999 * 2;").unwrap();
    let mut opt = prog.clone();
    autumn(&mut opt);
    let big = Expr::Numeral("99999999999999999999".into());
    let doubled = Expr::Binary(Box::new(big.clone()), BinOp::Add, Box::new(big));
    assert_eq!(opt.stmts, vec![Stmt::Let("big".into(), doubled)]);
    let bc = winter(&prog);
    assert_eq!(
        bc.constants,
        vec![Constant::Numeral("99999999999999999999".into()), Constant::Number(num(2))]
    );
}

#[test]
fn lex_two_char_operators() {
    let tokens = Lexer::new("a<=b==c!=d>=e").tokenize().unwrap();
    assert_eq!(tokens[1], Token::Le);
    assert_eq!(tokens[3], Token::Eq);
    assert_eq!(tokens[5], Token::Neq);
    assert_eq!(tokens[7], Token::Ge);
}

// ── Spring: the parser ──────────────────────────────────────────────────

#[test]
fn parse_error_expected_identifier() {
    assert_eq!(spring("let 5 = 1;").unwrap_err(), parse_error("expected identifier, got number", 2));
}

#[test]
fn parse_error_unexpected_token() {
    assert_eq!(spring("let x = ;").unwrap_err(), parse_error("unexpected token in expression: ;", 3));
}

#[test]
fn parse_error_missing_semicolon() {
    assert_eq!(spring("let x = 1").unwrap_err(), parse_error("expected ;, got eof", 5));
}

#[test]
fn parse_error_lex_first() {
    assert_eq!(
        spring("let x = @;").unwrap_err(),
        GroveError::Lex { message: "unexpected character: @".into(), pos: 8 }
    );
}

#[test]
fn parse_empty_program() {
    assert_eq!(spring("").unwrap().stmts.len(), 0);
}

#[test]
fn parse_left_associative() {
    // 8 - 3 - 1 parses as (8 - 3) - 1
    let prog = spring("8 - 3 - 1;").unwrap();
    match &prog.stmts[0] {
        Stmt::Expr(Expr::Binary(left, BinOp::Sub, right)) => {
            assert!(matches!(left.as_ref(), Expr::Binary(_, BinOp::Sub, _)));
            assert_eq!(**right, Expr::Literal(num(1)));
        }
        other => panic!("expected subtraction, got {other:?}"),
    }
}

#[test]
fn parse_comparison_below_sum() {
    let prog = spring("a + 1 < b;").unwrap();
    match &prog.stmts[0] {
        Stmt::Expr(Expr::Binary(left, BinOp::Lt, _)) => {
            assert!(matches!(left.as_ref(), Expr::Binary(_, BinOp::Add, _)));
        }
        other => panic!("expected comparison, got {other:?}"),
    }
}

#[test]
fn parse_if_expression_values() {
    let prog = spring("let v = if c { 1; } else { return 2; };").unwrap();
    let expected = Expr::If(
        Box::new(Expr::Var("c".into())),
        Box::new(Expr::Literal(num(1))),
        Box::new(Expr::Literal(num(2))),
    );
    assert_eq!(prog.stmts[0], Stmt::Let("v".into(), expected));
}

#[test]
fn parse_if_expression_without_else_is_zero() {
    let prog = spring("let v = if c { let w = 1; };").unwrap();
    let expected = Expr::If(
        Box::new(Expr::Var("c".into())),
        Box::new(Expr::Literal(num(0))),
        Box::new(Expr::Literal(num(0))),
    );
    assert_eq!(prog.stmts[0], Stmt::Let("v".into(), expected));
}

#[test]
fn parse_else_if_statement() {
    let prog = spring("if a { b; } else if c { d; }").unwrap();
    match &prog.stmts[0] {
        Stmt::If(_, _, else_b) => {
            assert_eq!(else_b.len(), 1);
            assert!(matches!(&else_b[0], Stmt::If(_, _, e) if e.is_empty()));
        }
        other => panic!("expected If, got {other:?}"),
    }
}

#[test]
fn parse_call_without_arguments_and_nested_negation() {
    let prog = spring("f(); --x;").unwrap();
    assert_eq!(prog.stmts[0], Stmt::Expr(Expr::Call("f".into(), vec![])));
    let inner = Expr::Unary(UnOp::Neg, Box::new(Expr::Var("x".into())));
    assert_eq!(prog.stmts[1], Stmt::Expr(Expr::Unary(UnOp::Neg, Box::new(inner))));
}

#[test]
fn parser_stops_at_eof_token() {
    let tokens = vec![Token::Ident("x".into()), Token::Semicolon, Token::Eof, Token::Plus];
    let prog = Parser::new(tokens).parse_program().unwrap();
    assert_eq!(prog.stmts, vec![Stmt::Expr(Expr::Var("x".into()))]);
}

// ── Errors ──────────────────────────────────────────────────────────────

#[test]
fn error_text() {
    assert_eq!(parse_error("expected identifier, got number", 2).to_string(), "parse error at 2: expected identifier, got number");
    assert_eq!(GroveError::Lex { message: "m".into(), pos: 10 }.to_string(), "lex error at 10: m");
    assert_eq!(GroveError::TypeCheck { message: "t".into() }.to_string(), "type error: t");
    assert_eq!(GroveError::Optimize { message: "o".into() }.to_string(), "optimize error: o");
    assert_eq!(GroveError::Emit { message: "e".into() }.to_string(), "emit error: e");
}

// ── Summer ──────────────────────────────────────────────────────────────

#[test]
fn summer_messages() {
    let prog = spring("let x = y + 1;").unwrap();
    assert_eq!(summer(&prog), Err(GroveError::TypeCheck { message: "undefined variable: y".into() }));
    let prog = spring("x = 5;").unwrap();
    assert_eq!(
        summer(&prog),
        Err(GroveError::TypeCheck { message: "assignment to undefined variable: x".into() })
    );
}

#[test]
fn summer_block_scope_ends_with_block() {
    let prog = spring("if 1 { let y = 2; } let z = y;").unwrap();
    assert_eq!(summer(&prog), Err(GroveError::TypeCheck { message: "undefined variable: y".into() }));
}

#[test]
fn summer_let_not_visible_in_own_value() {
    let prog = spring("let x = x;").unwrap();
    assert!(summer(&prog).is_err());
}

// ── Constant evaluation and autumn ──────────────────────────────────────

#[test]
fn const_eval_cases() {
    let div = |a: i32, b: i32| {
        Expr::Binary(Box::new(Expr::Literal(num(a))), BinOp::Div, Box::new(Expr::Literal(num(b))))
    };
    assert_eq!(const_eval(&div(1, 3)), Some(Num::ratio(1, 3).unwrap()));
    assert_eq!(const_eval(&div(1, 0)), None);
    assert_eq!(const_eval(&Expr::Var("x".into())), None);
    let cmp = Expr::Binary(Box::new(Expr::Literal(num(2))), BinOp::Lt, Box::new(Expr::Literal(num(3))));
    assert_eq!(const_eval(&cmp), Some(num(1)));
}

#[test]
fn const_eval_agrees_with_folding() {
    let prog = spring("(2 + 3) * (7 - 1) / 4;").unwrap();
    let e = match &prog.stmts[0] {
        Stmt::Expr(e) => e.clone(),
        other => panic!("expected expression, got {other:?}"),
    };
    let v = const_eval(&e).unwrap();
    assert_eq!(v, Num::ratio(15, 2).unwrap());
    assert_eq!(optimize_expr(&e), Expr::Literal(v));
}

#[test]
fn optimize_is_idempotent_on_example() {
    let prog = spring("y * 2 + (3 - 3) + if 0 { 1; } else { z / 1; };").unwrap();
    let e = match &prog.stmts[0] {
        Stmt::Expr(e) => e.clone(),
        other => panic!("expected expression, got {other:?}"),
    };
    let once = optimize_expr(&e);
    assert_eq!(optimize_expr(&once), once);
    let y = Expr::Var("y".into());
    let doubled = Expr::Binary(Box::new(y.clone()), BinOp::Add, Box::new(y));
    let expected = Expr::Binary(Box::new(doubled), BinOp::Add, Box::new(Expr::Var("z".into())));
    assert_eq!(once, expected);
}

#[test]
fn optimize_division_by_zero_stays() {
    let e = Expr::Binary(Box::new(Expr::Literal(num(1))), BinOp::Div, Box::new(Expr::Literal(num(0))));
    assert_eq!(optimize_expr(&e), e);
}

#[test]
fn autumn_constant_branches() {
    let mut prog = spring("if 1 { let y = 2; } else { y; } if 0 { let y = 2; } if 0 { w; } else { let z = 1; }").unwrap();
    autumn(&mut prog);
    assert_eq!(
        prog.stmts[0],
        Stmt::If(Expr::Literal(num(1)), vec![Stmt::Let("y".into(), Expr::Literal(num(2)))], vec![])
    );
    assert_eq!(prog.stmts[1], Stmt::Expr(Expr::Literal(num(0))));
    assert_eq!(
        prog.stmts[2],
        Stmt::If(Expr::Literal(num(0)), vec![], vec![Stmt::Let("z".into(), Expr::Literal(num(1)))])
    );
}

// ── Ternary ─────────────────────────────────────────────────────────────

#[test]
fn ternary_digits_least_significant_first() {
    assert_eq!(encode_int(5), vec![Trit::Neg, Trit::Neg, Trit::Pos]);
    assert_eq!(encode_int(-2), vec![Trit::Pos, Trit::Neg]);
    assert_eq!(decode_int(&[Trit::Pos, Trit::Neg]), -2);
    assert_eq!(decode_int(&[]), 0);
}

#[test]
fn ternary_roundtrip_extremes() {
    for n in [i64::MAX, i64::MIN, i64::MIN + 1, 3i64.pow(39), -(3i64.pow(39))] {
        assert_eq!(decode_int(&encode_int(n)), n);
    }
}

// ── Winter ──────────────────────────────────────────────────────────────

#[test]
fn winter_layout_of_let() {
    let bc = winter(&spring("let x = 42;").unwrap());
    assert_eq!(bc.constants, vec![Constant::Number(num(42))]);
    assert_eq!(bc.instructions.len(), 2);
    assert_eq!(bc.instructions[0].opcode, Trit::Zero);
    assert_eq!(bc.instructions[0].operand, vec![Trit::Zero]);
    assert_eq!(bc.instructions[1].opcode, Trit::Zero);
    assert_eq!(bc.instructions[1].operand, vec![Trit::Pos]);
}

#[test]
fn winter_constant_pool_holds_literals_in_order() {
    let prog = spring("let a = 3; if a { b = 1 + 2; } else { return f(4, 3); }").unwrap();
    let bc = winter(&prog);
    assert_eq!(bc.constants, vec![Constant::Number(num(3)), Constant::Number(num(1)), Constant::Number(num(2)), Constant::Number(num(4)), Constant::Number(num(3))]);
}

#[test]
fn winter_variable_operand_is_name_hash() {
    assert_eq!(simple_hash("x"), 7629);
    assert_eq!(simple_hash(""), 5381);
    let bc = winter(&spring("x;").unwrap());
    assert_eq!(bc.instructions.len(), 1);
    assert_eq!(bc.instructions[0].opcode, Trit::Pos);
    assert_eq!(decode_int(&bc.instructions[0].operand), 7629);
}

#[test]
fn autumn_keeps_program_in_scope() {
    let mut prog = spring("let x = 1; if x { let y = x * 2; y = y + 0; } x = x - 0 + f(x * 1);").unwrap();
    assert!(summer(&prog).is_ok());
    autumn(&mut prog);
    assert!(summer(&prog).is_ok());
}

#[test]
fn lex_padding_keeps_tokens_and_shifts_errors() {
    let plain = Lexer::new("let x = 1;").tokenize();
    let padded = Lexer::new(" \t\u{3000}let x = 1;\n\u{a0}").tokenize();
    assert_eq!(plain, padded);
    assert_eq!(
        Lexer::new("\n\n x @ ").tokenize(),
        Err(GroveError::Lex { message: "unexpected character: @".into(), pos: 5 })
    );
}

#[test]
fn spring_errors_after_lexing_are_parse_errors() {
    for source in ["let = 1;", "1 +;", "if x { y; ", "f(1, 2;"] {
        match spring(source) {
            Err(GroveError::Parse { .. }) => {}
            other => panic!("expected a parse error for {source:?}, got {other:?}"),
        }
    }
}

#[test]
fn winter_loads_each_literal_by_its_index() {
    let bc = winter(&spring("1; 2; 3;").unwrap());
    assert_eq!(bc.constants, vec![Constant::Number(num(1)), Constant::Number(num(2)), Constant::Number(num(3))]);
    for (i, instr) in bc.instructions.iter().enumerate() {
        assert_eq!(instr.opcode, Trit::Zero);
        assert_eq!(decode_int(&instr.operand), i as i64);
    }
}

#[test]
fn folding_has_no_ternary_wraparound() {
    let prog = spring("1 + 1;").unwrap();
    let e = match &prog.stmts[0] {
        Stmt::Expr(e) => e.clone(),
        other => panic!("expected expression, got {other:?}"),
    };
    assert_eq!(optimize_expr(&e), Expr::Literal(num(2)));
}
