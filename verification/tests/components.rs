//! Component-level tests: the lexer, the chunk, precedences and values.

use lox_vm::chunk::{Chunk, OpCode};
use lox_vm::compiler::{get_rule, Precedence};
use lox_vm::scanner::Scanner;
use lox_vm::token::{Token, TokenType};
use lox_vm::value::Value;

fn kinds(src: &str) -> Vec<TokenType> {
    let mut s = Scanner::new(src);
    let mut out = Vec::new();
    loop {
        let t = s.scan_token();
        let tt = t.token_type;
        out.push(tt);
        if tt == TokenType::Eof {
            return out;
        }
    }
}

#[test]
fn scanner_basic_statement() {
    assert_eq!(
        kinds("var x = 12;"),
        vec![
            TokenType::Var,
            TokenType::Identifier,
            TokenType::Equal,
            TokenType::Number,
            TokenType::Semicolon,
            TokenType::Eof
        ]
    );
}

#[test]
fn scanner_two_byte_operators_use_lookahead() {
    assert_eq!(
        kinds("== != <= >= = ! < >"),
        vec![
            TokenType::EqualEqual,
            TokenType::BangEqual,
            TokenType::LessEqual,
            TokenType::GreaterEqual,
            TokenType::Equal,
            TokenType::Bang,
            TokenType::Less,
            TokenType::Greater,
            TokenType::Eof
        ]
    );
}

#[test]
fn scanner_keywords_and_identifiers() {
    assert_eq!(
        kinds("and andx While while"),
        vec![
            TokenType::And,
            TokenType::Identifier,
            TokenType::Identifier,
            TokenType::While,
            TokenType::Eof
        ]
    );
}

#[test]
fn scanner_is_idempotent_at_end_of_input() {
    let mut s = Scanner::new("x");
    assert_eq!(s.scan_token().token_type, TokenType::Identifier);
    assert_eq!(s.scan_token().token_type, TokenType::Eof);
    assert_eq!(s.scan_token().token_type, TokenType::Eof);
}

#[test]
fn scanner_counts_lines() {
    let mut s = Scanner::new("1\n2");
    let a: Token = s.scan_token();
    let b: Token = s.scan_token();
    assert_eq!(a.line, 1);
    assert_eq!(b.line, 2);
}

#[test]
fn scanner_lexemes() {
    let mut s = Scanner::new("foo \"hi\" 42");
    assert_eq!(s.scan_token().lexeme, b"foo".to_vec());
    assert_eq!(s.scan_token().lexeme, b"\"hi\"".to_vec());
    assert_eq!(s.scan_token().lexeme, b"42".to_vec());
}

#[test]
fn scanner_number_with_fraction_is_one_token() {
    let mut s = Scanner::new("3.14 3.");
    assert_eq!(s.scan_token().lexeme, b"3.14".to_vec());
    // A dot with no digit after it does not join the number.
    assert_eq!(s.scan_token().lexeme, b"3".to_vec());
    assert_eq!(s.scan_token().token_type, TokenType::Dot);
}

#[test]
fn scanner_error_tokens_carry_fixed_messages() {
    let mut s = Scanner::new("@");
    let t = s.scan_token();
    assert_eq!(t.token_type, TokenType::Error);
    assert_eq!(t.lexeme, b"Unexpected character.".to_vec());
    let mut s2 = Scanner::new("\"open");
    let t2 = s2.scan_token();
    assert_eq!(t2.token_type, TokenType::Error);
    assert_eq!(t2.lexeme, b"Unterminated string.".to_vec());
}

#[test]
fn string_token_carries_its_start_line() {
    let mut s = Scanner::new("\"a\nb\" x");
    let t = s.scan_token();
    assert_eq!(t.token_type, TokenType::Str);
    assert_eq!(t.line, 1);
    let u = s.scan_token();
    assert_eq!(u.token_type, TokenType::Identifier);
    assert_eq!(u.line, 2);
}

#[test]
fn precedence_next_climbs_to_primary() {
    assert_eq!(Precedence::Lowest.next(), Some(Precedence::Assignment));
    assert_eq!(Precedence::Assignment.next(), Some(Precedence::Or));
    assert_eq!(Precedence::Term.next(), Some(Precedence::Factor));
    assert_eq!(Precedence::Call.next(), Some(Precedence::Primary));
    assert_eq!(Precedence::Primary.next(), None);
}

#[test]
fn chunk_line_table_collapses_runs() {
    let mut c = Chunk::new();
    c.write(OpCode::Nil, 1);
    c.write(OpCode::Pop, 1);
    c.write(OpCode::True, 2);
    c.write(OpCode::Return, 7);
    assert_eq!(c.lines.len(), 3);
    assert_eq!(c.line_of(0), 1);
    assert_eq!(c.line_of(1), 1);
    assert_eq!(c.line_of(2), 2);
    assert_eq!(c.line_of(3), 7);
}

#[test]
fn chunk_constant_pool_indices() {
    let mut c = Chunk::new();
    assert_eq!(c.add_constant(Value::Number(1)), Some(0));
    assert_eq!(c.add_constant(Value::Number(2)), Some(1));
    let mut i = 2;
    while i < 256 {
        assert!(c.add_constant(Value::Nil).is_some());
        i += 1;
    }
    // The pool is index-addressed by one byte; past that it refuses.
    assert_eq!(c.add_constant(Value::Nil), None);
}

#[test]
fn value_rendering() {
    assert_eq!(Value::Number(-42).render(), b"-42".to_vec());
    assert_eq!(Value::Number(0).render(), b"0".to_vec());
    assert_eq!(Value::Number(9007).render(), b"9007".to_vec());
    assert_eq!(Value::Str(b"hi".to_vec()).render(), b"hi".to_vec());
    assert_eq!(Value::Boolean(true).render(), b"true".to_vec());
    assert_eq!(Value::Boolean(false).render(), b"false".to_vec());
    assert_eq!(Value::Nil.render(), b"nil".to_vec());
}

#[test]
fn value_equality_and_truthiness() {
    assert!(Value::Number(3).equals(&Value::Number(3)));
    assert!(!Value::Number(3).equals(&Value::Str(b"3".to_vec())));
    assert!(Value::Str(b"a".to_vec()).equals(&Value::Str(b"a".to_vec())));
    assert!(!Value::Str(b"a".to_vec()).equals(&Value::Str(b"b".to_vec())));
    assert!(Value::Nil.equals(&Value::Nil));
    assert!(!Value::Nil.equals(&Value::Boolean(false)));
    assert!(!Value::Nil.truthy());
    assert!(!Value::Boolean(false).truthy());
    assert!(Value::Boolean(true).truthy());
    assert!(Value::Number(0).truthy());
    assert!(Value::Str(Vec::new()).truthy());
}

#[test]
fn compile_produces_a_chunk_ending_in_return() {
    let compiler = lox_vm::compiler::Compiler::new("print 1;");
    let mut chunk = Chunk::new();
    assert!(compiler.compile(&mut chunk).is_ok());
    assert_eq!(chunk.code.last(), Some(&OpCode::Return));
    assert!(chunk.code.contains(&OpCode::Print));
}

#[test]
fn compile_collects_diagnostics_on_failure() {
    let compiler = lox_vm::compiler::Compiler::new("print ;");
    let mut chunk = Chunk::new();
    match compiler.compile(&mut chunk) {
        Err(ds) => assert!(!ds.is_empty()),
        Ok(()) => panic!("expected diagnostics"),
    }
}

#[test]
fn parse_table_rules() {
    assert_eq!(get_rule(TokenType::Plus).precedence, Precedence::Term);
    assert_eq!(get_rule(TokenType::Star).precedence, Precedence::Factor);
    assert_eq!(get_rule(TokenType::EqualEqual).precedence, Precedence::Equality);
    assert_eq!(get_rule(TokenType::Less).precedence, Precedence::Comparison);
    assert!(get_rule(TokenType::Number).prefix.is_some());
    assert!(get_rule(TokenType::Semicolon).prefix.is_none());
    assert!(get_rule(TokenType::Semicolon).infix.is_none());
}

#[test]
fn while_compiles_to_a_backward_loop() {
    let compiler = lox_vm::compiler::Compiler::new("while (false) {}");
    let mut chunk = Chunk::new();
    assert!(compiler.compile(&mut chunk).is_ok());
    let n = chunk.code.len();
    assert!(matches!(chunk.code[n - 2], OpCode::Loop(_)));
    assert!(chunk
        .code
        .iter()
        .any(|op| matches!(op, OpCode::JumpIfFalse(_))));
}

#[test]
fn underscore_is_not_an_identifier_byte() {
    let mut s = Scanner::new("a_b");
    assert_eq!(s.scan_token().lexeme, b"a".to_vec());
    let t = s.scan_token();
    assert_eq!(t.token_type, TokenType::Error);
    assert_eq!(t.lexeme, b"Unexpected character.".to_vec());
}
