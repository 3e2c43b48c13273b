use minic::lexer::Lexer;
use minic::parser::{compile, ParseError, Parser};
use minic::vm::Instr;

#[test]
fn test_printf_and_return() {
    let input = "printf(2 + 3); return 0;";
    let lexer = Lexer::new(input);
    let mut parser = Parser::new(lexer);

    assert_eq!(parser.parse_statement(), Ok(()));
    assert_eq!(parser.parse_statement(), Ok(()));
    assert_eq!(
        parser.instructions,
        vec![Instr::Imm(2), Instr::Imm(3), Instr::Add, Instr::Prtf, Instr::Imm(0), Instr::Lev]
    );
}

#[test]
fn test_error_reporting_missing_paren() {
    let input = "printf(2 + 3;";
    let lexer = Lexer::new(input);
    let mut parser = Parser::new(lexer);
    assert_eq!(parser.parse_statement(), Err(ParseError::ExpectedRParen(5)));
}

#[test]
fn precedence_of_multiplication_over_addition() {
    assert_eq!(
        compile("printf(2 + 3 * 4);"),
        Ok(vec![
            Instr::Imm(2),
            Instr::Imm(3),
            Instr::Imm(4),
            Instr::Mul,
            Instr::Add,
            Instr::Prtf
        ])
    );
}

#[test]
fn subtraction_associates_left() {
    assert_eq!(
        compile("return 10 - 2 - 3;"),
        Ok(vec![
            Instr::Imm(10),
            Instr::Imm(2),
            Instr::Sub,
            Instr::Imm(3),
            Instr::Sub,
            Instr::Lev
        ])
    );
}

#[test]
fn printf_then_return_code_order() {
    assert_eq!(
        compile("printf(7 % 4); return 1 + 1;"),
        Ok(vec![
            Instr::Imm(7),
            Instr::Imm(4),
            Instr::Mod,
            Instr::Prtf,
            Instr::Imm(1),
            Instr::Imm(1),
            Instr::Add,
            Instr::Lev
        ])
    );
}

#[test]
fn empty_program_has_no_code() {
    assert_eq!(compile("  \n\t "), Ok(vec![]));
}

#[test]
fn identifier_becomes_load() {
    assert_eq!(
        compile("return x * 2;"),
        Ok(vec![Instr::Load, Instr::Imm(2), Instr::Mul, Instr::Lev])
    );
}

#[test]
fn missing_lparen_is_reported() {
    assert_eq!(compile("printf 2;"), Err(ParseError::ExpectedLParen(1)));
}

#[test]
fn missing_semicolon_after_printf() {
    assert_eq!(compile("printf(1) return 2;"), Err(ParseError::ExpectedSemicolon(4)));
}

#[test]
fn missing_semicolon_after_return() {
    assert_eq!(compile("return 2"), Err(ParseError::ExpectedSemicolon(2)));
}

#[test]
fn unsupported_statement_is_reported() {
    assert_eq!(compile("return 1; while"), Err(ParseError::UnsupportedStatement(3)));
}

#[test]
fn unexpected_primary_is_reported() {
    assert_eq!(compile("return + 1;"), Err(ParseError::UnexpectedToken(1)));
    assert_eq!(compile("printf(;"), Err(ParseError::UnexpectedToken(2)));
}

#[test]
fn operator_without_instruction_is_reported() {
    assert_eq!(compile("return 1 == 2;"), Err(ParseError::UnsupportedOperator(2)));
    assert_eq!(compile("return 1 < 2;"), Err(ParseError::UnsupportedOperator(2)));
}

#[test]
fn number_too_large_is_reported() {
    assert_eq!(
        compile("return 9223372036854775808;"),
        Err(ParseError::NumberTooLarge(1))
    );
    assert_eq!(
        compile("return 9223372036854775807;"),
        Ok(vec![Instr::Imm(i64::MAX), Instr::Lev])
    );
}

#[test]
fn same_source_compiles_the_same() {
    let src = "printf(1 + 2 * 3 - 4 / 2 % 3); return 5;";
    assert_eq!(compile(src), compile(src));
}

#[test]
fn advance_stays_at_end() {
    let mut parser = Parser::new(Lexer::new("1"));
    assert_eq!(parser.index, 0);
    parser.advance();
    assert_eq!(parser.index, 1);
    parser.advance();
    assert_eq!(parser.index, 1);
    assert_eq!(parser.parse_program(), Ok(()));
}

#[test]
fn parse_expression_respects_minimum_precedence() {
    let mut parser = Parser::new(Lexer::new("2 * 3 + 4"));
    assert_eq!(parser.parse_expression(11), Ok(()));
    assert_eq!(parser.instructions, vec![Instr::Imm(2), Instr::Imm(3), Instr::Mul]);
    assert_eq!(parser.index, 3);
}
