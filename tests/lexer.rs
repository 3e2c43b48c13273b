use minic::lexer::Lexer;
use minic::token::{token_name, Token};

fn all_tokens(src: &str) -> Vec<Option<Token>> {
    let mut lexer = Lexer::new(src);
    let mut out = Vec::new();
    loop {
        let t = lexer.next_token();
        let end = t == Some(Token::Eof);
        out.push(t);
        if end {
            break;
        }
    }
    out
}

#[test]
fn whitespace_only_gives_end_marker() {
    assert_eq!(all_tokens(" \t\r\n  "), vec![Some(Token::Eof)]);
    assert_eq!(all_tokens(""), vec![Some(Token::Eof)]);
}

#[test]
fn end_marker_repeats() {
    let mut lexer = Lexer::new(" ");
    assert_eq!(lexer.next_token(), Some(Token::Eof));
    assert_eq!(lexer.next_token(), Some(Token::Eof));
    assert_eq!(lexer.next_token(), Some(Token::Eof));
}

#[test]
fn reserved_words_give_keywords() {
    assert_eq!(
        all_tokens("if else int char return while sizeof printf"),
        vec![
            Some(Token::If),
            Some(Token::Else),
            Some(Token::Int),
            Some(Token::Char),
            Some(Token::Return),
            Some(Token::While),
            Some(Token::Sizeof),
            Some(Token::Printf),
            Some(Token::Eof)
        ]
    );
}

#[test]
fn near_keywords_are_identifiers() {
    assert_eq!(
        all_tokens("iff _if If x1"),
        vec![
            Some(Token::Id("iff".to_string())),
            Some(Token::Id("_if".to_string())),
            Some(Token::Id("If".to_string())),
            Some(Token::Id("x1".to_string())),
            Some(Token::Eof)
        ]
    );
}

#[test]
fn operators_use_one_char_lookahead() {
    assert_eq!(
        all_tokens("= == != ! < <= << > >= >> | || & && + ++ - -- * / % ( ) ;"),
        vec![
            Some(Token::Assign),
            Some(Token::Eq),
            Some(Token::Ne),
            Some(Token::Unknown('!')),
            Some(Token::Lt),
            Some(Token::Le),
            Some(Token::Shl),
            Some(Token::Gt),
            Some(Token::Ge),
            Some(Token::Shr),
            Some(Token::Or),
            Some(Token::Lor),
            Some(Token::And),
            Some(Token::Lan),
            Some(Token::Add),
            Some(Token::Inc),
            Some(Token::Sub),
            Some(Token::Dec),
            Some(Token::Mul),
            Some(Token::Div),
            Some(Token::Mod),
            Some(Token::LParen),
            Some(Token::RParen),
            Some(Token::Semicolon),
            Some(Token::Eof)
        ]
    );
}

#[test]
fn operators_without_spaces() {
    assert_eq!(
        all_tokens("a+++b<<=c"),
        vec![
            Some(Token::Id("a".to_string())),
            Some(Token::Inc),
            Some(Token::Add),
            Some(Token::Id("b".to_string())),
            Some(Token::Shl),
            Some(Token::Assign),
            Some(Token::Id("c".to_string())),
            Some(Token::Eof)
        ]
    );
}

#[test]
fn numbers_and_unknown_characters() {
    assert_eq!(
        all_tokens("42 007 12ab @ é"),
        vec![
            Some(Token::Num(42)),
            Some(Token::Num(7)),
            Some(Token::Num(12)),
            Some(Token::Id("ab".to_string())),
            Some(Token::Unknown('@')),
            Some(Token::Unknown('é')),
            Some(Token::Eof)
        ]
    );
}

#[test]
fn number_literal_overflow_is_none() {
    let mut lexer = Lexer::new("99999999999999999999 1");
    assert_eq!(lexer.next_token(), None);
    assert_eq!(lexer.next_token(), Some(Token::Num(1)));
    assert_eq!(lexer.next_token(), Some(Token::Eof));
}

#[test]
fn tokenizing_twice_is_identical() {
    let src = "printf(x + 12 * y); return 0; ?";
    assert_eq!(all_tokens(src), all_tokens(src));
}

#[test]
fn token_names() {
    assert_eq!(token_name(&Token::Num(3)), "Num");
    assert_eq!(token_name(&Token::Id("x".to_string())), "Id");
    assert_eq!(token_name(&Token::Shl), "<<");
    assert_eq!(token_name(&Token::Printf), "printf");
    assert_eq!(token_name(&Token::Unknown('#')), "Unknown");
    assert_eq!(token_name(&Token::Eof), "EOF");
}

#[test]
fn token_clone_is_equal() {
    let t = Token::Id("abc".to_string());
    assert_eq!(t.clone(), t);
    assert_eq!(Token::Num(-4).clone(), Token::Num(-4));
}
