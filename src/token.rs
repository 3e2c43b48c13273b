use vstd::prelude::*;

verus! {

/// A lexical unit of the source language.
#[derive(Debug, PartialEq, Eq, Hash)]
pub enum Token {
    // Literal values
    Num(i64),
    Id(String),
    // Classes or scopes
    Fun,
    Sys,
    Glo,
    Loc,
    // Keywords
    Char,
    Else,
    Enum,
    If,
    Int,
    Return,
    Sizeof,
    While,
    // Operators and symbols
    Assign,
    Cond,
    Lor,
    Lan,
    Or,
    Xor,
    And,
    Eq,
    Ne,
    Lt,
    Gt,
    Le,
    Ge,
    Shl,
    Shr,
    Add,
    Sub,
    Mul,
    Div,
    Mod,
    Inc,
    Dec,
    Brak,
    LParen,
    RParen,
    Semicolon,
    // Built-in function
    Printf,
    // A character that starts no token
    Unknown(char),
    // End of input
    Eof,
}

impl Clone for Token {
    fn clone(&self) -> (r: Token)
        ensures
            r == *self,
    {
        match self {
            Token::Num(n) => Token::Num(*n),
            Token::Id(s) => Token::Id(s.clone()),
            Token::Fun => Token::Fun,
            Token::Sys => Token::Sys,
            Token::Glo => Token::Glo,
            Token::Loc => Token::Loc,
            Token::Char => Token::Char,
            Token::Else => Token::Else,
            Token::Enum => Token::Enum,
            Token::If => Token::If,
            Token::Int => Token::Int,
            Token::Return => Token::Return,
            Token::Sizeof => Token::Sizeof,
            Token::While => Token::While,
            Token::Assign => Token::Assign,
            Token::Cond => Token::Cond,
            Token::Lor => Token::Lor,
            Token::Lan => Token::Lan,
            Token::Or => Token::Or,
            Token::Xor => Token::Xor,
            Token::And => Token::And,
            Token::Eq => Token::Eq,
            Token::Ne => Token::Ne,
            Token::Lt => Token::Lt,
            Token::Gt => Token::Gt,
            Token::Le => Token::Le,
            Token::Ge => Token::Ge,
            Token::Shl => Token::Shl,
            Token::Shr => Token::Shr,
            Token::Add => Token::Add,
            Token::Sub => Token::Sub,
            Token::Mul => Token::Mul,
            Token::Div => Token::Div,
            Token::Mod => Token::Mod,
            Token::Inc => Token::Inc,
            Token::Dec => Token::Dec,
            Token::Brak => Token::Brak,
            Token::LParen => Token::LParen,
            Token::RParen => Token::RParen,
            Token::Semicolon => Token::Semicolon,
            Token::Printf => Token::Printf,
            Token::Unknown(c) => Token::Unknown(*c),
            Token::Eof => Token::Eof,
        }
    }
}

/// The data types of the language.
#[derive(Debug, Clone, Copy, PartialEq, Eq, Structural)]
pub enum Type {
    Char,
    Int,
    Ptr,
}

/// The role of a named symbol.
#[derive(Debug, Clone, Copy, PartialEq, Eq, Structural)]
pub enum Class {
    Num,
    Fun,
    Sys,
    Glo,
    Loc,
    Unset,
}

/// The display name of each kind of token: the spelling of operators and
/// symbols, the variant's name for the others.
pub open spec fn name_of(t: Token) -> Seq<char> {
    match t {
        Token::Num(_) => "Num"@,
        Token::Id(_) => "Id"@,
        Token::Fun => "Fun"@,
        Token::Sys => "Sys"@,
        Token::Glo => "Glo"@,
        Token::Loc => "Loc"@,
        Token::Char => "Char"@,
        Token::Else => "Else"@,
        Token::Enum => "Enum"@,
        Token::If => "If"@,
        Token::Int => "Int"@,
        Token::Return => "Return"@,
        Token::Sizeof => "Sizeof"@,
        Token::While => "While"@,
        Token::Assign => "="@,
        Token::Cond => "?"@,
        Token::Lor => "||"@,
        Token::Lan => "&&"@,
        Token::Or => "|"@,
        Token::Xor => "^"@,
        Token::And => "&"@,
        Token::Eq => "=="@,
        Token::Ne => "!="@,
        Token::Lt => "<"@,
        Token::Gt => ">"@,
        Token::Le => "<="@,
        Token::Ge => ">="@,
        Token::Shl => "<<"@,
        Token::Shr => ">>"@,
        Token::Add => "+"@,
        Token::Sub => "-"@,
        Token::Mul => "*"@,
        Token::Div => "/"@,
        Token::Mod => "%"@,
        Token::Inc => "++"@,
        Token::Dec => "--"@,
        Token::Brak => "["@,
        Token::LParen => "("@,
        Token::RParen => ")"@,
        Token::Semicolon => ";"@,
        Token::Printf => "printf"@,
        Token::Unknown(_) => "Unknown"@,
        Token::Eof => "EOF"@,
    }
}

/// Returns the display name of a token's kind.
pub fn token_name(token: &Token) -> (r: &'static str)
    ensures
        r@ == name_of(*token),
{
    match token {
        Token::Num(_) => "Num",
        Token::Id(_) => "Id",
        Token::Fun => "Fun",
        Token::Sys => "Sys",
        Token::Glo => "Glo",
        Token::Loc => "Loc",
        Token::Char => "Char",
        Token::Else => "Else",
        Token::Enum => "Enum",
        Token::If => "If",
        Token::Int => "Int",
        Token::Return => "Return",
        Token::Sizeof => "Sizeof",
        Token::While => "While",
        Token::Assign => "=",
        Token::Cond => "?",
        Token::Lor => "||",
        Token::Lan => "&&",
        Token::Or => "|",
        Token::Xor => "^",
        Token::And => "&",
        Token::Eq => "==",
        Token::Ne => "!=",
        Token::Lt => "<",
        Token::Gt => ">",
        Token::Le => "<=",
        Token::Ge => ">=",
        Token::Shl => "<<",
        Token::Shr => ">>",
        Token::Add => "+",
        Token::Sub => "-",
        Token::Mul => "*",
        Token::Div => "/",
        Token::Mod => "%",
        Token::Inc => "++",
        Token::Dec => "--",
        Token::Brak => "[",
        Token::LParen => "(",
        Token::RParen => ")",
        Token::Semicolon => ";",
        Token::Printf => "printf",
        Token::Unknown(_) => "Unknown",
        Token::Eof => "EOF",
    }
}

} // verus!
