use vstd::prelude::*;

verus! {

/// Tokens produced by the lexer.
#[derive(Debug, PartialEq)]
pub enum Token {
    // Keywords
    While,
    Print,
    Native,
    Break,
    Continue,
    And,
    Or,
    Not,
    // Identifiers and literals
    Ident(String),
    Int(i32),
    Str(String),
    // Operators
    Plus,
    Minus,
    Star,
    Slash,
    Lt,
    Gt,
    EqEq,
    Le,
    Ge,
    If,
    Else,
    ElseIf,
    Assign,
    // Delimiters
    LParen,
    RParen,
    LBracket,
    RBracket,
    Colon,
    Indent,
    Dedent,
    Func,
    Return,
    Comma,
    Hash,
    // Newlines
    Newline,
    Eof,
}

/// Mathematical model of a token: names and texts are character sequences.
#[verifier::ext_equal]
pub enum SToken {
    While,
    Print,
    Native,
    Break,
    Continue,
    And,
    Or,
    Not,
    Ident(Seq<char>),
    Int(i32),
    Str(Seq<char>),
    Plus,
    Minus,
    Star,
    Slash,
    Lt,
    Gt,
    EqEq,
    Le,
    Ge,
    If,
    Else,
    ElseIf,
    Assign,
    LParen,
    RParen,
    LBracket,
    RBracket,
    Colon,
    Indent,
    Dedent,
    Func,
    Return,
    Comma,
    Hash,
    Newline,
    Eof,
}

impl View for Token {
    type V = SToken;

    open spec fn view(&self) -> SToken {
        match self {
            Token::While => SToken::While,
            Token::Print => SToken::Print,
            Token::Native => SToken::Native,
            Token::Break => SToken::Break,
            Token::Continue => SToken::Continue,
            Token::And => SToken::And,
            Token::Or => SToken::Or,
            Token::Not => SToken::Not,
            Token::Ident(s) => SToken::Ident(s@),
            Token::Int(n) => SToken::Int(*n),
            Token::Str(s) => SToken::Str(s@),
            Token::Plus => SToken::Plus,
            Token::Minus => SToken::Minus,
            Token::Star => SToken::Star,
            Token::Slash => SToken::Slash,
            Token::Lt => SToken::Lt,
            Token::Gt => SToken::Gt,
            Token::EqEq => SToken::EqEq,
            Token::Le => SToken::Le,
            Token::Ge => SToken::Ge,
            Token::If => SToken::If,
            Token::Else => SToken::Else,
            Token::ElseIf => SToken::ElseIf,
            Token::Assign => SToken::Assign,
            Token::LParen => SToken::LParen,
            Token::RParen => SToken::RParen,
            Token::LBracket => SToken::LBracket,
            Token::RBracket => SToken::RBracket,
            Token::Colon => SToken::Colon,
            Token::Indent => SToken::Indent,
            Token::Dedent => SToken::Dedent,
            Token::Func => SToken::Func,
            Token::Return => SToken::Return,
            Token::Comma => SToken::Comma,
            Token::Hash => SToken::Hash,
            Token::Newline => SToken::Newline,
            Token::Eof => SToken::Eof,
        }
    }
}


/// Whether two tokens are the same.
pub fn same_token(a: &Token, b: &Token) -> (r: bool)
    ensures
        r == (a@ == b@),
{
    match (a, b) {
        (Token::While, Token::While) => true,
        (Token::Print, Token::Print) => true,
        (Token::Native, Token::Native) => true,
        (Token::Break, Token::Break) => true,
        (Token::Continue, Token::Continue) => true,
        (Token::And, Token::And) => true,
        (Token::Or, Token::Or) => true,
        (Token::Not, Token::Not) => true,
        (Token::Ident(x), Token::Ident(y)) => *x == *y,
        (Token::Int(x), Token::Int(y)) => *x == *y,
        (Token::Str(x), Token::Str(y)) => *x == *y,
        (Token::Plus, Token::Plus) => true,
        (Token::Minus, Token::Minus) => true,
        (Token::Star, Token::Star) => true,
        (Token::Slash, Token::Slash) => true,
        (Token::Lt, Token::Lt) => true,
        (Token::Gt, Token::Gt) => true,
        (Token::EqEq, Token::EqEq) => true,
        (Token::Le, Token::Le) => true,
        (Token::Ge, Token::Ge) => true,
        (Token::If, Token::If) => true,
        (Token::Else, Token::Else) => true,
        (Token::ElseIf, Token::ElseIf) => true,
        (Token::Assign, Token::Assign) => true,
        (Token::LParen, Token::LParen) => true,
        (Token::RParen, Token::RParen) => true,
        (Token::LBracket, Token::LBracket) => true,
        (Token::RBracket, Token::RBracket) => true,
        (Token::Colon, Token::Colon) => true,
        (Token::Indent, Token::Indent) => true,
        (Token::Dedent, Token::Dedent) => true,
        (Token::Func, Token::Func) => true,
        (Token::Return, Token::Return) => true,
        (Token::Comma, Token::Comma) => true,
        (Token::Hash, Token::Hash) => true,
        (Token::Newline, Token::Newline) => true,
        (Token::Eof, Token::Eof) => true,
        _ => false,
    }
}

} // verus!
