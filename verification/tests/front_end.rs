use lib::lexer::{tokenize, Lexer};
use lib::parser::Parser;
use lib::token::Token;

fn lex(source: &str) -> Vec<Token> {
    tokenize(source).expect("the source lexes")
}

#[test]
fn lexes_assignment_and_print() {
    let toks = lex("x = 1 + 2\nprint x\n");
    assert_eq!(
        toks,
        vec![
            Token::Ident("x".to_string()),
            Token::Assign,
            Token::Int(1),
            Token::Plus,
            Token::Int(2),
            Token::Newline,
            Token::Print,
            Token::Ident("x".to_string()),
            Token::Newline,
            Token::Eof,
        ]
    );
}

#[test]
fn lexes_indentation() {
    let toks = lex("while x < 3:\n  x = x + 1\n");
    assert_eq!(
        toks,
        vec![
            Token::While,
            Token::Ident("x".to_string()),
            Token::Lt,
            Token::Int(3),
            Token::Colon,
            Token::Newline,
            Token::Indent,
            Token::Ident("x".to_string()),
            Token::Assign,
            Token::Ident("x".to_string()),
            Token::Plus,
            Token::Int(1),
            Token::Newline,
            Token::Dedent,
            Token::Eof,
        ]
    );
}

#[test]
fn lexes_two_character_operators_and_keywords() {
    let toks = lex("a <= b >= c == d\nif else elseif whilex _y");
    assert_eq!(
        toks,
        vec![
            Token::Ident("a".to_string()),
            Token::Le,
            Token::Ident("b".to_string()),
            Token::Ge,
            Token::Ident("c".to_string()),
            Token::EqEq,
            Token::Ident("d".to_string()),
            Token::Newline,
            Token::If,
            Token::Else,
            Token::ElseIf,
            Token::Ident("whilex".to_string()),
            Token::Ident("_y".to_string()),
            Token::Eof,
        ]
    );
}

#[test]
fn lexes_crlf_and_tabs_inside_lines() {
    let toks = lex("x\t=\t7\r\ny = 8");
    assert_eq!(
        toks,
        vec![
            Token::Ident("x".to_string()),
            Token::Assign,
            Token::Int(7),
            Token::Newline,
            Token::Ident("y".to_string()),
            Token::Assign,
            Token::Int(8),
            Token::Eof,
        ]
    );
}

#[test]
fn nested_indentation_closes_each_level() {
    let toks = lex("a\n  b\n    c\nd\n");
    assert_eq!(
        toks,
        vec![
            Token::Ident("a".to_string()),
            Token::Newline,
            Token::Indent,
            Token::Ident("b".to_string()),
            Token::Newline,
            Token::Indent,
            Token::Ident("c".to_string()),
            Token::Newline,
            Token::Dedent,
            Token::Dedent,
            Token::Ident("d".to_string()),
            Token::Newline,
            Token::Eof,
        ]
    );
}

#[test]
fn largest_number_lexes() {
    assert_eq!(lex("2147483647"), vec![Token::Int(2147483647), Token::Eof]);
}

#[test]
fn number_too_large_is_rejected() {
    assert!(tokenize("x = 2147483648").is_none());
}

#[test]
fn unknown_character_is_rejected() {
    assert!(tokenize("x = $").is_none());
    let mut lexer = Lexer::new("$");
    assert!(!lexer.next_lexes());
    assert_eq!(lexer.try_next_token(), None);
}

#[test]
fn eof_repeats() {
    let mut lexer = Lexer::new("x");
    assert_eq!(lexer.next_token(), Token::Ident("x".to_string()));
    assert_eq!(lexer.next_token(), Token::Eof);
    assert_eq!(lexer.next_token(), Token::Eof);
    assert_eq!(lexer.try_next_token(), Some(Token::Eof));
}

fn parse(source: &str) -> String {
    let mut parser = Parser::new(lex(source));
    format!("{:?}", parser.parse_program())
}

#[test]
fn parses_precedence_and_left_associativity() {
    assert_eq!(
        parse("x = 1 - 2 - 3 * 4\n"),
        "[Assign { name: \"x\", value: Binary { left: Binary { left: Int(1), op: Sub, right: Int(2) }, op: Sub, right: Binary { left: Int(3), op: Mul, right: Int(4) } } }]"
    );
}

#[test]
fn parses_parentheses_comparisons_and_print() {
    assert_eq!(
        parse("\nprint (a + b) / c == d < e\n"),
        "[Print(Binary { left: Binary { left: Binary { left: Var(\"a\"), op: Add, right: Var(\"b\") }, op: Div, right: Var(\"c\") }, op: EqEq, right: Binary { left: Var(\"d\"), op: Lt, right: Var(\"e\") } })]"
    );
}

#[test]
fn parses_loop_body_up_to_the_next_loop() {
    // a loop body runs to the end of the tokens or the next `while`
    let tokens = vec![
        Token::While,
        Token::Ident("x".to_string()),
        Token::Colon,
        Token::Newline,
        Token::Print,
        Token::Int(1),
        Token::Newline,
        Token::Eof,
    ];
    let mut parser = Parser::new(tokens);
    assert_eq!(
        format!("{:?}", parser.parse_program()),
        "[While { condition: Var(\"x\"), body: [Print(Int(1))] }]"
    );
}

#[test]
fn lexes_break_and_continue() {
    assert_eq!(lex("break\ncontinue\n"), vec![Token::Break, Token::Newline, Token::Continue, Token::Newline, Token::Eof]);
    assert_eq!(Lexer::new("break").next_token(), Token::Break);
    assert_eq!(Lexer::new("continue").next_token(), Token::Continue);
}

#[test]
fn lexes_string_literals_with_escapes() {
    assert_eq!(lex("\"hi\""), vec![Token::Str("hi".to_string()), Token::Eof]);
    assert_eq!(
        lex("s = \"a\\n\\t\\\\\\\"\\0\\r\"\n"),
        vec![
            Token::Ident("s".to_string()),
            Token::Assign,
            Token::Str("a\n\t\\\"\0\r".to_string()),
            Token::Newline,
            Token::Eof,
        ]
    );
}

#[test]
fn malformed_string_literals_are_rejected() {
    assert!(tokenize("x = \"abc").is_none());
    assert!(tokenize("x = \"a\\q\"").is_none());
}

#[test]
fn parses_all_comparisons() {
    assert_eq!(
        parse("x = a <= 1\n"),
        "[Assign { name: \"x\", value: Binary { left: Var(\"a\"), op: Le, right: Int(1) } }]"
    );
    assert_eq!(
        parse("x = a >= 1 > b\n"),
        "[Assign { name: \"x\", value: Binary { left: Binary { left: Var(\"a\"), op: Ge, right: Int(1) }, op: Gt, right: Var(\"b\") } }]"
    );
}

#[test]
fn parses_break_continue_and_strings() {
    assert_eq!(
        parse("while x:\nbreak\ncontinue\n"),
        "[While { condition: Var(\"x\"), body: [Break, Continue] }]"
    );
    assert_eq!(parse("s = \"hi\"\n"), "[Assign { name: \"s\", value: Str(\"hi\") }]");
}
