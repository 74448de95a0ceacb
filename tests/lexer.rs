use pepega::lexer::{Lexer, Token, TokenKind};

fn lex_all(input: &str) -> Vec<Token> {
let mut l = Lexer::new(input.into());
let mut out = Vec::new();
loop {
    let t = l.next_token();
    let end = t == Token::EoF;
    out.push(t);
    if end {
        return out;
    }
}
}

#[test]
fn test_tokens() {
    let input = "(){},;=";

    let correct = vec![
        Token::LParen,
        Token::RParen,
        Token::LSquigly,
        Token::RSquigly,
        Token::Comma,
        Token::Semicolon,
        Token::Assign,
    ];

    let mut l = Lexer::new(input.into());

    for correct_token in correct {
        let token = l.next_token();

        assert_eq!(token, correct_token);
    }
}

#[test]
fn test_tokens2() {
    let input = "let five = 5;
let ten = 10;
    let add = fn(x, y) {
     x + y;
    };
let result = add(five, ten);";

    let correct = vec![
        Token::Let,
        Token::Identifier("five".into()),
        Token::Assign,
        Token::Int("5".into()),
        Token::Semicolon,
        Token::Let,
        Token::Identifier("ten".into()),
        Token::Assign,
        Token::Int("10".into()),
        Token::Semicolon,
        Token::Let,
        Token::Identifier("add".into()),
        Token::Assign,
        Token::Function,
        Token::LParen,
        Token::Identifier("x".into()),
        Token::Comma,
        Token::Identifier("y".into()),
        Token::RParen,
        Token::LSquigly,
        Token::Identifier("x".into()),
        Token::Plus,
        Token::Identifier("y".into()),
        Token::Semicolon,
        Token::RSquigly,
        Token::Semicolon,
        Token::Let,
        Token::Identifier("result".into()),
        Token::Assign,
        Token::Identifier("add".into()),
        Token::LParen,
        Token::Identifier("five".into()),
        Token::Comma,
        Token::Identifier("ten".into()),
        Token::RParen,
        Token::Semicolon,
        Token::EoF,
    ];
    let mut l = Lexer::new(input.into());

    for correct_token in correct {
        let token = l.next_token();

        assert_eq!(token, correct_token);
    }
}

#[test]
fn test_tokens3() {
    let input = "let five = 5;
let ten = 10;
    let add = fn(x, y) {
        x + y;
    };
let result = add(five, ten);
!-/*5;
5 < 10 > 5;";

    let correct = vec![
        Token::Let,
        Token::Identifier("five".into()),
        Token::Assign,
        Token::Int("5".into()),
        Token::Semicolon,
        Token::Let,
        Token::Identifier("ten".into()),
        Token::Assign,
        Token::Int("10".into()),
        Token::Semicolon,
        Token::Let,
        Token::Identifier("add".into()),
        Token::Assign,
        Token::Function,
        Token::LParen,
        Token::Identifier("x".into()),
        Token::Comma,
        Token::Identifier("y".into()),
        Token::RParen,
        Token::LSquigly,
        Token::Identifier("x".into()),
        Token::Plus,
        Token::Identifier("y".into()),
        Token::Semicolon,
        Token::RSquigly,
        Token::Semicolon,
        Token::Let,
        Token::Identifier("result".into()),
        Token::Assign,
        Token::Identifier("add".into()),
        Token::LParen,
        Token::Identifier("five".into()),
        Token::Comma,
        Token::Identifier("ten".into()),
        Token::RParen,
        Token::Semicolon,
        Token::Bang,
        Token::Minus,
        Token::Slash,
        Token::Asterisk,
        Token::Int("5".into()),
        Token::Semicolon,
        Token::Int("5".into()),
        Token::LT,
        Token::Int("10".into()),
        Token::GT,
        Token::Int("5".into()),
        Token::Semicolon,
        Token::EoF,
    ];

    let mut l = Lexer::new(input.into());

    for correct_token in correct {
        let token = l.next_token();

        assert_eq!(token, correct_token);
    }
}

#[test]
fn test_tokens4() {
    let input = "if (5 < 10) {
    return true;
} else {
    return false;
}";

    let correct = vec![
        Token::If,
        Token::LParen,
        Token::Int("5".into()),
        Token::LT,
        Token::Int("10".into()),
        Token::RParen,
        Token::LSquigly,
        Token::Return,
        Token::True,
        Token::Semicolon,
        Token::RSquigly,
        Token::Else,
        Token::LSquigly,
        Token::Return,
        Token::False,
        Token::Semicolon,
        Token::RSquigly,
        Token::EoF,
    ];

    let mut l = Lexer::new(input.into());
    for correct_token in correct {
        let token = l.next_token();

        assert_eq!(token, correct_token);
    }
}

#[test]
fn test_tokens5() {
    let input = "10 == 10; 
10 != 9;";

    let correct = vec![
        Token::Int("10".into()),
        Token::Eq,
        Token::Int("10".into()),
        Token::Semicolon,
        Token::Int("10".into()),
        Token::NotEq,
        Token::Int("9".into()),
        Token::Semicolon,
        Token::EoF,
    ];

    let mut l = Lexer::new(input.into());
    for correct_token in correct {
        let token = l.next_token();

        assert_eq!(token, correct_token);
    }
}

#[test]
fn empty_input_stays_at_end() {
    let mut l = Lexer::new(String::new());
    for _ in 0..5 {
        assert_eq!(l.next_token(), Token::EoF);
}
}

#[test]
fn end_of_input_repeats_after_tokens() {
    let mut l = Lexer::new("x;  \n".into());
    assert_eq!(l.next_token(), Token::Identifier("x".into()));
    assert_eq!(l.next_token(), Token::Semicolon);
    for _ in 0..4 {
        assert_eq!(l.next_token(), Token::EoF);
}
}

#[test]
fn punctuation_reads_one_token_per_byte() {
    assert_eq!(
        lex_all("+-*/<>,;(){}=!"),
        vec![
            Token::Plus,
            Token::Minus,
            Token::Asterisk,
            Token::Slash,
            Token::LT,
            Token::GT,
            Token::Comma,
            Token::Semicolon,
            Token::LParen,
            Token::RParen,
            Token::LSquigly,
            Token::RSquigly,
            Token::Assign,
            Token::Bang,
            Token::EoF,
        ]
    );
}

#[test]
fn two_byte_operators_are_maximal() {
    assert_eq!(lex_all("=="), vec![Token::Eq, Token::EoF]);
    assert_eq!(lex_all("!="), vec![Token::NotEq, Token::EoF]);
    assert_eq!(lex_all("= ="), vec![Token::Assign, Token::Assign, Token::EoF]);
    assert_eq!(lex_all("!!="), vec![Token::Bang, Token::NotEq, Token::EoF]);
    assert_eq!(lex_all("==="), vec![Token::Eq, Token::Assign, Token::EoF]);
    assert_eq!(lex_all("!"), vec![Token::Bang, Token::EoF]);
}

#[test]
fn keywords_are_exact_and_case_sensitive() {
    assert_eq!(
        lex_all("let fn if else return true false"),
        vec![
            Token::Let,
            Token::Function,
            Token::If,
            Token::Else,
            Token::Return,
            Token::True,
            Token::False,
            Token::EoF,
        ]
    );
    assert_eq!(
        lex_all("Let lets FN _if x_y"),
        vec![
            Token::Identifier("Let".into()),
            Token::Identifier("lets".into()),
            Token::Identifier("FN".into()),
            Token::Identifier("_if".into()),
            Token::Identifier("x_y".into()),
            Token::EoF,
        ]
    );
}

#[test]
fn whitespace_does_not_change_tokens() {
    let spaced = lex_all("let x = 5;");
    assert_eq!(lex_all("let   x=5;"), spaced);
    assert_eq!(lex_all(" \t\r\nlet\n\nx \t= 5 ;\n"), spaced);
    assert_eq!(
        spaced,
        vec![
            Token::Let,
            Token::Identifier("x".into()),
            Token::Assign,
            Token::Int("5".into()),
            Token::Semicolon,
            Token::EoF,
        ]
    );
}

#[test]
fn letters_and_digits_split() {
    assert_eq!(
        lex_all("abc123 007"),
        vec![
            Token::Identifier("abc".into()),
            Token::Int("123".into()),
            Token::Int("007".into()),
            Token::EoF,
        ]
    );
}

#[test]
fn unknown_bytes_are_illegal() {
    assert_eq!(lex_all("@"), vec![Token::Illegal, Token::EoF]);
    assert_eq!(lex_all("a?b"), vec![
        Token::Identifier("a".into()),
        Token::Illegal,
        Token::Identifier("b".into()),
        Token::EoF,
    ]);
    // a two-byte UTF-8 character gives one illegal token per byte
    assert_eq!(lex_all("\u{e9}"), vec![Token::Illegal, Token::Illegal, Token::EoF]);
}

#[test]
fn zero_byte_ends_the_input() {
    let mut l = Lexer::new("a\0b".into());
    assert_eq!(l.next_token(), Token::Identifier("a".into()));
    assert_eq!(l.next_token(), Token::EoF);
    assert_eq!(l.next_token(), Token::EoF);
}

#[test]
fn tokens_describe_themselves() {
    assert_eq!(Token::Identifier("x".into()).describe(), "Identifier(\"x\")");
    assert_eq!(Token::Int("42".into()).describe(), "Int(\"42\")");
    assert_eq!(Token::Identifier(String::new()).describe(), "Identifier(\"\")");
    assert_eq!(Token::LSquigly.describe(), "LSquigly");
    assert_eq!(Token::EoF.describe(), "EoF");
    assert_eq!(Token::NotEq.kind(), TokenKind::NotEq);
    assert_eq!(Token::Int("1".into()).kind(), TokenKind::Int);
    assert_eq!(TokenKind::Function.name(), "Function");
}

