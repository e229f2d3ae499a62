use jlox::scanner::{scan_tokens, Token, TokenType};

#[test]
fn empty_source() {
    assert_eq!(
        scan_tokens(""),
        vec![Token {
            token_type: TokenType::EOF,
            lexeme: String::from(""),
            line: 1
        }]
    )
}

#[test]
fn single_char_tokens() {
    assert_eq!(
        scan_tokens("( )"),
        vec![
            Token {
                token_type: TokenType::LeftParen,
                lexeme: String::from("("),
                line: 1
            },
            Token {
                token_type: TokenType::RightParen,
                lexeme: String::from(")"),
                line: 1
            },
            Token {
                token_type: TokenType::EOF,
                lexeme: String::from(""),
                line: 1
            }
        ]
    );
}

#[test]
fn one_or_two_char_tokens() {
    assert_eq!(
        scan_tokens("!== >==< <="),
        vec![
            Token {
                token_type: TokenType::BangEqual,
                lexeme: String::from("!="),
                line: 1
            },
            Token {
                token_type: TokenType::Equal,
                lexeme: String::from("="),
                line: 1
            },
            Token {
                token_type: TokenType::GreaterEqual,
                lexeme: String::from(">="),
                line: 1
            },
            Token {
                token_type: TokenType::Equal,
                lexeme: String::from("="),
                line: 1
            },
            Token {
                token_type: TokenType::Less,
                lexeme: String::from("<"),
                line: 1
            },
            Token {
                token_type: TokenType::LessEqual,
                lexeme: String::from("<="),
                line: 1
            },
            Token {
                token_type: TokenType::EOF,
                lexeme: String::from(""),
                line: 1
            }
        ]
    );
}

#[test]
fn strings() {
    assert_eq!(
        scan_tokens("\"some string\""),
        vec![
            Token {
                token_type: TokenType::String,
                lexeme: String::from("some string"),
                line: 1
            },
            Token {
                token_type: TokenType::EOF,
                lexeme: String::from(""),
                line: 1
            }
        ]
    );
}

#[test]
fn tokenizes_numbers() {
    assert_eq!(
        scan_tokens("12345 6789.420 6969."),
        vec![
            Token {
                token_type: TokenType::Number,
                lexeme: String::from("12345"),
                line: 1
            },
            Token {
                token_type: TokenType::Number,
                lexeme: String::from("6789.420"),
                line: 1
            },
            Token {
                token_type: TokenType::Number,
                lexeme: String::from("6969"),
                line: 1
            },
            Token {
                token_type: TokenType::Dot,
                lexeme: String::from("."),
                line: 1
            },
            Token {
                token_type: TokenType::EOF,
                lexeme: String::from(""),
                line: 1
            }
        ]
    );
}

#[test]
fn identifiers_and_keywords() {
    assert_eq!(
        scan_tokens("class return else if some_identifier"),
        vec![
            Token {
                token_type: TokenType::Class,
                lexeme: String::from("class"),
                line: 1
            },
            Token {
                token_type: TokenType::Return,
                lexeme: String::from("return"),
                line: 1
            },
            Token {
                token_type: TokenType::Else,
                lexeme: String::from("else"),
                line: 1
            },
            Token {
                token_type: TokenType::If,
                lexeme: String::from("if"),
                line: 1
            },
            Token {
                token_type: TokenType::Identifier,
                lexeme: String::from("some_identifier"),
                line: 1
            },
            Token {
                token_type: TokenType::EOF,
                lexeme: String::from(""),
                line: 1
            }
        ]
    );
}

#[test]
fn multi_line_source() {
    let s = "
(
      
)
";

    assert_eq!(
        scan_tokens(s),
        vec![
            Token {
                token_type: TokenType::LeftParen,
                lexeme: String::from("("),
                line: 2
            },
            Token {
                token_type: TokenType::RightParen,
                lexeme: String::from(")"),
                line: 4
            },
            Token {
                token_type: TokenType::EOF,
                lexeme: String::from(""),
                line: 5
            }
        ]
    );
}

#[test]
fn complex_case() {
    assert_eq!(
        scan_tokens(
            "() \"some word\" != !
// some comment
/
"
        ),
        vec![
            Token {
                token_type: TokenType::LeftParen,
                lexeme: String::from("("),
                line: 1
            },
            Token {
                token_type: TokenType::RightParen,
                lexeme: String::from(")"),
                line: 1
            },
            Token {
                token_type: TokenType::String,
                lexeme: String::from("some word"),
                line: 1
            },
            Token {
                token_type: TokenType::BangEqual,
                lexeme: String::from("!="),
                line: 1
            },
            Token {
                token_type: TokenType::Bang,
                lexeme: String::from("!"),
                line: 1
            },
            Token {
                token_type: TokenType::Slash,
                lexeme: String::from("/"),
                line: 3
            },
            Token {
                token_type: TokenType::EOF,
                lexeme: String::from(""),
                line: 4
            }
        ]
    );
}
