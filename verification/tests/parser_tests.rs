use jlox::ast::{Expr, LiteralValue};
use jlox::parser::Parser;
use jlox::scanner::{Token, TokenType};
use jlox::visitor::{walk_expression, AstPrinter};

#[test]
fn literals() {
    let mut ast_visitor = AstPrinter {
        printed_str: String::new(),
    };
    walk_expression(
        &Expr::Literal(LiteralValue::Number(String::from("12345"))),
        &mut ast_visitor,
    );
    assert_eq!(ast_visitor.printed_str, "12345");

    ast_visitor.printed_str = String::new();
    walk_expression(
        &Expr::Literal(LiteralValue::String(String::from("some string"))),
        &mut ast_visitor,
    );
    assert_eq!(ast_visitor.printed_str, "\"some string\"");
}

#[test]
fn unary_expression() {
    let unary_expression = &Expr::Unary {
        operator: Token {
            token_type: TokenType::Bang,
            lexeme: String::from("!"),
            line: 1,
        },
        right: Box::new(Expr::Literal(LiteralValue::Number(String::from("12345")))),
    };

    let mut ast_visitor = AstPrinter {
        printed_str: String::new(),
    };
    walk_expression(unary_expression, &mut ast_visitor);

    assert_eq!(ast_visitor.printed_str, "(! 12345)");
}

#[test]
fn complex_expression() {
    let expr = &Expr::Binary {
        left: Box::new(Expr::Unary {
            operator: Token {
                token_type: TokenType::Minus,
                lexeme: String::from("-"),
                line: 1,
            },
            right: Box::new(Expr::Literal(LiteralValue::Number(String::from("123")))),
        }),
        operator: Token {
            token_type: TokenType::Star,
            lexeme: String::from("*"),
            line: 1,
        },
        right: Box::new(Expr::Grouping {
            expression: Box::new(Expr::Literal(LiteralValue::Number(String::from("45.67")))),
        }),
    };

    let mut ast_visitor = AstPrinter {
        printed_str: String::new(),
    };
    walk_expression(expr, &mut ast_visitor);
    assert_eq!(ast_visitor.printed_str, "(* (- 123) (group 45.67))");
}

#[test]
fn empty_tokens() {
    let mut parser = Parser::new(vec![Token {
        token_type: TokenType::EOF,
        lexeme: String::from(""),
        line: 0,
    }]);

    assert!(parser.parse().is_ok());
}

#[test]
fn simple_literals() -> Result<(), String> {
    let mut number_parser = Parser::new(vec![
        Token {
            token_type: TokenType::Number,
            lexeme: String::from("12345"),
            line: 0,
        },
        Token {
            token_type: TokenType::EOF,
            lexeme: String::from(""),
            line: 0,
        },
    ]);

    let mut ast = number_parser.expression()?;
    assert_eq!(ast, Expr::Literal(LiteralValue::Number(String::from("12345"))));

    let mut string_parser = Parser::new(vec![
        Token {
            token_type: TokenType::String,
            lexeme: String::from("some_string"),
            line: 0,
        },
        Token {
            token_type: TokenType::EOF,
            lexeme: String::from(""),
            line: 0,
        },
    ]);

    ast = string_parser.expression()?;
    assert_eq!(
        ast,
        Expr::Literal(LiteralValue::String(String::from("some_string")))
    );

    return Ok(());
}

#[test]
fn arithemtic() -> Result<(), String> {
    let mut ast_visitor = AstPrinter {
        printed_str: String::new(),
    };

    // 1 - 6 / 3
    let mut parser = Parser::new(vec![
        Token {
            token_type: TokenType::Number,
            lexeme: String::from("1"),
            line: 0,
        },
        Token {
            token_type: TokenType::Minus,
            lexeme: String::from("-"),
            line: 0,
        },
        Token {
            token_type: TokenType::Number,
            lexeme: String::from("6"),
            line: 0,
        },
        Token {
            token_type: TokenType::Slash,
            lexeme: String::from("/"),
            line: 0,
        },
        Token {
            token_type: TokenType::Number,
            lexeme: String::from("3"),
            line: 0,
        },
        Token {
            token_type: TokenType::EOF,
            lexeme: String::from(""),
            line: 0,
        },
    ]);

    // parse list of tokens into AST
    let ast = parser.expression()?;

    // check the result using the AST visitor
    walk_expression(&ast, &mut ast_visitor);
    assert_eq!(ast_visitor.printed_str, "(- 1 (/ 6 3))");

    return Ok(());
}

#[test]
fn grouping() -> Result<(), String> {
    let mut ast_visitor = AstPrinter {
        printed_str: String::new(),
    };

    let mut parser = Parser::new(vec![
        Token {
            token_type: TokenType::LeftParen,
            lexeme: String::from("("),
            line: 0,
        },
        Token {
            token_type: TokenType::Number,
            lexeme: String::from("1"),
            line: 0,
        },
        Token {
            token_type: TokenType::Plus,
            lexeme: String::from("+"),
            line: 0,
        },
        Token {
            token_type: TokenType::Number,
            lexeme: String::from("2"),
            line: 0,
        },
        Token {
            token_type: TokenType::RightParen,
            lexeme: String::from(")"),
            line: 0,
        },
        Token {
            token_type: TokenType::EOF,
            lexeme: String::new(),
            line: 0,
        },
    ]);

    let ast = parser.expression()?;

    // check the result using the AST visitor
    walk_expression(&ast, &mut ast_visitor);
    assert_eq!(ast_visitor.printed_str, "(group (+ 1 2))");

    return Ok(());
}

#[test]
fn commas() -> Result<(), String> {
    let mut ast_visitor = AstPrinter {
        printed_str: String::new(),
    };

    let mut parser = Parser::new(vec![
        Token {
            token_type: TokenType::Number,
            lexeme: String::from("1"),
            line: 0,
        },
        Token {
            token_type: TokenType::Minus,
            lexeme: String::from("+"),
            line: 0,
        },
        Token {
            token_type: TokenType::Number,
            lexeme: String::from("2"),
            line: 0,
        },
        Token {
            token_type: TokenType::Comma,
            lexeme: String::from(","),
            line: 0,
        },
        Token {
            token_type: TokenType::LeftParen,
            lexeme: String::from("("),
            line: 0,
        },
        Token {
            token_type: TokenType::Number,
            lexeme: String::from("3"),
            line: 0,
        },
        Token {
            token_type: TokenType::Minus,
            lexeme: String::from("+"),
            line: 0,
        },
        Token {
            token_type: TokenType::Number,
            lexeme: String::from("4"),
            line: 0,
        },
        Token {
            token_type: TokenType::RightParen,
            lexeme: String::from(")"),
            line: 0,
        },
        Token {
            token_type: TokenType::EOF,
            lexeme: String::from(""),
            line: 0,
        },
    ]);

    let ast = parser.expression()?;

    // check the result using the AST visitor
    walk_expression(&ast, &mut ast_visitor);
    assert_eq!(
        ast_visitor.printed_str,
        "{expressions (+ 1 2),(group (+ 3 4))}"
    );

    return Ok(());
}

#[test]
fn ternary() -> Result<(), String> {
    let mut ast_visitor = AstPrinter {
        printed_str: String::new(),
    };

    let mut parser = Parser::new(vec![
        Token {
            token_type: TokenType::True,
            lexeme: String::from("true"),
            line: 0,
        },
        Token {
            token_type: TokenType::QuestionMark,
            lexeme: String::from("?"),
            line: 0,
        },
        Token {
            token_type: TokenType::Number,
            lexeme: String::from("1"),
            line: 0,
        },
        Token {
            token_type: TokenType::Plus,
            lexeme: String::from("+"),
            line: 0,
        },
        Token {
            token_type: TokenType::Number,
            lexeme: String::from("2"),
            line: 0,
        },
        Token {
            token_type: TokenType::Colon,
            lexeme: String::from(":"),
            line: 0,
        },
        Token {
            token_type: TokenType::Number,
            lexeme: String::from("3"),
            line: 0,
        },
        Token {
            token_type: TokenType::EOF,
            lexeme: String::from(""),
            line: 0,
        },
    ]);

    let ast = parser.expression()?;

    // check the result using the AST visitor
    walk_expression(&ast, &mut ast_visitor);
    assert_eq!(ast_visitor.printed_str, "(true ? (+ 1 2) : 3)");

    return Ok(());
}

#[test]
fn multiple_ternarys() -> Result<(), String> {
    let mut ast_visitor = AstPrinter {
        printed_str: String::new(),
    };

    let mut parser = Parser::new(vec![
        Token {
            token_type: TokenType::True,
            lexeme: String::from("false"),
            line: 0,
        },
        Token {
            token_type: TokenType::QuestionMark,
            lexeme: String::from("?"),
            line: 0,
        },
        Token {
            token_type: TokenType::String,
            lexeme: String::from("first"),
            line: 0,
        },
        Token {
            token_type: TokenType::Colon,
            lexeme: String::from(":"),
            line: 0,
        },
        Token {
            token_type: TokenType::True,
            lexeme: String::from("true"),
            line: 0,
        },
        Token {
            token_type: TokenType::QuestionMark,
            lexeme: String::from("?"),
            line: 0,
        },
        Token {
            token_type: TokenType::String,
            lexeme: String::from("second"),
            line: 0,
        },
        Token {
            token_type: TokenType::Colon,
            lexeme: String::from(":"),
            line: 0,
        },
        Token {
            token_type: TokenType::String,
            lexeme: String::from("third"),
            line: 0,
        },
        Token {
            token_type: TokenType::EOF,
            lexeme: String::from(""),
            line: 0,
        },
    ]);

    let ast = parser.expression()?;

    // check the result using the AST visitor
    walk_expression(&ast, &mut ast_visitor);
    assert_eq!(
        ast_visitor.printed_str,
        "(true ? \"first\" : (true ? \"second\" : \"third\"))"
    );

    return Ok(());
}
