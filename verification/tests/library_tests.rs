use jlox::ast::{is_truthy, parse_string_literals, Expr, LiteralValue, Stmt};
use jlox::environment::Environment;
use jlox::number::is_float_text;
use jlox::parser::{create_parser, Parser};
use jlox::scanner::{keyword_type, scan_source, scan_tokens, try_scan_source, ScanError, Token, TokenType};
use jlox::visitor::{walk_expression, AstPrinter};

fn token(token_type: TokenType, lexeme: &str, line: u64) -> Token {
    Token {
        token_type,
        lexeme: String::from(lexeme),
        line,
    }
}

fn number(text: &str) -> Expr {
    Expr::Literal(LiteralValue::Number(String::from(text)))
}

fn printed(expr: &Expr) -> String {
    let mut printer = AstPrinter {
        printed_str: String::new(),
    };
    walk_expression(expr, &mut printer);
    printer.printed_str
}

// ---------------------------------------------------------------------------
// Scanning
// ---------------------------------------------------------------------------

#[test]
fn unterminated_string_is_reported() {
    let out = scan_source("\"abc");
    assert_eq!(
        out.errors,
        vec![ScanError {
            line: 1,
            message: String::from("Unterminated string")
        }]
    );
    assert_eq!(out.tokens, vec![token(TokenType::EOF, "", 1)]);
}

#[test]
fn unterminated_string_counts_its_lines() {
    let out = scan_source("\"a\nb");
    assert_eq!(out.errors.len(), 1);
    assert_eq!(out.errors[0].line, 2);
    assert_eq!(out.tokens, vec![token(TokenType::EOF, "", 2)]);
}

#[test]
fn unexpected_character_is_reported_and_skipped() {
    let out = scan_source("1 @ 2");
    assert_eq!(
        out.errors,
        vec![ScanError {
            line: 1,
            message: String::from("Unexpected character \"@\"")
        }]
    );
    assert_eq!(
        out.tokens,
        vec![
            token(TokenType::Number, "1", 1),
            token(TokenType::Number, "2", 1),
            token(TokenType::EOF, "", 1),
        ]
    );
}

#[test]
fn comments_run_to_the_end_of_the_line() {
    assert_eq!(
        scan_tokens("1 // two\n3"),
        vec![
            token(TokenType::Number, "1", 1),
            token(TokenType::Number, "3", 2),
            token(TokenType::EOF, "", 2),
        ]
    );
}

#[test]
fn number_with_trailing_dot_stops_before_it() {
    assert_eq!(
        scan_tokens("12."),
        vec![
            token(TokenType::Number, "12", 1),
            token(TokenType::Dot, ".", 1),
            token(TokenType::EOF, "", 1),
        ]
    );
}

#[test]
fn string_token_drops_its_quotes_and_ends_on_its_last_line() {
    assert_eq!(
        scan_tokens("\"a\nb\""),
        vec![
            token(TokenType::String, "a\nb", 2),
            token(TokenType::EOF, "", 2),
        ]
    );
}

#[test]
fn eof_line_counts_every_newline() {
    let tokens = scan_tokens("\n\n\n");
    assert_eq!(tokens, vec![token(TokenType::EOF, "", 4)]);
}

#[test]
fn try_scan_source_scans_ordinary_text() {
    let out = try_scan_source("print 1;").unwrap();
    assert_eq!(
        out.tokens,
        vec![
            token(TokenType::Print, "print", 1),
            token(TokenType::Number, "1", 1),
            token(TokenType::SemiColon, ";", 1),
            token(TokenType::EOF, "", 1),
        ]
    );
    assert!(out.errors.is_empty());
}

#[test]
fn keywords_are_recognised() {
    assert_eq!(keyword_type(&String::from("while")), Some(TokenType::While));
    assert_eq!(keyword_type(&String::from("nil")), Some(TokenType::Nil));
    assert_eq!(keyword_type(&String::from("print")), Some(TokenType::Print));
    assert_eq!(keyword_type(&String::from("whilst")), None);
    assert_eq!(keyword_type(&String::from("")), None);
}

// ---------------------------------------------------------------------------
// Number text
// ---------------------------------------------------------------------------

#[test]
fn float_text_accepts_what_f64_parses() {
    for text in ["1", "1.5", ".5", "5.", "1e5", "-2.5E-3", "+7", "inf", "-Infinity", "NaN"] {
        assert!(is_float_text(&String::from(text)), "{}", text);
        assert!(text.parse::<f64>().is_ok());
    }
}

#[test]
fn float_text_refuses_what_f64_refuses() {
    for text in ["", "abc", "+-1", ".", "1e", "1.2.3", "e5", "infinite"] {
        assert!(!is_float_text(&String::from(text)), "{}", text);
        assert!(text.parse::<f64>().is_err());
    }
}

// ---------------------------------------------------------------------------
// Values
// ---------------------------------------------------------------------------

#[test]
fn truthiness() {
    assert!(!is_truthy(&LiteralValue::False));
    assert!(!is_truthy(&LiteralValue::Nil));
    assert!(is_truthy(&LiteralValue::True));
    assert!(is_truthy(&LiteralValue::Number(String::from("0"))));
    assert!(is_truthy(&LiteralValue::String(String::new())));
}

#[test]
fn from_bool_round_trips_through_truthiness() {
    assert_eq!(LiteralValue::from_bool(true), LiteralValue::True);
    assert_eq!(LiteralValue::from_bool(false), LiteralValue::False);
    assert!(is_truthy(&LiteralValue::from_bool(true)));
    assert!(!is_truthy(&LiteralValue::from_bool(false)));
}

#[test]
fn display_text_of_each_value() {
    assert_eq!(LiteralValue::Number(String::from("4.5")).display_text(), "4.5");
    assert_eq!(LiteralValue::String(String::from("hi")).display_text(), "\"hi\"");
    assert_eq!(LiteralValue::True.display_text(), "true");
    assert_eq!(LiteralValue::False.display_text(), "false");
    assert_eq!(LiteralValue::Nil.display_text(), "nil");
}

#[test]
fn string_literals_are_collected_in_order() {
    let values = [
        LiteralValue::String(String::from("a")),
        LiteralValue::String(String::from("b")),
    ];
    let strings = parse_string_literals(&values).unwrap();
    assert_eq!(strings, vec![&String::from("a"), &String::from("b")]);
}

#[test]
fn a_non_string_is_refused() {
    let values = [
        LiteralValue::String(String::from("a")),
        LiteralValue::Nil,
    ];
    assert_eq!(
        parse_string_literals(&values),
        Err(String::from("Found non-number literal"))
    );
}

// ---------------------------------------------------------------------------
// Printing
// ---------------------------------------------------------------------------

#[test]
fn printer_shows_nested_expressions() {
    let expr = Expr::Binary {
        left: Box::new(Expr::Grouping {
            expression: Box::new(number("1")),
        }),
        operator: token(TokenType::Star, "*", 1),
        right: Box::new(Expr::Unary {
            operator: token(TokenType::Minus, "-", 1),
            right: Box::new(number("2")),
        }),
    };
    assert_eq!(printed(&expr), "(* (group 1) (- 2))");
}

#[test]
fn printer_shows_ternary_and_lists() {
    let expr = Expr::Ternary {
        left: Box::new(Expr::Literal(LiteralValue::True)),
        middle: Box::new(number("1")),
        right: Box::new(Expr::Exprs(vec![number("2"), number("3")])),
    };
    assert_eq!(printed(&expr), "(true ? 1 : {expressions 2,3})");
}

#[test]
fn printer_writes_a_nested_list_as_a_list() {
    let expr = Expr::Exprs(vec![Expr::Exprs(vec![number("1"), number("2")]), number("3")]);
    assert_eq!(printed(&expr), "{expressions {expressions 1,2},3}");
}

#[test]
fn printer_shows_a_grouping_inside_a_list() {
    let expr = Expr::Exprs(vec![
        Expr::Grouping {
            expression: Box::new(number("1")),
        },
        Expr::Literal(LiteralValue::Nil),
    ]);
    assert_eq!(printed(&expr), "{expressions (group 1),nil}");
}

#[test]
fn printer_appends_to_what_was_printed() {
    let mut printer = AstPrinter {
        printed_str: String::from("> "),
    };
    walk_expression(&Expr::Literal(LiteralValue::Nil), &mut printer);
    assert_eq!(printer.printed_str, "> nil");
}

// ---------------------------------------------------------------------------
// Parsing
// ---------------------------------------------------------------------------

fn parse_source(source: &str) -> Result<Vec<Stmt>, String> {
    let (mut parser, _, errors) = create_parser(source);
    assert!(errors.is_empty());
    parser.parse()
}

#[test]
fn parses_print_and_expression_statements() {
    assert_eq!(
        parse_source("print 1; 2;"),
        Ok(vec![Stmt::Print(number("1")), Stmt::Expr(number("2"))])
    );
}

#[test]
fn missing_semicolon_is_an_error() {
    assert_eq!(
        parse_source("print 1"),
        Err(String::from("Expect ';' after expression."))
    );
}

#[test]
fn missing_colon_in_ternary_is_an_error() {
    assert_eq!(
        parse_source("true ? 1;"),
        Err(String::from("ternary missing : operator"))
    );
}

#[test]
fn missing_right_paren_is_an_error() {
    assert_eq!(
        parse_source("(1;"),
        Err(String::from("failed to find closing right paren"))
    );
}

#[test]
fn non_literal_token_is_an_error() {
    assert_eq!(
        parse_source(";"),
        Err(String::from("parse_primary() passed a non-literal Token!"))
    );
}

#[test]
fn number_token_with_bad_text_is_an_error() {
    let mut parser = Parser::new(vec![
        token(TokenType::Number, "1x", 1),
        token(TokenType::EOF, "", 1),
    ]);
    assert_eq!(
        parser.expression(),
        Err(String::from("Failed to parse literal number"))
    );
}

#[test]
fn create_parser_reports_semicolons_and_scan_errors() {
    let (_, has_semicolon, errors) = create_parser("1 + 2");
    assert!(!has_semicolon);
    assert!(errors.is_empty());
    let (_, has_semicolon, errors) = create_parser("1 # 2;");
    assert!(has_semicolon);
    assert_eq!(errors.len(), 1);
}

#[test]
fn cursor_moves_and_stops_at_eof() {
    let mut parser = Parser::new(vec![
        token(TokenType::Number, "1", 1),
        token(TokenType::EOF, "", 1),
    ]);
    assert!(!parser.is_at_end());
    assert_eq!(parser.peek().token_type, TokenType::Number);
    assert_eq!(parser.advance().token_type, TokenType::Number);
    assert!(parser.is_at_end());
    assert_eq!(parser.previous().token_type, TokenType::Number);
    // at the end, advancing hands back the token before EOF again
    assert_eq!(parser.advance().token_type, TokenType::Number);
    assert!(parser.is_at_end());
}

#[test]
fn synchronize_skips_past_a_semicolon() {
    let mut parser = Parser::new(vec![
        token(TokenType::Number, "1", 1),
        token(TokenType::Plus, "+", 1),
        token(TokenType::SemiColon, ";", 1),
        token(TokenType::Number, "2", 1),
        token(TokenType::EOF, "", 1),
    ]);
    parser.synchronize();
    assert_eq!(parser.peek().token_type, TokenType::Number);
    assert_eq!(parser.peek().lexeme, "2");
}

#[test]
fn synchronize_stops_before_a_statement_keyword() {
    let mut parser = Parser::new(vec![
        token(TokenType::Number, "1", 1),
        token(TokenType::Plus, "+", 1),
        token(TokenType::Print, "print", 1),
        token(TokenType::EOF, "", 1),
    ]);
    parser.synchronize();
    assert_eq!(parser.peek().token_type, TokenType::Print);
}

// ---------------------------------------------------------------------------
// Scopes
// ---------------------------------------------------------------------------

fn name(text: &str) -> Token {
    token(TokenType::Identifier, text, 1)
}

#[test]
fn get_after_define_gives_the_value() {
    let mut env = Environment::new();
    env.define(String::from("a"), Some(LiteralValue::True));
    assert_eq!(env.get(&name("a")), Ok(LiteralValue::True));
}

#[test]
fn undefined_and_uninitialized_variables_are_errors() {
    let mut env = Environment::new();
    assert_eq!(
        env.get(&name("a")),
        Err(String::from("Undefined variable 'a'."))
    );
    env.define(String::from("a"), None);
    assert_eq!(
        env.get(&name("a")),
        Err(String::from("Variable 'a' uninitialized"))
    );
}

#[test]
fn assign_updates_the_innermost_binding_scope() {
    let mut outer = Environment::new();
    outer.define(String::from("a"), Some(LiteralValue::Nil));
    let mut inner = Environment::from_enclosing(outer);
    assert_eq!(inner.get(&name("a")), Ok(LiteralValue::Nil));
    assert_eq!(inner.assign("a", LiteralValue::True), Ok(()));
    assert_eq!(inner.get(&name("a")), Ok(LiteralValue::True));
    assert_eq!(
        inner.assign("b", LiteralValue::True),
        Err(String::from("Undefined variable 'b'."))
    );
}

#[test]
fn inner_definition_shadows_the_outer_one() {
    let mut outer = Environment::new();
    outer.define(String::from("a"), Some(LiteralValue::Nil));
    let mut inner = Environment::from_enclosing(outer);
    inner.define(String::from("a"), Some(LiteralValue::False));
    assert_eq!(inner.get(&name("a")), Ok(LiteralValue::False));
    inner.define(String::from("a"), Some(LiteralValue::True));
    assert_eq!(inner.get(&name("a")), Ok(LiteralValue::True));
}

#[test]
fn a_parsed_program_stops_at_eof() {
    let (mut parser, _, _) = create_parser("print 1; 2 + 3;");
    assert!(parser.parse().is_ok());
    assert!(parser.is_at_end());
    assert_eq!(parser.peek().token_type, TokenType::EOF);
}

#[test]
fn expression_needs_no_eof_when_it_stops_before_the_end() {
    let mut parser = Parser::new(vec![
        token(TokenType::Number, "1", 1),
        token(TokenType::SemiColon, ";", 1),
    ]);
    assert_eq!(parser.expression(), Ok(number("1")));
    assert_eq!(parser.peek().token_type, TokenType::SemiColon);
}

#[test]
fn parse_reports_an_error_without_eof() {
    let mut parser = Parser::new(vec![
        token(TokenType::Number, "1", 1),
        token(TokenType::Number, "2", 1),
    ]);
    assert_eq!(
        parser.parse(),
        Err(String::from("Expect ';' after expression."))
    );
}

#[test]
fn advance_and_synchronize_work_without_eof() {
    let mut parser = Parser::new(vec![
        token(TokenType::Number, "1", 1),
        token(TokenType::SemiColon, ";", 1),
        token(TokenType::Print, "print", 1),
    ]);
    assert_eq!(parser.advance().lexeme, "1");
    assert_eq!(parser.previous().lexeme, "1");
    let mut parser = Parser::new(vec![
        token(TokenType::Number, "1", 1),
        token(TokenType::SemiColon, ";", 1),
        token(TokenType::Print, "print", 1),
    ]);
    parser.synchronize();
    assert_eq!(parser.peek().token_type, TokenType::Print);
}
