//! A recursive-descent parser for Lox.
//!
//! The grammar, from lowest to highest precedence:
//!
//! ```text
//! program    → statement* EOF ;
//! statement  → "print" expression ";" | expression ";" ;
//! expression → ternary ( "," ternary )* ;
//! ternary    → equality ( "?" ternary ":" ternary )? ;
//! equality   → comparison ( ( "!=" | "==" ) comparison )* ;
//! comparison → term ( ( ">" | ">=" | "<" | "<=" ) term )* ;
//! term       → factor ( ( "-" | "+" ) factor )* ;
//! factor     → unary ( ( "/" | "*" ) unary )* ;
//! unary      → ( "!" | "-" ) unary | primary ;
//! primary    → NUMBER | STRING | "true" | "false" | "nil"
//!            | "(" expression ")" ;
//! ```
//!
//! The spec functions below read a sequence of token views from a position
//! and say how many tokens a rule uses and what it yields.
use crate::ast::{
    Expr, ExprModel, LiteralModel, LiteralValue, Stmt, StmtModel, expr_list_view,
    lemma_expr_list_view, stmt_views,
};
use crate::number::{is_float_text, valid_float_text};
use crate::scanner::{
    ScanError, Token, count_newlines, TokenType, TokenView, error_views, lemma_scan_ends_with_eof, scan_source, scan_spec,
    token_views,
};
use vstd::prelude::*;

verus! {

/// How many tokens a rule used, and what it yielded.
pub struct Parsed<T> {
    pub used: nat,
    pub result: Result<T, Seq<char>>,
}

impl<T> Parsed<T> {
    /// The same outcome after `extra` more tokens were read before it.
    pub open spec fn add_used(self, extra: nat) -> Parsed<T> {
        Parsed { used: extra + self.used, result: self.result }
    }
}

pub open spec fn parse_error<T>(used: nat, message: Seq<char>) -> Parsed<T> {
    Parsed { used, result: Err(message) }
}

/// The number of tokens from `pos` to the end (0 outside the sequence).
pub open spec fn remaining(t: Seq<TokenView>, pos: int) -> nat {
    if 0 <= pos < t.len() {
        (t.len() - pos) as nat
    } else {
        0
    }
}

/// Some token at or after `pos` is `EOF`: the parser never reads past it.
pub open spec fn has_eof_from(t: Seq<TokenView>, pos: int) -> bool {
    exists|j: int| pos <= j < t.len() && #[trigger] t[j].token_type == TokenType::EOF
}

/// How many tokens `advance` moves over at `pos`: none at `EOF`.
pub open spec fn advance_used(t: Seq<TokenView>, pos: int) -> nat {
    if t[pos].token_type == TokenType::EOF {
        0
    } else {
        1
    }
}

/// The token `advance` returns at `pos`: the one at `pos`, or at `EOF` the
/// one before it.
pub open spec fn advanced_token(t: Seq<TokenView>, pos: int) -> TokenView {
    if t[pos].token_type == TokenType::EOF {
        t[pos - 1]
    } else {
        t[pos]
    }
}

pub open spec fn missing_colon_message() -> Seq<char> {
    "ternary missing : operator"@
}

pub open spec fn bad_number_message() -> Seq<char> {
    "Failed to parse literal number"@
}

pub open spec fn missing_paren_message() -> Seq<char> {
    "failed to find closing right paren"@
}

pub open spec fn not_primary_message() -> Seq<char> {
    "parse_primary() passed a non-literal Token!"@
}

pub open spec fn missing_semicolon_message() -> Seq<char> {
    "Expect ';' after expression."@
}

/// The operators of a binary level: 3 is equality, 2 comparison, 1 term,
/// 0 factor.
pub open spec fn level_operator(level: nat, kind: TokenType) -> bool {
    if level == 3 {
        kind == TokenType::EqualEqual || kind == TokenType::BangEqual
    } else if level == 2 {
        kind == TokenType::Greater || kind == TokenType::GreaterEqual || kind == TokenType::Less
            || kind == TokenType::LessEqual
    } else if level == 1 {
        kind == TokenType::Plus || kind == TokenType::Minus
    } else {
        kind == TokenType::Star || kind == TokenType::Slash
    }
}

/// `expression → ternary ( "," ternary )*`: one expression alone, or the
/// list of them.
pub open spec fn parse_expression(t: Seq<TokenView>, pos: int) -> Parsed<ExprModel>
    decreases remaining(t, pos), 12nat,
{
    if !(0 <= pos < t.len()) {
        parse_error(0, Seq::empty())
    } else {
        let head = parse_ternary(t, pos);
        match head.result {
            Err(e) => parse_error(head.used, e),
            Ok(first) => {
                let tail = parse_expression_tail(t, pos + head.used, seq![first]);
                Parsed { used: head.used + tail.used, result: tail.result }
            },
        }
    }
}

/// The rest of a comma list whose expressions so far are `acc`.
pub open spec fn parse_expression_tail(t: Seq<TokenView>, pos: int, acc: Seq<ExprModel>) -> Parsed<ExprModel>
    decreases remaining(t, pos), 11nat,
{
    if !(0 <= pos < t.len()) {
        parse_error(0, Seq::empty())
    } else if t[pos].token_type == TokenType::Comma {
        let next = parse_ternary(t, pos + 1);
        match next.result {
            Err(e) => parse_error(1 + next.used, e),
            Ok(e) => {
                let tail = parse_expression_tail(t, pos + 1 + next.used, acc.push(e));
                Parsed { used: 1 + next.used + tail.used, result: tail.result }
            },
        }
    } else if acc.len() == 1 {
        Parsed { used: 0, result: Ok(acc[0]) }
    } else {
        Parsed { used: 0, result: Ok(ExprModel::Exprs(acc)) }
    }
}

/// `ternary → equality ( "?" ternary ":" ternary )?`
pub open spec fn parse_ternary(t: Seq<TokenView>, pos: int) -> Parsed<ExprModel>
    decreases remaining(t, pos), 10nat,
{
    if !(0 <= pos < t.len()) {
        parse_error(0, Seq::empty())
    } else {
        let guard = parse_level(t, pos, 3);
        match guard.result {
            Err(e) => parse_error(guard.used, e),
            Ok(left) => {
                let p1 = pos + guard.used;
                if t[p1].token_type != TokenType::QuestionMark {
                    Parsed { used: guard.used, result: Ok(left) }
                } else {
                    let first = parse_ternary(t, p1 + 1);
                    match first.result {
                        Err(e) => parse_error(guard.used + 1 + first.used, e),
                        Ok(middle) => {
                            let p2 = p1 + 1 + first.used;
                            if t[p2].token_type != TokenType::Colon {
                                parse_error(guard.used + 1 + first.used, missing_colon_message())
                            } else {
                                let second = parse_ternary(t, p2 + 1);
                                let used = guard.used + 1 + first.used + 1 + second.used;
                                match second.result {
                                    Err(e) => parse_error(used, e),
                                    Ok(right) => Parsed {
                                        used,
                                        result: Ok(ExprModel::Ternary {
                                            left: Box::new(left),
                                            middle: Box::new(middle),
                                            right: Box::new(right),
                                        }),
                                    },
                                }
                            }
                        },
                    }
                }
            },
        }
    }
}

/// A binary level: `operand ( operator operand )*`, grouping to the left.
/// The operand of a level is the level below it, and of level 0 a unary.
pub open spec fn parse_level(t: Seq<TokenView>, pos: int, level: nat) -> Parsed<ExprModel>
    decreases remaining(t, pos), 3 + 2 * level,
{
    if !(0 <= pos < t.len()) || level > 3 {
        parse_error(0, Seq::empty())
    } else {
        let first = parse_operand(t, pos, level);
        match first.result {
            Err(e) => parse_error(first.used, e),
            Ok(left) => {
                let tail = parse_level_tail(t, pos + first.used, level, left);
                Parsed { used: first.used + tail.used, result: tail.result }
            },
        }
    }
}

/// The operand of a binary level.
pub open spec fn parse_operand(t: Seq<TokenView>, pos: int, level: nat) -> Parsed<ExprModel>
    decreases remaining(t, pos), 2 + 2 * level,
{
    if !(0 <= pos < t.len()) || level > 3 {
        parse_error(0, Seq::empty())
    } else if level == 0 {
        parse_unary(t, pos)
    } else {
        parse_level(t, pos, (level - 1) as nat)
    }
}

/// The rest of a binary level whose expression so far is `left`.
pub open spec fn parse_level_tail(t: Seq<TokenView>, pos: int, level: nat, left: ExprModel) -> Parsed<ExprModel>
    decreases remaining(t, pos), 2 + 2 * level,
{
    if !(0 <= pos < t.len()) || level > 3 {
        parse_error(0, Seq::empty())
    } else if level_operator(level, t[pos].token_type) {
        let operator = t[pos];
        let next = parse_operand(t, pos + 1, level);
        match next.result {
            Err(e) => parse_error(1 + next.used, e),
            Ok(right) => {
                let tail = parse_level_tail(
                    t,
                    pos + 1 + next.used,
                    level,
                    ExprModel::Binary { left: Box::new(left), operator, right: Box::new(right) },
                );
                Parsed { used: 1 + next.used + tail.used, result: tail.result }
            },
        }
    } else {
        Parsed { used: 0, result: Ok(left) }
    }
}

/// `unary → ( "!" | "-" ) unary | primary`
pub open spec fn parse_unary(t: Seq<TokenView>, pos: int) -> Parsed<ExprModel>
    decreases remaining(t, pos), 1nat,
{
    if !(0 <= pos < t.len()) {
        parse_error(0, Seq::empty())
    } else if t[pos].token_type == TokenType::Bang || t[pos].token_type == TokenType::Minus {
        let operator = t[pos];
        let right = parse_unary(t, pos + 1);
        match right.result {
            Err(e) => parse_error(1 + right.used, e),
            Ok(r) => Parsed {
                used: 1 + right.used,
                result: Ok(ExprModel::Unary { operator, right: Box::new(r) }),
            },
        }
    } else {
        parse_primary(t, pos)
    }
}

/// `primary → NUMBER | STRING | "true" | "false" | "nil" | "(" expression ")"`
pub open spec fn parse_primary(t: Seq<TokenView>, pos: int) -> Parsed<ExprModel>
    decreases remaining(t, pos), 0nat,
{
    if !(0 <= pos < t.len()) {
        parse_error(0, Seq::empty())
    } else {
        let token = t[pos];
        if token.token_type == TokenType::False {
            Parsed { used: 1, result: Ok(ExprModel::Literal(LiteralModel::False)) }
        } else if token.token_type == TokenType::True {
            Parsed { used: 1, result: Ok(ExprModel::Literal(LiteralModel::True)) }
        } else if token.token_type == TokenType::Nil {
            Parsed { used: 1, result: Ok(ExprModel::Literal(LiteralModel::Nil)) }
        } else if token.token_type == TokenType::String {
            Parsed { used: 1, result: Ok(ExprModel::Literal(LiteralModel::Str(token.lexeme))) }
        } else if token.token_type == TokenType::Number {
            if valid_float_text(token.lexeme) {
                Parsed { used: 1, result: Ok(ExprModel::Literal(LiteralModel::Number(token.lexeme))) }
            } else {
                parse_error(1, bad_number_message())
            }
        } else if token.token_type == TokenType::LeftParen {
            let inner = parse_expression(t, pos + 1);
            match inner.result {
                Err(e) => parse_error(1 + inner.used, e),
                Ok(expression) => {
                    let p2 = pos + 1 + inner.used;
                    let used = 1 + inner.used + advance_used(t, p2);
                    if advanced_token(t, p2).token_type == TokenType::RightParen {
                        Parsed {
                            used,
                            result: Ok(ExprModel::Grouping { expression: Box::new(expression) }),
                        }
                    } else {
                        parse_error(used, missing_paren_message())
                    }
                },
            }
        } else {
            parse_error(0, not_primary_message())
        }
    }
}

/// `statement → "print" expression ";" | expression ";"`
pub open spec fn parse_statement(t: Seq<TokenView>, pos: int) -> Parsed<StmtModel> {
    if !(0 <= pos < t.len()) {
        parse_error(0, Seq::empty())
    } else {
        let printed = t[pos].token_type == TokenType::Print;
        let start = if printed { pos + 1 } else { pos };
        let skipped: nat = if printed { 1 } else { 0 };
        let e = parse_expression(t, start);
        match e.result {
            Err(m) => parse_error(skipped + e.used, m),
            Ok(expr) => {
                let p2 = start + e.used;
                let used = skipped + e.used + advance_used(t, p2);
                if advanced_token(t, p2).token_type == TokenType::SemiColon {
                    Parsed {
                        used,
                        result: Ok(if printed { StmtModel::Print(expr) } else { StmtModel::Expr(expr) }),
                    }
                } else {
                    parse_error(used, missing_semicolon_message())
                }
            },
        }
    }
}

/// `prefix` put before the statements of `r`, if it has any.
pub open spec fn prepend_all(prefix: Seq<StmtModel>, r: Result<Seq<StmtModel>, Seq<char>>) -> Result<
    Seq<StmtModel>,
    Seq<char>,
> {
    match r {
        Ok(stmts) => Ok(prefix + stmts),
        Err(m) => Err(m),
    }
}

/// `program → statement* EOF`: the statements up to the first `EOF`, or the
/// first error.
pub open spec fn parse_program(t: Seq<TokenView>, pos: int) -> Parsed<Seq<StmtModel>>
    decreases remaining(t, pos),
{
    if !(0 <= pos < t.len()) {
        parse_error(0, Seq::empty())
    } else if t[pos].token_type == TokenType::EOF {
        Parsed { used: 0, result: Ok(Seq::empty()) }
    } else {
        let first = parse_statement(t, pos);
        proof {
            lemma_statement_consumes(t, pos);
        }
        match first.result {
            Err(m) => parse_error(first.used, m),
            Ok(stmt) => {
                let rest = parse_program(t, pos + first.used);
                Parsed { used: first.used + rest.used, result: prepend_all(seq![stmt], rest.result) }
            },
        }
    }
}

/// Parsing an expression at `pos` looks only at tokens of `t`: every
/// token it reads, up to the one after the expression, is there.
pub open spec fn fits_expression(t: Seq<TokenView>, pos: int) -> bool
    decreases remaining(t, pos), 12nat,
{
    let head = parse_ternary(t, pos);
    &&& 0 <= pos < t.len()
    &&& fits_ternary(t, pos)
    &&& (head.result is Ok ==> fits_expression_tail(t, pos + head.used))
}

/// The rest of a comma list at `pos` looks only at tokens of `t`.
pub open spec fn fits_expression_tail(t: Seq<TokenView>, pos: int) -> bool
    decreases remaining(t, pos), 11nat,
{
    let next = parse_ternary(t, pos + 1);
    &&& 0 <= pos < t.len()
    &&& (t[pos].token_type == TokenType::Comma ==> {
        &&& fits_ternary(t, pos + 1)
        &&& (next.result is Ok ==> fits_expression_tail(t, pos + 1 + next.used))
    })
}

/// Parsing a ternary at `pos` looks only at tokens of `t`.
pub open spec fn fits_ternary(t: Seq<TokenView>, pos: int) -> bool
    decreases remaining(t, pos), 10nat,
{
    let guard = parse_level(t, pos, 3);
    let p1 = pos + guard.used;
    let first = parse_ternary(t, p1 + 1);
    let p2 = p1 + 1 + first.used;
    &&& 0 <= pos < t.len()
    &&& fits_level(t, pos, 3)
    &&& (guard.result is Ok ==> {
        &&& p1 < t.len()
        &&& (t[p1].token_type == TokenType::QuestionMark ==> {
            &&& fits_ternary(t, p1 + 1)
            &&& (first.result is Ok ==> {
                &&& p2 < t.len()
                &&& (t[p2].token_type == TokenType::Colon ==> fits_ternary(t, p2 + 1))
            })
        })
    })
}

/// Parsing a binary level at `pos` looks only at tokens of `t`.
pub open spec fn fits_level(t: Seq<TokenView>, pos: int, level: nat) -> bool
    decreases remaining(t, pos), 3 + 2 * level,
{
    let first = parse_operand(t, pos, level);
    &&& 0 <= pos < t.len()
    &&& level <= 3
    &&& fits_operand(t, pos, level)
    &&& (first.result is Ok ==> fits_level_tail(t, pos + first.used, level))
}

/// Parsing the operand of a binary level at `pos` looks only at tokens of
/// `t`.
pub open spec fn fits_operand(t: Seq<TokenView>, pos: int, level: nat) -> bool
    decreases remaining(t, pos), 2 + 2 * level,
{
    &&& 0 <= pos < t.len()
    &&& level <= 3
    &&& if level == 0 {
        fits_unary(t, pos)
    } else {
        fits_level(t, pos, (level - 1) as nat)
    }
}

/// The rest of a binary level at `pos` looks only at tokens of `t`.
pub open spec fn fits_level_tail(t: Seq<TokenView>, pos: int, level: nat) -> bool
    decreases remaining(t, pos), 2 + 2 * level,
{
    let next = parse_operand(t, pos + 1, level);
    &&& 0 <= pos < t.len()
    &&& level <= 3
    &&& (level_operator(level, t[pos].token_type) ==> {
        &&& fits_operand(t, pos + 1, level)
        &&& (next.result is Ok ==> fits_level_tail(t, pos + 1 + next.used, level))
    })
}

/// Parsing a unary expression at `pos` looks only at tokens of `t`.
pub open spec fn fits_unary(t: Seq<TokenView>, pos: int) -> bool
    decreases remaining(t, pos), 1nat,
{
    &&& 0 <= pos < t.len()
    &&& if t[pos].token_type == TokenType::Bang || t[pos].token_type == TokenType::Minus {
        fits_unary(t, pos + 1)
    } else {
        fits_primary(t, pos)
    }
}

/// Parsing a primary expression at `pos` looks only at tokens of `t`.
pub open spec fn fits_primary(t: Seq<TokenView>, pos: int) -> bool
    decreases remaining(t, pos), 0nat,
{
    let inner = parse_expression(t, pos + 1);
    &&& 0 <= pos < t.len()
    &&& (t[pos].token_type == TokenType::LeftParen ==> {
        &&& fits_expression(t, pos + 1)
        &&& (inner.result is Ok ==> pos + 1 + inner.used < t.len())
    })
}

/// Parsing a statement at `pos` looks only at tokens of `t`.
pub open spec fn fits_statement(t: Seq<TokenView>, pos: int) -> bool {
    let start = if 0 <= pos < t.len() && t[pos].token_type == TokenType::Print { pos + 1 } else { pos };
    let e = parse_expression(t, start);
    &&& 0 <= pos < t.len()
    &&& fits_expression(t, start)
    &&& (e.result is Ok ==> start + e.used < t.len())
}

/// Parsing the statements from `pos` looks only at tokens of `t`.
pub open spec fn fits_program(t: Seq<TokenView>, pos: int) -> bool
    decreases remaining(t, pos),
{
    if !(0 <= pos < t.len()) {
        false
    } else if t[pos].token_type == TokenType::EOF {
        true
    } else {
        let first = parse_statement(t, pos);
        proof {
            lemma_statement_consumes(t, pos);
        }
        fits_statement(t, pos) && (first.result is Ok ==> fits_program(t, pos + first.used))
    }
}

/// The keywords that begin a statement, where error recovery stops.
pub open spec fn starts_statement(kind: TokenType) -> bool {
    kind == TokenType::Class || kind == TokenType::Fun || kind == TokenType::Var || kind
        == TokenType::For || kind == TokenType::If || kind == TokenType::While || kind
        == TokenType::Print || kind == TokenType::Return
}

/// Error recovery that has moved on to `pos` stops at a token of `t`: it
/// meets `EOF`, a token after a `;` or a statement keyword before it runs
/// out of tokens.
pub open spec fn recovery_in_bounds(t: Seq<TokenView>, pos: int) -> bool
    decreases remaining(t, pos),
{
    if !(0 <= pos < t.len()) {
        false
    } else if t[pos].token_type == TokenType::EOF {
        true
    } else if t[pos - 1].token_type == TokenType::SemiColon || starts_statement(t[pos].token_type) {
        true
    } else {
        recovery_in_bounds(t, pos + 1)
    }
}

/// Where error recovery that has moved on to `pos` stops: at `EOF`, after a
/// `;`, or before a keyword that begins a statement.
pub open spec fn recovery_point(t: Seq<TokenView>, pos: int) -> int
    decreases remaining(t, pos),
{
    if !(0 <= pos < t.len()) || t[pos].token_type == TokenType::EOF {
        pos
    } else if t[pos - 1].token_type == TokenType::SemiColon || starts_statement(t[pos].token_type) {
        pos
    } else {
        recovery_point(t, pos + 1)
    }
}

/// Putting two lists of statements in front, one after the other, puts
/// their concatenation in front.
pub proof fn lemma_prepend_all_twice(
    a: Seq<StmtModel>,
    b: Seq<StmtModel>,
    r: Result<Seq<StmtModel>, Seq<char>>,
)
    ensures
        prepend_all(a, prepend_all(b, r)) == prepend_all(a + b, r),
{
    if let Ok(stmts) = r {
        assert(a + (b + stmts) =~= (a + b) + stmts);
    }
}

/// One step of `parse_program` at a token that is not `EOF`.
pub proof fn lemma_program_step(t: Seq<TokenView>, pos: int)
    requires
        0 <= pos < t.len(),
        t[pos].token_type != TokenType::EOF,
    ensures
        ({
            let first = parse_statement(t, pos);
            let program = parse_program(t, pos);
            match first.result {
                Err(m) => program.used == first.used && program.result == Err::<Seq<StmtModel>, Seq<char>>(m),
                Ok(stmt) => {
                    let rest = parse_program(t, pos + first.used);
                    &&& first.used >= 1
                    &&& program.used == first.used + rest.used
                    &&& program.result == prepend_all(seq![stmt], rest.result)
                },
            }
        }),
{
    lemma_statement_consumes(t, pos);
}

// ---------------------------------------------------------------------------
// Every rule that succeeds reads at least one token
// ---------------------------------------------------------------------------

/// A primary expression that parses reads at least one token.
pub proof fn lemma_primary_consumes(t: Seq<TokenView>, pos: int)
    ensures
        parse_primary(t, pos).result is Ok ==> parse_primary(t, pos).used >= 1,
{
}

/// A unary expression that parses reads at least one token.
pub proof fn lemma_unary_consumes(t: Seq<TokenView>, pos: int)
    ensures
        parse_unary(t, pos).result is Ok ==> parse_unary(t, pos).used >= 1,
{
    lemma_primary_consumes(t, pos);
}

/// A binary expression of any precedence level that parses reads at least
/// one token.
pub proof fn lemma_level_consumes(t: Seq<TokenView>, pos: int, level: nat)
    ensures
        parse_operand(t, pos, level).result is Ok ==> parse_operand(t, pos, level).used >= 1,
        parse_level(t, pos, level).result is Ok ==> parse_level(t, pos, level).used >= 1,
    decreases level,
{
    lemma_unary_consumes(t, pos);
    if level > 0 {
        lemma_level_consumes(t, pos, (level - 1) as nat);
    }
}

/// A ternary expression, or a comma list, that parses reads at least one
/// token.
pub proof fn lemma_expression_consumes(t: Seq<TokenView>, pos: int)
    ensures
        parse_ternary(t, pos).result is Ok ==> parse_ternary(t, pos).used >= 1,
        parse_expression(t, pos).result is Ok ==> parse_expression(t, pos).used >= 1,
{
    lemma_level_consumes(t, pos, 3);
}

/// A statement that parses reads at least one token, so a program parse
/// always moves on.
pub proof fn lemma_statement_consumes(t: Seq<TokenView>, pos: int)
    ensures
        parse_statement(t, pos).result is Ok ==> parse_statement(t, pos).used >= 1,
{
    lemma_expression_consumes(t, pos);
}

/// A program that parses is read up to its `EOF` token: the parse stops
/// exactly there.
pub proof fn lemma_program_ends_at_eof(t: Seq<TokenView>, pos: int)
    requires
        0 <= pos,
        parse_program(t, pos).result is Ok,
    ensures
        pos + parse_program(t, pos).used < t.len(),
        t[pos + parse_program(t, pos).used].token_type == TokenType::EOF,
    decreases remaining(t, pos),
{
    if pos < t.len() && t[pos].token_type != TokenType::EOF {
        lemma_program_step(t, pos);
        let first = parse_statement(t, pos);
        lemma_program_ends_at_eof(t, pos + first.used);
    }
}

// ---------------------------------------------------------------------------
// Executable parser
// ---------------------------------------------------------------------------

/// A parser over a list of tokens, reading from position `current`.
pub struct Parser {
    tokens: Vec<Token>,
    current: usize,
}

/// The mathematical value of a [`Parser`]: its tokens and its position.
pub struct ParserView {
    pub tokens: Seq<TokenView>,
    pub current: int,
}

impl View for Parser {
    type V = ParserView;

    closed spec fn view(&self) -> ParserView {
        ParserView { tokens: token_views(self.tokens@), current: self.current as int }
    }
}

/// Error recovery from a position with an `EOF` at or after it always
/// stops inside the tokens.
pub proof fn lemma_eof_bounds_recovery(t: Seq<TokenView>, pos: int)
    requires
        1 <= pos,
        has_eof_from(t, pos),
    ensures
        recovery_in_bounds(t, pos),
    decreases remaining(t, pos),
{
    lemma_has_eof_from(t, pos);
    if t[pos].token_type != TokenType::EOF {
        lemma_eof_bounds_recovery(t, pos + 1);
    }
}

/// Moving over one token as `advance` does keeps an `EOF` ahead.
proof fn lemma_eof_advance(t: Seq<TokenView>, pos: int)
    requires
        0 <= pos,
        has_eof_from(t, pos),
    ensures
        pos < t.len(),
        has_eof_from(t, pos + advance_used(t, pos)),
{
    lemma_has_eof_from(t, pos);
}

/// With an `EOF` ahead, parsing an expression reads only tokens that are
/// there, and stops with the `EOF` still ahead.
pub proof fn lemma_eof_expression(t: Seq<TokenView>, pos: int)
    requires
        0 <= pos,
        has_eof_from(t, pos),
    ensures
        fits_expression(t, pos),
        has_eof_from(t, pos + parse_expression(t, pos).used),
    decreases remaining(t, pos), 12nat,
{
    lemma_has_eof_from(t, pos);
    lemma_eof_ternary(t, pos);
    let head = parse_ternary(t, pos);
    if let Ok(first) = head.result {
        lemma_eof_expression_tail(t, pos + head.used, seq![first]);
    }
}

/// With an `EOF` ahead, the rest of a comma list reads only tokens that
/// are there, and stops with the `EOF` still ahead.
pub proof fn lemma_eof_expression_tail(t: Seq<TokenView>, pos: int, acc: Seq<ExprModel>)
    requires
        0 <= pos,
        has_eof_from(t, pos),
    ensures
        fits_expression_tail(t, pos),
        has_eof_from(t, pos + parse_expression_tail(t, pos, acc).used),
    decreases remaining(t, pos), 11nat,
{
    lemma_has_eof_from(t, pos);
    if t[pos].token_type == TokenType::Comma {
        lemma_eof_ternary(t, pos + 1);
        let next = parse_ternary(t, pos + 1);
        if let Ok(e) = next.result {
            lemma_eof_expression_tail(t, pos + 1 + next.used, acc.push(e));
        }
    }
}

/// With an `EOF` ahead, parsing a ternary reads only tokens that are there,
/// and stops with the `EOF` still ahead.
pub proof fn lemma_eof_ternary(t: Seq<TokenView>, pos: int)
    requires
        0 <= pos,
        has_eof_from(t, pos),
    ensures
        fits_ternary(t, pos),
        has_eof_from(t, pos + parse_ternary(t, pos).used),
    decreases remaining(t, pos), 10nat,
{
    lemma_has_eof_from(t, pos);
    lemma_eof_level(t, pos, 3);
    let guard = parse_level(t, pos, 3);
    if guard.result is Ok {
        let p1 = pos + guard.used;
        lemma_has_eof_from(t, p1);
        if t[p1].token_type == TokenType::QuestionMark {
            lemma_eof_ternary(t, p1 + 1);
            let first = parse_ternary(t, p1 + 1);
            if first.result is Ok {
                let p2 = p1 + 1 + first.used;
                lemma_has_eof_from(t, p2);
                if t[p2].token_type == TokenType::Colon {
                    lemma_eof_ternary(t, p2 + 1);
                }
            }
        }
    }
}

/// With an `EOF` ahead, parsing a binary level reads only tokens that are
/// there, and stops with the `EOF` still ahead.
pub proof fn lemma_eof_level(t: Seq<TokenView>, pos: int, level: nat)
    requires
        0 <= pos,
        level <= 3,
        has_eof_from(t, pos),
    ensures
        fits_level(t, pos, level),
        has_eof_from(t, pos + parse_level(t, pos, level).used),
    decreases remaining(t, pos), 3 + 2 * level,
{
    lemma_has_eof_from(t, pos);
    lemma_eof_operand(t, pos, level);
    let first = parse_operand(t, pos, level);
    if let Ok(left) = first.result {
        lemma_eof_level_tail(t, pos + first.used, level, left);
    }
}

/// With an `EOF` ahead, parsing the operand of a binary level reads only
/// tokens that are there, and stops with the `EOF` still ahead.
pub proof fn lemma_eof_operand(t: Seq<TokenView>, pos: int, level: nat)
    requires
        0 <= pos,
        level <= 3,
        has_eof_from(t, pos),
    ensures
        fits_operand(t, pos, level),
        has_eof_from(t, pos + parse_operand(t, pos, level).used),
    decreases remaining(t, pos), 2 + 2 * level,
{
    lemma_has_eof_from(t, pos);
    if level == 0 {
        lemma_eof_unary(t, pos);
    } else {
        lemma_eof_level(t, pos, (level - 1) as nat);
    }
}

/// With an `EOF` ahead, the rest of a binary level reads only tokens that
/// are there, and stops with the `EOF` still ahead.
pub proof fn lemma_eof_level_tail(t: Seq<TokenView>, pos: int, level: nat, left: ExprModel)
    requires
        0 <= pos,
        level <= 3,
        has_eof_from(t, pos),
    ensures
        fits_level_tail(t, pos, level),
        has_eof_from(t, pos + parse_level_tail(t, pos, level, left).used),
    decreases remaining(t, pos), 2 + 2 * level,
{
    lemma_has_eof_from(t, pos);
    if level_operator(level, t[pos].token_type) {
        lemma_eof_operand(t, pos + 1, level);
        let next = parse_operand(t, pos + 1, level);
        if let Ok(right) = next.result {
            lemma_eof_level_tail(
                t,
                pos + 1 + next.used,
                level,
                ExprModel::Binary { left: Box::new(left), operator: t[pos], right: Box::new(right) },
            );
        }
    }
}

/// With an `EOF` ahead, parsing a unary expression reads only tokens that
/// are there, and stops with the `EOF` still ahead.
pub proof fn lemma_eof_unary(t: Seq<TokenView>, pos: int)
    requires
        0 <= pos,
        has_eof_from(t, pos),
    ensures
        fits_unary(t, pos),
        has_eof_from(t, pos + parse_unary(t, pos).used),
    decreases remaining(t, pos), 1nat,
{
    lemma_has_eof_from(t, pos);
    if t[pos].token_type == TokenType::Bang || t[pos].token_type == TokenType::Minus {
        lemma_eof_unary(t, pos + 1);
    } else {
        lemma_eof_primary(t, pos);
    }
}

/// With an `EOF` ahead, parsing a primary expression reads only tokens that
/// are there, and stops with the `EOF` still ahead.
pub proof fn lemma_eof_primary(t: Seq<TokenView>, pos: int)
    requires
        0 <= pos,
        has_eof_from(t, pos),
    ensures
        fits_primary(t, pos),
        has_eof_from(t, pos + parse_primary(t, pos).used),
    decreases remaining(t, pos), 0nat,
{
    lemma_has_eof_from(t, pos);
    if t[pos].token_type == TokenType::LeftParen {
        lemma_eof_expression(t, pos + 1);
        let inner = parse_expression(t, pos + 1);
        if inner.result is Ok {
            lemma_eof_advance(t, pos + 1 + inner.used);
        }
    }
}

/// With an `EOF` ahead, parsing a statement reads only tokens that are
/// there, and stops with the `EOF` still ahead.
pub proof fn lemma_eof_statement(t: Seq<TokenView>, pos: int)
    requires
        0 <= pos,
        has_eof_from(t, pos),
    ensures
        fits_statement(t, pos),
        has_eof_from(t, pos + parse_statement(t, pos).used),
{
    lemma_has_eof_from(t, pos);
    let start = if t[pos].token_type == TokenType::Print { pos + 1 } else { pos };
    lemma_eof_expression(t, start);
    let e = parse_expression(t, start);
    if e.result is Ok {
        lemma_eof_advance(t, start + e.used);
    }
}

/// A parser with an `EOF` ahead reads only tokens that are there when it
/// parses the statements of a program.
pub proof fn lemma_eof_program(t: Seq<TokenView>, pos: int)
    requires
        0 <= pos,
        has_eof_from(t, pos),
    ensures
        fits_program(t, pos),
    decreases remaining(t, pos),
{
    lemma_has_eof_from(t, pos);
    if t[pos].token_type != TokenType::EOF {
        lemma_eof_statement(t, pos);
        lemma_statement_consumes(t, pos);
        let first = parse_statement(t, pos);
        if first.result is Ok {
            lemma_eof_program(t, pos + first.used);
        }
    }
}

/// The literal tokens parse as the literal they name, using that one token:
/// `nil` as nil, `true` as true, `false` as false, a string token as the
/// string of its text, and a number token whose text `f64` accepts as the
/// number of that text.
pub proof fn lemma_literal_tokens(t: Seq<TokenView>, pos: int)
    requires
        0 <= pos < t.len(),
    ensures
        t[pos].token_type == TokenType::Nil ==> parse_primary(t, pos).used == 1
            && parse_primary(t, pos).result == Ok::<ExprModel, Seq<char>>(ExprModel::Literal(LiteralModel::Nil)),
        t[pos].token_type == TokenType::True ==> parse_primary(t, pos).used == 1
            && parse_primary(t, pos).result == Ok::<ExprModel, Seq<char>>(ExprModel::Literal(LiteralModel::True)),
        t[pos].token_type == TokenType::False ==> parse_primary(t, pos).used == 1
            && parse_primary(t, pos).result == Ok::<ExprModel, Seq<char>>(ExprModel::Literal(LiteralModel::False)),
        t[pos].token_type == TokenType::String ==> parse_primary(t, pos).used == 1
            && parse_primary(t, pos).result == Ok::<ExprModel, Seq<char>>(
            ExprModel::Literal(LiteralModel::Str(t[pos].lexeme)),
        ),
        t[pos].token_type == TokenType::Number && valid_float_text(t[pos].lexeme) ==> parse_primary(t, pos).used
            == 1 && parse_primary(t, pos).result == Ok::<ExprModel, Seq<char>>(
            ExprModel::Literal(LiteralModel::Number(t[pos].lexeme)),
        ),
        t[pos].token_type == TokenType::Nil ==> parse_unary(t, pos) == parse_primary(t, pos),
        t[pos].token_type == TokenType::True ==> parse_unary(t, pos) == parse_primary(t, pos),
        t[pos].token_type == TokenType::False ==> parse_unary(t, pos) == parse_primary(t, pos),
{
}

/// The operators of the equality: `==` and `!=`. After an operand, one of them is
/// followed by a further operand and joins the two; any other token ends
/// the level.
pub proof fn lemma_level_3_operators(t: Seq<TokenView>, pos: int, left: ExprModel)
    requires
        0 <= pos < t.len(),
    ensures
        (t[pos].token_type == TokenType::EqualEqual || t[pos].token_type == TokenType::BangEqual) && parse_operand(t, pos + 1, 3).result is Ok ==> parse_level_tail(t, pos, 3, left)
            == parse_level_tail(
            t,
            pos + 1 + parse_operand(t, pos + 1, 3).used,
            3,
            ExprModel::Binary {
                left: Box::new(left),
                operator: t[pos],
                right: Box::new(parse_operand(t, pos + 1, 3).result->Ok_0),
            },
        ).add_used(1 + parse_operand(t, pos + 1, 3).used),
        !(t[pos].token_type == TokenType::EqualEqual || t[pos].token_type == TokenType::BangEqual) ==> parse_level_tail(t, pos, 3, left).used == 0 && parse_level_tail(t, pos, 3, left).result
            == Ok::<ExprModel, Seq<char>>(left),
{
}

/// The operators of the comparison: `>`, `>=`, `<` and `<=`. After an operand, one of them is
/// followed by a further operand and joins the two; any other token ends
/// the level.
pub proof fn lemma_level_2_operators(t: Seq<TokenView>, pos: int, left: ExprModel)
    requires
        0 <= pos < t.len(),
    ensures
        (t[pos].token_type == TokenType::Greater || t[pos].token_type == TokenType::GreaterEqual || t[pos].token_type == TokenType::Less || t[pos].token_type == TokenType::LessEqual) && parse_operand(t, pos + 1, 2).result is Ok ==> parse_level_tail(t, pos, 2, left)
            == parse_level_tail(
            t,
            pos + 1 + parse_operand(t, pos + 1, 2).used,
            2,
            ExprModel::Binary {
                left: Box::new(left),
                operator: t[pos],
                right: Box::new(parse_operand(t, pos + 1, 2).result->Ok_0),
            },
        ).add_used(1 + parse_operand(t, pos + 1, 2).used),
        !(t[pos].token_type == TokenType::Greater || t[pos].token_type == TokenType::GreaterEqual || t[pos].token_type == TokenType::Less || t[pos].token_type == TokenType::LessEqual) ==> parse_level_tail(t, pos, 2, left).used == 0 && parse_level_tail(t, pos, 2, left).result
            == Ok::<ExprModel, Seq<char>>(left),
{
}

/// The operators of the term: `+` and `-`. After an operand, one of them is
/// followed by a further operand and joins the two; any other token ends
/// the level.
pub proof fn lemma_level_1_operators(t: Seq<TokenView>, pos: int, left: ExprModel)
    requires
        0 <= pos < t.len(),
    ensures
        (t[pos].token_type == TokenType::Plus || t[pos].token_type == TokenType::Minus) && parse_operand(t, pos + 1, 1).result is Ok ==> parse_level_tail(t, pos, 1, left)
            == parse_level_tail(
            t,
            pos + 1 + parse_operand(t, pos + 1, 1).used,
            1,
            ExprModel::Binary {
                left: Box::new(left),
                operator: t[pos],
                right: Box::new(parse_operand(t, pos + 1, 1).result->Ok_0),
            },
        ).add_used(1 + parse_operand(t, pos + 1, 1).used),
        !(t[pos].token_type == TokenType::Plus || t[pos].token_type == TokenType::Minus) ==> parse_level_tail(t, pos, 1, left).used == 0 && parse_level_tail(t, pos, 1, left).result
            == Ok::<ExprModel, Seq<char>>(left),
{
}

/// The operators of the factor: `*` and `/`. After an operand, one of them is
/// followed by a further operand and joins the two; any other token ends
/// the level.
pub proof fn lemma_level_0_operators(t: Seq<TokenView>, pos: int, left: ExprModel)
    requires
        0 <= pos < t.len(),
    ensures
        (t[pos].token_type == TokenType::Star || t[pos].token_type == TokenType::Slash) && parse_operand(t, pos + 1, 0).result is Ok ==> parse_level_tail(t, pos, 0, left)
            == parse_level_tail(
            t,
            pos + 1 + parse_operand(t, pos + 1, 0).used,
            0,
            ExprModel::Binary {
                left: Box::new(left),
                operator: t[pos],
                right: Box::new(parse_operand(t, pos + 1, 0).result->Ok_0),
            },
        ).add_used(1 + parse_operand(t, pos + 1, 0).used),
        !(t[pos].token_type == TokenType::Star || t[pos].token_type == TokenType::Slash) ==> parse_level_tail(t, pos, 0, left).used == 0 && parse_level_tail(t, pos, 0, left).result
            == Ok::<ExprModel, Seq<char>>(left),
{
}

/// The operands of the levels, from the loosest: an equality joins
/// comparisons, a comparison joins terms, a term joins factors, and a
/// factor joins unary expressions.
pub proof fn lemma_level_operands(t: Seq<TokenView>, pos: int)
    requires
        0 <= pos < t.len(),
    ensures
        parse_operand(t, pos, 3) == parse_level(t, pos, 2),
        parse_operand(t, pos, 2) == parse_level(t, pos, 1),
        parse_operand(t, pos, 1) == parse_level(t, pos, 0),
        parse_operand(t, pos, 0) == parse_unary(t, pos),
{
}

/// `!` and `-` before a unary expression make a unary expression with that
/// operator token.
pub proof fn lemma_unary_operators(t: Seq<TokenView>, pos: int)
    requires
        0 <= pos < t.len(),
        t[pos].token_type == TokenType::Bang || t[pos].token_type == TokenType::Minus,
        parse_unary(t, pos + 1).result is Ok,
    ensures
        parse_unary(t, pos).used == 1 + parse_unary(t, pos + 1).used,
        parse_unary(t, pos).result == Ok::<ExprModel, Seq<char>>(
            ExprModel::Unary { operator: t[pos], right: Box::new(parse_unary(t, pos + 1).result->Ok_0) },
        ),
{
}

/// A `(`, an expression and a `)` make a grouping of that expression; a
/// missing `)` is reported.
pub proof fn lemma_grouping(t: Seq<TokenView>, pos: int)
    requires
        0 <= pos < t.len(),
        t[pos].token_type == TokenType::LeftParen,
        parse_expression(t, pos + 1).result is Ok,
        pos + 1 + parse_expression(t, pos + 1).used < t.len(),
    ensures
        ({
            let inner = parse_expression(t, pos + 1);
            let close = t[pos + 1 + inner.used].token_type;
            &&& close == TokenType::RightParen ==> parse_primary(t, pos).used == 2 + inner.used
                && parse_primary(t, pos).result == Ok::<ExprModel, Seq<char>>(
                ExprModel::Grouping { expression: Box::new(inner.result->Ok_0) },
            )
            &&& close != TokenType::RightParen && close != TokenType::EOF ==> parse_primary(t, pos).result
                == Err::<ExprModel, Seq<char>>("failed to find closing right paren"@)
        }),
{
}

/// A token that starts no expression is reported, and so is a number
/// token whose text `f64` does not accept.
pub proof fn lemma_primary_errors(t: Seq<TokenView>, pos: int)
    requires
        0 <= pos < t.len(),
    ensures
        t[pos].token_type == TokenType::Number && !valid_float_text(t[pos].lexeme) ==> parse_primary(
            t,
            pos,
        ).result == Err::<ExprModel, Seq<char>>("Failed to parse literal number"@),
        !(t[pos].token_type == TokenType::Number || t[pos].token_type == TokenType::String || t[pos].token_type
            == TokenType::True || t[pos].token_type == TokenType::False || t[pos].token_type == TokenType::Nil
            || t[pos].token_type == TokenType::LeftParen) ==> parse_primary(t, pos).used == 0 && parse_primary(
            t,
            pos,
        ).result == Err::<ExprModel, Seq<char>>("parse_primary() passed a non-literal Token!"@),
{
}

/// A condition, `?`, an expression, `:` and an expression make a ternary
/// of the three; a missing `:` is reported. Without a `?` the condition
/// stands alone.
pub proof fn lemma_ternary(t: Seq<TokenView>, pos: int)
    requires
        0 <= pos < t.len(),
        parse_level(t, pos, 3).result is Ok,
        pos + parse_level(t, pos, 3).used < t.len(),
    ensures
        ({
            let guard = parse_level(t, pos, 3);
            let p1 = pos + guard.used;
            let first = parse_ternary(t, p1 + 1);
            let p2 = p1 + 1 + first.used;
            let second = parse_ternary(t, p2 + 1);
            &&& t[p1].token_type != TokenType::QuestionMark ==> parse_ternary(t, pos) == guard
            &&& t[p1].token_type == TokenType::QuestionMark && first.result is Ok && p2 < t.len()
                && t[p2].token_type != TokenType::Colon ==> parse_ternary(t, pos).result == Err::<
                ExprModel,
                Seq<char>,
            >("ternary missing : operator"@)
            &&& t[p1].token_type == TokenType::QuestionMark && first.result is Ok && p2 < t.len()
                && t[p2].token_type == TokenType::Colon && second.result is Ok ==> parse_ternary(t, pos).result
                == Ok::<ExprModel, Seq<char>>(
                ExprModel::Ternary {
                    left: Box::new(guard.result->Ok_0),
                    middle: Box::new(first.result->Ok_0),
                    right: Box::new(second.result->Ok_0),
                },
            )
        }),
{
}

/// `print`, an expression and `;` make a print statement; an expression and
/// `;` make an expression statement; without the `;` it is reported.
pub proof fn lemma_statements(t: Seq<TokenView>, pos: int)
    requires
        0 <= pos < t.len(),
    ensures
        ({
            let printed = t[pos].token_type == TokenType::Print;
            let start = if printed { pos + 1 } else { pos };
            let e = parse_expression(t, start);
            let p2 = start + e.used;
            &&& e.result is Ok && p2 < t.len() && t[p2].token_type == TokenType::SemiColon && printed
                ==> parse_statement(t, pos).result == Ok::<StmtModel, Seq<char>>(
                StmtModel::Print(e.result->Ok_0),
            )
            &&& e.result is Ok && p2 < t.len() && t[p2].token_type == TokenType::SemiColon && !printed
                ==> parse_statement(t, pos).result == Ok::<StmtModel, Seq<char>>(
                StmtModel::Expr(e.result->Ok_0),
            )
            &&& e.result is Ok && p2 < t.len() && t[p2].token_type != TokenType::SemiColon
                && t[p2].token_type != TokenType::EOF ==> parse_statement(t, pos).result == Err::<
                StmtModel,
                Seq<char>,
            >("Expect ';' after expression."@)
        }),
{
}

/// Expressions separated by commas make one list of them, in order; a
/// single expression stands alone.
pub proof fn lemma_comma_list(t: Seq<TokenView>, pos: int, acc: Seq<ExprModel>)
    requires
        0 <= pos < t.len(),
        acc.len() >= 1,
    ensures
        t[pos].token_type != TokenType::Comma && acc.len() == 1 ==> parse_expression_tail(t, pos, acc).result
            == Ok::<ExprModel, Seq<char>>(acc[0]),
        t[pos].token_type != TokenType::Comma && acc.len() > 1 ==> parse_expression_tail(t, pos, acc).result
            == Ok::<ExprModel, Seq<char>>(ExprModel::Exprs(acc)),
        t[pos].token_type == TokenType::Comma && parse_ternary(t, pos + 1).result is Ok ==> parse_expression_tail(
            t,
            pos,
            acc,
        ).result == parse_expression_tail(
            t,
            pos + 1 + parse_ternary(t, pos + 1).used,
            acc.push(parse_ternary(t, pos + 1).result->Ok_0),
        ).result,
{
}

/// Error recovery stops before each keyword that begins a statement
/// (`class`, `fun`, `var`, `for`, `if`, `while`, `print`, `return`), right
/// after a `;`, and at `EOF`.
pub proof fn lemma_recovery_stops(t: Seq<TokenView>, p: int)
    requires
        1 <= p < t.len(),
    ensures
        t[p].token_type == TokenType::Class ==> recovery_point(t, p) == p,
        t[p].token_type == TokenType::Fun ==> recovery_point(t, p) == p,
        t[p].token_type == TokenType::Var ==> recovery_point(t, p) == p,
        t[p].token_type == TokenType::For ==> recovery_point(t, p) == p,
        t[p].token_type == TokenType::If ==> recovery_point(t, p) == p,
        t[p].token_type == TokenType::While ==> recovery_point(t, p) == p,
        t[p].token_type == TokenType::Print ==> recovery_point(t, p) == p,
        t[p].token_type == TokenType::Return ==> recovery_point(t, p) == p,
        t[p - 1].token_type == TokenType::SemiColon ==> recovery_point(t, p) == p,
        t[p].token_type == TokenType::EOF ==> recovery_point(t, p) == p,
{
}

/// Error recovery passes over any other token that does not follow a `;`.
pub proof fn lemma_recovery_skips(t: Seq<TokenView>, p: int)
    requires
        1 <= p < t.len(),
        t[p - 1].token_type != TokenType::SemiColon,
        t[p].token_type != TokenType::EOF,
        t[p].token_type != TokenType::Class,
        t[p].token_type != TokenType::Fun,
        t[p].token_type != TokenType::Var,
        t[p].token_type != TokenType::For,
        t[p].token_type != TokenType::If,
        t[p].token_type != TokenType::While,
        t[p].token_type != TokenType::Print,
        t[p].token_type != TokenType::Return,
    ensures
        recovery_point(t, p) == recovery_point(t, p + 1),
{
}

/// A position with an `EOF` at or after it is inside the tokens, and so is
/// the next one unless the position itself holds `EOF`.
pub proof fn lemma_has_eof_from(t: Seq<TokenView>, pos: int)
    requires
        0 <= pos,
        has_eof_from(t, pos),
    ensures
        pos < t.len(),
        t[pos].token_type != TokenType::EOF ==> has_eof_from(t, pos + 1),
{
    let j = choose|j: int| pos <= j < t.len() && #[trigger] t[j].token_type == TokenType::EOF;
    if t[pos].token_type != TokenType::EOF {
        assert(pos + 1 <= j);
    }
}

/// `res` is what `r` says: the same expression, or the same message.
pub open spec fn expr_result_agrees(res: Result<Expr, String>, r: Result<ExprModel, Seq<char>>) -> bool {
    match r {
        Ok(m) => res matches Ok(e) && e@ == m,
        Err(msg) => res matches Err(s) && s@ == msg,
    }
}

/// `res` is what `r` says: the same statement, or the same message.
pub open spec fn stmt_result_agrees(res: Result<Stmt, String>, r: Result<StmtModel, Seq<char>>) -> bool {
    match r {
        Ok(m) => res matches Ok(s) && s@ == m,
        Err(msg) => res matches Err(s) && s@ == msg,
    }
}

/// The parser `after` is `before` moved on by the tokens a rule used.
pub open spec fn moved_by<T>(before: ParserView, after: ParserView, parsed: Parsed<T>) -> bool {
    &&& after.tokens == before.tokens
    &&& after.current == before.current + parsed.used
    &&& (has_eof_from(before.tokens, before.current) ==> has_eof_from(after.tokens, after.current))
}

impl Parser {
    /// A parser at the first of `tokens`.
    pub fn new(tokens: Vec<Token>) -> (parser: Self)
        ensures
            parser@.tokens == token_views(tokens@),
            parser@.current == 0,
    {
        Self { tokens, current: 0 }
    }

    /// The parser can read on: some token at or after its position is `EOF`.
    pub open spec fn well_formed(&self) -> bool {
        &&& self@.current >= 0
        &&& has_eof_from(self@.tokens, self@.current)
    }

    /// The statements from the current token up to `EOF`, or the first error.
    /// Every token it looks at must be there, as it always is when an `EOF`
    /// lies ahead ([`lemma_eof_program`]).
    #[verifier::spinoff_prover]
    #[verifier::rlimit(40)]
    pub fn parse(&mut self) -> (res: Result<Vec<Stmt>, String>)
        requires
            fits_program(old(self)@.tokens, old(self)@.current as int),
        ensures
            ({
                let spec = parse_program(old(self)@.tokens, old(self)@.current);
                &&& moved_by(old(self)@, final(self)@, spec)
                &&& match spec.result {
                    Ok(stmts) => res matches Ok(v) && stmt_views(v@) == stmts,
                    Err(m) => res matches Err(e) && e@ == m,
                }
            }),
    {
        let ghost t = self@.tokens;
        let ghost p0 = self@.current;
        let ghost whole = parse_program(t, p0);
        let mut statements: Vec<Stmt> = Vec::new();
        proof {
            assert(stmt_views(statements@) =~= Seq::<StmtModel>::empty());
            if let Ok(ss) = whole.result {
                assert(Seq::<StmtModel>::empty() + ss =~= ss);
            }
        }
        loop
            invariant
                self@.tokens == t,
                old(self)@.tokens == t,
                old(self)@.current == p0,
                whole == parse_program(t, p0),
                fits_program(t, self@.current as int),
                has_eof_from(t, p0) ==> self.well_formed(),
                p0 <= self@.current,
                whole.used == (self@.current - p0) + parse_program(t, self@.current).used,
                whole.result == prepend_all(stmt_views(statements@), parse_program(t, self@.current).result),
            ensures
                self@.tokens == t,
                has_eof_from(t, p0) ==> self.well_formed(),
                whole.used == self@.current - p0,
                whole.result == Ok::<Seq<StmtModel>, Seq<char>>(stmt_views(statements@)),
            decreases remaining(t, self@.current),
        {
            if self.is_at_end() {
                proof {
                    assert(stmt_views(statements@) + Seq::<StmtModel>::empty() =~= stmt_views(statements@));
                }
                break;
            }
            let ghost pos = self@.current;
            proof {
                lemma_program_step(t, pos);
            }
            let stmt = match self.statement() {
                Ok(stmt) => stmt,
                Err(e) => {
                    return Err(e);
                },
            };
            proof {
                let ss = stmt_views(statements@);
                assert(stmt_views(statements@.push(stmt)) =~= ss + seq![stmt@]);
                lemma_prepend_all_twice(ss, seq![stmt@], parse_program(t, self@.current).result);
            }
            statements.push(stmt);
        }
        Ok(statements)
    }

    fn statement(&mut self) -> (res: Result<Stmt, String>)
        requires
            fits_statement(old(self)@.tokens, old(self)@.current as int),
            old(self)@.tokens[old(self)@.current].token_type != TokenType::EOF,
        ensures
            ({
                let spec = parse_statement(old(self)@.tokens, old(self)@.current);
                &&& moved_by(old(self)@, final(self)@, spec)
                &&& stmt_result_agrees(res, spec.result)
            }),
    {
        if self.peek().token_type == TokenType::Print {
            return self.print_statement();
        }
        self.expression_statement()
    }

    fn print_statement(&mut self) -> (res: Result<Stmt, String>)
        requires
            fits_statement(old(self)@.tokens, old(self)@.current as int),
            old(self)@.tokens[old(self)@.current].token_type == TokenType::Print,
        ensures
            ({
                let spec = parse_statement(old(self)@.tokens, old(self)@.current);
                &&& moved_by(old(self)@, final(self)@, spec)
                &&& stmt_result_agrees(res, spec.result)
            }),
    {
        let ghost t = self@.tokens;
        let ghost pos = self@.current;
        self.advance();  // consume the print keyword
        let expr = match self.expression() {
            Ok(expr) => expr,
            Err(e) => {
                return Err(e);
            },
        };
        proof {
            lemma_expression_consumes(t, pos + 1);
        }
        // check terminated with ';'
        if self.advance().token_type == TokenType::SemiColon {
            Ok(Stmt::Print(expr))
        } else {
            Err(String::from_str("Expect ';' after expression."))
        }
    }

    fn expression_statement(&mut self) -> (res: Result<Stmt, String>)
        requires
            fits_statement(old(self)@.tokens, old(self)@.current as int),
            old(self)@.tokens[old(self)@.current].token_type != TokenType::Print,
        ensures
            ({
                let spec = parse_statement(old(self)@.tokens, old(self)@.current);
                &&& moved_by(old(self)@, final(self)@, spec)
                &&& stmt_result_agrees(res, spec.result)
            }),
    {
        let ghost t = self@.tokens;
        let ghost pos = self@.current;
        let expr = match self.expression() {
            Ok(expr) => expr,
            Err(e) => {
                return Err(e);
            },
        };
        proof {
            lemma_expression_consumes(t, pos);
        }
        // check terminated with ';'
        if self.advance().token_type == TokenType::SemiColon {
            Ok(Stmt::Expr(expr))
        } else {
            Err(String::from_str("Expect ';' after expression."))
        }
    }

    /// An expression, or a comma-separated list of them, from the current
    /// token. Every token it looks at, up to the one after the expression,
    /// must be there, as it always is when an `EOF` lies ahead
    /// ([`lemma_eof_expression`]).
    #[verifier::rlimit(40)]
    pub fn expression(&mut self) -> (res: Result<Expr, String>)
        requires
            fits_expression(old(self)@.tokens, old(self)@.current as int),
        ensures
            ({
                let spec = parse_expression(old(self)@.tokens, old(self)@.current);
                &&& moved_by(old(self)@, final(self)@, spec)
                &&& expr_result_agrees(res, spec.result)
            }),
        decreases remaining(old(self)@.tokens, old(self)@.current), 12nat,
    {
        let ghost t = self@.tokens;
        let ghost p0 = self@.current;
        let head = match self.ternary() {
            Ok(head) => head,
            Err(e) => {
                return Err(e);
            },
        };
        let ghost p1 = self@.current;
        let mut exprs: Vec<Expr> = Vec::new();
        exprs.push(head);
        proof {
            lemma_expr_list_view(exprs@);
            assert(expr_list_view(exprs@) =~= seq![head@]);
        }
        let ghost whole = parse_expression_tail(t, p1, seq![head@]);
        assert(parse_expression(t, p0).used == (p1 - p0) + whole.used);
        assert(parse_expression(t, p0).result == whole.result);
        loop
            invariant
                self@.tokens == t,
                fits_expression_tail(t, self@.current as int),
                has_eof_from(t, p0) ==> self.well_formed(),
                p1 <= self@.current,
                exprs@.len() >= 1,
                whole == parse_expression_tail(t, p1, seq![head@]),
                old(self)@.tokens == t,
                old(self)@.current == p0,
                p0 <= p1,
                p0 < t.len(),
                parse_expression(t, p0).used == (p1 - p0) + whole.used,
                parse_expression(t, p0).result == whole.result,
                whole.used == (self@.current - p1)
                    + parse_expression_tail(t, self@.current, expr_list_view(exprs@)).used,
                whole.result == parse_expression_tail(t, self@.current, expr_list_view(exprs@)).result,
            ensures
                self@.tokens == t,
                has_eof_from(t, p0) ==> self.well_formed(),
                exprs@.len() >= 1,
                whole.used == self@.current - p1,
                whole.result == parse_expression_tail(t, self@.current, expr_list_view(exprs@)).result,
                t[self@.current].token_type != TokenType::Comma,
                0 <= self@.current < t.len(),
            decreases remaining(t, self@.current),
        {
            if self.peek().token_type != TokenType::Comma {
                break;
            }
            self.advance();
            let expr = match self.ternary() {
                Ok(expr) => expr,
                Err(e) => {
                    return Err(e);
                },
            };
            let ghost before = exprs@;
            exprs.push(expr);
            proof {
                assert(exprs@.drop_last() =~= before);
            }
        }
        proof {
            lemma_expr_list_view(exprs@);
        }
        if exprs.len() == 1 {
            return Ok(exprs.pop().unwrap());
        }
        Ok(Expr::Exprs(exprs))
    }
}

impl Parser {
    fn ternary(&mut self) -> (res: Result<Expr, String>)
        requires
            fits_ternary(old(self)@.tokens, old(self)@.current as int),
        ensures
            ({
                let spec = parse_ternary(old(self)@.tokens, old(self)@.current);
                &&& moved_by(old(self)@, final(self)@, spec)
                &&& expr_result_agrees(res, spec.result)
            }),
        decreases remaining(old(self)@.tokens, old(self)@.current), 10nat,
    {
        let ghost t = self@.tokens;
        let ghost p0 = self@.current;
        let left = match self.equality() {
            Ok(left) => left,
            Err(e) => {
                return Err(e);
            },
        };
        if self.peek().token_type != TokenType::QuestionMark {
            return Ok(left);
        }
        self.advance();
        let middle = match self.ternary() {
            Ok(middle) => middle,
            Err(e) => {
                return Err(e);
            },
        };
        if self.peek().token_type != TokenType::Colon {
            return Err(String::from_str("ternary missing : operator"));
        }
        self.advance();
        let right = match self.ternary() {
            Ok(right) => right,
            Err(e) => {
                return Err(e);
            },
        };
        Ok(Expr::Ternary { left: Box::new(left), middle: Box::new(middle), right: Box::new(right) })
    }

    fn equality(&mut self) -> (res: Result<Expr, String>)
        requires
            fits_level(old(self)@.tokens, old(self)@.current as int, 3),
        ensures
            ({
                let spec = parse_level(old(self)@.tokens, old(self)@.current, 3);
                &&& moved_by(old(self)@, final(self)@, spec)
                &&& expr_result_agrees(res, spec.result)
            }),
        decreases remaining(old(self)@.tokens, old(self)@.current), 9nat,
    {
        let expr = match self.comparison() {
            Ok(expr) => expr,
            Err(e) => {
                return Err(e);
            },
        };
        self.binary_tail(3, expr)
    }

    fn comparison(&mut self) -> (res: Result<Expr, String>)
        requires
            fits_level(old(self)@.tokens, old(self)@.current as int, 2),
        ensures
            ({
                let spec = parse_level(old(self)@.tokens, old(self)@.current, 2);
                &&& moved_by(old(self)@, final(self)@, spec)
                &&& expr_result_agrees(res, spec.result)
            }),
        decreases remaining(old(self)@.tokens, old(self)@.current), 7nat,
    {
        let expr = match self.term() {
            Ok(expr) => expr,
            Err(e) => {
                return Err(e);
            },
        };
        self.binary_tail(2, expr)
    }

    fn term(&mut self) -> (res: Result<Expr, String>)
        requires
            fits_level(old(self)@.tokens, old(self)@.current as int, 1),
        ensures
            ({
                let spec = parse_level(old(self)@.tokens, old(self)@.current, 1);
                &&& moved_by(old(self)@, final(self)@, spec)
                &&& expr_result_agrees(res, spec.result)
            }),
        decreases remaining(old(self)@.tokens, old(self)@.current), 5nat,
    {
        let expr = match self.factor() {
            Ok(expr) => expr,
            Err(e) => {
                return Err(e);
            },
        };
        self.binary_tail(1, expr)
    }

    fn factor(&mut self) -> (res: Result<Expr, String>)
        requires
            fits_level(old(self)@.tokens, old(self)@.current as int, 0),
        ensures
            ({
                let spec = parse_level(old(self)@.tokens, old(self)@.current, 0);
                &&& moved_by(old(self)@, final(self)@, spec)
                &&& expr_result_agrees(res, spec.result)
            }),
        decreases remaining(old(self)@.tokens, old(self)@.current), 3nat,
    {
        let expr = match self.unary() {
            Ok(expr) => expr,
            Err(e) => {
                return Err(e);
            },
        };
        self.binary_tail(0, expr)
    }

    /// The operand of a binary level: the level below it, or a unary.
    fn operand(&mut self, level: u8) -> (res: Result<Expr, String>)
        requires
            fits_operand(old(self)@.tokens, old(self)@.current as int, level as nat),
            level <= 3,
        ensures
            ({
                let spec = parse_operand(old(self)@.tokens, old(self)@.current, level as nat);
                &&& moved_by(old(self)@, final(self)@, spec)
                &&& expr_result_agrees(res, spec.result)
            }),
        decreases remaining(old(self)@.tokens, old(self)@.current), 2 + 2 * level,
    {
        if level == 3 {
            self.comparison()
        } else if level == 2 {
            self.term()
        } else if level == 1 {
            self.factor()
        } else {
            self.unary()
        }
    }

    /// The operator-operand pairs that follow `left` on a binary level,
    /// folded to the left.
    #[verifier::rlimit(40)]
    fn binary_tail(&mut self, level: u8, left: Expr) -> (res: Result<Expr, String>)
        requires
            fits_level_tail(old(self)@.tokens, old(self)@.current as int, level as nat),
            level <= 3,
        ensures
            ({
                let spec = parse_level_tail(old(self)@.tokens, old(self)@.current, level as nat, left@);
                &&& moved_by(old(self)@, final(self)@, spec)
                &&& expr_result_agrees(res, spec.result)
            }),
        decreases remaining(old(self)@.tokens, old(self)@.current), 2 + 2 * level,
    {
        let ghost t = self@.tokens;
        let ghost p0 = self@.current;
        let ghost l = level as nat;
        let ghost whole = parse_level_tail(t, p0, l, left@);
        let mut expr = left;
        loop
            invariant
                self@.tokens == t,
                fits_level_tail(t, self@.current as int, l),
                has_eof_from(t, p0) ==> self.well_formed(),
                p0 <= self@.current,
                p0 < t.len(),
                level <= 3,
                l == level as nat,
                whole == parse_level_tail(t, p0, l, left@),
                old(self)@.tokens == t,
                old(self)@.current == p0,
                whole.used == (self@.current - p0) + parse_level_tail(t, self@.current, l, expr@).used,
                whole.result == parse_level_tail(t, self@.current, l, expr@).result,
            ensures
                self@.tokens == t,
                has_eof_from(t, p0) ==> self.well_formed(),
                whole.used == self@.current - p0,
                whole.result == Ok::<ExprModel, Seq<char>>(expr@),
            decreases remaining(t, self@.current),
        {
            let kind = self.peek().token_type;
            if !is_level_operator(level, kind) {
                break;
            }
            let operator = self.advance().duplicate();
            let right = match self.operand(level) {
                Ok(right) => right,
                Err(e) => {
                    return Err(e);
                },
            };
            expr = Expr::Binary { left: Box::new(expr), operator, right: Box::new(right) };
        }
        Ok(expr)
    }

    fn unary(&mut self) -> (res: Result<Expr, String>)
        requires
            fits_unary(old(self)@.tokens, old(self)@.current as int),
        ensures
            ({
                let spec = parse_unary(old(self)@.tokens, old(self)@.current);
                &&& moved_by(old(self)@, final(self)@, spec)
                &&& expr_result_agrees(res, spec.result)
            }),
        decreases remaining(old(self)@.tokens, old(self)@.current), 1nat,
    {
        let kind = self.peek().token_type;
        if kind == TokenType::Bang || kind == TokenType::Minus {
            let operator = self.advance().duplicate();
            let right = match self.unary() {
                Ok(right) => right,
                Err(e) => {
                    return Err(e);
                },
            };
            return Ok(Expr::Unary { operator, right: Box::new(right) });
        }
        self.primary()
    }

    #[verifier::spinoff_prover]
    #[verifier::rlimit(60)]
    fn primary(&mut self) -> (res: Result<Expr, String>)
        requires
            fits_primary(old(self)@.tokens, old(self)@.current as int),
        ensures
            ({
                let spec = parse_primary(old(self)@.tokens, old(self)@.current);
                &&& moved_by(old(self)@, final(self)@, spec)
                &&& expr_result_agrees(res, spec.result)
            }),
        decreases remaining(old(self)@.tokens, old(self)@.current), 0nat,
    {
        let ghost t = self@.tokens;
        let ghost p0 = self@.current;
        let kind = self.peek().token_type;
        match kind {
            TokenType::False => {
                self.advance();
                Ok(Expr::Literal(LiteralValue::False))
            },
            TokenType::True => {
                self.advance();
                Ok(Expr::Literal(LiteralValue::True))
            },
            TokenType::Nil => {
                self.advance();
                Ok(Expr::Literal(LiteralValue::Nil))
            },
            TokenType::String => {
                let token = self.advance();
                Ok(Expr::Literal(LiteralValue::String(token.lexeme.clone())))
            },
            TokenType::Number => {
                let token = self.advance();
                if is_float_text(&token.lexeme) {
                    Ok(Expr::Literal(LiteralValue::Number(token.lexeme.clone())))
                } else {
                    Err(String::from_str("Failed to parse literal number"))
                }
            },
            TokenType::LeftParen => {
                self.advance();
                let expr = match self.expression() {
                    Ok(expr) => expr,
                    Err(e) => {
                        return Err(e);
                    },
                };
                let maybe_right_paren = self.advance();
                if maybe_right_paren.token_type == TokenType::RightParen {
                    return Ok(Expr::Grouping { expression: Box::new(expr) });
                }
                Err(String::from_str("failed to find closing right paren"))
            },
            _ => Err(String::from_str("parse_primary() passed a non-literal Token!")),
        }
    }

    /// Error recovery: drops tokens until the start of the next statement,
    /// that is, past a `;`, before a statement keyword, or at `EOF`.
    pub fn synchronize(&mut self)
        requires
            0 <= old(self)@.current < old(self)@.tokens.len(),
            old(self)@.tokens[old(self)@.current].token_type == TokenType::EOF ==> old(self)@.current >= 1,
            recovery_in_bounds(
                old(self)@.tokens,
                old(self)@.current + advance_used(old(self)@.tokens, old(self)@.current),
            ),
        ensures
            final(self)@.tokens == old(self)@.tokens,
            final(self)@.current == recovery_point(
                old(self)@.tokens,
                old(self)@.current + advance_used(old(self)@.tokens, old(self)@.current),
            ),
            old(self).well_formed() ==> final(self).well_formed(),
    {
        let ghost t = self@.tokens;
        let ghost p1 = self@.current + advance_used(t, self@.current);
        self.advance();
        // discard tokens until we hit a new statement
        loop
            invariant
                self@.tokens == t,
                old(self)@.tokens == t,
                p1 == old(self)@.current + advance_used(t, old(self)@.current),
                self@.current >= 1,
                recovery_in_bounds(t, self@.current),
                recovery_point(t, p1) == recovery_point(t, self@.current),
                old(self).well_formed() ==> self.well_formed(),
            decreases remaining(t, self@.current),
        {
            if self.is_at_end() {
                return;
            }
            if self.previous().token_type == TokenType::SemiColon {
                return;
            }
            match self.peek().token_type {
                TokenType::Class => return,
                TokenType::Fun => return,
                TokenType::Var => return,
                TokenType::For => return,
                TokenType::If => return,
                TokenType::While => return,
                TokenType::Print => return,
                TokenType::Return => return,
                _ => (),
            }
            proof {
                if self.well_formed() {
                    lemma_has_eof_from(t, self@.current);
                }
            }
            self.advance();
        }
    }

    /// Consumes the current token and returns it; at `EOF` nothing is
    /// consumed and the token before `EOF` is returned.
    pub fn advance(&mut self) -> (token: &Token)
        requires
            0 <= old(self)@.current < old(self)@.tokens.len(),
            old(self)@.tokens[old(self)@.current].token_type == TokenType::EOF ==> old(self)@.current >= 1,
        ensures
            final(self)@.tokens == old(self)@.tokens,
            final(self)@.current == old(self)@.current + advance_used(old(self)@.tokens, old(self)@.current),
            token@ == advanced_token(old(self)@.tokens, old(self)@.current),
            old(self).well_formed() ==> final(self).well_formed(),
    {
        proof {
            if self.well_formed() {
                lemma_has_eof_from(self@.tokens, self@.current);
            }
        }
        assert(self.current < self.tokens.len());
        if !self.is_at_end() {
            self.current = self.current + 1;
        }
        self.previous()
    }

    /// Whether the current token is `EOF`.
    pub fn is_at_end(&self) -> (b: bool)
        requires
            0 <= self@.current < self@.tokens.len(),
        ensures
            b == (self@.tokens[self@.current].token_type == TokenType::EOF),
    {
        self.peek().token_type == TokenType::EOF
    }

    /// The current token.
    pub fn peek(&self) -> (token: &Token)
        requires
            0 <= self@.current < self@.tokens.len(),
        ensures
            token@ == self@.tokens[self@.current],
    {
        &self.tokens[self.current]
    }

    /// The token before the current one.
    pub fn previous(&self) -> (token: &Token)
        requires
            1 <= self@.current <= self@.tokens.len(),
        ensures
            token@ == self@.tokens[self@.current - 1],
    {
        &self.tokens[self.current - 1]
    }
}

fn is_level_operator(level: u8, kind: TokenType) -> (b: bool)
    ensures
        b == level_operator(level as nat, kind),
{
    if level == 3 {
        kind == TokenType::EqualEqual || kind == TokenType::BangEqual
    } else if level == 2 {
        kind == TokenType::Greater || kind == TokenType::GreaterEqual || kind == TokenType::Less
            || kind == TokenType::LessEqual
    } else if level == 1 {
        kind == TokenType::Plus || kind == TokenType::Minus
    } else {
        kind == TokenType::Star || kind == TokenType::Slash
    }
}

/// Some token of `t` is a `;`.
pub open spec fn has_semicolon(t: Seq<TokenView>) -> bool {
    exists|i: int| 0 <= i < t.len() && #[trigger] t[i].token_type == TokenType::SemiColon
}

/// Scans `source` and sets a parser at its first token. Also says whether
/// the source holds a `;` (a line without one is read as an expression),
/// and hands back the problems met while scanning.
pub fn create_parser(source: &str) -> (res: (Parser, bool, Vec<ScanError>))
    requires
        count_newlines(source@) < u64::MAX,
    ensures
        res.0@.tokens == scan_spec(source@).tokens,
        res.0@.current == 0,
        res.0.well_formed(),
        res.1 == has_semicolon(scan_spec(source@).tokens),
        error_views(res.2@) == scan_spec(source@).errors,
{
    let scanned = scan_source(source);
    let tokens = scanned.tokens;
    let ghost t = token_views(tokens@);
    let mut has_semicolon = false;
    let mut i: usize = 0;
    while i < tokens.len()
        invariant
            i <= tokens@.len(),
            t == token_views(tokens@),
            has_semicolon == exists|k: int| 0 <= k < i && #[trigger] t[k].token_type == TokenType::SemiColon,
        decreases tokens@.len() - i,
    {
        if tokens[i].token_type == TokenType::SemiColon {
            has_semicolon = true;
        }
        proof {
            assert(t[i as int] == tokens@[i as int]@);
            if has_semicolon && !(t[i as int].token_type == TokenType::SemiColon) {
                let k = choose|k: int| 0 <= k < i && #[trigger] t[k].token_type == TokenType::SemiColon;
                assert(0 <= k < i + 1);
            }
        }
        i = i + 1;
    }
    proof {
        lemma_scan_ends_with_eof(source@);
        let last = t.len() - 1;
        assert(t[last].token_type == TokenType::EOF);
    }
    (Parser::new(tokens), has_semicolon, scanned.errors)
}

} // verus!
