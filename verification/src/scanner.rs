//! Turns Lox source text into tokens.
//!
//! The whole behaviour of the scanner is stated by the spec function
//! [`scan_from`]: one lexeme at a time, as described by [`lex_step`].
use crate::char_stream::{next_char, peek_char, peek_nth_char, pending, stream_of};
use itertools::PeekNth;
use std::str::Chars;
use vstd::prelude::*;
use vstd::string::*;

verus! {

/// The kinds of token the scanner produces.
#[derive(Debug, PartialEq, Eq, Clone, Copy, Structural)]
pub enum TokenType {
    // Single character tokens
    LeftParen,
    RightParen,
    LeftBrace,
    RightBrace,
    Comma,
    Dot,
    Minus,
    Plus,
    SemiColon,
    Slash,
    Star,
    QuestionMark,
    Colon,
    // One or two char tokens
    Bang,
    BangEqual,
    Equal,
    EqualEqual,
    Greater,
    GreaterEqual,
    Less,
    LessEqual,
    // Identifiers and literals
    Identifier,
    String,
    Number,
    // Keywords
    And,
    Class,
    Else,
    False,
    Fun,
    For,
    If,
    Nil,
    Or,
    Print,
    Return,
    Super,
    This,
    True,
    Var,
    While,
    // End of input
    EOF,
}

/// A token: its kind, the text it was read from and the line it ends on.
#[derive(Debug, PartialEq, Clone)]
pub struct Token {
    pub token_type: TokenType,
    pub lexeme: String,
    pub line: u64,
}

impl Token {
    /// A token equal to this one.
    pub fn duplicate(&self) -> (token: Token)
        ensures
            token@ == self@,
    {
        Token { token_type: self.token_type, lexeme: self.lexeme.clone(), line: self.line }
    }
}

/// The mathematical value of a [`Token`].
pub struct TokenView {
    pub token_type: TokenType,
    pub lexeme: Seq<char>,
    pub line: nat,
}

impl View for Token {
    type V = TokenView;

    open spec fn view(&self) -> TokenView {
        TokenView { token_type: self.token_type, lexeme: self.lexeme@, line: self.line as nat }
    }
}

/// A problem found while scanning: the line it was found on and what it is.
#[derive(Debug, PartialEq, Clone)]
pub struct ScanError {
    pub line: u64,
    pub message: String,
}

/// The mathematical value of a [`ScanError`].
pub struct ScanErrorView {
    pub line: nat,
    pub message: Seq<char>,
}

impl View for ScanError {
    type V = ScanErrorView;

    open spec fn view(&self) -> ScanErrorView {
        ScanErrorView { line: self.line as nat, message: self.message@ }
    }
}

/// Everything scanning a source text yields: the tokens, ending with `EOF`,
/// and the problems met on the way, in the order they were met.
pub struct Scanned {
    pub tokens: Vec<Token>,
    pub errors: Vec<ScanError>,
}

pub open spec fn token_views(ts: Seq<Token>) -> Seq<TokenView> {
    ts.map_values(|t: Token| t@)
}

pub open spec fn error_views(es: Seq<ScanError>) -> Seq<ScanErrorView> {
    es.map_values(|e: ScanError| e@)
}

// ---------------------------------------------------------------------------
// Character classes and runs
// ---------------------------------------------------------------------------

pub open spec fn is_digit(c: char) -> bool {
    '0' <= c && c <= '9'
}

/// A character that may start an identifier.
pub open spec fn is_alpha(c: char) -> bool {
    ('a' <= c && c <= 'z') || ('A' <= c && c <= 'Z') || c == '_'
}

/// A character that may continue an identifier.
pub open spec fn is_alphanumeric(c: char) -> bool {
    is_alpha(c) || is_digit(c)
}

/// The number of digits at the start of `s`.
pub open spec fn digit_run(s: Seq<char>) -> nat
    decreases s.len(),
{
    if s.len() > 0 && is_digit(s[0]) {
        1 + digit_run(s.drop_first())
    } else {
        0
    }
}

/// The number of identifier characters at the start of `s`.
pub open spec fn identifier_run(s: Seq<char>) -> nat
    decreases s.len(),
{
    if s.len() > 0 && is_alphanumeric(s[0]) {
        1 + identifier_run(s.drop_first())
    } else {
        0
    }
}

/// The number of characters before the first line break of `s` (all of
/// them when there is none).
pub open spec fn line_run(s: Seq<char>) -> nat
    decreases s.len(),
{
    if s.len() > 0 && s[0] != '\n' {
        1 + line_run(s.drop_first())
    } else {
        0
    }
}

/// The number of characters before the first `"` of `s` (all of them when
/// there is none).
pub open spec fn string_run(s: Seq<char>) -> nat
    decreases s.len(),
{
    if s.len() > 0 && s[0] != '\"' {
        1 + string_run(s.drop_first())
    } else {
        0
    }
}

/// The number of line breaks in `s`.
pub open spec fn count_newlines(s: Seq<char>) -> nat
    decreases s.len(),
{
    if s.len() == 0 {
        0
    } else {
        (if s[0] == '\n' { 1nat } else { 0nat }) + count_newlines(s.drop_first())
    }
}

// ---------------------------------------------------------------------------
// Token kinds by text
// ---------------------------------------------------------------------------

/// The kind of a token made of the single character `c` alone, for the
/// characters that never start a longer token.
pub open spec fn single_char_kind(c: char) -> Option<TokenType> {
    if c == '(' {
        Some(TokenType::LeftParen)
    } else if c == ')' {
        Some(TokenType::RightParen)
    } else if c == '{' {
        Some(TokenType::LeftBrace)
    } else if c == '}' {
        Some(TokenType::RightBrace)
    } else if c == ',' {
        Some(TokenType::Comma)
    } else if c == '-' {
        Some(TokenType::Minus)
    } else if c == '+' {
        Some(TokenType::Plus)
    } else if c == ';' {
        Some(TokenType::SemiColon)
    } else if c == '*' {
        Some(TokenType::Star)
    } else if c == '.' {
        Some(TokenType::Dot)
    } else if c == '?' {
        Some(TokenType::QuestionMark)
    } else if c == ':' {
        Some(TokenType::Colon)
    } else {
        None
    }
}

/// For the characters that form one token alone or a second one when an
/// `=` follows: the two kinds.
pub open spec fn equal_pair_kinds(c: char) -> Option<(TokenType, TokenType)> {
    if c == '!' {
        Some((TokenType::Bang, TokenType::BangEqual))
    } else if c == '=' {
        Some((TokenType::Equal, TokenType::EqualEqual))
    } else if c == '>' {
        Some((TokenType::Greater, TokenType::GreaterEqual))
    } else if c == '<' {
        Some((TokenType::Less, TokenType::LessEqual))
    } else {
        None
    }
}

/// The reserved words of Lox and their kinds.
pub open spec fn keyword_kind(s: Seq<char>) -> Option<TokenType> {
    if s == "class"@ {
        Some(TokenType::Class)
    } else if s == "and"@ {
        Some(TokenType::And)
    } else if s == "else"@ {
        Some(TokenType::Else)
    } else if s == "false"@ {
        Some(TokenType::False)
    } else if s == "fun"@ {
        Some(TokenType::Fun)
    } else if s == "for"@ {
        Some(TokenType::For)
    } else if s == "if"@ {
        Some(TokenType::If)
    } else if s == "nil"@ {
        Some(TokenType::Nil)
    } else if s == "or"@ {
        Some(TokenType::Or)
    } else if s == "print"@ {
        Some(TokenType::Print)
    } else if s == "return"@ {
        Some(TokenType::Return)
    } else if s == "super"@ {
        Some(TokenType::Super)
    } else if s == "this"@ {
        Some(TokenType::This)
    } else if s == "true"@ {
        Some(TokenType::True)
    } else if s == "var"@ {
        Some(TokenType::Var)
    } else if s == "while"@ {
        Some(TokenType::While)
    } else {
        None
    }
}

/// The kind of a word: its keyword kind, or `Identifier`.
pub open spec fn word_kind(s: Seq<char>) -> TokenType {
    match keyword_kind(s) {
        Some(k) => k,
        None => TokenType::Identifier,
    }
}

pub open spec fn unterminated_string_message() -> Seq<char> {
    "Unterminated string"@
}

pub open spec fn unexpected_char_message(c: char) -> Seq<char> {
    "Unexpected character \""@ + seq![c] + "\""@
}

// ---------------------------------------------------------------------------
// One lexeme, then the whole text
// ---------------------------------------------------------------------------

/// What reading one lexeme produces.
pub enum Lexed {
    Token(TokenView),
    Nothing,
    Error(Seq<char>),
}

/// One lexeme: what it produces, how many characters after the first it
/// used, and the line number after it.
pub struct LexStep {
    pub outcome: Lexed,
    pub used: nat,
    pub line: nat,
}

pub open spec fn token_at(kind: TokenType, lexeme: Seq<char>, line: nat) -> Lexed {
    Lexed::Token(TokenView { token_type: kind, lexeme, line })
}

/// The lexeme that starts with `c`, followed by `rest`, when the line
/// number is `line`.
pub open spec fn lex_step(c: char, rest: Seq<char>, line: nat) -> LexStep {
    if c == ' ' || c == '\r' || c == '\t' {
        LexStep { outcome: Lexed::Nothing, used: 0, line }
    } else if c == '\n' {
        LexStep { outcome: Lexed::Nothing, used: 0, line: line + 1 }
    } else if single_char_kind(c) is Some {
        LexStep { outcome: token_at(single_char_kind(c)->0, seq![c], line), used: 0, line }
    } else if equal_pair_kinds(c) is Some {
        let (one, two) = equal_pair_kinds(c)->0;
        if rest.len() > 0 && rest[0] == '=' {
            LexStep { outcome: token_at(two, seq![c, '='], line), used: 1, line }
        } else {
            LexStep { outcome: token_at(one, seq![c], line), used: 0, line }
        }
    } else if c == '/' {
        if rest.len() > 0 && rest[0] == '/' {
            // a comment runs up to the end of the line
            LexStep { outcome: Lexed::Nothing, used: line_run(rest), line }
        } else {
            LexStep { outcome: token_at(TokenType::Slash, seq![c], line), used: 0, line }
        }
    } else if c == '\"' {
        let k = string_run(rest);
        let body = rest.take(k as int);
        let end_line = line + count_newlines(body);
        if k < rest.len() {
            LexStep { outcome: token_at(TokenType::String, body, end_line), used: k + 1, line: end_line }
        } else {
            LexStep {
                outcome: Lexed::Error(unterminated_string_message()),
                used: rest.len(),
                line: end_line,
            }
        }
    } else if is_digit(c) {
        let k = digit_run(rest);
        if k + 1 < rest.len() && rest[k as int] == '.' && is_digit(rest[(k + 1) as int]) {
            let n = k + 1 + digit_run(rest.skip((k + 1) as int));
            LexStep {
                outcome: token_at(TokenType::Number, seq![c] + rest.take(n as int), line),
                used: n,
                line,
            }
        } else {
            LexStep {
                outcome: token_at(TokenType::Number, seq![c] + rest.take(k as int), line),
                used: k,
                line,
            }
        }
    } else if is_alpha(c) {
        let k = identifier_run(rest);
        let word = seq![c] + rest.take(k as int);
        LexStep { outcome: token_at(word_kind(word), word, line), used: k, line }
    } else {
        LexStep { outcome: Lexed::Error(unexpected_char_message(c)), used: 0, line }
    }
}

/// The tokens and problems of a text.
pub struct ScanView {
    pub tokens: Seq<TokenView>,
    pub errors: Seq<ScanErrorView>,
}

/// Scanning `s` from line number `line`: one lexeme after the other, then
/// an `EOF` token on the line where the text ends.
pub open spec fn scan_from(s: Seq<char>, line: nat) -> ScanView
    decreases s.len(),
{
    if s.len() == 0 {
        ScanView {
            tokens: seq![TokenView { token_type: TokenType::EOF, lexeme: Seq::empty(), line }],
            errors: Seq::empty(),
        }
    } else {
        let step = lex_step(s[0], s.drop_first(), line);
        proof {
            lemma_lex_step_bounds(s[0], s.drop_first(), line);
        }
        let tail = scan_from(s.drop_first().skip(step.used as int), step.line);
        match step.outcome {
            Lexed::Token(t) => ScanView { tokens: seq![t] + tail.tokens, errors: tail.errors },
            Lexed::Nothing => tail,
            Lexed::Error(m) => ScanView {
                tokens: tail.tokens,
                errors: seq![ScanErrorView { line: step.line, message: m }] + tail.errors,
            },
        }
    }
}

/// The tokens and problems of a whole source text, which starts on line 1.
pub open spec fn scan_spec(source: Seq<char>) -> ScanView {
    scan_from(source, 1)
}

// ---------------------------------------------------------------------------
// Lemmas on runs
// ---------------------------------------------------------------------------

/// The digit run of `s` is its longest prefix of digits.
pub proof fn lemma_digit_run(s: Seq<char>)
    ensures
        digit_run(s) <= s.len(),
        forall|i: int| 0 <= i < digit_run(s) ==> is_digit(#[trigger] s[i]),
        digit_run(s) < s.len() ==> !is_digit(s[digit_run(s) as int]),
    decreases s.len(),
{
    if s.len() > 0 && is_digit(s[0]) {
        lemma_digit_run(s.drop_first());
        assert forall|i: int| 0 <= i < digit_run(s) implies is_digit(#[trigger] s[i]) by {
            if i > 0 {
                assert(s[i] == s.drop_first()[i - 1]);
            }
        }
    }
}

/// The identifier run of `s` is its longest prefix of letters, digits and
/// underscores.
pub proof fn lemma_identifier_run(s: Seq<char>)
    ensures
        identifier_run(s) <= s.len(),
        forall|i: int| 0 <= i < identifier_run(s) ==> is_alphanumeric(#[trigger] s[i]),
        identifier_run(s) < s.len() ==> !is_alphanumeric(s[identifier_run(s) as int]),
    decreases s.len(),
{
    if s.len() > 0 && is_alphanumeric(s[0]) {
        lemma_identifier_run(s.drop_first());
        assert forall|i: int| 0 <= i < identifier_run(s) implies is_alphanumeric(#[trigger] s[i]) by {
            if i > 0 {
                assert(s[i] == s.drop_first()[i - 1]);
            }
        }
    }
}

/// The line run of `s` is its prefix up to the first newline.
pub proof fn lemma_line_run(s: Seq<char>)
    ensures
        line_run(s) <= s.len(),
        forall|i: int| 0 <= i < line_run(s) ==> #[trigger] s[i] != '\n',
        line_run(s) < s.len() ==> s[line_run(s) as int] == '\n',
    decreases s.len(),
{
    if s.len() > 0 && s[0] != '\n' {
        lemma_line_run(s.drop_first());
        assert forall|i: int| 0 <= i < line_run(s) implies #[trigger] s[i] != '\n' by {
            if i > 0 {
                assert(s[i] == s.drop_first()[i - 1]);
            }
        }
    }
}

/// The string run of `s` is its prefix up to the first double quote.
pub proof fn lemma_string_run(s: Seq<char>)
    ensures
        string_run(s) <= s.len(),
        forall|i: int| 0 <= i < string_run(s) ==> #[trigger] s[i] != '\"',
        string_run(s) < s.len() ==> s[string_run(s) as int] == '\"',
    decreases s.len(),
{
    if s.len() > 0 && s[0] != '\"' {
        lemma_string_run(s.drop_first());
        assert forall|i: int| 0 <= i < string_run(s) implies #[trigger] s[i] != '\"' by {
            if i > 0 {
                assert(s[i] == s.drop_first()[i - 1]);
            }
        }
    }
}

/// A text holds no more newlines than characters.
pub proof fn lemma_count_newlines_bound(s: Seq<char>)
    ensures
        count_newlines(s) <= s.len(),
    decreases s.len(),
{
    if s.len() > 0 {
        lemma_count_newlines_bound(s.drop_first());
    }
}

/// A lexeme uses no more characters than there are, and moves the line
/// number on by at most the number of characters it reads.
pub proof fn lemma_lex_step_bounds(c: char, rest: Seq<char>, line: nat)
    ensures
        lex_step(c, rest, line).used <= rest.len(),
        line <= lex_step(c, rest, line).line <= line + 1 + lex_step(c, rest, line).used,
{
    lemma_digit_run(rest);
    lemma_identifier_run(rest);
    lemma_line_run(rest);
    lemma_string_run(rest);
    let k = string_run(rest);
    lemma_count_newlines_bound(rest.take(k as int));
    let d = digit_run(rest);
    if d + 1 < rest.len() {
        lemma_digit_run(rest.skip((d + 1) as int));
    }
}

/// Adding a character adds one newline to the count exactly when it is one.
pub proof fn lemma_count_newlines_push(s: Seq<char>, c: char)
    ensures
        count_newlines(s.push(c)) == count_newlines(s) + (if c == '\n' { 1nat } else { 0nat }),
    decreases s.len(),
{
    if s.len() > 0 {
        assert(s.push(c).drop_first() =~= s.drop_first().push(c));
        assert(s.push(c)[0] == s[0]);
        lemma_count_newlines_push(s.drop_first(), c);
    } else {
        assert(s.push(c).drop_first() =~= Seq::<char>::empty());
        assert(count_newlines(s.push(c).drop_first()) == 0);
    }
}

// ---------------------------------------------------------------------------
// Executable scanner
// ---------------------------------------------------------------------------

fn is_digit_char(c: char) -> (b: bool)
    ensures
        b == is_digit(c),
{
    '0' <= c && c <= '9'
}

fn is_alpha_char(c: char) -> (b: bool)
    ensures
        b == is_alpha(c),
{
    ('a' <= c && c <= 'z') || ('A' <= c && c <= 'Z') || c == '_'
}

fn is_alphanumeric_char(c: char) -> (b: bool)
    ensures
        b == is_alphanumeric(c),
{
    is_alpha_char(c) || is_digit_char(c)
}

fn single_char_token_type(c: char) -> (k: Option<TokenType>)
    ensures
        k == single_char_kind(c),
{
    match c {
        '(' => Some(TokenType::LeftParen),
        ')' => Some(TokenType::RightParen),
        '{' => Some(TokenType::LeftBrace),
        '}' => Some(TokenType::RightBrace),
        ',' => Some(TokenType::Comma),
        '-' => Some(TokenType::Minus),
        '+' => Some(TokenType::Plus),
        ';' => Some(TokenType::SemiColon),
        '*' => Some(TokenType::Star),
        '.' => Some(TokenType::Dot),
        '?' => Some(TokenType::QuestionMark),
        ':' => Some(TokenType::Colon),
        _ => None,
    }
}

fn equal_pair_token_types(c: char) -> (k: Option<(TokenType, TokenType)>)
    ensures
        k == equal_pair_kinds(c),
{
    match c {
        '!' => Some((TokenType::Bang, TokenType::BangEqual)),
        '=' => Some((TokenType::Equal, TokenType::EqualEqual)),
        '>' => Some((TokenType::Greater, TokenType::GreaterEqual)),
        '<' => Some((TokenType::Less, TokenType::LessEqual)),
        _ => None,
    }
}

/// The keyword kind of a word, if it is one of Lox's reserved words.
pub fn keyword_type(word: &String) -> (k: Option<TokenType>)
    ensures
        k == keyword_kind(word@),
{
    if *word == String::from_str("class") {
        Some(TokenType::Class)
    } else if *word == String::from_str("and") {
        Some(TokenType::And)
    } else if *word == String::from_str("else") {
        Some(TokenType::Else)
    } else if *word == String::from_str("false") {
        Some(TokenType::False)
    } else if *word == String::from_str("fun") {
        Some(TokenType::Fun)
    } else if *word == String::from_str("for") {
        Some(TokenType::For)
    } else if *word == String::from_str("if") {
        Some(TokenType::If)
    } else if *word == String::from_str("nil") {
        Some(TokenType::Nil)
    } else if *word == String::from_str("or") {
        Some(TokenType::Or)
    } else if *word == String::from_str("print") {
        Some(TokenType::Print)
    } else if *word == String::from_str("return") {
        Some(TokenType::Return)
    } else if *word == String::from_str("super") {
        Some(TokenType::Super)
    } else if *word == String::from_str("this") {
        Some(TokenType::This)
    } else if *word == String::from_str("true") {
        Some(TokenType::True)
    } else if *word == String::from_str("var") {
        Some(TokenType::Var)
    } else if *word == String::from_str("while") {
        Some(TokenType::While)
    } else {
        None
    }
}

/// Calls `String::push`. Claims that the string gains `ch` at its end.
pub assume_specification[ std::string::String::push ](string: &mut std::string::String, ch: char)
    ensures
        final(string)@ == old(string)@.push(ch),
;

/// Moves the digits at the front of the stream onto the end of `lexeme`.
fn take_digits(stream: &mut PeekNth<Chars<'_>>, lexeme: &mut String)
    ensures
        final(lexeme)@ == old(lexeme)@ + pending(*old(stream)).take(
            digit_run(pending(*old(stream))) as int,
        ),
        pending(*final(stream)) == pending(*old(stream)).skip(
            digit_run(pending(*old(stream))) as int,
        ),
{
    let ghost r = pending(*stream);
    let ghost start = lexeme@;
    let ghost mut n: int = 0;
    proof {
        assert(r.skip(0) =~= r);
        assert(r.take(0) =~= Seq::<char>::empty());
        assert(start + r.take(0) =~= start);
    }
    loop
        invariant
            0 <= n <= r.len(),
            pending(*stream) == r.skip(n),
            digit_run(r) == n + digit_run(r.skip(n)),
            lexeme@ == start + r.take(n),
        ensures
            0 <= n <= r.len(),
            pending(*stream) == r.skip(n),
            digit_run(r) == n,
            lexeme@ == start + r.take(n),
        decreases r.len() - n,
    {
        match peek_char(stream) {
            Some(c) => {
                if is_digit_char(c) {
                    lexeme.push(c);
                    next_char(stream);
                    proof {
                        assert(r.skip(n).drop_first() =~= r.skip(n + 1));
                        assert(r.take(n + 1) =~= r.take(n).push(c));
                        n = n + 1;
                    }
                } else {
                    break;
                }
            },
            None => {
                break;
            },
        }
    }
}

/// Moves the identifier characters at the front of the stream onto the end
/// of `lexeme`.
fn take_identifier_chars(stream: &mut PeekNth<Chars<'_>>, lexeme: &mut String)
    ensures
        final(lexeme)@ == old(lexeme)@ + pending(*old(stream)).take(
            identifier_run(pending(*old(stream))) as int,
        ),
        pending(*final(stream)) == pending(*old(stream)).skip(
            identifier_run(pending(*old(stream))) as int,
        ),
{
    let ghost r = pending(*stream);
    let ghost start = lexeme@;
    let ghost mut n: int = 0;
    proof {
        assert(r.skip(0) =~= r);
        assert(r.take(0) =~= Seq::<char>::empty());
        assert(start + r.take(0) =~= start);
    }
    loop
        invariant
            0 <= n <= r.len(),
            pending(*stream) == r.skip(n),
            identifier_run(r) == n + identifier_run(r.skip(n)),
            lexeme@ == start + r.take(n),
        ensures
            0 <= n <= r.len(),
            pending(*stream) == r.skip(n),
            identifier_run(r) == n,
            lexeme@ == start + r.take(n),
        decreases r.len() - n,
    {
        match peek_char(stream) {
            Some(c) => {
                if is_alphanumeric_char(c) {
                    lexeme.push(c);
                    next_char(stream);
                    proof {
                        assert(r.skip(n).drop_first() =~= r.skip(n + 1));
                        assert(r.take(n + 1) =~= r.take(n).push(c));
                        n = n + 1;
                    }
                } else {
                    break;
                }
            },
            None => {
                break;
            },
        }
    }
}

/// Drops the characters up to, and not including, the next line break.
fn skip_to_line_end(stream: &mut PeekNth<Chars<'_>>)
    ensures
        pending(*final(stream)) == pending(*old(stream)).skip(
            line_run(pending(*old(stream))) as int,
        ),
{
    let ghost r = pending(*stream);
    let ghost mut n: int = 0;
    proof {
        assert(r.skip(0) =~= r);
    }
    loop
        invariant
            0 <= n <= r.len(),
            pending(*stream) == r.skip(n),
            line_run(r) == n + line_run(r.skip(n)),
        ensures
            pending(*stream) == r.skip(n),
            line_run(r) == n,
        decreases r.len() - n,
    {
        match peek_char(stream) {
            Some(c) => {
                if c == '\n' {
                    break;
                }
                next_char(stream);
                proof {
                    assert(r.skip(n).drop_first() =~= r.skip(n + 1));
                    n = n + 1;
                }
            },
            None => {
                break;
            },
        }
    }
}

/// Reads a string literal whose opening `"` has been read: its body goes
/// into the returned string. Returns whether the closing `"` was found, and
/// the line number after the body.
fn take_string_body(stream: &mut PeekNth<Chars<'_>>, line: u64) -> (res: (bool, String, u64))
    requires
        line + count_newlines(pending(*old(stream)).take(string_run(pending(*old(stream))) as int)) <= u64::MAX,
    ensures
        ({
            let r = pending(*old(stream));
            let k = string_run(r);
            &&& res.0 == (k < r.len())
            &&& res.1@ == r.take(k as int)
            &&& res.2 == line + count_newlines(r.take(k as int))
            &&& pending(*final(stream)) == (if k < r.len() {
                r.skip((k + 1) as int)
            } else {
                r.skip(k as int)
            })
        }),
{
    let ghost r = pending(*stream);
    let ghost mut n: int = 0;
    let mut body = String::new();
    let mut line = line;
    let ghost line0 = line;
    let mut terminated = false;
    proof {
        assert(r.skip(0) =~= r);
        assert(r.take(0) =~= Seq::<char>::empty());
        assert(count_newlines(Seq::<char>::empty()) == 0);
        lemma_string_run(r);
    }
    loop
        invariant_except_break
            !terminated,
            pending(*stream) == r.skip(n),
        invariant
            0 <= n <= r.len(),
            string_run(r) == n + string_run(r.skip(n)),
            body@ == r.take(n),
            line == line0 + count_newlines(r.take(n)),
            line0 + count_newlines(r.take(string_run(r) as int)) <= u64::MAX,
            string_run(r) <= r.len(),
        ensures
            0 <= n <= r.len(),
            string_run(r) == n,
            body@ == r.take(n),
            line == line0 + count_newlines(r.take(n)),
            terminated == (n < r.len()),
            pending(*stream) == (if terminated {
                r.skip(n + 1)
            } else {
                r.skip(n)
            }),
        decreases r.len() - n,
    {
        match next_char(stream) {
            Some(c) => {
                if c == '\"' {
                    terminated = true;
                    proof {
                        assert(r.skip(n).drop_first() =~= r.skip(n + 1));
                        assert(r.skip(n)[0] == '\"');
                        assert(string_run(r.skip(n)) == 0);
                    }
                    break;
                }
                proof {
                    lemma_count_newlines_push(r.take(n), c);
                    assert(r.skip(n)[0] == c);
                    assert(string_run(r.skip(n)) == 1 + string_run(r.skip(n).drop_first()));
                    lemma_count_newlines_prefix(r, n + 1, string_run(r) as int);
                    assert(r.take(n + 1) =~= r.take(n).push(c));
                    assert(r.skip(n).drop_first() =~= r.skip(n + 1));
                }
                if c == '\n' {
                    line = line + 1;
                }
                body.push(c);
                proof {
                    n = n + 1;
                }
            },
            None => {
                break;
            },
        }
    }
    (terminated, body, line)
}

/// The token made of `lexeme` alone, or of `lexeme` and a following `=`.
fn single_or_two_char_token(
    stream: &mut PeekNth<Chars<'_>>,
    one_char_tt: TokenType,
    two_char_tt: TokenType,
    lexeme: String,
    line: u64,
) -> (token: Token)
    ensures
        ({
            let r = pending(*old(stream));
            if r.len() > 0 && r[0] == '=' {
                &&& token@ == TokenView { token_type: two_char_tt, lexeme: lexeme@.push('='), line: line as nat }
                &&& pending(*final(stream)) == r.drop_first()
            } else {
                &&& token@ == TokenView { token_type: one_char_tt, lexeme: lexeme@, line: line as nat }
                &&& pending(*final(stream)) == r
            }
        }),
{
    let mut lexeme = lexeme;
    match peek_char(stream) {
        Some(next) => {
            let mut token_type = one_char_tt;
            if next == '=' {
                token_type = two_char_tt;
                lexeme.push(next);
                next_char(stream);
            }
            Token { token_type, lexeme, line }
        },
        None => Token { token_type: one_char_tt, lexeme, line },
    }
}

/// Reads a number whose first digit, `first`, has been read.
fn scan_number(stream: &mut PeekNth<Chars<'_>>, first: char, line: u64) -> (token: Token)
    requires
        is_digit(first),
    ensures
        ({
            let step = lex_step(first, pending(*old(stream)), line as nat);
            &&& step.outcome == Lexed::Token(token@)
            &&& pending(*final(stream)) == pending(*old(stream)).skip(step.used as int)
        }),
{
    let ghost r = pending(*stream);
    let mut lexeme = String::new();
    lexeme.push(first);
    proof {
        assert(lexeme@ =~= seq![first]);
    }
    take_digits(stream, &mut lexeme);
    let ghost k: int = digit_run(r) as int;
    proof {
        lemma_digit_run(r);
    }
    let maybe_dot = peek_char(stream);
    let char_after_dot = peek_nth_char(stream, 1);
    match (maybe_dot, char_after_dot) {
        (Some(dot), Some(after)) => {
            if dot == '.' && is_digit_char(after) {
                lexeme.push('.');
                next_char(stream);
                proof {
                    assert(r.skip(k).drop_first() =~= r.skip(k + 1));
                }
                take_digits(stream, &mut lexeme);
                proof {
                    let m: int = digit_run(r.skip(k + 1)) as int;
                    lemma_digit_run(r.skip(k + 1));
                    assert(r.skip(k + 1).skip(m) =~= r.skip(k + 1 + m));
                    assert(seq![first] + r.take(k) + seq!['.'] + r.skip(k + 1).take(m)
                        =~= seq![first] + r.take(k + 1 + m));
                }
            } else {
                proof {
                    assert(r.skip(k)[0] == r[k]);
                    assert(r.skip(k)[1] == r[k + 1]);
                }
            }
        },
        _ => {
            proof {
                if k + 1 < r.len() {
                    assert(r.skip(k)[0] == r[k]);
                    assert(r.skip(k)[1] == r[k + 1]);
                }
            }
        },
    }
    let token = Token { token_type: TokenType::Number, lexeme, line };
    proof {
        let step = lex_step(first, r, line as nat);
        assert(token@.lexeme =~= step.outcome->Token_0.lexeme);
    }
    token
}

/// Reads an identifier or keyword whose first character, `first`, has been
/// read.
fn scan_word(stream: &mut PeekNth<Chars<'_>>, first: char, line: u64) -> (token: Token)
    requires
        is_alpha(first),
        !is_digit(first),
    ensures
        ({
            let step = lex_step(first, pending(*old(stream)), line as nat);
            &&& step.outcome == Lexed::Token(token@)
            &&& pending(*final(stream)) == pending(*old(stream)).skip(step.used as int)
        }),
{
    let mut lexeme = String::new();
    lexeme.push(first);
    take_identifier_chars(stream, &mut lexeme);
    let token_type = match keyword_type(&lexeme) {
        Some(token_type) => token_type,
        None => TokenType::Identifier,
    };
    Token { token_type, lexeme, line }
}

/// What reading one lexeme produced, as values.
enum LexOutcome {
    Token(Token),
    Nothing,
    Error(String),
}

spec fn outcome_agrees(outcome: LexOutcome, lexed: Lexed) -> bool {
    match lexed {
        Lexed::Token(t) => outcome matches LexOutcome::Token(token) && token@ == t,
        Lexed::Nothing => outcome is Nothing,
        Lexed::Error(m) => outcome matches LexOutcome::Error(message) && message@ == m,
    }
}

/// Reads the lexeme that starts with `c`, which has just been taken from the
/// stream, on line `line`; returns what it produced and the line after it.
fn lex_one(stream: &mut PeekNth<Chars<'_>>, c: char, line: u64) -> (res: (LexOutcome, u64))
    requires
        line + count_newlines(seq![c] + pending(*old(stream))) <= u64::MAX,
    ensures
        ({
            let step = lex_step(c, pending(*old(stream)), line as nat);
            &&& outcome_agrees(res.0, step.outcome)
            &&& res.1 == step.line
            &&& pending(*final(stream)) == pending(*old(stream)).skip(step.used as int)
        }),
{
    let ghost r = pending(*stream);
    proof {
        assert(r.skip(0) =~= r);
        if r.len() > 0 {
            assert(r.skip(1) =~= r.drop_first());
        }
        lemma_count_newlines_cons(c, r);
        lemma_string_run(r);
        lemma_count_newlines_prefix(r, 0, string_run(r) as int);
    }
    if c == ' ' || c == '\r' || c == '\t' {
        return (LexOutcome::Nothing, line);
    }
    if c == '\n' {
        return (LexOutcome::Nothing, line + 1);
    }
    let mut lexeme = String::new();
    lexeme.push(c);
    proof {
        assert(lexeme@ =~= seq![c]);
        assert(seq![c].push('=') =~= seq![c, '=']);
    }
    if let Some(token_type) = single_char_token_type(c) {
        return (LexOutcome::Token(Token { token_type, lexeme, line }), line);
    }
    if let Some((one_char_tt, two_char_tt)) = equal_pair_token_types(c) {
        let token = single_or_two_char_token(stream, one_char_tt, two_char_tt, lexeme, line);
        return (LexOutcome::Token(token), line);
    }
    if c == '/' {
        match peek_char(stream) {
            Some(next) => {
                if next == '/' {
                    skip_to_line_end(stream);
                    return (LexOutcome::Nothing, line);
                } else {
                    return (
                        LexOutcome::Token(Token { token_type: TokenType::Slash, lexeme, line }),
                        line,
                    );
                }
            },
            None => {
                return (
                    LexOutcome::Token(Token { token_type: TokenType::Slash, lexeme, line }),
                    line,
                );
            },
        }
    }
    if c == '\"' {
        proof {
            lemma_string_run(r);
        }
        let (terminated, body, end_line) = take_string_body(stream, line);
        if terminated {
            return (
                LexOutcome::Token(Token { token_type: TokenType::String, lexeme: body, line: end_line }),
                end_line,
            );
        } else {
            proof {
                assert(r.skip(r.len() as int) =~= r.skip(string_run(r) as int));
            }
            return (LexOutcome::Error(String::from_str("Unterminated string")), end_line);
        }
    }
    if is_digit_char(c) {
        let token = scan_number(stream, c, line);
        return (LexOutcome::Token(token), line);
    }
    if is_alpha_char(c) {
        let token = scan_word(stream, c, line);
        return (LexOutcome::Token(token), line);
    }
    let mut message = String::from_str("Unexpected character \"");
    message.push(c);
    message.append("\"");
    proof {
        assert(message@ =~= unexpected_char_message(c));
    }
    (LexOutcome::Error(message), line)
}

/// Scans `source`: its tokens, the last of which is `EOF`, and the problems
/// met on the way (unterminated strings, unexpected characters).
pub fn scan_source(source: &str) -> (out: Scanned)
    requires
        count_newlines(source@) < u64::MAX,
    ensures
        token_views(out.tokens@) == scan_spec(source@).tokens,
        error_views(out.errors@) == scan_spec(source@).errors,
{
    let mut stream = stream_of(source);
    let mut tokens: Vec<Token> = Vec::new();
    let mut errors: Vec<ScanError> = Vec::new();
    let mut line: u64 = 1;
    proof {
        assert(token_views(tokens@) =~= Seq::<TokenView>::empty());
        assert(error_views(errors@) =~= Seq::<ScanErrorView>::empty());
        assert(Seq::<TokenView>::empty() + scan_spec(source@).tokens =~= scan_spec(source@).tokens);
        assert(Seq::<ScanErrorView>::empty() + scan_spec(source@).errors =~= scan_spec(source@).errors);
    }
    loop
        invariant
            token_views(tokens@) + scan_from(pending(stream), line as nat).tokens
                == scan_spec(source@).tokens,
            error_views(errors@) + scan_from(pending(stream), line as nat).errors
                == scan_spec(source@).errors,
            line + count_newlines(pending(stream)) == 1 + count_newlines(source@),
            count_newlines(source@) < u64::MAX,
        ensures
            pending(stream).len() == 0,
            token_views(tokens@) + scan_from(pending(stream), line as nat).tokens
                == scan_spec(source@).tokens,
            error_views(errors@) + scan_from(pending(stream), line as nat).errors
                == scan_spec(source@).errors,
        decreases pending(stream).len(),
    {
        let ghost before = pending(stream);
        let ghost old_tokens = tokens@;
        let ghost old_errors = errors@;
        match next_char(&mut stream) {
            None => {
                break;
            },
            Some(c) => {
                proof {
                    assert(before =~= seq![c] + before.drop_first());
                }
                let (outcome, new_line) = lex_one(&mut stream, c, line);
                proof {
                    lemma_lex_step_bounds(c, before.drop_first(), line as nat);
                    let rest = before.drop_first();
                    let used = lex_step(c, rest, line as nat).used as int;
                    lemma_lex_step_line(c, rest, line as nat);
                    lemma_count_newlines_cons(c, rest);
                    assert(rest =~= rest.take(used) + rest.skip(used));
                    lemma_count_newlines_append(rest.take(used), rest.skip(used));
                }
                let ghost step = lex_step(c, before.drop_first(), line as nat);
                let ghost tail = scan_from(pending(stream), new_line as nat);
                match outcome {
                    LexOutcome::Token(t) => {
                        tokens.push(t);
                        proof {
                            assert(token_views(tokens@) =~= token_views(old_tokens).push(t@));
                            assert(token_views(old_tokens).push(t@) + tail.tokens
                                =~= token_views(old_tokens) + (seq![t@] + tail.tokens));
                        }
                    },
                    LexOutcome::Nothing => {},
                    LexOutcome::Error(message) => {
                        let e = ScanError { line: new_line, message };
                        errors.push(e);
                        proof {
                            assert(error_views(errors@) =~= error_views(old_errors).push(e@));
                            assert(error_views(old_errors).push(e@) + tail.errors
                                =~= error_views(old_errors) + (seq![e@] + tail.errors));
                        }
                    },
                }
                line = new_line;
            },
        }
    }
    let ghost old_tokens = tokens@;
    tokens.push(Token { token_type: TokenType::EOF, lexeme: String::new(), line });
    proof {
        assert(token_views(tokens@) =~= token_views(old_tokens) + scan_from(pending(stream), line as nat).tokens);
        assert(error_views(errors@) =~= error_views(errors@) + scan_from(pending(stream), line as nat).errors);
    }
    Scanned { tokens, errors }
}

/// Whether `text` holds fewer newlines than the largest `u64`, so that
/// its line numbers can be counted.
fn fewer_newlines_than_max(text: &str) -> (b: bool)
    ensures
        b == (count_newlines(text@) < u64::MAX),
{
    let n = text.unicode_len();
    let mut k: u64 = 0;
    let mut i: usize = 0;
    proof {
        assert(text@.take(0) =~= Seq::<char>::empty());
    }
    while i < n
        invariant
            n == text@.len(),
            i <= n,
            k == count_newlines(text@.take(i as int)),
            k < u64::MAX,
        decreases n - i,
    {
        let c = text.get_char(i);
        proof {
            lemma_count_newlines_push(text@.take(i as int), c);
            assert(text@.take(i + 1) =~= text@.take(i as int).push(c));
        }
        if c == '\n' {
            if k == u64::MAX - 1 {
                proof {
                    lemma_count_newlines_prefix(text@, i + 1, n as int);
                }
                return false;
            }
            k = k + 1;
        }
        i = i + 1;
    }
    proof {
        assert(text@.take(n as int) =~= text@);
    }
    true
}

/// Scans `source` when the line numbers of its lines can be counted in a
/// `u64` (always so for a text held in memory); `None` otherwise.
pub fn try_scan_source(source: &str) -> (out: Option<Scanned>)
    ensures
        out is Some <==> count_newlines(source@) < u64::MAX,
        out matches Some(scanned) ==> {
            &&& token_views(scanned.tokens@) == scan_spec(source@).tokens
            &&& error_views(scanned.errors@) == scan_spec(source@).errors
        },
{
    if fewer_newlines_than_max(source) {
        Some(scan_source(source))
    } else {
        None
    }
}

/// The tokens of `source`, the last of which is `EOF`.
pub fn scan_tokens(source: &str) -> (tokens: Vec<Token>)
    requires
        count_newlines(source@) < u64::MAX,
    ensures
        token_views(tokens@) == scan_spec(source@).tokens,
{
    scan_source(source).tokens
}

// ---------------------------------------------------------------------------
// Laws of the scanner
// ---------------------------------------------------------------------------

/// The newlines of two texts put together are those of each.
pub proof fn lemma_count_newlines_append(a: Seq<char>, b: Seq<char>)
    ensures
        count_newlines(a + b) == count_newlines(a) + count_newlines(b),
    decreases a.len(),
{
    if a.len() == 0 {
        assert(a + b =~= b);
    } else {
        assert((a + b).drop_first() =~= a.drop_first() + b);
        assert((a + b)[0] == a[0]);
        lemma_count_newlines_append(a.drop_first(), b);
    }
}

/// A prefix of a text holds no more newlines than a longer prefix, nor
/// than the whole text.
pub proof fn lemma_count_newlines_prefix(s: Seq<char>, a: int, b: int)
    requires
        0 <= a <= b <= s.len(),
    ensures
        count_newlines(s.take(a)) <= count_newlines(s.take(b)),
        count_newlines(s.take(b)) <= count_newlines(s),
{
    assert(s.take(b) =~= s.take(a) + s.subrange(a, b));
    lemma_count_newlines_append(s.take(a), s.subrange(a, b));
    assert(s =~= s.take(b) + s.skip(b));
    lemma_count_newlines_append(s.take(b), s.skip(b));
}

/// The newlines of a character put before a text.
pub proof fn lemma_count_newlines_cons(c: char, r: Seq<char>)
    ensures
        count_newlines(seq![c] + r) == (if c == '\n' { 1nat } else { 0nat }) + count_newlines(r),
{
    assert((seq![c] + r).drop_first() =~= r);
    assert((seq![c] + r)[0] == c);
}

/// A text without a newline character counts no newlines.
pub proof fn lemma_no_newlines(s: Seq<char>)
    requires
        forall|i: int| 0 <= i < s.len() ==> #[trigger] s[i] != '\n',
    ensures
        count_newlines(s) == 0,
    decreases s.len(),
{
    if s.len() > 0 {
        assert forall|i: int| 0 <= i < s.drop_first().len() implies #[trigger] s.drop_first()[i] != '\n' by {
            assert(s.drop_first()[i] == s[i + 1]);
        }
        lemma_no_newlines(s.drop_first());
    }
}

/// A lexeme moves the line number on by the line breaks it reads.
pub proof fn lemma_lex_step_line(c: char, rest: Seq<char>, line: nat)
    ensures
        lex_step(c, rest, line).line == line + (if c == '\n' { 1nat } else { 0nat }) + count_newlines(
            rest.take(lex_step(c, rest, line).used as int),
        ),
{
    let step = lex_step(c, rest, line);
    lemma_lex_step_bounds(c, rest, line);
    lemma_digit_run(rest);
    lemma_identifier_run(rest);
    lemma_line_run(rest);
    lemma_string_run(rest);
    let x = rest.take(step.used as int);
    if c == '"' {
        let k: int = string_run(rest) as int;
        if k < rest.len() {
            assert(rest.take(k + 1) =~= rest.take(k).push(rest[k]));
            lemma_count_newlines_push(rest.take(k), rest[k]);
        } else {
            assert(rest.take(k) =~= rest.take(rest.len() as int));
        }
    } else if is_digit(c) || equal_pair_kinds(c) is Some || c == '/' || is_alpha(c) {
        let d: int = digit_run(rest) as int;
        if is_digit(c) && d + 1 < rest.len() && rest[d] == '.' && is_digit(rest[d + 1]) {
            lemma_digit_run(rest.skip(d + 1));
            assert forall|i: int| 0 <= i < x.len() implies #[trigger] x[i] != '\n' by {
                if i > d {
                    assert(x[i] == rest.skip(d + 1)[i - d - 1]);
                }
            }
        }
        assert forall|i: int| 0 <= i < x.len() implies #[trigger] x[i] != '\n' by {
            assert(x[i] == rest[i]);
        }
        lemma_no_newlines(x);
    } else {
        assert(x =~= Seq::<char>::empty());
    }
}

/// A lexeme never yields an `EOF` token, and a token it yields is on a line
/// between the line before it and the line after it.
pub proof fn lemma_lex_step_token(c: char, rest: Seq<char>, line: nat)
    ensures
        lex_step(c, rest, line).outcome matches Lexed::Token(t) ==> {
            &&& t.token_type != TokenType::EOF
            &&& line <= t.line <= lex_step(c, rest, line).line
        },
{
    lemma_lex_step_bounds(c, rest, line);
    let word = seq![c] + rest.take(identifier_run(rest) as int);
    assert(keyword_kind(word) != Some(TokenType::EOF));
}

/// Scanning yields at least one token; the last is `EOF`, on the line where
/// the text ends (one more than the line breaks in it), and no other token
/// is `EOF`; the line numbers of the tokens never go down.
pub proof fn lemma_scan_shape(s: Seq<char>, line: nat)
    ensures
        ({
            let ts = scan_from(s, line).tokens;
            &&& ts.len() >= 1
            &&& ts.last().token_type == TokenType::EOF
            &&& ts.last().line == line + count_newlines(s)
            &&& forall|i: int| 0 <= i < ts.len() - 1 ==> #[trigger] ts[i].token_type != TokenType::EOF
            &&& forall|i: int, j: int|
                0 <= i <= j < ts.len() ==> line <= #[trigger] ts[i].line <= #[trigger] ts[j].line
        }),
    decreases s.len(),
{
    if s.len() > 0 {
        let c = s[0];
        let rest = s.drop_first();
        let step = lex_step(c, rest, line);
        lemma_lex_step_bounds(c, rest, line);
        lemma_lex_step_line(c, rest, line);
        lemma_lex_step_token(c, rest, line);
        let after = rest.skip(step.used as int);
        lemma_scan_shape(after, step.line);
        assert(rest =~= rest.take(step.used as int) + after);
        lemma_count_newlines_append(rest.take(step.used as int), after);
        let tail = scan_from(after, step.line).tokens;
        if let Lexed::Token(t) = step.outcome {
            let ts = seq![t] + tail;
            assert(ts.last() == tail.last());
            assert forall|i: int| 0 <= i < ts.len() - 1 implies #[trigger] ts[i].token_type != TokenType::EOF by {
                if i > 0 {
                    assert(ts[i] == tail[i - 1]);
                }
            }
            assert forall|i: int, j: int| 0 <= i <= j < ts.len() implies line <= #[trigger] ts[i].line
                <= #[trigger] ts[j].line by {
                if i > 0 {
                    assert(ts[i] == tail[i - 1]);
                }
                if j > 0 {
                    assert(ts[j] == tail[j - 1]);
                    assert(line <= tail[j - 1].line);
                }
            }
        }
    } else {
        let ts = scan_from(s, line).tokens;
        assert(ts.len() == 1);
    }
}

/// The tokens of any source text end with the only `EOF` among them, so a
/// parser over them never reads past the end.
pub proof fn lemma_scan_ends_with_eof(source: Seq<char>)
    ensures
        scan_spec(source).tokens.len() >= 1,
        scan_spec(source).tokens.last().token_type == TokenType::EOF,
        scan_spec(source).tokens.last().line == 1 + count_newlines(source),
{
    lemma_scan_shape(source, 1);
}

/// The first token of scanning `s` from line `line`.
pub open spec fn first_token(s: Seq<char>, line: nat) -> TokenView {
    scan_from(s, line).tokens[0]
}

/// The token `kind` with text `lexeme` on line `line`.
pub open spec fn token_view(kind: TokenType, lexeme: Seq<char>, line: nat) -> TokenView {
    TokenView { token_type: kind, lexeme, line }
}

/// Each punctuation character of Lox is read as the token it names,
/// whatever follows it: `(` as `LeftParen`, `+` as `Plus`, `;` as
/// `SemiColon`, and so on.
pub proof fn lemma_punctuation_tokens(c: char, rest: Seq<char>, line: nat)
    ensures
        c == '(' ==> first_token(seq![c] + rest, line) == token_view(TokenType::LeftParen, seq!['('], line),
        c == ')' ==> first_token(seq![c] + rest, line) == token_view(TokenType::RightParen, seq![')'], line),
        c == '{' ==> first_token(seq![c] + rest, line) == token_view(TokenType::LeftBrace, seq!['{'], line),
        c == '}' ==> first_token(seq![c] + rest, line) == token_view(TokenType::RightBrace, seq!['}'], line),
        c == ',' ==> first_token(seq![c] + rest, line) == token_view(TokenType::Comma, seq![','], line),
        c == '.' ==> first_token(seq![c] + rest, line) == token_view(TokenType::Dot, seq!['.'], line),
        c == '-' ==> first_token(seq![c] + rest, line) == token_view(TokenType::Minus, seq!['-'], line),
        c == '+' ==> first_token(seq![c] + rest, line) == token_view(TokenType::Plus, seq!['+'], line),
        c == ';' ==> first_token(seq![c] + rest, line) == token_view(TokenType::SemiColon, seq![';'], line),
        c == '*' ==> first_token(seq![c] + rest, line) == token_view(TokenType::Star, seq!['*'], line),
        c == '?' ==> first_token(seq![c] + rest, line) == token_view(TokenType::QuestionMark, seq!['?'], line),
        c == ':' ==> first_token(seq![c] + rest, line) == token_view(TokenType::Colon, seq![':'], line),
{
    let s = seq![c] + rest;
    assert(s.drop_first() =~= rest);
    assert(s[0] == c);
}

/// `!`, `=`, `>` and `<` are read together with a following `=` as `!=`,
/// `==`, `>=` and `<=`, and alone otherwise; `/` is a `Slash` unless a
/// second `/` starts a comment.
pub proof fn lemma_operator_tokens(c: char, rest: Seq<char>, line: nat)
    ensures
        c == '!' && rest.len() > 0 && rest[0] == '=' ==> first_token(seq![c] + rest, line) == token_view(
            TokenType::BangEqual,
            seq!['!', '='],
            line,
        ),
        c == '!' && !(rest.len() > 0 && rest[0] == '=') ==> first_token(seq![c] + rest, line)
            == token_view(TokenType::Bang, seq!['!'], line),
        c == '=' && rest.len() > 0 && rest[0] == '=' ==> first_token(seq![c] + rest, line) == token_view(
            TokenType::EqualEqual,
            seq!['=', '='],
            line,
        ),
        c == '=' && !(rest.len() > 0 && rest[0] == '=') ==> first_token(seq![c] + rest, line)
            == token_view(TokenType::Equal, seq!['='], line),
        c == '>' && rest.len() > 0 && rest[0] == '=' ==> first_token(seq![c] + rest, line) == token_view(
            TokenType::GreaterEqual,
            seq!['>', '='],
            line,
        ),
        c == '>' && !(rest.len() > 0 && rest[0] == '=') ==> first_token(seq![c] + rest, line)
            == token_view(TokenType::Greater, seq!['>'], line),
        c == '<' && rest.len() > 0 && rest[0] == '=' ==> first_token(seq![c] + rest, line) == token_view(
            TokenType::LessEqual,
            seq!['<', '='],
            line,
        ),
        c == '<' && !(rest.len() > 0 && rest[0] == '=') ==> first_token(seq![c] + rest, line)
            == token_view(TokenType::Less, seq!['<'], line),
        c == '/' && !(rest.len() > 0 && rest[0] == '/') ==> first_token(seq![c] + rest, line)
            == token_view(TokenType::Slash, seq!['/'], line),
{
    let s = seq![c] + rest;
    assert(s.drop_first() =~= rest);
    assert(s[0] == c);
}

/// The identifier run of letters, digits and underscores followed by a text
/// that does not go on with one is all of them.
proof fn lemma_identifier_run_of_word(w: Seq<char>, rest: Seq<char>)
    requires
        forall|i: int| 0 <= i < w.len() ==> is_alphanumeric(#[trigger] w[i]),
        rest.len() == 0 || !is_alphanumeric(rest[0]),
    ensures
        identifier_run(w + rest) == w.len(),
    decreases w.len(),
{
    if w.len() == 0 {
        assert(w + rest =~= rest);
    } else {
        assert((w + rest).drop_first() =~= w.drop_first() + rest);
        assert((w + rest)[0] == w[0]);
        assert forall|i: int| 0 <= i < w.drop_first().len() implies is_alphanumeric(#[trigger] w.drop_first()[i]) by {
            assert(w.drop_first()[i] == w[i + 1]);
        }
        lemma_identifier_run_of_word(w.drop_first(), rest);
    }
}

/// A word, a letter or `_` followed by letters, digits and `_`, is read
/// whole as one token: a keyword's kind or an identifier.
pub proof fn lemma_word_token(w: Seq<char>, rest: Seq<char>, line: nat)
    requires
        w.len() >= 1,
        is_alpha(w[0]),
        forall|i: int| 0 <= i < w.len() ==> is_alphanumeric(#[trigger] w[i]),
        rest.len() == 0 || !is_alphanumeric(rest[0]),
    ensures
        first_token(w + rest, line) == token_view(word_kind(w), w, line),
{
    let s = w + rest;
    let tail = w.drop_first();
    assert(s.drop_first() =~= tail + rest);
    assert(s[0] == w[0]);
    assert forall|i: int| 0 <= i < tail.len() implies is_alphanumeric(#[trigger] tail[i]) by {
        assert(tail[i] == w[i + 1]);
    }
    lemma_identifier_run_of_word(tail, rest);
    assert((tail + rest).take(tail.len() as int) =~= tail);
    assert(seq![w[0]] + tail =~= w);
}

/// Each reserved word of Lox, when the text does not go on with a letter,
/// digit or `_`, is read as the keyword token of its name.
pub proof fn lemma_keyword_tokens(w: Seq<char>, rest: Seq<char>, line: nat)
    requires
        rest.len() == 0 || !is_alphanumeric(rest[0]),
    ensures
        w == "class"@ ==> first_token(w + rest, line) == token_view(TokenType::Class, w, line),
        w == "and"@ ==> first_token(w + rest, line) == token_view(TokenType::And, w, line),
        w == "else"@ ==> first_token(w + rest, line) == token_view(TokenType::Else, w, line),
        w == "false"@ ==> first_token(w + rest, line) == token_view(TokenType::False, w, line),
        w == "fun"@ ==> first_token(w + rest, line) == token_view(TokenType::Fun, w, line),
        w == "for"@ ==> first_token(w + rest, line) == token_view(TokenType::For, w, line),
        w == "if"@ ==> first_token(w + rest, line) == token_view(TokenType::If, w, line),
        w == "nil"@ ==> first_token(w + rest, line) == token_view(TokenType::Nil, w, line),
        w == "or"@ ==> first_token(w + rest, line) == token_view(TokenType::Or, w, line),
        w == "print"@ ==> first_token(w + rest, line) == token_view(TokenType::Print, w, line),
        w == "return"@ ==> first_token(w + rest, line) == token_view(TokenType::Return, w, line),
        w == "super"@ ==> first_token(w + rest, line) == token_view(TokenType::Super, w, line),
        w == "this"@ ==> first_token(w + rest, line) == token_view(TokenType::This, w, line),
        w == "true"@ ==> first_token(w + rest, line) == token_view(TokenType::True, w, line),
        w == "var"@ ==> first_token(w + rest, line) == token_view(TokenType::Var, w, line),
        w == "while"@ ==> first_token(w + rest, line) == token_view(TokenType::While, w, line),
{
    reveal_strlit("class");
    reveal_strlit("and");
    reveal_strlit("else");
    reveal_strlit("false");
    reveal_strlit("fun");
    reveal_strlit("for");
    reveal_strlit("if");
    reveal_strlit("nil");
    reveal_strlit("or");
    reveal_strlit("print");
    reveal_strlit("return");
    reveal_strlit("super");
    reveal_strlit("this");
    reveal_strlit("true");
    reveal_strlit("var");
    reveal_strlit("while");
    if w.len() >= 1 && is_alpha(w[0]) && forall|i: int| 0 <= i < w.len() ==> is_alphanumeric(#[trigger] w[i]) {
        lemma_word_token(w, rest, line);
    }
}

/// The digit run of digits followed by a text that does not go on with a
/// digit is those digits.
pub proof fn lemma_digit_run_of_digits(a: Seq<char>, rest: Seq<char>)
    requires
        forall|i: int| 0 <= i < a.len() ==> is_digit(#[trigger] a[i]),
        rest.len() == 0 || !is_digit(rest[0]),
    ensures
        digit_run(a + rest) == a.len(),
    decreases a.len(),
{
    if a.len() == 0 {
        assert(a + rest =~= rest);
    } else {
        assert((a + rest).drop_first() =~= a.drop_first() + rest);
        assert((a + rest)[0] == a[0]);
        assert forall|i: int| 0 <= i < a.drop_first().len() implies is_digit(#[trigger] a.drop_first()[i]) by {
            assert(a.drop_first()[i] == a[i + 1]);
        }
        lemma_digit_run_of_digits(a.drop_first(), rest);
    }
}

/// The string run of a text without `"` followed by a `"` is that text.
proof fn lemma_string_run_of_body(body: Seq<char>, rest: Seq<char>)
    requires
        forall|i: int| 0 <= i < body.len() ==> #[trigger] body[i] != '\"',
        rest.len() == 0 || rest[0] == '\"',
    ensures
        string_run(body + rest) == body.len(),
    decreases body.len(),
{
    if body.len() == 0 {
        assert(body + rest =~= rest);
    } else {
        assert((body + rest).drop_first() =~= body.drop_first() + rest);
        assert((body + rest)[0] == body[0]);
        assert forall|i: int| 0 <= i < body.drop_first().len() implies #[trigger] body.drop_first()[i] != '\"' by {
            assert(body.drop_first()[i] == body[i + 1]);
        }
        lemma_string_run_of_body(body.drop_first(), rest);
    }
}

/// The line run of a text without a newline followed by a newline (or by
/// nothing) is that text.
proof fn lemma_line_run_of_text(text: Seq<char>, rest: Seq<char>)
    requires
        forall|i: int| 0 <= i < text.len() ==> #[trigger] text[i] != '\n',
        rest.len() == 0 || rest[0] == '\n',
    ensures
        line_run(text + rest) == text.len(),
    decreases text.len(),
{
    if text.len() == 0 {
        assert(text + rest =~= rest);
    } else {
        assert((text + rest).drop_first() =~= text.drop_first() + rest);
        assert((text + rest)[0] == text[0]);
        assert forall|i: int| 0 <= i < text.drop_first().len() implies #[trigger] text.drop_first()[i] != '\n' by {
            assert(text.drop_first()[i] == text[i + 1]);
        }
        lemma_line_run_of_text(text.drop_first(), rest);
    }
}

/// A run of digits with no fraction after it is read whole as one number
/// token of those digits.
pub proof fn lemma_integer_token(a: Seq<char>, rest: Seq<char>, line: nat)
    requires
        a.len() >= 1,
        forall|i: int| 0 <= i < a.len() ==> is_digit(#[trigger] a[i]),
        rest.len() == 0 || !is_digit(rest[0]),
        !(rest.len() >= 2 && rest[0] == '.' && is_digit(rest[1])),
    ensures
        first_token(a + rest, line) == token_view(TokenType::Number, a, line),
{
    let s = a + rest;
    let tail = a.drop_first();
    assert(s.drop_first() =~= tail + rest);
    assert(s[0] == a[0]);
    assert forall|i: int| 0 <= i < tail.len() implies is_digit(#[trigger] tail[i]) by {
        assert(tail[i] == a[i + 1]);
    }
    lemma_digit_run_of_digits(tail, rest);
    let r = tail + rest;
    let k = tail.len() as int;
    if k + 1 < r.len() {
        assert(r[k] == rest[0]);
        assert(r[k + 1] == rest[1]);
    }
    assert(r.take(k) =~= tail);
    assert(seq![a[0]] + tail =~= a);
}

/// Digits, a point and more digits are read whole as one number token of
/// that text.
pub proof fn lemma_decimal_token(a: Seq<char>, b: Seq<char>, rest: Seq<char>, line: nat)
    requires
        a.len() >= 1,
        b.len() >= 1,
        forall|i: int| 0 <= i < a.len() ==> is_digit(#[trigger] a[i]),
        forall|i: int| 0 <= i < b.len() ==> is_digit(#[trigger] b[i]),
        rest.len() == 0 || !is_digit(rest[0]),
    ensures
        first_token(a + seq!['.'] + b + rest, line) == token_view(TokenType::Number, a + seq!['.'] + b, line),
{
    let s = a + seq!['.'] + b + rest;
    let tail = a.drop_first();
    let r = tail + (seq!['.'] + b + rest);
    assert(s.drop_first() =~= r);
    assert(s[0] == a[0]);
    assert forall|i: int| 0 <= i < tail.len() implies is_digit(#[trigger] tail[i]) by {
        assert(tail[i] == a[i + 1]);
    }
    lemma_digit_run_of_digits(tail, seq!['.'] + b + rest);
    let k = tail.len() as int;
    assert(r[k] == '.');
    assert(r[k + 1] == b[0]);
    assert(r.skip(k + 1) =~= b + rest);
    lemma_digit_run_of_digits(b, rest);
    let n = k + 1 + b.len();
    assert(r.take(n) =~= tail + seq!['.'] + b);
    assert(seq![a[0]] + (tail + seq!['.'] + b) =~= a + seq!['.'] + b);
}

/// A string literal is read as one string token of the text between its
/// quotes, on the line where it ends.
pub proof fn lemma_string_token(body: Seq<char>, rest: Seq<char>, line: nat)
    requires
        forall|i: int| 0 <= i < body.len() ==> #[trigger] body[i] != '\"',
    ensures
        first_token(seq!['\"'] + body + seq!['\"'] + rest, line) == token_view(
            TokenType::String,
            body,
            line + count_newlines(body),
        ),
{
    let s = seq!['\"'] + body + seq!['\"'] + rest;
    let r = body + (seq!['\"'] + rest);
    assert(s.drop_first() =~= r);
    assert(s[0] == '\"');
    lemma_string_run_of_body(body, seq!['\"'] + rest);
    assert(r.take(body.len() as int) =~= body);
}

/// A string literal without its closing quote is reported, on the line where
/// the text ends, and nothing after it is read as tokens.
pub proof fn lemma_unterminated_string(body: Seq<char>, line: nat)
    requires
        forall|i: int| 0 <= i < body.len() ==> #[trigger] body[i] != '\"',
    ensures
        scan_from(seq!['\"'] + body, line).errors == seq![
            (ScanErrorView { line: line + count_newlines(body), message: "Unterminated string"@ }),
        ],
        scan_from(seq!['\"'] + body, line).tokens == seq![
            token_view(TokenType::EOF, Seq::empty(), line + count_newlines(body)),
        ],
{
    let s = seq!['\"'] + body;
    assert(s.drop_first() =~= body);
    assert(s[0] == '\"');
    lemma_string_run_of_body(body, Seq::empty());
    assert(body + Seq::<char>::empty() =~= body);
    assert(body.take(body.len() as int) =~= body);
    assert(body.skip(body.len() as int) =~= Seq::<char>::empty());
    let end_line = line + count_newlines(body);
    let tail = scan_from(Seq::<char>::empty(), end_line);
    assert(tail.tokens == seq![token_view(TokenType::EOF, Seq::empty(), end_line)]);
    assert(tail.errors == Seq::<ScanErrorView>::empty());
    let step = lex_step('\"', body, line);
    assert(step.used == body.len());
    assert(step.line == end_line);
    assert(scan_from(s, line).errors =~= seq![(ScanErrorView { line: end_line, message: "Unterminated string"@ })]
        + tail.errors);
}

/// Spaces, tabs and carriage returns produce nothing, a newline moves on to
/// the next line, and a `//` comment runs to the end of its line.
pub proof fn lemma_blank_text(c: char, rest: Seq<char>, line: nat)
    ensures
        c == ' ' || c == '\t' || c == '\r' ==> scan_from(seq![c] + rest, line) == scan_from(rest, line),
        c == '\n' ==> scan_from(seq![c] + rest, line) == scan_from(rest, line + 1),
{
    let s = seq![c] + rest;
    assert(s.drop_first() =~= rest);
    assert(s[0] == c);
    assert(rest.skip(0) =~= rest);
}

/// A `//` comment produces nothing up to the end of its line.
pub proof fn lemma_comment(text: Seq<char>, rest: Seq<char>, line: nat)
    requires
        forall|i: int| 0 <= i < text.len() ==> #[trigger] text[i] != '\n',
        rest.len() == 0 || rest[0] == '\n',
    ensures
        scan_from(seq!['/', '/'] + text + rest, line) == scan_from(rest, line),
{
    let s = seq!['/', '/'] + text + rest;
    let r = seq!['/'] + text + rest;
    assert(s.drop_first() =~= r);
    assert(s[0] == '/');
    assert(r[0] == '/');
    let t2 = seq!['/'] + text;
    assert forall|i: int| 0 <= i < t2.len() implies #[trigger] t2[i] != '\n' by {
        if i > 0 {
            assert(t2[i] == text[i - 1]);
        }
    }
    lemma_line_run_of_text(t2, rest);
    assert(r =~= t2 + rest);
    assert(r.skip(t2.len() as int) =~= rest);
}

/// A character that starts no token is reported as unexpected, on its
/// line, and scanning goes on after it.
pub proof fn lemma_unexpected_character(c: char, rest: Seq<char>, line: nat)
    requires
        !is_alphanumeric(c),
        !(c == ' ' || c == '\r' || c == '\t' || c == '\n' || c == '\"' || c == '/'),
        !(c == '(' || c == ')' || c == '{' || c == '}' || c == ',' || c == '.' || c == '-' || c == '+' || c
            == ';' || c == '*' || c == '?' || c == ':'),
        !(c == '!' || c == '=' || c == '>' || c == '<'),
    ensures
        scan_from(seq![c] + rest, line).errors == seq![
            (ScanErrorView { line, message: "Unexpected character \""@ + seq![c] + "\""@ }),
        ] + scan_from(rest, line).errors,
        scan_from(seq![c] + rest, line).tokens == scan_from(rest, line).tokens,
{
    let s = seq![c] + rest;
    assert(s.drop_first() =~= rest);
    assert(s[0] == c);
    assert(rest.skip(0) =~= rest);
}

} // verus!
