//! The syntax tree of Lox expressions and statements, and its mathematical
//! model.
use crate::scanner::{Token, TokenType, TokenView};
use vstd::prelude::*;
use vstd::string::*;

verus! {

/// A literal value. A number is kept as the decimal text it was written
/// with.
#[derive(Debug, PartialEq, Clone)]
pub enum LiteralValue {
    Number(String),
    String(String),
    False,
    True,
    Nil,
}

/// The mathematical value of a [`LiteralValue`].
pub enum LiteralModel {
    Number(Seq<char>),
    Str(Seq<char>),
    False,
    True,
    Nil,
}

impl View for LiteralValue {
    type V = LiteralModel;

    open spec fn view(&self) -> LiteralModel {
        match self {
            LiteralValue::Number(n) => LiteralModel::Number(n@),
            LiteralValue::String(s) => LiteralModel::Str(s@),
            LiteralValue::False => LiteralModel::False,
            LiteralValue::True => LiteralModel::True,
            LiteralValue::Nil => LiteralModel::Nil,
        }
    }
}

/// How a literal is written: a number as its text, a string between double
/// quotes, the others by name.
pub open spec fn literal_text(val: LiteralModel) -> Seq<char> {
    match val {
        LiteralModel::Number(n) => n,
        LiteralModel::Str(s) => seq!['\"'] + s + seq!['\"'],
        LiteralModel::False => "false"@,
        LiteralModel::True => "true"@,
        LiteralModel::Nil => "nil"@,
    }
}

impl LiteralValue {
    /// `True` for `true`, `False` for `false`.
    pub fn from_bool(b: bool) -> (v: Self)
        ensures
            v@ == (if b { LiteralModel::True } else { LiteralModel::False }),
    {
        if b {
            Self::True
        } else {
            Self::False
        }
    }

    /// The text of the value: a number as its digits, a string between
    /// double quotes, `true`, `false` or `nil`.
    pub fn display_text(&self) -> (text: String)
        ensures
            text@ == literal_text(self@),
    {
        match self {
            LiteralValue::Number(n) => n.clone(),
            LiteralValue::String(s) => {
                let mut text = String::new();
                text.push('\"');
                text.append(s.as_str());
                text.push('\"');
                proof {
                    assert(text@ =~= seq!['\"'] + s@ + seq!['\"']);
                }
                text
            },
            LiteralValue::False => String::from_str("false"),
            LiteralValue::True => String::from_str("true"),
            LiteralValue::Nil => String::from_str("nil"),
        }
    }

    /// A value equal to this one.
    pub fn duplicate(&self) -> (v: LiteralValue)
        ensures
            v@ == self@,
    {
        match self {
            LiteralValue::Number(n) => LiteralValue::Number(n.clone()),
            LiteralValue::String(s) => LiteralValue::String(s.clone()),
            LiteralValue::False => LiteralValue::False,
            LiteralValue::True => LiteralValue::True,
            LiteralValue::Nil => LiteralValue::Nil,
        }
    }
}

/// Everything but `false` and `nil` counts as true.
pub open spec fn truthy(val: LiteralModel) -> bool {
    !(val is False || val is Nil)
}

/// Whether a value counts as true in a condition: everything but `false`
/// and `nil` does.
pub fn is_truthy(literal: &LiteralValue) -> (b: bool)
    ensures
        b == truthy(literal@),
{
    match literal {
        LiteralValue::False => false,
        LiteralValue::Nil => false,
        _ => true,
    }
}

/// The value made from a boolean counts as true exactly when the boolean is
/// true, so that negating a value by its truth gives the opposite truth.
pub proof fn lemma_from_bool_truthy(b: bool, v: LiteralValue)
    requires
        v@ == (if b { LiteralModel::True } else { LiteralModel::False }),
    ensures
        truthy(v@) == b,
{
}

/// Only `false` and `nil` count as false: `true`, every number (zero too)
/// and every string (the empty one too) count as true.
pub proof fn lemma_truthiness(v: LiteralModel)
    ensures
        v == LiteralModel::False ==> !truthy(v),
        v == LiteralModel::Nil ==> !truthy(v),
        v == LiteralModel::True ==> truthy(v),
        v is Number ==> truthy(v),
        v is Str ==> truthy(v),
{
}

pub open spec fn non_string_message() -> Seq<char> {
    "Found non-number literal"@
}

/// Every value of `values` is a string.
pub open spec fn all_strings(values: Seq<LiteralValue>) -> bool {
    forall|i: int| 0 <= i < values.len() ==> #[trigger] values[i] is String
}

/// `strings` are the strings that `values` hold, in order.
pub open spec fn strings_of(values: Seq<LiteralValue>, strings: Seq<&String>) -> bool {
    &&& strings.len() == values.len()
    &&& forall|i: int| 0 <= i < values.len() ==> values[i] == LiteralValue::String(*#[trigger] strings[i])
}

/// The strings of a list of values that are all strings; an error when one
/// of them is not a string.
pub fn parse_string_literals(literal_values: &[LiteralValue]) -> (res: Result<Vec<&String>, String>)
    ensures
        res is Ok <==> all_strings(literal_values@),
        res matches Ok(strings) ==> strings_of(literal_values@, strings@),
        res matches Err(message) ==> message@ == non_string_message(),
{
    let mut result: Vec<&String> = Vec::new();
    let mut i: usize = 0;
    while i < literal_values.len()
        invariant
            i <= literal_values@.len(),
            strings_of(literal_values@.take(i as int), result@),
            forall|k: int| 0 <= k < i ==> #[trigger] literal_values@[k] is String,
        decreases literal_values@.len() - i,
    {
        match &literal_values[i] {
            LiteralValue::String(val) => {
                result.push(val);
            },
            _ => {
                return Err(String::from_str("Found non-number literal"));
            },
        }
        i = i + 1;
    }
    proof {
        assert(literal_values@.take(i as int) =~= literal_values@);
    }
    Ok(result)
}

/// An expression.
#[derive(Debug, PartialEq)]
pub enum Expr {
    Literal(LiteralValue),
    Unary { operator: Token, right: Box<Expr> },
    Binary { left: Box<Expr>, operator: Token, right: Box<Expr> },
    Ternary { left: Box<Expr>, middle: Box<Expr>, right: Box<Expr> },
    Grouping { expression: Box<Expr> },
    Exprs(Vec<Expr>),
}

/// The mathematical value of an [`Expr`].
pub enum ExprModel {
    Literal(LiteralModel),
    Unary { operator: TokenView, right: Box<ExprModel> },
    Binary { left: Box<ExprModel>, operator: TokenView, right: Box<ExprModel> },
    Ternary { left: Box<ExprModel>, middle: Box<ExprModel>, right: Box<ExprModel> },
    Grouping { expression: Box<ExprModel> },
    Exprs(Seq<ExprModel>),
}

impl View for Expr {
    type V = ExprModel;

    open spec fn view(&self) -> ExprModel
        decreases self,
    {
        match self {
            Expr::Literal(v) => ExprModel::Literal(v@),
            Expr::Unary { operator, right } => ExprModel::Unary {
                operator: operator@,
                right: Box::new((**right).view()),
            },
            Expr::Binary { left, operator, right } => ExprModel::Binary {
                left: Box::new((**left).view()),
                operator: operator@,
                right: Box::new((**right).view()),
            },
            Expr::Ternary { left, middle, right } => ExprModel::Ternary {
                left: Box::new((**left).view()),
                middle: Box::new((**middle).view()),
                right: Box::new((**right).view()),
            },
            Expr::Grouping { expression } => ExprModel::Grouping {
                expression: Box::new((**expression).view()),
            },
            Expr::Exprs(exprs) => ExprModel::Exprs(expr_list_view(exprs@)),
        }
    }
}

/// The models of a list of expressions, in order.
pub open spec fn expr_list_view(exprs: Seq<Expr>) -> Seq<ExprModel>
    decreases exprs,
{
    if exprs.len() == 0 {
        Seq::empty()
    } else {
        expr_list_view(exprs.drop_last()).push(exprs.last().view())
    }
}

/// The models of a list are the models of its items, one by one.
pub proof fn lemma_expr_list_view(exprs: Seq<Expr>)
    ensures
        expr_list_view(exprs).len() == exprs.len(),
        forall|i: int| 0 <= i < exprs.len() ==> #[trigger] expr_list_view(exprs)[i] == exprs[i]@,
    decreases exprs.len(),
{
    if exprs.len() > 0 {
        lemma_expr_list_view(exprs.drop_last());
        assert(expr_list_view(exprs) == expr_list_view(exprs.drop_last()).push(exprs.last()@));
        assert forall|i: int| 0 <= i < exprs.len() implies #[trigger] expr_list_view(exprs)[i]
            == exprs[i]@ by {
            if i < exprs.len() - 1 {
                assert(exprs.drop_last()[i] == exprs[i]);
            }
        }
    }
}

/// A statement.
#[derive(Debug, PartialEq)]
pub enum Stmt {
    Expr(Expr),
    Print(Expr),
}

/// The mathematical value of a [`Stmt`].
pub enum StmtModel {
    Expr(ExprModel),
    Print(ExprModel),
}

impl View for Stmt {
    type V = StmtModel;

    open spec fn view(&self) -> StmtModel {
        match self {
            Stmt::Expr(e) => StmtModel::Expr(e@),
            Stmt::Print(e) => StmtModel::Print(e@),
        }
    }
}

pub open spec fn stmt_views(stmts: Seq<Stmt>) -> Seq<StmtModel> {
    stmts.map_values(|s: Stmt| s@)
}

} // verus!
