//! Walking an expression tree with a visitor, and the visitor that prints
//! an expression as an S-expression.
use crate::ast::{
    Expr, ExprModel, LiteralModel, LiteralValue, expr_list_view, lemma_expr_list_view, literal_text,
};
use crate::scanner::{Token, TokenView};
use vstd::prelude::*;
use vstd::string::*;

verus! {

/// A call that [`walk_expression`] makes on a visitor, with the models of
/// its arguments.
pub enum VisitEvent {
    EnterLiteral(LiteralModel),
    ExitLiteral(LiteralModel),
    EnterBinary(ExprModel, TokenView, ExprModel),
    InterBinary(ExprModel, TokenView, ExprModel),
    ExitBinary(ExprModel, TokenView, ExprModel),
    EnterTernary(ExprModel, ExprModel, ExprModel),
    AfterTernaryGuard(ExprModel, ExprModel, ExprModel),
    AfterTernaryFirst(ExprModel, ExprModel, ExprModel),
    ExitTernary(ExprModel, ExprModel, ExprModel),
    EnterUnary(TokenView, ExprModel),
    ExitUnary(TokenView, ExprModel),
    EnterGrouping(ExprModel),
    ExitGrouping(ExprModel),
    EnterExprs(Seq<ExprModel>),
    InterExprs(Seq<ExprModel>, int),
    ExitExprs(Seq<ExprModel>),
}

/// Callbacks for each kind of node of an expression tree. A visitor says,
/// in `after_event`, how each call changes its value.
pub trait Visitor: View + Sized {
    spec fn after_event(state: Self::V, event: VisitEvent) -> Self::V;

    fn enter_literal(&mut self, val: &LiteralValue)
        ensures
            final(self)@ == Self::after_event(old(self)@, VisitEvent::EnterLiteral(val@)),
    ;

    fn exit_literal(&mut self, val: &LiteralValue)
        ensures
            final(self)@ == Self::after_event(old(self)@, VisitEvent::ExitLiteral(val@)),
    ;

    fn enter_binary(&mut self, left: &Expr, operator: &Token, right: &Expr)
        ensures
            final(self)@ == Self::after_event(
                old(self)@,
                VisitEvent::EnterBinary(left@, operator@, right@),
            ),
    ;

    fn inter_binary(&mut self, left: &Expr, operator: &Token, right: &Expr)
        ensures
            final(self)@ == Self::after_event(
                old(self)@,
                VisitEvent::InterBinary(left@, operator@, right@),
            ),
    ;

    fn exit_binary(&mut self, left: &Expr, operator: &Token, right: &Expr)
        ensures
            final(self)@ == Self::after_event(
                old(self)@,
                VisitEvent::ExitBinary(left@, operator@, right@),
            ),
    ;

    fn enter_ternary(&mut self, left: &Expr, middle: &Expr, right: &Expr)
        ensures
            final(self)@ == Self::after_event(
                old(self)@,
                VisitEvent::EnterTernary(left@, middle@, right@),
            ),
    ;

    fn after_ternary_guard(&mut self, left: &Expr, middle: &Expr, right: &Expr)
        ensures
            final(self)@ == Self::after_event(
                old(self)@,
                VisitEvent::AfterTernaryGuard(left@, middle@, right@),
            ),
    ;

    fn after_ternary_first(&mut self, left: &Expr, middle: &Expr, right: &Expr)
        ensures
            final(self)@ == Self::after_event(
                old(self)@,
                VisitEvent::AfterTernaryFirst(left@, middle@, right@),
            ),
    ;

    fn exit_ternary(&mut self, left: &Expr, middle: &Expr, right: &Expr)
        ensures
            final(self)@ == Self::after_event(
                old(self)@,
                VisitEvent::ExitTernary(left@, middle@, right@),
            ),
    ;

    fn enter_unary(&mut self, operator: &Token, right: &Expr)
        ensures
            final(self)@ == Self::after_event(old(self)@, VisitEvent::EnterUnary(operator@, right@)),
    ;

    fn exit_unary(&mut self, operator: &Token, right: &Expr)
        ensures
            final(self)@ == Self::after_event(old(self)@, VisitEvent::ExitUnary(operator@, right@)),
    ;

    fn enter_grouping(&mut self, expr: &Expr)
        ensures
            final(self)@ == Self::after_event(old(self)@, VisitEvent::EnterGrouping(expr@)),
    ;

    fn exit_grouping(&mut self, expr: &Expr)
        ensures
            final(self)@ == Self::after_event(old(self)@, VisitEvent::ExitGrouping(expr@)),
    ;

    fn enter_exprs(&mut self, exprs: &Vec<Expr>)
        ensures
            final(self)@ == Self::after_event(
                old(self)@,
                VisitEvent::EnterExprs(expr_list_view(exprs@)),
            ),
    ;

    fn inter_exprs(&mut self, exprs: &Vec<Expr>, index: usize)
        requires
            exprs@.len() >= 1,
        ensures
            final(self)@ == Self::after_event(
                old(self)@,
                VisitEvent::InterExprs(expr_list_view(exprs@), index as int),
            ),
    ;

    fn exit_exprs(&mut self, exprs: &Vec<Expr>)
        ensures
            final(self)@ == Self::after_event(
                old(self)@,
                VisitEvent::ExitExprs(expr_list_view(exprs@)),
            ),
    ;
}

/// The value of a visitor after the calls `events`, one by one.
pub open spec fn replay<V: Visitor>(state: V::V, events: Seq<VisitEvent>) -> V::V
    decreases events.len(),
{
    if events.len() == 0 {
        state
    } else {
        replay::<V>(V::after_event(state, events[0]), events.drop_first())
    }
}

/// Replaying two runs of calls one after the other is replaying them
/// together.
pub proof fn lemma_replay_append<V: Visitor>(state: V::V, a: Seq<VisitEvent>, b: Seq<VisitEvent>)
    ensures
        replay::<V>(state, a + b) == replay::<V>(replay::<V>(state, a), b),
    decreases a.len(),
{
    if a.len() > 0 {
        assert((a + b).drop_first() =~= a.drop_first() + b);
        assert((a + b)[0] == a[0]);
        lemma_replay_append::<V>(V::after_event(state, a[0]), a.drop_first(), b);
    } else {
        assert(a + b =~= b);
    }
}

/// The calls [`walk_expression`] makes for the expression `e`.
pub open spec fn expr_events(e: ExprModel) -> Seq<VisitEvent>
    decreases e,
{
    match e {
        ExprModel::Literal(val) => seq![VisitEvent::EnterLiteral(val), VisitEvent::ExitLiteral(val)],
        ExprModel::Grouping { expression } => seq![VisitEvent::EnterGrouping(e)] + expr_events(
            *expression,
        ) + seq![VisitEvent::ExitGrouping(e)],
        ExprModel::Unary { operator, right } => seq![VisitEvent::EnterUnary(operator, *right)]
            + expr_events(*right) + seq![VisitEvent::ExitUnary(operator, *right)],
        ExprModel::Binary { left, operator, right } => seq![
            VisitEvent::EnterBinary(*left, operator, *right),
        ] + expr_events(*left) + seq![VisitEvent::InterBinary(*left, operator, *right)]
            + expr_events(*right) + seq![VisitEvent::ExitBinary(*left, operator, *right)],
        ExprModel::Ternary { left, middle, right } => seq![
            VisitEvent::EnterTernary(*left, *middle, *right),
        ] + expr_events(*left) + seq![VisitEvent::AfterTernaryGuard(*left, *middle, *right)]
            + expr_events(*middle) + seq![VisitEvent::AfterTernaryFirst(*left, *middle, *right)]
            + expr_events(*right) + seq![VisitEvent::ExitTernary(*left, *middle, *right)],
        ExprModel::Exprs(exprs) => seq![VisitEvent::EnterExprs(exprs)] + item_events(exprs, exprs)
            + seq![VisitEvent::ExitExprs(exprs)],
    }
}

/// The calls for the first items of a comma list `all`: each item walked
/// as on its own, then an `InterExprs` call with its index.
pub open spec fn item_events(all: Seq<ExprModel>, items: Seq<ExprModel>) -> Seq<VisitEvent>
    decreases items,
{
    if items.len() == 0 {
        Seq::empty()
    } else {
        item_events(all, items.drop_last()) + expr_events(items.last()) + seq![
            VisitEvent::InterExprs(all, items.len() - 1),
        ]
    }
}

/// Replaying one more call applies that call to the state reached.
pub proof fn lemma_replay_step<V: Visitor>(state: V::V, events: Seq<VisitEvent>, event: VisitEvent)
    ensures
        replay::<V>(state, events + seq![event]) == V::after_event(replay::<V>(state, events), event),
{
    lemma_replay_append::<V>(state, events, seq![event]);
    let s = replay::<V>(state, events);
    assert(seq![event].drop_first() =~= Seq::<VisitEvent>::empty());
    assert(replay::<V>(V::after_event(s, event), Seq::<VisitEvent>::empty()) == V::after_event(s, event));
}

/// Walks `expr`, calling `visitor` on each node on the way in, between
/// operands and on the way out.
pub fn walk_expression<V: Visitor>(expr: &Expr, visitor: &mut V)
    ensures
        final(visitor)@ == replay::<V>(old(visitor)@, expr_events(expr@)),
    decreases expr,
{
    let ghost start = visitor@;
    match expr {
        Expr::Literal(val) => {
            visitor.enter_literal(val);
            visitor.exit_literal(val);
            proof {
                let e0 = Seq::<VisitEvent>::empty();
                lemma_replay_step::<V>(start, e0, VisitEvent::EnterLiteral(val@));
                let e1 = e0 + seq![VisitEvent::EnterLiteral(val@)];
                lemma_replay_step::<V>(start, e1, VisitEvent::ExitLiteral(val@));
                assert(e1 + seq![VisitEvent::ExitLiteral(val@)] =~= expr_events(expr@));
            }
        },
        Expr::Grouping { expression } => {
            visitor.enter_grouping(expr);
            let ghost s1 = visitor@;
            walk_expression(&**expression, visitor);
            let ghost s2 = visitor@;
            visitor.exit_grouping(expr);
            proof {
                let a = seq![VisitEvent::EnterGrouping(expr@)];
                lemma_replay_step::<V>(start, Seq::empty(), VisitEvent::EnterGrouping(expr@));
                assert(Seq::<VisitEvent>::empty() + a =~= a);
                let b = a + expr_events((**expression)@);
                lemma_replay_append::<V>(start, a, expr_events((**expression)@));
                lemma_replay_step::<V>(start, b, VisitEvent::ExitGrouping(expr@));
                assert(b + seq![VisitEvent::ExitGrouping(expr@)] =~= expr_events(expr@));
            }
        },
        Expr::Unary { operator, right } => {
            visitor.enter_unary(operator, &**right);
            walk_expression(&**right, visitor);
            visitor.exit_unary(operator, &**right);
            proof {
                let a = seq![VisitEvent::EnterUnary(operator@, (**right)@)];
                lemma_replay_step::<V>(start, Seq::empty(), a[0]);
                assert(Seq::<VisitEvent>::empty() + a =~= a);
                let b = a + expr_events((**right)@);
                lemma_replay_append::<V>(start, a, expr_events((**right)@));
                lemma_replay_step::<V>(start, b, VisitEvent::ExitUnary(operator@, (**right)@));
                assert(b + seq![VisitEvent::ExitUnary(operator@, (**right)@)] =~= expr_events(expr@));
            }
        },
        Expr::Binary { left, operator, right } => {
            let ghost l = (**left)@;
            let ghost r = (**right)@;
            let ghost op = operator@;
            visitor.enter_binary(&**left, operator, &**right);
            walk_expression(&**left, visitor);
            visitor.inter_binary(&**left, operator, &**right);
            walk_expression(&**right, visitor);
            visitor.exit_binary(&**left, operator, &**right);
            proof {
                let a = seq![VisitEvent::EnterBinary(l, op, r)];
                lemma_replay_step::<V>(start, Seq::empty(), a[0]);
                assert(Seq::<VisitEvent>::empty() + a =~= a);
                let b = a + expr_events(l);
                lemma_replay_append::<V>(start, a, expr_events(l));
                let c = b + seq![VisitEvent::InterBinary(l, op, r)];
                lemma_replay_step::<V>(start, b, VisitEvent::InterBinary(l, op, r));
                let d = c + expr_events(r);
                lemma_replay_append::<V>(start, c, expr_events(r));
                lemma_replay_step::<V>(start, d, VisitEvent::ExitBinary(l, op, r));
                assert(d + seq![VisitEvent::ExitBinary(l, op, r)] =~= expr_events(expr@));
            }
        },
        Expr::Ternary { left, middle, right } => {
            let ghost l = (**left)@;
            let ghost m = (**middle)@;
            let ghost r = (**right)@;
            visitor.enter_ternary(&**left, &**middle, &**right);
            walk_expression(&**left, visitor);
            visitor.after_ternary_guard(&**left, &**middle, &**right);
            walk_expression(&**middle, visitor);
            visitor.after_ternary_first(&**left, &**middle, &**right);
            walk_expression(&**right, visitor);
            visitor.exit_ternary(&**left, &**middle, &**right);
            proof {
                let a = seq![VisitEvent::EnterTernary(l, m, r)];
                lemma_replay_step::<V>(start, Seq::empty(), a[0]);
                assert(Seq::<VisitEvent>::empty() + a =~= a);
                let b = a + expr_events(l);
                lemma_replay_append::<V>(start, a, expr_events(l));
                let c = b + seq![VisitEvent::AfterTernaryGuard(l, m, r)];
                lemma_replay_step::<V>(start, b, VisitEvent::AfterTernaryGuard(l, m, r));
                let d = c + expr_events(m);
                lemma_replay_append::<V>(start, c, expr_events(m));
                let f = d + seq![VisitEvent::AfterTernaryFirst(l, m, r)];
                lemma_replay_step::<V>(start, d, VisitEvent::AfterTernaryFirst(l, m, r));
                let g = f + expr_events(r);
                lemma_replay_append::<V>(start, f, expr_events(r));
                lemma_replay_step::<V>(start, g, VisitEvent::ExitTernary(l, m, r));
                assert(g + seq![VisitEvent::ExitTernary(l, m, r)] =~= expr_events(expr@));
            }
        },
        Expr::Exprs(exprs) => {
            let ghost all = expr_list_view(exprs@);
            proof {
                lemma_expr_list_view(exprs@);
            }
            visitor.enter_exprs(exprs);
            proof {
                lemma_replay_step::<V>(start, Seq::empty(), VisitEvent::EnterExprs(all));
                assert(Seq::<VisitEvent>::empty() + seq![VisitEvent::EnterExprs(all)] =~= seq![VisitEvent::EnterExprs(all)]);
                assert(all.take(0) =~= Seq::<ExprModel>::empty());
            }
            let mut i: usize = 0;
            while i < exprs.len()
                invariant
                    i <= exprs@.len(),
                    *expr == Expr::Exprs(*exprs),
                    all == expr_list_view(exprs@),
                    all.len() == exprs@.len(),
                    forall|k: int| 0 <= k < exprs@.len() ==> #[trigger] all[k] == exprs@[k]@,
                    visitor@ == replay::<V>(
                        start,
                        seq![VisitEvent::EnterExprs(all)] + item_events(all, all.take(i as int)),
                    ),
                decreases exprs@.len() - i,
            {
                let ghost before = visitor@;
                let ghost done = seq![VisitEvent::EnterExprs(all)] + item_events(all, all.take(i as int));
                let item = &exprs[i];
                proof {
                    assert(decreases_to!(*expr => (*expr)->Exprs_0));
                    assert(decreases_to!(*expr => *exprs));
                    assert(decreases_to!(*exprs => exprs@));
                    assert(decreases_to!(*expr => exprs@));
                    assert(decreases_to!(exprs@ => exprs@[i as int]));
                    assert(decreases_to!(*expr => *item));
                }
                walk_expression(item, visitor);
                let ghost own = expr_events(item@);
                visitor.inter_exprs(exprs, i);
                proof {
                    lemma_replay_append::<V>(start, done, own);
                    lemma_replay_step::<V>(start, done + own, VisitEvent::InterExprs(all, i as int));
                    assert(all.take(i + 1).drop_last() =~= all.take(i as int));
                    assert(seq![VisitEvent::EnterExprs(all)] + item_events(all, all.take(i + 1))
                        =~= done + own + seq![VisitEvent::InterExprs(all, i as int)]);
                }
                i = i + 1;
            }
            visitor.exit_exprs(exprs);
            proof {
                assert(all.take(exprs@.len() as int) =~= all);
                let done = seq![VisitEvent::EnterExprs(all)] + item_events(all, all);
                lemma_replay_step::<V>(start, done, VisitEvent::ExitExprs(all));
                assert(done + seq![VisitEvent::ExitExprs(all)] =~= expr_events(expr@));
            }
        },
    }
}

// ---------------------------------------------------------------------------
// Printing an expression
// ---------------------------------------------------------------------------

/// A visitor that writes an expression out as an S-expression, such as
/// `(* (- 123) (group 45.67))`.
pub struct AstPrinter {
    pub printed_str: String,
}

impl View for AstPrinter {
    type V = Seq<char>;

    open spec fn view(&self) -> Seq<char> {
        self.printed_str@
    }
}

/// An operator between parentheses: `(` and the operator and a space.
pub open spec fn operator_text(operator: TokenView) -> Seq<char> {
    seq!['('] + operator.lexeme + seq![' ']
}

/// What [`AstPrinter`] writes for each call.
pub open spec fn event_text(event: VisitEvent) -> Seq<char> {
    match event {
        VisitEvent::EnterLiteral(val) => literal_text(val),
        VisitEvent::ExitLiteral(_) => Seq::empty(),
        VisitEvent::EnterGrouping(_) => "(group "@,
        VisitEvent::ExitGrouping(_) => ")"@,
        VisitEvent::EnterUnary(operator, _) => operator_text(operator),
        VisitEvent::ExitUnary(_, _) => ")"@,
        VisitEvent::EnterBinary(_, operator, _) => operator_text(operator),
        VisitEvent::InterBinary(_, _, _) => " "@,
        VisitEvent::ExitBinary(_, _, _) => ")"@,
        VisitEvent::EnterTernary(_, _, _) => "("@,
        VisitEvent::AfterTernaryGuard(_, _, _) => " ? "@,
        VisitEvent::AfterTernaryFirst(_, _, _) => " : "@,
        VisitEvent::ExitTernary(_, _, _) => ")"@,
        VisitEvent::EnterExprs(_) => "{expressions "@,
        VisitEvent::InterExprs(exprs, index) => if index < exprs.len() - 1 {
            ","@
        } else {
            Seq::empty()
        },
        VisitEvent::ExitExprs(_) => "}"@,
    }
}

impl Visitor for AstPrinter {
    open spec fn after_event(state: Seq<char>, event: VisitEvent) -> Seq<char> {
        state + event_text(event)
    }

    fn enter_literal(&mut self, val: &LiteralValue) {
        match val {
            LiteralValue::Number(num) => self.printed_str.append(num.as_str()),
            LiteralValue::String(s) => {
                self.printed_str.push('\"');
                self.printed_str.append(s.as_str());
                self.printed_str.push('\"');
                proof {
                    assert(self.printed_str@ =~= old(self).printed_str@ + (seq!['\"'] + s@ + seq!['\"']));
                }
            },
            LiteralValue::False => self.printed_str.append("false"),
            LiteralValue::True => self.printed_str.append("true"),
            LiteralValue::Nil => self.printed_str.append("nil"),
        }
    }

    fn exit_literal(&mut self, val: &LiteralValue) {
        proof {
            assert(self.printed_str@ + Seq::<char>::empty() =~= self.printed_str@);
        }
    }

    fn enter_grouping(&mut self, expr: &Expr) {
        self.printed_str.append("(group ");
    }

    fn exit_grouping(&mut self, expr: &Expr) {
        self.printed_str.append(")");
    }

    fn enter_unary(&mut self, operator: &Token, right: &Expr) {
        self.push_operator(operator);
    }

    fn exit_unary(&mut self, operator: &Token, right: &Expr) {
        self.printed_str.append(")");
    }

    fn enter_binary(&mut self, left: &Expr, operator: &Token, right: &Expr) {
        self.push_operator(operator);
    }

    fn inter_binary(&mut self, left: &Expr, operator: &Token, right: &Expr) {
        self.printed_str.append(" ");
    }

    fn exit_binary(&mut self, left: &Expr, operator: &Token, right: &Expr) {
        self.printed_str.append(")");
    }

    fn enter_ternary(&mut self, left: &Expr, middle: &Expr, right: &Expr) {
        self.printed_str.append("(");
    }

    fn after_ternary_guard(&mut self, left: &Expr, middle: &Expr, right: &Expr) {
        self.printed_str.append(" ? ");
    }

    fn after_ternary_first(&mut self, left: &Expr, middle: &Expr, right: &Expr) {
        self.printed_str.append(" : ");
    }

    fn exit_ternary(&mut self, left: &Expr, middle: &Expr, right: &Expr) {
        self.printed_str.append(")");
    }

    fn enter_exprs(&mut self, exprs: &Vec<Expr>) {
        self.printed_str.append("{expressions ");
    }

    fn inter_exprs(&mut self, exprs: &Vec<Expr>, index: usize) {
        proof {
            lemma_expr_list_view(exprs@);
        }
        if index < exprs.len() - 1 {
            self.printed_str.push(',');
            proof {
                reveal_strlit(",");
                assert(self.printed_str@ =~= old(self).printed_str@ + ","@);
            }
        } else {
            proof {
                assert(self.printed_str@ + Seq::<char>::empty() =~= self.printed_str@);
            }
        }
    }

    fn exit_exprs(&mut self, exprs: &Vec<Expr>) {
        self.printed_str.push('}');
        proof {
            reveal_strlit("}");
            assert(self.printed_str@ =~= old(self).printed_str@ + "}"@);
        }
    }
}

impl AstPrinter {
    fn push_operator(&mut self, operator: &Token)
        ensures
            final(self)@ == old(self)@ + operator_text(operator@),
    {
        self.printed_str.push('(');
        self.printed_str.append(operator.lexeme.as_str());
        self.printed_str.push(' ');
        proof {
            assert(self.printed_str@ =~= old(self)@ + operator_text(operator@));
        }
    }
}

/// The S-expression of `e`, as [`AstPrinter`] writes it.
pub open spec fn show(e: ExprModel) -> Seq<char>
    decreases e,
{
    match e {
        ExprModel::Literal(val) => literal_text(val),
        ExprModel::Grouping { expression } => "(group "@ + show(*expression) + ")"@,
        ExprModel::Unary { operator, right } => operator_text(operator) + show(*right) + ")"@,
        ExprModel::Binary { left, operator, right } => operator_text(operator) + show(*left) + " "@
            + show(*right) + ")"@,
        ExprModel::Ternary { left, middle, right } => "("@ + show(*left) + " ? "@ + show(*middle)
            + " : "@ + show(*right) + ")"@,
        ExprModel::Exprs(exprs) => "{expressions "@ + show_items(exprs, exprs) + "}"@,
    }
}

/// The comma after item `index` of the list `all`, unless it is the last.
pub open spec fn item_separator(all: Seq<ExprModel>, index: int) -> Seq<char> {
    if index < all.len() - 1 {
        ","@
    } else {
        Seq::empty()
    }
}

/// The first items of the comma list `all`, each followed by its
/// separator.
pub open spec fn show_items(all: Seq<ExprModel>, items: Seq<ExprModel>) -> Seq<char>
    decreases items,
{
    if items.len() == 0 {
        Seq::empty()
    } else {
        show_items(all, items.drop_last()) + show(items.last()) + item_separator(all, items.len() - 1)
    }
}

/// What [`AstPrinter`] writes for the calls `events`.
pub open spec fn events_text(events: Seq<VisitEvent>) -> Seq<char>
    decreases events.len(),
{
    if events.len() == 0 {
        Seq::empty()
    } else {
        event_text(events[0]) + events_text(events.drop_first())
    }
}

/// The printer's text for two runs of calls is the text of each.
pub proof fn lemma_events_text_append(a: Seq<VisitEvent>, b: Seq<VisitEvent>)
    ensures
        events_text(a + b) == events_text(a) + events_text(b),
    decreases a.len(),
{
    if a.len() == 0 {
        assert(a + b =~= b);
        assert(Seq::<char>::empty() + events_text(b) =~= events_text(b));
    } else {
        assert((a + b).drop_first() =~= a.drop_first() + b);
        assert((a + b)[0] == a[0]);
        lemma_events_text_append(a.drop_first(), b);
        assert(event_text(a[0]) + (events_text(a.drop_first()) + events_text(b))
            =~= (event_text(a[0]) + events_text(a.drop_first())) + events_text(b));
    }
}

/// The printer's text for one call is what that call writes.
pub proof fn lemma_events_text_one(event: VisitEvent)
    ensures
        events_text(seq![event]) == event_text(event),
{
    assert(seq![event].drop_first() =~= Seq::<VisitEvent>::empty());
    assert(seq![event][0] == event);
    assert(events_text(Seq::<VisitEvent>::empty()) == Seq::<char>::empty());
    assert(event_text(event) + Seq::<char>::empty() =~= event_text(event));
}

/// A printer's text after the calls `events` is its text before, followed
/// by what it writes for each call.
pub proof fn lemma_printer_replay(state: Seq<char>, events: Seq<VisitEvent>)
    ensures
        replay::<AstPrinter>(state, events) == state + events_text(events),
    decreases events.len(),
{
    if events.len() == 0 {
        assert(state + Seq::<char>::empty() =~= state);
    } else {
        lemma_printer_replay(state + event_text(events[0]), events.drop_first());
        assert(state + event_text(events[0]) + events_text(events.drop_first())
            =~= state + (event_text(events[0]) + events_text(events.drop_first())));
    }
}

/// The calls that walking `e` makes write `show(e)`.
pub proof fn lemma_events_show(e: ExprModel)
    ensures
        events_text(expr_events(e)) == show(e),
    decreases e,
{
    match e {
        ExprModel::Literal(val) => {
            lemma_events_text_append(seq![VisitEvent::EnterLiteral(val)], seq![VisitEvent::ExitLiteral(val)]);
            assert(seq![VisitEvent::EnterLiteral(val)] + seq![VisitEvent::ExitLiteral(val)]
                =~= expr_events(e));
            lemma_events_text_one(VisitEvent::EnterLiteral(val));
            lemma_events_text_one(VisitEvent::ExitLiteral(val));
            assert(literal_text(val) + Seq::<char>::empty() =~= literal_text(val));
        },
        ExprModel::Grouping { expression } => {
            lemma_events_show(*expression);
            let a = seq![VisitEvent::EnterGrouping(e)];
            let b = expr_events(*expression);
            let c = seq![VisitEvent::ExitGrouping(e)];
            lemma_events_text_append(a, b);
            lemma_events_text_append(a + b, c);
            lemma_events_text_one(a[0]);
            lemma_events_text_one(c[0]);
        },
        ExprModel::Unary { operator, right } => {
            lemma_events_show(*right);
            let a = seq![VisitEvent::EnterUnary(operator, *right)];
            let b = expr_events(*right);
            let c = seq![VisitEvent::ExitUnary(operator, *right)];
            lemma_events_text_append(a, b);
            lemma_events_text_append(a + b, c);
            lemma_events_text_one(a[0]);
            lemma_events_text_one(c[0]);
        },
        ExprModel::Binary { left, operator, right } => {
            lemma_events_show(*left);
            lemma_events_show(*right);
            let a = seq![VisitEvent::EnterBinary(*left, operator, *right)];
            let b = expr_events(*left);
            let c = seq![VisitEvent::InterBinary(*left, operator, *right)];
            let d = expr_events(*right);
            let f = seq![VisitEvent::ExitBinary(*left, operator, *right)];
            lemma_events_text_append(a, b);
            lemma_events_text_append(a + b, c);
            lemma_events_text_append(a + b + c, d);
            lemma_events_text_append(a + b + c + d, f);
            lemma_events_text_one(a[0]);
            lemma_events_text_one(c[0]);
            lemma_events_text_one(f[0]);
        },
        ExprModel::Ternary { left, middle, right } => {
            lemma_events_show(*left);
            lemma_events_show(*middle);
            lemma_events_show(*right);
            let a = seq![VisitEvent::EnterTernary(*left, *middle, *right)];
            let b = expr_events(*left);
            let c = seq![VisitEvent::AfterTernaryGuard(*left, *middle, *right)];
            let d = expr_events(*middle);
            let f = seq![VisitEvent::AfterTernaryFirst(*left, *middle, *right)];
            let g = expr_events(*right);
            let h = seq![VisitEvent::ExitTernary(*left, *middle, *right)];
            lemma_events_text_append(a, b);
            lemma_events_text_append(a + b, c);
            lemma_events_text_append(a + b + c, d);
            lemma_events_text_append(a + b + c + d, f);
            lemma_events_text_append(a + b + c + d + f, g);
            lemma_events_text_append(a + b + c + d + f + g, h);
            lemma_events_text_one(a[0]);
            lemma_events_text_one(c[0]);
            lemma_events_text_one(f[0]);
            lemma_events_text_one(h[0]);
        },
        ExprModel::Exprs(exprs) => {
            lemma_items_show(exprs, exprs);
            let a = seq![VisitEvent::EnterExprs(exprs)];
            let b = item_events(exprs, exprs);
            let c = seq![VisitEvent::ExitExprs(exprs)];
            lemma_events_text_append(a, b);
            lemma_events_text_append(a + b, c);
            lemma_events_text_one(a[0]);
            lemma_events_text_one(c[0]);
        },
    }
}

/// The calls for the items of a comma list write the items' text.
pub proof fn lemma_items_show(all: Seq<ExprModel>, items: Seq<ExprModel>)
    ensures
        events_text(item_events(all, items)) == show_items(all, items),
    decreases items,
{
    if items.len() > 0 {
        let item = items.last();
        lemma_items_show(all, items.drop_last());
        lemma_events_show(item);
        let own = expr_events(item);
        let sep = seq![VisitEvent::InterExprs(all, items.len() - 1)];
        lemma_events_text_append(item_events(all, items.drop_last()), own);
        lemma_events_text_append(item_events(all, items.drop_last()) + own, sep);
        lemma_events_text_one(sep[0]);
        assert(events_text(sep) == item_separator(all, items.len() - 1));
    }
}

/// Walking an expression with an [`AstPrinter`] appends the expression's
/// S-expression, [`show`], to what the printer holds.
pub proof fn lemma_printer_prints(state: Seq<char>, e: ExprModel)
    ensures
        replay::<AstPrinter>(state, expr_events(e)) == state + show(e),
{
    lemma_printer_replay(state, expr_events(e));
    lemma_events_show(e);
}

/// `parts` written one after the other with a comma between each two
/// neighbours.
pub open spec fn comma_joined(parts: Seq<Seq<char>>) -> Seq<char>
    decreases parts.len(),
{
    if parts.len() == 0 {
        Seq::empty()
    } else if parts.len() == 1 {
        parts[0]
    } else {
        comma_joined(parts.drop_last()) + ","@ + parts.last()
    }
}

/// The printed items of the first `k` items of a comma list, with the comma
/// that follows the last of them unless it ends the list.
proof fn lemma_items_joined(all: Seq<ExprModel>, k: int)
    requires
        0 <= k <= all.len(),
    ensures
        show_items(all, all.take(k)) == comma_joined(all.take(k).map_values(|e: ExprModel| show(e))) + (if 0
            < k < all.len() {
            ","@
        } else {
            Seq::<char>::empty()
        }),
    decreases k,
{
    let parts = all.take(k).map_values(|e: ExprModel| show(e));
    if k == 0 {
        assert(all.take(0) =~= Seq::<ExprModel>::empty());
        assert(Seq::<char>::empty() + Seq::<char>::empty() =~= Seq::<char>::empty());
    } else {
        lemma_items_joined(all, k - 1);
        let items = all.take(k);
        assert(items.drop_last() =~= all.take(k - 1));
        assert(items.last() == all[k - 1]);
        let prev = all.take(k - 1).map_values(|e: ExprModel| show(e));
        assert(parts.drop_last() =~= prev);
        assert(parts.last() == show(all[k - 1]));
        reveal_strlit(",");
        if k == 1 {
            assert(parts.len() == 1);
            assert(prev =~= Seq::<Seq<char>>::empty());
            assert(Seq::<char>::empty() + show(all[0]) =~= show(all[0]));
        } else {
            assert(comma_joined(parts) == comma_joined(prev) + ","@ + show(all[k - 1]));
        }
        let sep = if k < all.len() {
            ","@
        } else {
            Seq::<char>::empty()
        };
        assert(item_separator(all, k - 1) == sep);
        assert(show_items(all, items) == show_items(all, all.take(k - 1)) + show(all[k - 1]) + sep);
        if k == 1 {
            assert(show_items(all, items) =~= comma_joined(parts) + sep);
        } else {
            assert(show_items(all, items) =~= comma_joined(parts) + sep);
        }
    }
}

/// A comma list prints as `{expressions `, its items printed and separated
/// by one comma between each two neighbours, and `}`.
pub proof fn lemma_list_prints_joined(exprs: Seq<ExprModel>)
    ensures
        show(ExprModel::Exprs(exprs)) == "{expressions "@ + comma_joined(exprs.map_values(|e: ExprModel| show(e)))
            + "}"@,
{
    lemma_items_joined(exprs, exprs.len() as int);
    assert(exprs.take(exprs.len() as int) =~= exprs);
    assert(comma_joined(exprs.map_values(|e: ExprModel| show(e))) + Seq::<char>::empty() =~= comma_joined(
        exprs.map_values(|e: ExprModel| show(e)),
    ));
}

/// How each kind of expression is printed: a literal as `nil`, `true`,
/// `false`, its number text or its string between double quotes; a
/// grouping as `(group e)`; a unary or binary expression as the operator
/// and its operands between parentheses, separated by spaces; a ternary as
/// `(c ? a : b)`.
pub proof fn lemma_printed_forms(e: ExprModel)
    ensures
        e == ExprModel::Literal(LiteralModel::Nil) ==> show(e) == "nil"@,
        e == ExprModel::Literal(LiteralModel::True) ==> show(e) == "true"@,
        e == ExprModel::Literal(LiteralModel::False) ==> show(e) == "false"@,
        e matches ExprModel::Literal(LiteralModel::Number(n)) ==> show(e) == n,
        e matches ExprModel::Literal(LiteralModel::Str(text)) ==> show(e) == seq!['\"'] + text + seq!['\"'],
        e matches ExprModel::Grouping { expression } ==> show(e) == seq!['(', 'g', 'r', 'o', 'u', 'p', ' ']
            + show(*expression) + seq![')'],
        e matches ExprModel::Unary { operator, right } ==> show(e) == seq!['('] + operator.lexeme + seq![' ']
            + show(*right) + seq![')'],
        e matches ExprModel::Binary { left, operator, right } ==> show(e) == seq!['('] + operator.lexeme
            + seq![' '] + show(*left) + seq![' '] + show(*right) + seq![')'],
        e matches ExprModel::Ternary { left, middle, right } ==> show(e) == seq!['('] + show(*left) + seq![
            ' ',
            '?',
            ' ',
        ] + show(*middle) + seq![' ', ':', ' '] + show(*right) + seq![')'],
{
    reveal_strlit("nil");
    reveal_strlit("true");
    reveal_strlit("false");
    reveal_strlit("(group ");
    reveal_strlit(")");
    reveal_strlit(" ");
    reveal_strlit("(");
    reveal_strlit(" ? ");
    reveal_strlit(" : ");
    match e {
        ExprModel::Grouping { expression } => {
            assert("(group "@ =~= seq!['(', 'g', 'r', 'o', 'u', 'p', ' ']);
        },
        ExprModel::Unary { operator, right } => {
            assert(show(e) =~= seq!['('] + operator.lexeme + seq![' '] + show(*right) + seq![')']);
        },
        ExprModel::Binary { left, operator, right } => {
            assert(show(e) =~= seq!['('] + operator.lexeme + seq![' '] + show(*left) + seq![' '] + show(*right)
                + seq![')']);
        },
        ExprModel::Ternary { left, middle, right } => {
            assert(show(e) =~= seq!['('] + show(*left) + seq![' ', '?', ' '] + show(*middle) + seq![' ', ':', ' ']
                + show(*right) + seq![')']);
        },
        _ => {},
    }
}

} // verus!
