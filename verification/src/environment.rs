//! Variable scopes: each scope binds names to values (or to nothing yet, for
//! a variable declared without a value), and may sit inside an enclosing
//! scope, where a name it does not bind is looked up next.
use crate::ast::{LiteralModel, LiteralValue};
use crate::scanner::Token;
use vstd::prelude::*;
use vstd::string::*;

verus! {

/// What one scope binds, by name.
pub type ScopeModel = Map<Seq<char>, Option<LiteralModel>>;

pub open spec fn binding_view(value: Option<LiteralValue>) -> Option<LiteralModel> {
    match value {
        Some(v) => Some(v@),
        None => None,
    }
}

/// The map of a list of bindings; of two bindings of one name, the first
/// counts.
pub open spec fn bindings_map(entries: Seq<(String, Option<LiteralValue>)>) -> ScopeModel
    decreases entries.len(),
{
    if entries.len() == 0 {
        Map::empty()
    } else {
        bindings_map(entries.drop_first()).insert(entries[0].0@, binding_view(entries[0].1))
    }
}

/// What `name` is bound to in the innermost scope of `scopes` that binds it.
pub open spec fn lookup(scopes: Seq<ScopeModel>, name: Seq<char>) -> Option<Option<LiteralModel>>
    decreases scopes.len(),
{
    if scopes.len() == 0 {
        None
    } else if scopes[0].contains_key(name) {
        Some(scopes[0][name])
    } else {
        lookup(scopes.drop_first(), name)
    }
}

/// `scopes` with `name` set to `value` in the innermost scope that binds it.
pub open spec fn assigned(scopes: Seq<ScopeModel>, name: Seq<char>, value: LiteralModel) -> Seq<ScopeModel>
    decreases scopes.len(),
{
    if scopes.len() == 0 {
        scopes
    } else if scopes[0].contains_key(name) {
        scopes.update(0, scopes[0].insert(name, Some(value)))
    } else {
        seq![scopes[0]] + assigned(scopes.drop_first(), name, value)
    }
}

/// `scopes` with `name` bound to `value` in the innermost scope.
pub open spec fn defined(scopes: Seq<ScopeModel>, name: Seq<char>, value: Option<LiteralModel>) -> Seq<ScopeModel> {
    scopes.update(0, scopes[0].insert(name, value))
}

pub open spec fn undefined_message(name: Seq<char>) -> Seq<char> {
    "Undefined variable '"@ + name + "'."@
}

pub open spec fn uninitialized_message(name: Seq<char>) -> Seq<char> {
    "Variable '"@ + name + "' uninitialized"@
}

/// A scope and the scopes around it.
pub struct Environment {
    values: Vec<(String, Option<LiteralValue>)>,
    enclosing: Option<Box<Environment>>,
}

impl Environment {
    /// The scopes, innermost first.
    pub closed spec fn scopes(&self) -> Seq<ScopeModel>
        decreases self,
    {
        seq![bindings_map(self.values@)] + match self.enclosing {
            Some(e) => e.scopes(),
            None => Seq::empty(),
        }
    }

    /// An environment of one empty scope.
    pub fn new() -> (env: Self)
        ensures
            env.scopes() == seq![ScopeModel::empty()],
    {
        let env = Self { values: Vec::new(), enclosing: None };
        proof {
            assert(env.values@ =~= Seq::<(String, Option<LiteralValue>)>::empty());
            assert(seq![ScopeModel::empty()] + Seq::<ScopeModel>::empty() =~= seq![ScopeModel::empty()]);
        }
        env
    }

    /// An empty scope inside `enclosing`.
    pub fn from_enclosing(enclosing: Environment) -> (env: Self)
        ensures
            env.scopes() == seq![ScopeModel::empty()] + enclosing.scopes(),
    {
        let env = Self { values: Vec::new(), enclosing: Some(Box::new(enclosing)) };
        proof {
            assert(env.values@ =~= Seq::<(String, Option<LiteralValue>)>::empty());
        }
        env
    }

    /// Binds `name` to `maybe_value` in the innermost scope, replacing what
    /// it was bound to there.
    pub fn define(&mut self, name: String, maybe_value: Option<LiteralValue>)
        ensures
            final(self).scopes() == defined(old(self).scopes(), name@, binding_view(maybe_value)),
    {
        let ghost v = binding_view(maybe_value);
        let ghost old_values = self.values@;
        let mut i: usize = 0;
        while i < self.values.len()
            invariant
                i <= self.values@.len(),
                self.values@ == old_values,
                self.enclosing == old(self).enclosing,
                old_values == old(self).values@,
                forall|k: int| 0 <= k < i ==> (#[trigger] self.values@[k]).0@ != name@,
            decreases self.values@.len() - i,
        {
            if self.values[i].0 == name {
                proof {
                    lemma_bindings_map_update(old_values, i as int, (name, maybe_value));
                }
                self.values.set(i, (name, maybe_value));
                proof {
                    self.lemma_scopes_unfold();
                    old(self).lemma_scopes_unfold();
                    assert(self.scopes() =~= defined(old(self).scopes(), name@, binding_view(maybe_value)));
                }
                return;
            }
            i = i + 1;
        }
        proof {
            lemma_bindings_map_push(old_values, (name, maybe_value));
        }
        self.values.push((name, maybe_value));
        proof {
            self.lemma_scopes_unfold();
            old(self).lemma_scopes_unfold();
            assert(self.scopes() =~= defined(old(self).scopes(), name@, v));
        }
    }

    proof fn lemma_scopes_unfold(&self)
        ensures
            self.scopes().len() >= 1,
            self.scopes()[0] == bindings_map(self.values@),
            self.scopes().drop_first() == (match self.enclosing {
                Some(e) => e.scopes(),
                None => Seq::empty(),
            }),
    {
        let rest = match self.enclosing {
            Some(e) => e.scopes(),
            None => Seq::<ScopeModel>::empty(),
        };
        assert((seq![bindings_map(self.values@)] + rest).drop_first() =~= rest);
    }

    /// Sets `name` to `value` in the innermost scope that binds it; an error
    /// when no scope binds it.
    pub fn assign(&mut self, name: &str, value: LiteralValue) -> (res: Result<(), String>)
        ensures
            lookup(old(self).scopes(), name@) is Some ==> res is Ok && final(self).scopes() == assigned(
                old(self).scopes(),
                name@,
                value@,
            ),
            lookup(old(self).scopes(), name@) is None ==> (res matches Err(message) && message@
                == undefined_message(name@)) && final(self).scopes() == old(self).scopes(),
        decreases old(self).scopes().len(),
    {
        let ghost old_scopes = self.scopes();
        proof {
            self.lemma_scopes_unfold();
        }
        let key = String::from_str(name);
        let ghost old_values = self.values@;
        let mut i: usize = 0;
        while i < self.values.len()
            invariant
                i <= self.values@.len(),
                self.values@ == old_values,
                self.enclosing == old(self).enclosing,
                old_values == old(self).values@,
                old_scopes == old(self).scopes(),
                old_scopes.len() >= 1,
                old_scopes[0] == bindings_map(old_values),
                key@ == name@,
                forall|k: int| 0 <= k < i ==> (#[trigger] self.values@[k]).0@ != name@,
            decreases self.values@.len() - i,
        {
            if self.values[i].0 == key {
                proof {
                    lemma_bindings_map_contains(old_values, i as int);
                    lemma_bindings_map_update(old_values, i as int, (key, Some(value)));
                }
                let ghost v = value@;
                self.values.set(i, (key, Some(value)));
                proof {
                    self.lemma_scopes_unfold();
                    assert(old_scopes[0].contains_key(name@));
                    assert(lookup(old_scopes, name@) is Some);
                    assert(self.scopes() =~= assigned(old_scopes, name@, v));
                }
                return Ok(());
            }
            i = i + 1;
        }
        proof {
            lemma_bindings_map_absent(old_values, name@);
        }
        let mut enclosing = self.enclosing.take();
        match enclosing {
            Some(mut enclosing_env) => {
                let ghost inner = enclosing_env.scopes();
                let ghost v = value@;
                proof {
                    assert(inner == old_scopes.drop_first());
                    assert(lookup(old_scopes, name@) == lookup(inner, name@));
                    assert(assigned(old_scopes, name@, v) == seq![old_scopes[0]] + assigned(inner, name@, v));
                }
                let res = enclosing_env.assign(name, value);
                self.enclosing = Some(enclosing_env);
                proof {
                    self.lemma_scopes_unfold();
                    assert(old_scopes =~= seq![old_scopes[0]] + inner);
                    assert(self.scopes() =~= seq![old_scopes[0]] + enclosing_env.scopes());
                }
                res
            },
            None => {
                proof {
                    assert(old_scopes.drop_first().len() == 0);
                    assert(lookup(old_scopes, name@) == lookup(old_scopes.drop_first(), name@));
                }
                self.enclosing = None;
                let mut message = String::from_str("Undefined variable '");
                message.append(name);
                message.append("'.");
                proof {
                    self.lemma_scopes_unfold();
                    assert(self.scopes() =~= old(self).scopes());
                }
                Err(message)
            },
        }
    }

    /// The value of the variable that `token` names, from the innermost
    /// scope that binds it; an error when no scope binds it or it has no
    /// value yet.
    pub fn get(&self, token: &Token) -> (res: Result<LiteralValue, String>)
        ensures
            match lookup(self.scopes(), token.lexeme@) {
                Some(Some(v)) => res matches Ok(value) && value@ == v,
                Some(None) => res matches Err(message) && message@ == uninitialized_message(token.lexeme@),
                None => res matches Err(message) && message@ == undefined_message(token.lexeme@),
            },
        decreases self.scopes().len(),
    {
        proof {
            self.lemma_scopes_unfold();
        }
        let mut i: usize = 0;
        while i < self.values.len()
            invariant
                i <= self.values@.len(),
                forall|k: int| 0 <= k < i ==> (#[trigger] self.values@[k]).0@ != token.lexeme@,
            decreases self.values@.len() - i,
        {
            if self.values[i].0 == token.lexeme {
                proof {
                    lemma_bindings_map_contains(self.values@, i as int);
                }
                return match &self.values[i].1 {
                    Some(value) => Ok(value.duplicate()),
                    None => {
                        let mut message = String::from_str("Variable '");
                        message.append(token.lexeme.as_str());
                        message.append("' uninitialized");
                        Err(message)
                    },
                };
            }
            i = i + 1;
        }
        proof {
            lemma_bindings_map_absent(self.values@, token.lexeme@);
        }
        proof {
            assert(lookup(self.scopes(), token.lexeme@) == lookup(self.scopes().drop_first(), token.lexeme@));
        }
        match &self.enclosing {
            Some(enclosing_env) => enclosing_env.get(token),
            None => {
                proof {
                    assert(self.scopes().drop_first().len() == 0);
                }
                let mut message = String::from_str("Undefined variable '");
                message.append(token.lexeme.as_str());
                message.append("'.");
                Err(message)
            },
        }
    }
}

/// The first binding of a name in a list is the one its map holds.
pub proof fn lemma_bindings_map_contains(entries: Seq<(String, Option<LiteralValue>)>, i: int)
    requires
        0 <= i < entries.len(),
        forall|k: int| 0 <= k < i ==> (#[trigger] entries[k]).0@ != entries[i].0@,
    ensures
        bindings_map(entries).contains_key(entries[i].0@),
        bindings_map(entries)[entries[i].0@] == binding_view(entries[i].1),
    decreases i,
{
    if i > 0 {
        let rest = entries.drop_first();
        assert forall|k: int| 0 <= k < i - 1 implies (#[trigger] rest[k]).0@ != rest[i - 1].0@ by {
            assert(rest[k] == entries[k + 1]);
        }
        lemma_bindings_map_contains(rest, i - 1);
        assert(entries[0].0@ != entries[i].0@);
    }
}

/// A name that no binding of a list has is not in its map.
pub proof fn lemma_bindings_map_absent(entries: Seq<(String, Option<LiteralValue>)>, name: Seq<char>)
    requires
        forall|k: int| 0 <= k < entries.len() ==> (#[trigger] entries[k]).0@ != name,
    ensures
        !bindings_map(entries).contains_key(name),
    decreases entries.len(),
{
    if entries.len() > 0 {
        let rest = entries.drop_first();
        assert forall|k: int| 0 <= k < rest.len() implies (#[trigger] rest[k]).0@ != name by {
            assert(rest[k] == entries[k + 1]);
        }
        lemma_bindings_map_absent(rest, name);
    }
}

/// Replacing the first binding of a name sets the name in the map.
pub proof fn lemma_bindings_map_update(
    entries: Seq<(String, Option<LiteralValue>)>,
    i: int,
    entry: (String, Option<LiteralValue>),
)
    requires
        0 <= i < entries.len(),
        entry.0@ == entries[i].0@,
        forall|k: int| 0 <= k < i ==> (#[trigger] entries[k]).0@ != entries[i].0@,
    ensures
        bindings_map(entries.update(i, entry)) == bindings_map(entries).insert(entry.0@, binding_view(entry.1)),
    decreases i,
{
    let updated = entries.update(i, entry);
    if i == 0 {
        assert(updated.drop_first() =~= entries.drop_first());
        assert(bindings_map(updated) =~= bindings_map(entries).insert(entry.0@, binding_view(entry.1)));
    } else {
        let rest = entries.drop_first();
        assert forall|k: int| 0 <= k < i - 1 implies (#[trigger] rest[k]).0@ != rest[i - 1].0@ by {
            assert(rest[k] == entries[k + 1]);
        }
        lemma_bindings_map_update(rest, i - 1, entry);
        assert(updated.drop_first() =~= rest.update(i - 1, entry));
        assert(updated[0] == entries[0]);
        assert(entries[0].0@ != entry.0@);
        let e0 = entries[0];
        assert(bindings_map(updated) == bindings_map(rest.update(i - 1, entry)).insert(e0.0@, binding_view(e0.1)));
        assert(bindings_map(entries) == bindings_map(rest).insert(e0.0@, binding_view(e0.1)));
        assert(bindings_map(updated) =~= bindings_map(entries).insert(entry.0@, binding_view(entry.1)));
    }
}

/// Adding a binding of a name the list does not bind sets it in the map.
pub proof fn lemma_bindings_map_push(entries: Seq<(String, Option<LiteralValue>)>, entry: (String, Option<LiteralValue>))
    requires
        forall|k: int| 0 <= k < entries.len() ==> (#[trigger] entries[k]).0@ != entry.0@,
    ensures
        bindings_map(entries.push(entry)) == bindings_map(entries).insert(entry.0@, binding_view(entry.1)),
    decreases entries.len(),
{
    let pushed = entries.push(entry);
    if entries.len() == 0 {
        assert(pushed.drop_first() =~= Seq::<(String, Option<LiteralValue>)>::empty());
        assert(pushed[0] == entry);
        assert(bindings_map(pushed.drop_first()) == ScopeModel::empty());
        assert(bindings_map(entries) == ScopeModel::empty());
    } else {
        let rest = entries.drop_first();
        assert forall|k: int| 0 <= k < rest.len() implies (#[trigger] rest[k]).0@ != entry.0@ by {
            assert(rest[k] == entries[k + 1]);
        }
        lemma_bindings_map_push(rest, entry);
        assert(pushed.drop_first() =~= rest.push(entry));
        assert(pushed[0] == entries[0]);
        assert(entries[0].0@ != entry.0@);
        let e0 = entries[0];
        assert(bindings_map(pushed) == bindings_map(rest.push(entry)).insert(e0.0@, binding_view(e0.1)));
        assert(bindings_map(entries) == bindings_map(rest).insert(e0.0@, binding_view(e0.1)));
        let base = bindings_map(rest);
        assert(base.insert(entry.0@, binding_view(entry.1)).insert(e0.0@, binding_view(e0.1)) =~= base.insert(
            e0.0@,
            binding_view(e0.1),
        ).insert(entry.0@, binding_view(entry.1)));
    }
}

/// A read after a definition in the innermost scope gives back what was
/// defined.
pub proof fn lemma_get_after_define(scopes: Seq<ScopeModel>, name: Seq<char>, value: Option<LiteralModel>)
    requires
        scopes.len() >= 1,
    ensures
        lookup(defined(scopes, name, value), name) == Some(value),
{
}

/// A definition leaves every other name as it was.
pub proof fn lemma_define_keeps_others(
    scopes: Seq<ScopeModel>,
    name: Seq<char>,
    value: Option<LiteralModel>,
    other: Seq<char>,
)
    requires
        scopes.len() >= 1,
        other != name,
    ensures
        lookup(defined(scopes, name, value), other) == lookup(scopes, other),
{
    let after = defined(scopes, name, value);
    assert(after.drop_first() =~= scopes.drop_first());
}

/// A read after an assignment to a bound name gives back the assigned value.
pub proof fn lemma_get_after_assign(scopes: Seq<ScopeModel>, name: Seq<char>, value: LiteralModel)
    requires
        lookup(scopes, name) is Some,
    ensures
        lookup(assigned(scopes, name, value), name) == Some(Some(value)),
    decreases scopes.len(),
{
    if !scopes[0].contains_key(name) {
        let rest = scopes.drop_first();
        lemma_get_after_assign(rest, name, value);
        let after = assigned(scopes, name, value);
        assert(after =~= seq![scopes[0]] + assigned(rest, name, value));
        assert(after.drop_first() =~= assigned(rest, name, value));
    }
}

/// An assignment leaves every other name as it was.
pub proof fn lemma_assign_keeps_others(
    scopes: Seq<ScopeModel>,
    name: Seq<char>,
    value: LiteralModel,
    other: Seq<char>,
)
    requires
        other != name,
    ensures
        lookup(assigned(scopes, name, value), other) == lookup(scopes, other),
    decreases scopes.len(),
{
    if scopes.len() > 0 {
        let rest = scopes.drop_first();
        let after = assigned(scopes, name, value);
        if scopes[0].contains_key(name) {
            assert(after.drop_first() =~= rest);
        } else {
            lemma_assign_keeps_others(rest, name, value, other);
            assert(after.drop_first() =~= assigned(rest, name, value));
        }
    }
}

/// An assignment binds no new name: the names bound before and after are
/// the same.
pub proof fn lemma_assign_binds_no_new_name(scopes: Seq<ScopeModel>, name: Seq<char>, value: LiteralModel, other: Seq<char>)
    ensures
        (lookup(assigned(scopes, name, value), other) is Some) == (lookup(scopes, other) is Some),
    decreases scopes.len(),
{
    if other != name {
        lemma_assign_keeps_others(scopes, name, value, other);
    } else if lookup(scopes, name) is Some {
        lemma_get_after_assign(scopes, name, value);
    } else {
        lemma_assign_unbound(scopes, name, value);
    }
}

/// Assigning a name that no scope binds changes nothing.
pub proof fn lemma_assign_unbound(scopes: Seq<ScopeModel>, name: Seq<char>, value: LiteralModel)
    requires
        lookup(scopes, name) is None,
    ensures
        assigned(scopes, name, value) == scopes,
    decreases scopes.len(),
{
    if scopes.len() > 0 {
        let rest = scopes.drop_first();
        lemma_assign_unbound(rest, name, value);
        assert(seq![scopes[0]] + rest =~= scopes);
    }
}

/// A new inner scope hides nothing until something is defined in it.
pub proof fn lemma_new_scope_passes_through(scopes: Seq<ScopeModel>, name: Seq<char>)
    ensures
        lookup(seq![ScopeModel::empty()] + scopes, name) == lookup(scopes, name),
{
    assert((seq![ScopeModel::empty()] + scopes).drop_first() =~= scopes);
}

/// A definition in an inner scope hides the enclosing binding of the name
/// and leaves the enclosing scopes as they were.
pub proof fn lemma_define_shadows(inner: ScopeModel, outer: Seq<ScopeModel>, name: Seq<char>, value: Option<LiteralModel>)
    ensures
        defined(seq![inner] + outer, name, value) == seq![inner.insert(name, value)] + outer,
{
    assert(defined(seq![inner] + outer, name, value) =~= seq![inner.insert(name, value)] + outer);
}

} // verus!
