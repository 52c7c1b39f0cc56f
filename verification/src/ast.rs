//! The values of the workflow language: TOML values extended with
//! conditional values (`if cond { a } else { b }`) and the comparison
//! expressions that guard them.
//!
//! A table keeps its entries in the order in which they were first
//! inserted; no key occurs twice in one table. A float keeps the literal
//! text it was written with (underscores removed); converting it to a
//! binary floating-point number is left to the caller.
use vstd::prelude::*;
use crate::text::{
    copy_string, debug_quoted, debug_string, push_all, push_signed_decimal, signed_decimal,
};

verus! {

/// A condition of a conditional value.
#[derive(Debug, PartialEq)]
pub enum Expr {
    Identifier(String),
    String(String),
    NotEquals(Box<Expr>, Box<Expr>),
    Equals(Box<Expr>, Box<Expr>),
}

/// A value of the language.
#[derive(Debug, PartialEq)]
pub enum Value {
    String(String),
    Integer(i64),
    /// The literal text of a float, without underscores.
    Float(String),
    Boolean(bool),
    Array(Vec<Value>),
    /// Entries in insertion order; keys are distinct.
    Table(Vec<(String, Value)>),
    Conditional { condition: Expr, then_branch: Box<Value>, else_branch: Option<Box<Value>> },
}

/// The mathematical model of an [`Expr`].
pub enum SExpr {
    Identifier(Seq<char>),
    Str(Seq<char>),
    NotEquals(Box<SExpr>, Box<SExpr>),
    Equals(Box<SExpr>, Box<SExpr>),
}

/// The mathematical model of a [`Value`].
pub enum SValue {
    Str(Seq<char>),
    Integer(int),
    Float(Seq<char>),
    Boolean(bool),
    Array(Seq<SValue>),
    Table(Seq<(Seq<char>, SValue)>),
    Conditional(SExpr, Box<SValue>, Option<Box<SValue>>),
}

impl Expr {
    pub open spec fn view(&self) -> SExpr
        decreases self,
    {
        match self {
            Expr::Identifier(s) => SExpr::Identifier(s@),
            Expr::String(s) => SExpr::Str(s@),
            Expr::NotEquals(a, b) => SExpr::NotEquals(Box::new(a.view()), Box::new(b.view())),
            Expr::Equals(a, b) => SExpr::Equals(Box::new(a.view()), Box::new(b.view())),
        }
    }

    /// A copy of this expression.
    pub fn duplicate(&self) -> (r: Expr)
        ensures
            r@ == self@,
        decreases self,
    {
        match self {
            Expr::Identifier(s) => Expr::Identifier(copy_string(s)),
            Expr::String(s) => Expr::String(copy_string(s)),
            Expr::NotEquals(a, b) => Expr::NotEquals(Box::new(a.duplicate()), Box::new(b.duplicate())),
            Expr::Equals(a, b) => Expr::Equals(Box::new(a.duplicate()), Box::new(b.duplicate())),
        }
    }

    /// The text that displaying this expression writes: an identifier as
    /// itself, a string quoted and escaped, a comparison as `lhs != rhs` or
    /// `lhs == rhs`.
    pub fn display(&self) -> (r: String)
        ensures
            r@ == display_expr(self@),
    {
        let mut out = String::new();
        self.write_to(&mut out);
        out
    }

    fn write_to(&self, out: &mut String)
        ensures
            final(out)@ == old(out)@ + display_expr(self@),
        decreases self,
    {
        match self {
            Expr::Identifier(s) => push_all(out, s.as_str()),
            Expr::String(s) => {
                let q = debug_string(s.as_str());
                push_all(out, q.as_str());
            },
            Expr::NotEquals(a, b) => {
                a.write_to(out);
                push_all(out, " != ");
                b.write_to(out);
                assert(final(out)@ =~= old(out)@ + display_expr(self@));
            },
            Expr::Equals(a, b) => {
                a.write_to(out);
                push_all(out, " == ");
                b.write_to(out);
                assert(final(out)@ =~= old(out)@ + display_expr(self@));
            },
        }
    }
}

/// The models of a list of values.
pub open spec fn values_view(s: Seq<Value>) -> Seq<SValue>
    decreases s,
{
    if s.len() == 0 {
        Seq::empty()
    } else {
        seq![s[0].view()] + values_view(s.drop_first())
    }
}

/// The models of a list of table entries.
pub open spec fn entries_view(s: Seq<(String, Value)>) -> Seq<(Seq<char>, SValue)>
    decreases s,
{
    if s.len() == 0 {
        Seq::empty()
    } else {
        seq![(s[0].0@, s[0].1.view())] + entries_view(s.drop_first())
    }
}

impl Value {
    pub open spec fn view(&self) -> SValue
        decreases self,
    {
        match self {
            Value::String(s) => SValue::Str(s@),
            Value::Integer(i) => SValue::Integer(*i as int),
            Value::Float(s) => SValue::Float(s@),
            Value::Boolean(b) => SValue::Boolean(*b),
            Value::Array(items) => SValue::Array(values_view(items@)),
            Value::Table(entries) => SValue::Table(entries_view(entries@)),
            Value::Conditional { condition, then_branch, else_branch } => SValue::Conditional(
                condition.view(),
                Box::new(then_branch.view()),
                match else_branch {
                    Some(e) => Some(Box::new(e.view())),
                    None => None,
                },
            ),
        }
    }
}

impl Value {
    /// A copy of this value.
    pub fn duplicate(&self) -> (r: Value)
        ensures
            r@ == self@,
        decreases self,
    {
        match self {
            Value::String(s) => Value::String(copy_string(s)),
            Value::Integer(i) => Value::Integer(*i),
            Value::Float(s) => Value::Float(copy_string(s)),
            Value::Boolean(b) => Value::Boolean(*b),
            Value::Array(items) => {
                let mut out: Vec<Value> = Vec::new();
                let mut i: usize = 0;
                while i < items.len()
                    invariant
                        i <= items@.len(),
                        *self == Value::Array(*items),
                        out@.len() == i,
                        forall|j: int| 0 <= j < i ==> #[trigger] out@[j]@ == items@[j]@,
                    decreases items@.len() - i,
                {
                    proof {
                        assert(decreases_to!(*self => (*self)->Array_0));
                        assert(decreases_to!(*items => items@));
                        assert(decreases_to!(items@ => items@[i as int]));
                        assert(decreases_to!(*self => items@[i as int]));
                    }
                    out.push(items[i].duplicate());
                    i = i + 1;
                }
                proof {
                    lemma_values_view(out@);
                    lemma_values_view(items@);
                    assert(values_view(out@) =~= values_view(items@));
                }
                Value::Array(out)
            },
            Value::Table(entries) => {
                let mut out: Vec<(String, Value)> = Vec::new();
                let mut i: usize = 0;
                while i < entries.len()
                    invariant
                        i <= entries@.len(),
                        *self == Value::Table(*entries),
                        out@.len() == i,
                        forall|j: int|
                            0 <= j < i ==> #[trigger] out@[j].0@ == entries@[j].0@ && out@[j].1@
                                == entries@[j].1@,
                    decreases entries@.len() - i,
                {
                    let k = copy_string(&entries[i].0);
                    proof {
                        assert(decreases_to!(*self => (*self)->Table_0));
                        assert(decreases_to!(*entries => entries@));
                        assert(decreases_to!(entries@ => entries@[i as int]));
                        assert(decreases_to!(*self => entries@[i as int].1));
                    }
                    let v = entries[i].1.duplicate();
                    out.push((k, v));
                    i = i + 1;
                }
                proof {
                    lemma_entries_view(out@);
                    lemma_entries_view(entries@);
                    assert(entries_view(out@) =~= entries_view(entries@));
                }
                Value::Table(out)
            },
            Value::Conditional { condition, then_branch, else_branch } => {
                let e = match else_branch {
                    Some(b) => Some(Box::new(b.duplicate())),
                    None => None,
                };
                Value::Conditional {
                    condition: condition.duplicate(),
                    then_branch: Box::new(then_branch.duplicate()),
                    else_branch: e,
                }
            },
        }
    }

    /// The text that displaying this value writes (see `display_value`).
    pub fn display(&self) -> (r: String)
        ensures
            r@ == display_value(self@),
    {
        let mut out = String::new();
        self.write_to(&mut out);
        out
    }

    fn write_to(&self, out: &mut String)
        ensures
            final(out)@ == old(out)@ + display_value(self@),
        decreases self,
    {
        match self {
            Value::String(s) => {
                let q = debug_string(s.as_str());
                push_all(out, q.as_str());
            },
            Value::Integer(i) => push_signed_decimal(out, *i),
            Value::Float(s) => push_all(out, s.as_str()),
            Value::Boolean(b) => {
                if *b {
                    push_all(out, "true");
                } else {
                    push_all(out, "false");
                }
            },
            Value::Array(items) => {
                let ghost start = out@;
                proof {
                    lemma_values_view(items@);
                }
                push_all(out, "[");
                let mut i: usize = 0;
                while i < items.len()
                    invariant
                        i <= items@.len(),
                        *self == Value::Array(*items),
                        values_view(items@).len() == items@.len(),
                        forall|j: int| 0 <= j < items@.len() ==> #[trigger] values_view(items@)[j] == items@[j]@,
                        out@ + (if i == 0 { display_items(values_view(items@)) } else if i < items@.len() {
                            ", "@ + display_items(values_view(items@).skip(i as int))
                        } else {
                            Seq::empty()
                        }) + "]"@ == start + display_value(self@),
                    decreases items@.len() - i,
                {
                    let ghost rest = values_view(items@).skip(i as int);
                    assert(rest.len() > 0);
                    assert(rest[0] == items@[i as int]@);
                    assert(rest.drop_first() =~= values_view(items@).skip(i + 1));
                    if i > 0 {
                        push_all(out, ", ");
                    }
                    proof {
                        assert(decreases_to!(*self => items@[i as int]));
                    }
                    items[i].write_to(out);
                    i = i + 1;
                    assert(out@ + (if i < items@.len() {
                            ", "@ + display_items(values_view(items@).skip(i as int))
                        } else {
                            Seq::empty()
                        }) + "]"@ == start + display_value(self@)) by {
                        if i < items@.len() {
                            assert(display_items(rest) == display_value(rest[0]) + ", "@ + display_items(rest.drop_first()));
                        } else {
                            assert(display_items(rest) == display_value(rest[0]));
                        }
                        if i == 1 {
                            assert(values_view(items@).skip(0) =~= values_view(items@));
                        }
                    }
                }
                if items.len() == 0 {
                    assert(values_view(items@) =~= Seq::<SValue>::empty());
                }
                push_all(out, "]");
            },
            Value::Table(entries) => {
                let ghost start = out@;
                proof {
                    lemma_entries_view(entries@);
                }
                push_all(out, "{");
                let mut i: usize = 0;
                while i < entries.len()
                    invariant
                        i <= entries@.len(),
                        *self == Value::Table(*entries),
                        entries_view(entries@).len() == entries@.len(),
                        forall|j: int| 0 <= j < entries@.len() ==> #[trigger] entries_view(entries@)[j] == (entries@[j].0@, entries@[j].1@),
                        out@ + (if i == 0 { display_entries(entries_view(entries@)) } else if i < entries@.len() {
                            ", "@ + display_entries(entries_view(entries@).skip(i as int))
                        } else {
                            Seq::empty()
                        }) + "}"@ == start + display_value(self@),
                    decreases entries@.len() - i,
                {
                    let ghost rest = entries_view(entries@).skip(i as int);
                    assert(rest.len() > 0);
                    assert(rest[0] == (entries@[i as int].0@, entries@[i as int].1@));
                    assert(rest.drop_first() =~= entries_view(entries@).skip(i + 1));
                    if i > 0 {
                        push_all(out, ", ");
                    }
                    push_all(out, entries[i].0.as_str());
                    push_all(out, " = ");
                    proof {
                        assert(decreases_to!(*self => entries@[i as int].1));
                    }
                    entries[i].1.write_to(out);
                    i = i + 1;
                    assert(out@ + (if i < entries@.len() {
                            ", "@ + display_entries(entries_view(entries@).skip(i as int))
                        } else {
                            Seq::empty()
                        }) + "}"@ == start + display_value(self@)) by {
                        if i < entries@.len() {
                            assert(display_entries(rest) == rest[0].0 + " = "@ + display_value(rest[0].1) + ", "@ + display_entries(rest.drop_first()));
                        } else {
                            assert(display_entries(rest) == rest[0].0 + " = "@ + display_value(rest[0].1));
                        }
                        if i == 1 {
                            assert(entries_view(entries@).skip(0) =~= entries_view(entries@));
                        }
                    }
                }
                if entries.len() == 0 {
                    assert(entries_view(entries@) =~= Seq::<(Seq<char>, SValue)>::empty());
                }
                push_all(out, "}");
            },
            Value::Conditional { condition, then_branch, else_branch } => {
                push_all(out, "if ");
                condition.write_to(out);
                push_all(out, " { ");
                then_branch.write_to(out);
                push_all(out, " }");
                match else_branch {
                    Some(b) => {
                        push_all(out, " else { ");
                        b.write_to(out);
                        push_all(out, " }");
                    },
                    None => {},
                }
                assert(final(out)@ =~= old(out)@ + display_value(self@));
            },
        }
    }
}

proof fn lemma_values_view_len(s: Seq<Value>)
    ensures
        values_view(s).len() == s.len(),
        forall|i: int| 0 <= i < s.len() ==> #[trigger] values_view(s)[i] == s[i].view(),
    decreases s.len(),
{
    if s.len() > 0 {
        lemma_values_view_len(s.drop_first());
        assert forall|i: int| 0 <= i < s.len() implies #[trigger] values_view(s)[i] == s[i].view() by {
            if i > 0 {
                assert(s.drop_first()[i - 1] == s[i]);
            }
        }
    }
}

pub proof fn lemma_entries_view(s: Seq<(String, Value)>)
    ensures
        entries_view(s).len() == s.len(),
        forall|i: int|
            0 <= i < s.len() ==> #[trigger] entries_view(s)[i] == (s[i].0@, s[i].1.view()),
    decreases s.len(),
{
    if s.len() > 0 {
        lemma_entries_view(s.drop_first());
        assert forall|i: int| 0 <= i < s.len() implies #[trigger] entries_view(s)[i] == (
            s[i].0@,
            s[i].1.view(),
        ) by {
            if i > 0 {
                assert(s.drop_first()[i - 1] == s[i]);
            }
        }
    }
}

/// The models of a list of values, element by element.
pub proof fn lemma_values_view(s: Seq<Value>)
    ensures
        values_view(s).len() == s.len(),
        forall|i: int| 0 <= i < s.len() ==> #[trigger] values_view(s)[i] == s[i].view(),
{
    lemma_values_view_len(s);
}

pub proof fn lemma_values_view_push(s: Seq<Value>, v: Value)
    ensures
        values_view(s.push(v)) == values_view(s).push(v.view()),
{
    lemma_values_view(s);
    lemma_values_view(s.push(v));
    assert(values_view(s.push(v)) =~= values_view(s).push(v.view()));
}

pub proof fn lemma_entries_view_push(s: Seq<(String, Value)>, e: (String, Value))
    ensures
        entries_view(s.push(e)) == entries_view(s).push((e.0@, e.1.view())),
{
    lemma_entries_view(s);
    lemma_entries_view(s.push(e));
    assert(entries_view(s.push(e)) =~= entries_view(s).push((e.0@, e.1.view())));
}

pub proof fn lemma_entries_view_update(s: Seq<(String, Value)>, i: int, e: (String, Value))
    requires
        0 <= i < s.len(),
    ensures
        entries_view(s.update(i, e)) == entries_view(s).update(i, (e.0@, e.1.view())),
{
    lemma_entries_view(s);
    lemma_entries_view(s.update(i, e));
    assert(entries_view(s.update(i, e)) =~= entries_view(s).update(i, (e.0@, e.1.view())));
}

pub proof fn lemma_values_view_update(s: Seq<Value>, i: int, v: Value)
    requires
        0 <= i < s.len(),
    ensures
        values_view(s.update(i, v)) == values_view(s).update(i, v.view()),
{
    lemma_values_view(s);
    lemma_values_view(s.update(i, v));
    assert(values_view(s.update(i, v)) =~= values_view(s).update(i, v.view()));
}

// ---------------------------------------------------------------------------
// Rendering
// ---------------------------------------------------------------------------
/// The text of an expression.
pub open spec fn display_expr(e: SExpr) -> Seq<char>
    decreases e,
{
    match e {
        SExpr::Identifier(s) => s,
        SExpr::Str(s) => debug_quoted(s),
        SExpr::NotEquals(a, b) => display_expr(*a) + " != "@ + display_expr(*b),
        SExpr::Equals(a, b) => display_expr(*a) + " == "@ + display_expr(*b),
    }
}

/// The text of a value: a string quoted and escaped, an integer in decimal,
/// a float as its literal, a boolean as `true`/`false`, an array as
/// `[a, b]`, a table as `{k = v, k2 = v2}`, a conditional as
/// `if c { a }` followed by ` else { b }` when it has an else branch.
pub open spec fn display_value(v: SValue) -> Seq<char>
    decreases v,
{
    match v {
        SValue::Str(s) => debug_quoted(s),
        SValue::Integer(i) => signed_decimal(i),
        SValue::Float(s) => s,
        SValue::Boolean(b) => if b {
            "true"@
        } else {
            "false"@
        },
        SValue::Array(items) => "["@ + display_items(items) + "]"@,
        SValue::Table(entries) => "{"@ + display_entries(entries) + "}"@,
        SValue::Conditional(c, t, e) => "if "@ + display_expr(c) + " { "@ + display_value(*t)
            + " }"@ + match e {
            Some(b) => " else { "@ + display_value(*b) + " }"@,
            None => Seq::empty(),
        },
    }
}

/// The items of an array, separated by `, `.
pub open spec fn display_items(items: Seq<SValue>) -> Seq<char>
    decreases items,
{
    if items.len() == 0 {
        Seq::empty()
    } else if items.len() == 1 {
        display_value(items[0])
    } else {
        display_value(items[0]) + ", "@ + display_items(items.drop_first())
    }
}

/// The entries of a table as `k = v`, separated by `, `.
pub open spec fn display_entries(entries: Seq<(Seq<char>, SValue)>) -> Seq<char>
    decreases entries,
{
    if entries.len() == 0 {
        Seq::empty()
    } else if entries.len() == 1 {
        entries[0].0 + " = "@ + display_value(entries[0].1)
    } else {
        entries[0].0 + " = "@ + display_value(entries[0].1) + ", "@ + display_entries(
            entries.drop_first(),
        )
    }
}

} // verus!
