//! The canonical value tree produced by the parser, together with its
//! mathematical model (a view for each node kind) and well-formedness.

use vstd::prelude::*;

verus! {

/// The form of a numeric literal, kept exactly (no floating point).
///
/// `Dec` stands for a decimal literal: the value is the integer written by
/// `digits` (most significant first, each `0..=9`), scaled by `10^exp` and
/// negated by the sign on the owning `Number`. The exponent already folds the
/// fractional shift in, so `1.5` is `digits = [1, 5], exp = -1`.
/// `Hex` stands for a hexadecimal integer literal: `digits` are the hex digit
/// values (each `0..=15`), most significant first.
#[derive(Debug, PartialEq)]
pub enum NumberForm {
    Dec { digits: Vec<u8>, exp: i64 },
    Hex { digits: Vec<u8> },
}

/// A JSON5 number: a sign and the exact digits of the literal.
#[derive(Debug, PartialEq)]
pub struct Number {
    pub neg: bool,
    pub form: NumberForm,
}

/// The canonical JSON5 value: a finite, acyclic, exclusively owned tree.
///
/// Object members are kept in first-seen key order with a later duplicate key
/// overwriting the earlier value; the model of an object is a map, so member
/// order carries no meaning in contracts.
#[derive(Debug, PartialEq)]
pub enum Value {
    Null,
    Boolean(bool),
    Number(Number),
    String(String),
    Array(Vec<Value>),
    Object(Vec<(String, Value)>),
}

/// Model of `NumberForm`: the same data over `Seq` and `int`.
pub enum NumberFormView {
    Dec { digits: Seq<u8>, exp: int },
    Hex { digits: Seq<u8> },
}

/// Model of `Number`.
pub struct NumberView {
    pub neg: bool,
    pub form: NumberFormView,
}

/// Model of `Value`: strings are character sequences and an object is a map,
/// so two trees that differ only in member order are equal models.
pub enum ValueView {
    Null,
    Boolean(bool),
    Number(NumberView),
    String(Seq<char>),
    Array(Seq<ValueView>),
    Object(Map<Seq<char>, ValueView>),
}

impl View for NumberForm {
    type V = NumberFormView;

    open spec fn view(&self) -> NumberFormView {
        match self {
            NumberForm::Dec { digits, exp } => NumberFormView::Dec {
                digits: digits@,
                exp: *exp as int,
            },
            NumberForm::Hex { digits } => NumberFormView::Hex { digits: digits@ },
        }
    }
}

impl View for Number {
    type V = NumberView;

    open spec fn view(&self) -> NumberView {
        NumberView { neg: self.neg, form: self.form@ }
    }
}

/// The model of a value tree.
pub open spec fn value_view(v: Value) -> ValueView
    decreases v,
{
    match v {
        Value::Null => ValueView::Null,
        Value::Boolean(b) => ValueView::Boolean(b),
        Value::Number(n) => ValueView::Number(n@),
        Value::String(s) => ValueView::String(s@),
        Value::Array(elems) => ValueView::Array(values_view(elems@)),
        Value::Object(members) => ValueView::Object(members_map(members_view(members@))),
    }
}

/// The models of a sequence of values, in order.
pub open spec fn values_view(vs: Seq<Value>) -> Seq<ValueView>
    decreases vs,
{
    if vs.len() == 0 {
        Seq::empty()
    } else {
        values_view(vs.drop_last()).push(value_view(vs.last()))
    }
}

/// The models of a member list: each key as a character sequence, each value
/// as its model, source order kept.
pub open spec fn members_view(ms: Seq<(String, Value)>) -> Seq<(Seq<char>, ValueView)>
    decreases ms,
{
    if ms.len() == 0 {
        Seq::empty()
    } else {
        members_view(ms.drop_last()).push((ms.last().0@, value_view(ms.last().1)))
    }
}

/// Folds a member list into a map, inserting in order, so that a later
/// occurrence of a key overwrites an earlier one (last-write-wins).
pub open spec fn members_map(ms: Seq<(Seq<char>, ValueView)>) -> Map<Seq<char>, ValueView>
    decreases ms.len(),
{
    if ms.len() == 0 {
        Map::empty()
    } else {
        members_map(ms.drop_last()).insert(ms.last().0, ms.last().1)
    }
}

impl View for Value {
    type V = ValueView;

    open spec fn view(&self) -> ValueView {
        value_view(*self)
    }
}

/// A number is well formed when it has at least one digit and every digit is
/// below the base.
pub open spec fn number_wf(n: Number) -> bool {
    match n.form {
        NumberForm::Dec { digits, exp } => digits@.len() >= 1 && forall|k: int|
            0 <= k < digits@.len() ==> digits@[k] < 10,
        NumberForm::Hex { digits } => digits@.len() >= 1 && forall|k: int|
            0 <= k < digits@.len() ==> digits@[k] < 16,
    }
}

/// Object member keys are pairwise distinct.
pub open spec fn keys_distinct(ms: Seq<(String, Value)>) -> bool {
    forall|i: int, j: int| 0 <= i < j < ms.len() ==> ms[i].0@ != ms[j].0@
}

/// Well-formedness of a value tree: numbers carry valid digits and every
/// object stores each key once.
pub open spec fn value_wf(v: Value) -> bool
    decreases v,
{
    match v {
        Value::Null => true,
        Value::Boolean(_) => true,
        Value::Number(n) => number_wf(n),
        Value::String(_) => true,
        Value::Array(elems) => values_wf(elems@),
        Value::Object(members) => keys_distinct(members@) && members_values_wf(members@),
    }
}

/// Well-formedness of each value of a sequence.
pub open spec fn values_wf(vs: Seq<Value>) -> bool
    decreases vs,
{
    vs.len() == 0 || (values_wf(vs.drop_last()) && value_wf(vs.last()))
}

/// Well-formedness of each member's value.
pub open spec fn members_values_wf(ms: Seq<(String, Value)>) -> bool
    decreases ms,
{
    ms.len() == 0 || (members_values_wf(ms.drop_last()) && value_wf(ms.last().1))
}

} // verus!
