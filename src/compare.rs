use vstd::prelude::*;
use crate::value::{Value, ValueView};

verus! {

/// A comparison between a field's value and a given value.
#[derive(Clone, Copy, Debug, PartialEq, Eq, Structural)]
pub enum Operator {
    GreaterThan,
    EqualTo,
    LessThan,
}

/// Lexicographic order on texts by code point: a proper prefix comes first.
pub open spec fn text_lt(a: Seq<char>, b: Seq<char>) -> bool
    decreases a.len(),
{
    if a.len() == 0 {
        b.len() > 0
    } else if b.len() == 0 {
        false
    } else if a[0] != b[0] {
        (a[0] as u32) < (b[0] as u32)
    } else {
        text_lt(a.drop_first(), b.drop_first())
    }
}

/// Whether `a op b` holds. Values of different variants are never related;
/// floats are compared for equality only, by their bit patterns.
pub open spec fn holds(op: Operator, a: ValueView, b: ValueView) -> bool {
    match (a, b) {
        (ValueView::Int(x), ValueView::Int(y)) => match op {
            Operator::GreaterThan => x > y,
            Operator::EqualTo => x == y,
            Operator::LessThan => x < y,
        },
        (ValueView::UInt(x), ValueView::UInt(y)) => match op {
            Operator::GreaterThan => x > y,
            Operator::EqualTo => x == y,
            Operator::LessThan => x < y,
        },
        (ValueView::Str(x), ValueView::Str(y)) => match op {
            Operator::GreaterThan => text_lt(y, x),
            Operator::EqualTo => x == y,
            Operator::LessThan => text_lt(x, y),
        },
        (ValueView::Float(x), ValueView::Float(y)) => op == Operator::EqualTo && x == y,
        _ => false,
    }
}

/// Relies on `<String as PartialOrd>::lt`: strings are ordered
/// lexicographically by their UTF-8 bytes, which orders them as their code
/// points do.
#[verifier::external_body]
fn string_lt(a: &String, b: &String) -> (r: bool)
    ensures
        r == text_lt(a@, b@),
{
    a < b
}

/// A comparison function fixed to one operator.
#[derive(Clone, Copy, Debug)]
pub struct CompFunc {
    pub operator: Operator,
}

/// The comparison function for `operator`.
pub fn create_comp_func(operator: Operator) -> (r: CompFunc)
    ensures
        r.operator == operator,
{
    CompFunc { operator }
}

impl CompFunc {
    /// Whether `a` stands in this function's relation to `b`.
    pub fn call(&self, a: &Value, b: &Value) -> (r: bool)
        ensures
            r == holds(self.operator, a@, b@),
    {
        match (a, b) {
            (Value::Int(x), Value::Int(y)) => match self.operator {
                Operator::GreaterThan => *x > *y,
                Operator::EqualTo => *x == *y,
                Operator::LessThan => *x < *y,
            },
            (Value::UInt(x), Value::UInt(y)) => match self.operator {
                Operator::GreaterThan => *x > *y,
                Operator::EqualTo => *x == *y,
                Operator::LessThan => *x < *y,
            },
            (Value::Str(x), Value::Str(y)) => match self.operator {
                Operator::GreaterThan => string_lt(y, x),
                Operator::EqualTo => x.eq(y),
                Operator::LessThan => string_lt(x, y),
            },
            (Value::Float(x), Value::Float(y)) => {
                match self.operator {
                    Operator::EqualTo => *x == *y,
                    _ => false,
                }
            },
            _ => false,
        }
    }
}

} // verus!
