use vstd::prelude::*;

verus! {

/// Errors raised by the operations on records and tables.
#[derive(Clone, Copy, Debug, PartialEq, Eq, Structural)]
pub enum TableError {
    MismatchedTypes,
    InvalidField,
    InvalidOperator,
    IncorrectFieldNames,
    IncorrectFieldTypes,
    TableHasNoFields,
}

/// The declared type of a field in a schema.
#[derive(Clone, Copy, Debug, PartialEq, Eq, Structural)]
pub enum ValueType {
    Str,
    Int,
    UInt,
    Float,
}

/// A tagged scalar. A float is carried as its IEEE-754 binary32 bit pattern,
/// so two floats are equal here exactly when their bits are.
#[derive(Clone, Debug)]
pub enum Value {
    Str(String),
    Int(i32),
    UInt(u32),
    Float(u32),
}

/// The mathematical content of a [`Value`].
pub enum ValueView {
    Str(Seq<char>),
    Int(i32),
    UInt(u32),
    Float(u32),
}

impl ValueView {
    pub open spec fn ty(self) -> ValueType {
        match self {
            ValueView::Str(_) => ValueType::Str,
            ValueView::Int(_) => ValueType::Int,
            ValueView::UInt(_) => ValueType::UInt,
            ValueView::Float(_) => ValueType::Float,
        }
    }
}

impl View for Value {
    type V = ValueView;

    open spec fn view(&self) -> ValueView {
        match self {
            Value::Str(s) => ValueView::Str(s@),
            Value::Int(i) => ValueView::Int(*i),
            Value::UInt(u) => ValueView::UInt(*u),
            Value::Float(b) => ValueView::Float(*b),
        }
    }
}

/// Classification of a value by its variant.
pub trait ToType {
    spec fn spec_type(&self) -> ValueType;

    fn to_type(&self) -> (r: ValueType)
        ensures
            r == self.spec_type(),
    ;
}

impl ToType for Value {
    open spec fn spec_type(&self) -> ValueType {
        self@.ty()
    }

    fn to_type(&self) -> (r: ValueType) {
        match self {
            Value::Str(_) => ValueType::Str,
            Value::Int(_) => ValueType::Int,
            Value::UInt(_) => ValueType::UInt,
            Value::Float(_) => ValueType::Float,
        }
    }
}

impl Value {
    /// A copy of this value with the same content.
    pub fn copy(&self) -> (r: Value)
        ensures
            r@ == self@,
    {
        match self {
            Value::Str(s) => Value::Str(s.clone()),
            Value::Int(i) => Value::Int(*i),
            Value::UInt(u) => Value::UInt(*u),
            Value::Float(b) => Value::Float(*b),
        }
    }

    pub fn from_float_bits(bits: u32) -> (r: Value)
        ensures
            r@ == ValueView::Float(bits),
    {
        Value::Float(bits)
    }

    pub fn as_str(&self) -> (r: Result<&String, TableError>)
        ensures
            match self@ {
                ValueView::Str(s) => r is Ok && r->Ok_0@ == s,
                _ => r == Err::<&String, TableError>(TableError::MismatchedTypes),
            },
    {
        match self {
            Value::Str(s) => Ok(s),
            _ => Err(TableError::MismatchedTypes),
        }
    }

    pub fn as_int(&self) -> (r: Result<i32, TableError>)
        ensures
            match self@ {
                ValueView::Int(i) => r == Ok::<i32, TableError>(i),
                _ => r == Err::<i32, TableError>(TableError::MismatchedTypes),
            },
    {
        match self {
            Value::Int(i) => Ok(*i),
            _ => Err(TableError::MismatchedTypes),
        }
    }

    pub fn as_uint(&self) -> (r: Result<u32, TableError>)
        ensures
            match self@ {
                ValueView::UInt(u) => r == Ok::<u32, TableError>(u),
                _ => r == Err::<u32, TableError>(TableError::MismatchedTypes),
            },
    {
        match self {
            Value::UInt(u) => Ok(*u),
            _ => Err(TableError::MismatchedTypes),
        }
    }

    pub fn as_float_bits(&self) -> (r: Result<u32, TableError>)
        ensures
            match self@ {
                ValueView::Float(b) => r == Ok::<u32, TableError>(b),
                _ => r == Err::<u32, TableError>(TableError::MismatchedTypes),
            },
    {
        match self {
            Value::Float(b) => Ok(*b),
            _ => Err(TableError::MismatchedTypes),
        }
    }
}

impl PartialEq for Value {
    fn eq(&self, o: &Value) -> (r: bool) {
        match (self, o) {
            (Value::Str(a), Value::Str(b)) => a.eq(b),
            (Value::Int(a), Value::Int(b)) => *a == *b,
            (Value::UInt(a), Value::UInt(b)) => *a == *b,
            (Value::Float(a), Value::Float(b)) => *a == *b,
            _ => false,
        }
    }
}

impl vstd::std_specs::cmp::PartialEqSpecImpl for Value {
    open spec fn obeys_eq_spec() -> bool {
        true
    }

    open spec fn eq_spec(&self, o: &Value) -> bool {
        self@ == o@
    }
}

impl From<String> for Value {
    fn from(s: String) -> (r: Value) {
        Value::Str(s)
    }
}

impl vstd::std_specs::convert::FromSpecImpl<String> for Value {
    open spec fn obeys_from_spec() -> bool {
        true
    }

    open spec fn from_spec(s: String) -> Value {
        Value::Str(s)
    }
}

impl From<i32> for Value {
    fn from(i: i32) -> (r: Value) {
        Value::Int(i)
    }
}

impl vstd::std_specs::convert::FromSpecImpl<i32> for Value {
    open spec fn obeys_from_spec() -> bool {
        true
    }

    open spec fn from_spec(i: i32) -> Value {
        Value::Int(i)
    }
}

impl From<u32> for Value {
    fn from(u: u32) -> (r: Value) {
        Value::UInt(u)
    }
}

impl vstd::std_specs::convert::FromSpecImpl<u32> for Value {
    open spec fn obeys_from_spec() -> bool {
        true
    }

    open spec fn from_spec(u: u32) -> Value {
        Value::UInt(u)
    }
}

} // verus!
