use vstd::prelude::*;

verus! {

/// Arithmetic on the language's numbers, supplied by the embedding host.
///
/// The language's numbers are IEEE-754 doubles. The interpreter core only
/// moves numbers around and asks the host to combine, compare and render them.
pub trait Number: Sized + Copy {
    /// The value written by a numeric lexeme (digits, optionally `.` and digits).
    fn from_lexeme(text: &str) -> Self;

    fn plus(self, other: Self) -> Self;

    fn minus(self, other: Self) -> Self;

    fn times(self, other: Self) -> Self;

    fn divided_by(self, other: Self) -> Self;

    fn negated(self) -> Self;

    fn less(self, other: Self) -> bool;

    fn less_equal(self, other: Self) -> bool;

    /// Numeric equality (so a NaN equals nothing).
    fn equal(self, other: Self) -> bool;

    /// The default decimal rendering.
    fn to_text(self) -> String;

    /// Whether the value has no fractional part.
    fn is_integral(self) -> bool;
}

/// A runtime value of the language.
#[derive(Debug, Clone, PartialEq)]
pub enum Literal<N> {
    Number(N),
    String(String),
    True,
    False,
    Nil,
}

/// The mathematical model of a [`Literal`]: strings become sequences of characters.
pub enum Value<N> {
    Number(N),
    Str(Seq<char>),
    True,
    False,
    Nil,
}

impl<N> View for Literal<N> {
    type V = Value<N>;

    open spec fn view(&self) -> Value<N> {
        match self {
            Literal::Number(n) => Value::Number(*n),
            Literal::String(s) => Value::Str(s@),
            Literal::True => Value::True,
            Literal::False => Value::False,
            Literal::Nil => Value::Nil,
        }
    }
}

/// Only `nil` and `false` are falsy.
pub open spec fn is_truthy<N>(v: Value<N>) -> bool {
    !(v is False || v is Nil)
}

pub open spec fn bool_value<N>(b: bool) -> Value<N> {
    if b {
        Value::True
    } else {
        Value::False
    }
}

/// `text` is how `v` prints: a string as its raw text, `true`, `false`,
/// `nil`, and a number in the host's decimal rendering.
pub open spec fn renders<N>(v: Value<N>, text: Seq<char>) -> bool {
    match v {
        Value::Number(_) => true,
        Value::Str(s) => text == s,
        Value::True => text == "true"@,
        Value::False => text == "false"@,
        Value::Nil => text == "nil"@,
    }
}

impl<N: Number> Literal<N> {
    /// The printed form of the value.
    pub fn to_string(&self) -> (r: String)
        ensures
            renders(self@, r@),
    {
        match self {
            Literal::Number(n) => n.to_text(),
            Literal::String(s) => s.clone(),
            Literal::True => String::from_str("true"),
            Literal::False => String::from_str("false"),
            Literal::Nil => String::from_str("nil"),
        }
    }

    pub fn truthy(&self) -> (r: bool)
        ensures
            r == is_truthy(self@),
    {
        match self {
            Literal::False | Literal::Nil => false,
            _ => true,
        }
    }

    pub fn from_bool(value: bool) -> (r: Literal<N>)
        ensures
            r@ == bool_value::<N>(value),
    {
        if value {
            Literal::True
        } else {
            Literal::False
        }
    }

    /// A copy of this value.
    pub fn duplicate(&self) -> (r: Literal<N>)
        ensures
            r@ == self@,
    {
        match self {
            Literal::Number(n) => Literal::Number(*n),
            Literal::String(s) => Literal::String(s.clone()),
            Literal::True => Literal::True,
            Literal::False => Literal::False,
            Literal::Nil => Literal::Nil,
        }
    }
}


} // verus!
