//! The runtime value model: a tagged union of number, text, boolean and
//! void, with structural equality, total truthiness and display formatting.
//!
//! Numbers are exact 64-bit integers: the lexer only produces integer
//! numerals, and integer arithmetic keeps every operation a mathematical
//! function that contracts can state exactly.

use vstd::prelude::*;

verus! {

/// Mathematical image of a runtime value: what contracts speak about.
pub enum Val {
    Num(i64),
    Text(Seq<char>),
    Bool(bool),
    Void,
}

/// A runtime value as the engine holds it.
#[derive(Debug)]
pub enum Value {
    Number(i64),
    Text(String),
    Boolean(bool),
    Void,
}

impl View for Value {
    type V = Val;

    open spec fn view(&self) -> Val {
        match self {
            Value::Number(n) => Val::Num(*n),
            Value::Text(s) => Val::Text(s@),
            Value::Boolean(b) => Val::Bool(*b),
            Value::Void => Val::Void,
        }
    }
}

impl DeepView for Value {
    type V = Val;

    open spec fn deep_view(&self) -> Val {
        self.view()
    }
}

/// Truthiness is total: booleans are themselves, void is falsy, and
/// numbers and text are truthy regardless of their value.
pub open spec fn truthy(v: Val) -> bool {
    match v {
        Val::Num(_) => true,
        Val::Text(_) => true,
        Val::Bool(b) => b,
        Val::Void => false,
    }
}

/// The decimal digit character for a value below ten.
pub open spec fn dec_digit(d: nat) -> char {
    ((d + 48) as u8) as char
}

/// Decimal numeral of a natural number, most significant digit first.
pub open spec fn dec_of_nat(n: nat) -> Seq<char>
    decreases n,
{
    if n < 10 {
        seq![dec_digit(n)]
    } else {
        dec_of_nat(n / 10).push(dec_digit(n % 10))
    }
}

/// Decimal numeral of a signed number: a leading '-' for negatives.
pub open spec fn dec_of_i64(n: i64) -> Seq<char> {
    if n < 0 {
        seq!['-'] + dec_of_nat((-(n as int)) as nat)
    } else {
        dec_of_nat(n as nat)
    }
}

/// How a value displays: numbers print their numeral, text prints its raw
/// contents, booleans print `true`/`false`, void prints `void`.
pub open spec fn fmt_val(v: Val) -> Seq<char> {
    match v {
        Val::Num(n) => dec_of_i64(n),
        Val::Text(s) => s,
        Val::Bool(b) => if b {
            "true"@
        } else {
            "false"@
        },
        Val::Void => "void"@,
    }
}

/// Relies on the standard library's `Display` for `i64`, by way of
/// `ToString`: the decimal numeral, with a leading `-` for negatives.
#[verifier::external_body]
fn fmt_i64(n: i64) -> (r: String)
    ensures
        r@ == dec_of_i64(n),
{
    n.to_string()
}

impl Clone for Value {
    fn clone(&self) -> (r: Value)
        ensures
            r@ == self@,
    {
        match self {
            Value::Number(n) => Value::Number(*n),
            Value::Text(s) => Value::Text(s.clone()),
            Value::Boolean(b) => Value::Boolean(*b),
            Value::Void => Value::Void,
        }
    }
}

impl Value {
    pub fn from_number(n: i64) -> (v: Value)
        ensures
            v@ == Val::Num(n),
    {
        Value::Number(n)
    }

    pub fn from_string(s: &str) -> (v: Value)
        ensures
            v@ == Val::Text(s@),
    {
        Value::Text(s.to_owned())
    }

    pub fn from_boolean(b: bool) -> (v: Value)
        ensures
            v@ == Val::Bool(b),
    {
        Value::Boolean(b)
    }

    /// Structural equality per variant; values of different variants are
    /// never equal.
    pub fn equals(&self, other: &Value) -> (r: bool)
        ensures
            r == (self@ == other@),
    {
        match (self, other) {
            (Value::Number(a), Value::Number(b)) => a == b,
            (Value::Text(a), Value::Text(b)) => *a == *b,
            (Value::Boolean(a), Value::Boolean(b)) => a == b,
            (Value::Void, Value::Void) => true,
            _ => false,
        }
    }

    /// The total truthiness rule used by conditionals and logical operators.
    pub fn is_truthy(&self) -> (r: bool)
        ensures
            r == truthy(self@),
    {
        match self {
            Value::Number(_) => true,
            Value::Text(_) => true,
            Value::Boolean(b) => *b,
            Value::Void => false,
        }
    }

    /// Renders the value for the print instruction.
    pub fn format(&self) -> (r: String)
        ensures
            r@ == fmt_val(self@),
    {
        match self {
            Value::Number(n) => fmt_i64(*n),
            Value::Text(s) => s.clone(),
            Value::Boolean(b) => {
                if *b {
                    "true".to_owned()
                } else {
                    "false".to_owned()
                }
            },
            Value::Void => "void".to_owned(),
        }
    }
}

} // verus!
