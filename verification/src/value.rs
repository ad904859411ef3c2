use vstd::prelude::*;
use vstd::string::*;
use crate::bigint::{BigInt, Integer};

verus! {

/// What an expression evaluates to.
#[derive(Debug)]
pub enum Value {
    Integer(BigInt),
    Bool(bool),
    Void,
    Function(String),
}

/// What a `Value` stands for.
pub enum Datum {
    Integer(Integer),
    Bool(bool),
    Void,
    Function(Seq<char>),
}

impl View for Value {
    type V = Datum;

    open spec fn view(&self) -> Datum {
        match self {
            Value::Integer(n) => Datum::Integer(n@),
            Value::Bool(b) => Datum::Bool(*b),
            Value::Void => Datum::Void,
            Value::Function(name) => Datum::Function(name@),
        }
    }
}

impl Clone for Value {
    fn clone(&self) -> (r: Value)
        ensures
            r@ == self@,
    {
        match self {
            Value::Integer(n) => Value::Integer(n.clone()),
            Value::Bool(b) => Value::Bool(*b),
            Value::Void => Value::Void,
            Value::Function(name) => Value::Function(name.clone()),
        }
    }
}

impl Value {
    /// The integer value that holds `n`.
    pub fn make_integer(n: BigInt) -> (r: Value)
        ensures
            r@ == Datum::Integer(n@),
    {
        Value::Integer(n)
    }

    /// The handle of the function called `name`.
    pub fn make_function(name: &str) -> (r: Value)
        ensures
            r@ == Datum::Function(name@),
    {
        Value::Function(String::from_str(name))
    }
}

} // verus!
