use vstd::prelude::*;

verus! {

/// A heap-allocated object.
#[derive(Clone, Debug)]
pub enum Obj {
    String(String),
}

/// A value of the language. A number is held as the bit pattern of an
/// IEEE-754 double. `==` compares kind and payload, numbers by bit pattern.
#[derive(Clone, Debug)]
pub enum Value {
    Number(u64),
    Bool(bool),
    Nil,
    Obj(Box<Obj>),
}

/// What a value is, with a string as its characters.
pub enum Val {
    Number(u64),
    Bool(bool),
    Nil,
    Str(Seq<char>),
}

impl View for Value {
    type V = Val;

    open spec fn view(&self) -> Val {
        match self {
            Value::Number(n) => Val::Number(*n),
            Value::Bool(b) => Val::Bool(*b),
            Value::Nil => Val::Nil,
            Value::Obj(o) => match **o {
                Obj::String(s) => Val::Str(s@),
            },
        }
    }
}

/// Falsey values are `nil` and `false`; every other value is truthy.
pub open spec fn is_falsey(v: Val) -> bool {
    match v {
        Val::Nil => true,
        Val::Bool(b) => !b,
        _ => false,
    }
}

impl Value {
    /// A string value holding `s`.
    pub fn string(s: String) -> (r: Value)
        ensures
            r@ == Val::Str(s@),
    {
        Value::Obj(Box::new(Obj::String(s)))
    }

    /// A copy of this value.
    pub fn copy(&self) -> (r: Value)
        ensures
            r@ == self@,
    {
        match self {
            Value::Number(n) => Value::Number(*n),
            Value::Bool(b) => Value::Bool(*b),
            Value::Nil => Value::Nil,
            Value::Obj(o) => match &**o {
                Obj::String(s) => Value::string(s.clone()),
            },
        }
    }

    pub fn is_falsey(&self) -> (r: bool)
        ensures
            r == is_falsey(self@),
    {
        match self {
            Value::Nil => true,
            Value::Bool(b) => !*b,
            _ => false,
        }
    }
}

impl PartialEq for Value {
    fn eq(&self, o: &Value) -> (r: bool) {
        match (self, o) {
            (Value::Number(x), Value::Number(y)) => *x == *y,
            (Value::Bool(x), Value::Bool(y)) => *x == *y,
            (Value::Nil, Value::Nil) => true,
            (Value::Obj(x), Value::Obj(y)) => match (&**x, &**y) {
                (Obj::String(s), Obj::String(t)) => *s == *t,
            },
            _ => false,
        }
    }
}

impl vstd::std_specs::cmp::PartialEqSpecImpl for Value {
    open spec fn obeys_eq_spec() -> bool {
        true
    }

    open spec fn eq_spec(&self, o: &Value) -> bool {
        self@ == o@
    }
}

} // verus!
