//! Tagged document values shared by both map codecs.

use vstd::prelude::*;

verus! {

/// A single document value: the tagged-variant stand-in for the
/// differently-typed elements a heterogeneous sequence carries.
#[derive(Debug, Clone, PartialEq, Eq)]
pub enum Value {
    Int(i64),
    Str(String),
    Bool(bool),
}

/// The shape of a [`Value`], used to state which variant a slot expects.
#[derive(Debug, Clone, Copy, PartialEq, Eq, Structural)]
pub enum Kind {
    Int,
    Str,
    Bool,
}

impl Value {
    /// Which [`Kind`] this value has.
    pub open spec fn kind_spec(&self) -> Kind {
        match self {
            Value::Int(_) => Kind::Int,
            Value::Str(_) => Kind::Str,
            Value::Bool(_) => Kind::Bool,
        }
    }

    /// Runtime counterpart of [`Value::kind_spec`].
    pub fn kind(&self) -> (k: Kind)
        ensures
            k == self.kind_spec(),
    {
        match self {
            Value::Int(_) => Kind::Int,
            Value::Str(_) => Kind::Str,
            Value::Bool(_) => Kind::Bool,
        }
    }

    /// A copy equal to `self`.
    pub fn dup(&self) -> (r: Value)
        ensures
            r == *self,
    {
        match self {
            Value::Int(i) => Value::Int(*i),
            Value::Str(s) => Value::Str(s.clone()),
            Value::Bool(b) => Value::Bool(*b),
        }
    }
}

/// Why a decode call failed.
#[derive(Debug, PartialEq, Eq)]
pub enum DecodeError {
    /// A required labelled slot stayed unfilled; carries that slot's label.
    MissingField(String),
    /// A document value did not have the kind its slot expects.
    InvalidValue,
}

} // verus!
