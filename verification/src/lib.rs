//! An in-memory write buffer for a time-series store: producers hand in
//! batches of tagged, timestamped points; the buffer decomposes each batch
//! into per-series typed columns and merges them into a sharded,
//! lock-protected cache.

use vstd::prelude::*;
use vstd::string::StringExecFns;

pub mod cache;
pub mod point;
pub mod value;

verus! {

/// The closed set of scalar kinds a series may hold.
#[derive(Clone, Copy, PartialEq, Eq, Structural, Debug, Hash)]
pub enum ValueType {
    F64,
    I64,
    U64,
    Bool,
    Str,
}

/// The one recoverable error: a value of the wrong kind was appended to a
/// column whose kind is already fixed.
#[derive(Clone, Copy, PartialEq, Eq, Structural, Debug)]
pub struct TypeMismatchError {
    pub expect: ValueType,
    pub got: ValueType,
}

/// The kind's name, as messages spell it.
pub open spec fn spec_kind_name(t: ValueType) -> Seq<char> {
    match t {
        ValueType::F64 => "F64"@,
        ValueType::I64 => "I64"@,
        ValueType::U64 => "U64"@,
        ValueType::Bool => "Bool"@,
        ValueType::Str => "Str"@,
    }
}

/// The error rendered for humans: the kind the column expected and the
/// kind it was offered.
pub open spec fn spec_mismatch_message(e: TypeMismatchError) -> Seq<char> {
    "type mismatch expect: "@ + spec_kind_name(e.expect) + ", got: "@ + spec_kind_name(e.got)
}

impl ValueType {
    /// The kind's name in messages.
    pub fn name(&self) -> (r: &'static str)
        ensures
            r@ == spec_kind_name(*self),
    {
        match self {
            ValueType::F64 => "F64",
            ValueType::I64 => "I64",
            ValueType::U64 => "U64",
            ValueType::Bool => "Bool",
            ValueType::Str => "Str",
        }
    }
}

impl TypeMismatchError {
    pub fn new(expect: ValueType, got: ValueType) -> (e: Self)
        ensures
            e == (TypeMismatchError { expect, got }),
    {
        TypeMismatchError { expect, got }
    }

    /// The error rendered for humans.
    pub fn message(&self) -> (r: String)
        ensures
            r@ == spec_mismatch_message(*self),
    {
        let mut r = String::from_str("type mismatch expect: ");
        r.append(self.expect.name());
        r.append(", got: ");
        r.append(self.got.name());
        r
    }
}

} // verus!
