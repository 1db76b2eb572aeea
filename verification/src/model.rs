//! The mathematical model of parsed definition data.
//!
//! [`Val`] is the specification-level counterpart of the executable
//! [`crate::value::SchemaValue`]: objects become maps from field name to
//! value (insertion order is irrelevant and duplicate names overwrite),
//! strings become character sequences, and arrays become sequences.
//! All contracts of the crate speak in terms of `Val`.

use vstd::prelude::*;

verus! {

/// Specification-level value of a parsed definition datum.
pub enum Val {
    /// A schematized struct: field name to value, order irrelevant.
    Object(Map<Seq<char>, Val>),
    /// A 64-bit signed integer literal.
    Integer(int),
    /// A decimal literal, kept as its digit text (digits and one period).
    Decimal(Seq<char>),
    /// A boolean literal.
    Bool(bool),
    /// An ordered array of values.
    Array(Seq<Val>),
    /// A string literal's contents.
    Strg(Seq<char>),
    /// An enum variant tag with an optional payload (`Null` when absent).
    EnumVariant(Seq<char>, Box<Val>),
    /// Explicit absence.
    Null,
}

/// Structural depth of a model value; bounds every traversal of it.
pub open spec fn val_depth(v: Val) -> nat
    decreases v,
{
    match v {
        Val::Array(s) => 1 + seq_depth(s),
        Val::EnumVariant(_, b) => 1 + val_depth(*b),
        Val::Object(_) => 1,
        _ => 0,
    }
}

/// Largest depth of any element of a sequence of model values.
pub open spec fn seq_depth(s: Seq<Val>) -> nat
    decreases s,
{
    if s.len() == 0 {
        0
    } else {
        let d0 = val_depth(s[0]);
        let dr = seq_depth(s.drop_first());
        if d0 > dr {
            d0
        } else {
            dr
        }
    }
}

} // verus!
