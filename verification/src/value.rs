//! The dynamically typed intermediate representation of a parsed definition.

use vstd::prelude::*;

use crate::model::Val;

verus! {

/// A parsed definition datum, prior to being bound to a static type.
///
/// Objects keep their fields as a vector of name/value pairs with unique
/// names; the model view collapses them to a map, since field order is
/// irrelevant and duplicate names overwrite at parse time.
pub enum SchemaValue {
    /// A schematized struct: field name to value.
    Object(Vec<(String, SchemaValue)>),
    /// A 64-bit signed integer literal.
    Integer(i64),
    /// A decimal literal, kept as its digit text (digits and one period).
    Decimal(String),
    /// A boolean literal.
    Bool(bool),
    /// An array of arbitrary size.
    Array(Vec<SchemaValue>),
    /// A string of arbitrary size.
    Strg(String),
    /// An enum variant tag with an optional payload (`Null` when absent).
    EnumVariant(String, Box<SchemaValue>),
    /// Explicit absence, used for missing-but-tolerated fields during sizing.
    Null,
}

/// Errors of the writing pass, reported when a parsed tree does not fit
/// the static type it is bound to.
#[derive(PartialEq, Eq, Structural, Clone, Copy, Debug)]
pub enum SchemaError {
    /// The parsed value's kind does not match the expected field type.
    WrongSchemaValue,
    /// A required object field is absent from the input.
    MissingField,
    /// A fixed-size array field whose input length differs from the declared size.
    WrongSizedArray,
    /// An integer literal does not fit the target integer width.
    NumberOutOfBounds,
    /// Reserved by the error taxonomy for unrecognized fields.
    UnknownField,
    /// An extra unrecognized object field, or an unknown enum variant name.
    UnknownIdentifier,
}

/// Result type of the writing pass.
pub type SchemaResult<T> = Result<T, SchemaError>;

impl View for SchemaValue {
    type V = Val;

    open spec fn view(&self) -> Val {
        val_model(*self)
    }
}

/// The model of an executable value: objects become maps, strings become
/// character sequences.
pub open spec fn val_model(sv: SchemaValue) -> Val
    decreases sv,
{
    match sv {
        SchemaValue::Object(fields) => Val::Object(fields_model(fields@)),
        SchemaValue::Integer(n) => Val::Integer(n as int),
        SchemaValue::Decimal(t) => Val::Decimal(t@),
        SchemaValue::Bool(b) => Val::Bool(b),
        SchemaValue::Array(items) => Val::Array(array_model(items@)),
        SchemaValue::Strg(s) => Val::Strg(s@),
        SchemaValue::EnumVariant(name, payload) => Val::EnumVariant(
            name@,
            Box::new(val_model(*payload)),
        ),
        SchemaValue::Null => Val::Null,
    }
}

/// The model of an object's field list: later entries overwrite earlier ones.
pub open spec fn fields_model(fields: Seq<(String, SchemaValue)>) -> Map<Seq<char>, Val>
    decreases fields,
{
    if fields.len() == 0 {
        Map::empty()
    } else {
        let last = fields[fields.len() - 1];
        fields_model(fields.drop_last()).insert(last.0@, val_model(last.1))
    }
}

/// The model of an array's element list, in order.
pub open spec fn array_model(items: Seq<SchemaValue>) -> Seq<Val>
    decreases items,
{
    if items.len() == 0 {
        Seq::empty()
    } else {
        array_model(items.drop_last()).push(val_model(items.last()))
    }
}

/// Well-formedness of a parsed value: object field names are unique, at
/// every nesting level. The parser only produces well-formed values.
pub open spec fn sv_wf(sv: SchemaValue) -> bool
    decreases sv,
{
    match sv {
        SchemaValue::Object(fields) => fields_unique(fields@) && (forall|k: int|
            0 <= k < fields@.len() ==> sv_wf(#[trigger] fields@[k].1)),
        SchemaValue::Array(items) => forall|k: int|
            0 <= k < items@.len() ==> sv_wf(#[trigger] items@[k]),
        SchemaValue::EnumVariant(_, payload) => sv_wf(*payload),
        _ => true,
    }
}

/// Field names of an object are pairwise distinct.
pub open spec fn fields_unique(fields: Seq<(String, SchemaValue)>) -> bool {
    forall|k1: int, k2: int|
        0 <= k1 < k2 < fields.len() ==> (#[trigger] fields[k1]).0@ != (#[trigger] fields[k2]).0@
}

/// The model of an array element list is the element models, in order.
pub proof fn lemma_array_model(items: Seq<SchemaValue>)
    ensures
        array_model(items).len() == items.len(),
        forall|k: int| 0 <= k < items.len() ==> #[trigger] array_model(items)[k] == items[k]@,
    decreases items,
{
    if items.len() > 0 {
        lemma_array_model(items.drop_last());
    }
}

/// The field-map model looks names up at their latest entry, its domain is
/// the set of entry names, and with unique names it has one entry per pair.
pub proof fn lemma_fields_model(fields: Seq<(String, SchemaValue)>)
    ensures
        fields_model(fields).dom() =~= Set::new(
            |nm: Seq<char>| exists|k: int| 0 <= k < fields.len() && (#[trigger] fields[k]).0@ == nm,
        ),
        fields_model(fields).dom().finite(),
        fields_unique(fields) ==> fields_model(fields).dom().len() == fields.len(),
        fields_unique(fields) ==> forall|k: int|
            0 <= k < fields.len() ==> fields_model(fields)[(#[trigger] fields[k]).0@]
                == fields[k].1@,
    decreases fields,
{
    if fields.len() > 0 {
        let prefix = fields.drop_last();
        lemma_fields_model(prefix);
        let last = fields[fields.len() - 1];
        let names = Set::new(
            |nm: Seq<char>| exists|k: int| 0 <= k < fields.len() && (#[trigger] fields[k]).0@ == nm,
        );
        assert forall|nm: Seq<char>| fields_model(fields).dom().contains(nm) implies names.contains(
            nm,
        ) by {
            if nm == last.0@ {
                assert(fields[fields.len() - 1].0@ == nm);
            } else {
                let k = choose|k: int| 0 <= k < prefix.len() && (#[trigger] prefix[k]).0@ == nm;
                assert(fields[k].0@ == nm);
            }
        }
        assert forall|nm: Seq<char>| names.contains(nm) implies fields_model(
            fields,
        ).dom().contains(nm) by {
            let k = choose|k: int| 0 <= k < fields.len() && (#[trigger] fields[k]).0@ == nm;
            if k < fields.len() - 1 {
                assert(prefix[k].0@ == nm);
            }
        }
        if fields_unique(fields) {
            assert(fields_unique(prefix));
            assert(!fields_model(prefix).dom().contains(last.0@)) by {
                if fields_model(prefix).dom().contains(last.0@) {
                    let k = choose|k: int|
                        0 <= k < prefix.len() && (#[trigger] prefix[k]).0@ == last.0@;
                    assert(fields[k].0@ == fields[fields.len() - 1].0@);
                }
            }
            vstd::set::axiom_set_insert_len(fields_model(prefix).dom(), last.0@);
            assert forall|k: int| 0 <= k < fields.len() implies fields_model(fields)[(
            #[trigger] fields[k]).0@] == fields[k].1@ by {
                if k < fields.len() - 1 {
                    assert(prefix[k].0@ == fields[k].0@ && prefix[k].1 == fields[k].1);
                    assert(fields[k].0@ != last.0@);
                }
            }
        }
    }
}

/// Depth of a parsed value: how many levels of dynamic views reading the
/// loaded record back will descend through. Arrays add a level; object
/// fields and enum payloads are read at the same level.
pub open spec fn sv_depth(sv: SchemaValue) -> nat
    decreases sv,
{
    match sv {
        SchemaValue::Object(fields) => fields_depth(fields@),
        SchemaValue::Array(items) => 1 + items_depth(items@),
        SchemaValue::EnumVariant(_, payload) => sv_depth(*payload),
        _ => 0,
    }
}

/// Largest depth among an object's field values.
pub open spec fn fields_depth(fields: Seq<(String, SchemaValue)>) -> nat
    decreases fields,
{
    if fields.len() == 0 {
        0
    } else {
        let dl = sv_depth(fields.last().1);
        let dr = fields_depth(fields.drop_last());
        if dl > dr {
            dl
        } else {
            dr
        }
    }
}

/// Largest depth among an array's members.
pub open spec fn items_depth(items: Seq<SchemaValue>) -> nat
    decreases items,
{
    if items.len() == 0 {
        0
    } else {
        let dl = sv_depth(items.last());
        let dr = items_depth(items.drop_last());
        if dl > dr {
            dl
        } else {
            dr
        }
    }
}

/// Every field value of an object is at most as deep as the object's
/// field list, and every member at most as deep as its array.
pub proof fn lemma_depth_bounds(fields: Seq<(String, SchemaValue)>, items: Seq<SchemaValue>)
    ensures
        forall|k: int| 0 <= k < fields.len() ==> sv_depth((#[trigger] fields[k]).1)
            <= fields_depth(fields),
        forall|k: int| 0 <= k < items.len() ==> sv_depth(#[trigger] items[k]) <= items_depth(
            items,
        ),
    decreases fields.len() + items.len(),
{
    if fields.len() > 0 {
        lemma_depth_bounds(fields.drop_last(), items);
        assert(forall|k: int|
            0 <= k < fields.len() - 1 ==> fields[k] == fields.drop_last()[k]);
    } else if items.len() > 0 {
        lemma_depth_bounds(fields, items.drop_last());
        assert(forall|k: int| 0 <= k < items.len() - 1 ==> items[k] == items.drop_last()[k]);
    }
}

/// Whether an object's field list holds an entry of the given name.
pub open spec fn has_field(fields: Seq<(String, SchemaValue)>, name: Seq<char>) -> bool {
    exists|k: int| 0 <= k < fields.len() && (#[trigger] fields[k]).0@ == name
}

/// The parsed value of an entry of the given name (any of them; with
/// unique names, the one).
pub open spec fn field_value(fields: Seq<(String, SchemaValue)>, name: Seq<char>) -> SchemaValue {
    let k = choose|k: int| 0 <= k < fields.len() && (#[trigger] fields[k]).0@ == name;
    fields[k].1
}

/// A field's parsed value, or `Null` when the object lacks the field:
/// what the sizing pass visits for a missing-but-tolerated field.
pub open spec fn field_or_null(m: Map<Seq<char>, Val>, name: Seq<char>) -> Val {
    if m.contains_key(name) {
        m[name]
    } else {
        Val::Null
    }
}

/// Compares a string against a literal.
pub(crate) fn string_is(s: &String, lit: &str) -> (r: bool)
    ensures
        r == (s@ == lit@),
{
    let tmp = lit.to_owned();
    tmp == *s
}

/// Looks a field up by name in an object's field list.
pub fn object_lookup<'a>(fields: &'a Vec<(String, SchemaValue)>, name: &str) -> (r: Option<
    &'a SchemaValue,
>)
    requires
        fields_unique(fields@),
    ensures
        match r {
            Some(sv) => fields_model(fields@).contains_key(name@) && fields_model(fields@)[name@]
                == (*sv)@ && has_field(fields@, name@) && *sv == field_value(fields@, name@)
                && exists|k: int| 0 <= k < fields@.len() && (#[trigger] fields@[k]).1 == *sv,
            None => !fields_model(fields@).contains_key(name@) && !has_field(fields@, name@),
        },
{
    proof {
        lemma_fields_model(fields@);
    }
    let n = fields.len();
    let mut k: usize = 0;
    while k < n
        invariant
            k <= n,
            n == fields@.len(),
            fields_unique(fields@),
            forall|m: int| 0 <= m < k ==> (#[trigger] fields@[m]).0@ != name@,
        decreases n - k,
    {
        if string_is(&fields[k].0, name) {
            proof {
                lemma_fields_model(fields@);
                let kc = choose|kc: int|
                    0 <= kc < fields@.len() && (#[trigger] fields@[kc]).0@ == name@;
                assert(kc == k as int);
            }
            return Some(&fields[k].1);
        }
        k = k + 1;
    }
    proof {
        if fields_model(fields@).contains_key(name@) {
            let m = choose|m: int| 0 <= m < fields@.len() && (#[trigger] fields@[m]).0@ == name@;
            assert(false);
        }
    }
    None
}

} // verus!
