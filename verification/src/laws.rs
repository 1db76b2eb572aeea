//! Laws of the definition pipeline, stated and proved once from the
//! conformance contracts.

use vstd::prelude::*;

use crate::layout::Layout;
use crate::model::Val;
use crate::parse::spec_parse_object_items;
use crate::records::{DataType, InnerData};
use crate::schema::Schematize;
use crate::schema_array::SchemaArray;
use crate::tokens::{Symbol, Tok};
use crate::value::{SchemaError, SchemaValue};

verus! {

/// Tokenizer tolerance, at the grammar level: commas between an object's
/// members are skipped, so a member list parses the same from a comma as
/// from just past it. In particular a member list with commas between its
/// members, or with a trailing comma before the closing brace, parses to
/// the same object as one without them.
pub proof fn lemma_comma_tolerance(ts: Seq<Tok>, i: nat, acc: Map<Seq<char>, Val>)
    requires
        i < ts.len(),
        ts[i as int] == Tok::Punctuation(Symbol::Comma),
    ensures
        spec_parse_object_items(ts, i, acc) == spec_parse_object_items(ts, (i + 1) as nat, acc),
{
}

/// Round trip at the value level: the two passes meet in `val_of`.
/// `deserialize` ensures the loaded record reads back (over the arena as
/// written) as exactly the model the writing pass bound — `loaded`, the
/// parsed value itself save that a payload handed to a bare enum variant
/// is dropped — and `serialize` returns exactly that reading. Any record
/// produced by the one and rendered by the other therefore yields the
/// bound model back, field by field.
pub proof fn lemma_value_round_trip<T: Schematize>(
    x: T,
    arena: Seq<u8>,
    d: nat,
    sv: SchemaValue,
    out: SchemaValue,
)
    requires
        x.val_of(arena, d) == T::loaded(sv),
        out@ == x.val_of(arena, d),
    ensures
        out@ == T::loaded(sv),
{
}

/// Idempotence of sizing: two sizing passes over the same parsed tree and
/// the same base layout report the same total layout and the same offset
/// table, entry for entry. `build_layout` ensures each run's outcome is
/// exactly `spec_layout` of the tree, so any two runs agree.
pub proof fn lemma_sizing_idempotent<T: Schematize>(
    v: Val,
    l: Layout,
    first: Layout,
    first_offsets: Seq<usize>,
    second: Layout,
    second_offsets: Seq<usize>,
)
    requires
        T::spec_layout(v, l) == Some((first, first_offsets)),
        T::spec_layout(v, l) == Some((second, second_offsets)),
    ensures
        first == second,
        first_offsets == second_offsets,
{
}

/// The offset-table lockstep: the sizing pass appends exactly one table
/// entry per dynamic field of the tree, and the writing pass (by the
/// contract of `deserialize`) consumes exactly one entry per dynamic
/// field; the number of writing-pass visits therefore equals the length
/// of the table the sizing pass built.
pub proof fn lemma_offset_table_lockstep<T: Schematize>(v: Val, l: Layout)
    requires
        l.wf(),
        T::spec_layout(v, l) is Some,
    ensures
        T::spec_layout(v, l).unwrap().1.len() == T::dyn_count(v),
{
    T::layout_facts(v, l);
}

/// Empty containers: an empty parsed array bound to a dynamic array field
/// is accepted, extends the layout by nothing, appends no offset-table
/// entry, and the zero-length default view it deserializes to stands for
/// the empty array whatever the arena holds.
pub proof fn lemma_empty_array_consumes_nothing<T: Schematize>(l: Layout, arena: Seq<u8>, d: nat)
    ensures
        SchemaArray::<T>::verdict(Val::Array(Seq::empty())) is None,
        SchemaArray::<T>::spec_layout(Val::Array(Seq::empty()), l) == Some(
            (l, Seq::<usize>::empty()),
        ),
        SchemaArray::<T>::dyn_count(Val::Array(Seq::empty())) == 0,
        SchemaArray::<T>::spec_default().val_of(arena, d) == Val::Array(Seq::<Val>::empty()),
{
}

/// Structural strictness, both directions, for a record declaring the
/// fields `flag` and `type_enum`: a missing declared field is rejected as
/// `MissingField`, and an object with both declared fields but any extra
/// one is rejected as `UnknownIdentifier`. The contract of `deserialize`
/// reports exactly this verdict.
pub proof fn lemma_object_strictness(m: Map<Seq<char>, Val>)
    requires
        m.dom().finite(),
    ensures
        !m.contains_key("flag"@) ==> <InnerData as Schematize>::verdict(Val::Object(m)) == Some(
            SchemaError::MissingField,
        ),
        m.contains_key("flag"@) && !m.contains_key("type_enum"@)
            ==> <InnerData as Schematize>::verdict(Val::Object(m)) == Some(
            SchemaError::MissingField,
        ),
        m.contains_key("flag"@) && m.contains_key("type_enum"@) && m.dom().len() > 2
            ==> <InnerData as Schematize>::verdict(Val::Object(m)) == Some(
            SchemaError::UnknownIdentifier,
        ),
{
    if m.contains_key("flag"@) && m.contains_key("type_enum"@) && m.dom().len() > 2 {
        assert(<InnerData as Schematize>::verdict(Val::Object(m)) == Some(
            SchemaError::UnknownIdentifier,
        ));
    }
}

/// Bounds checking: an integer literal bound to an 8-bit unsigned field
/// is accepted exactly when it fits the width, and rejected as
/// `NumberOutOfBounds` otherwise. The contract of `deserialize` reports
/// exactly this verdict, and on success the field holds exactly the
/// literal's value.
pub proof fn lemma_integer_bounds(n: int)
    ensures
        <u8 as Schematize>::verdict(Val::Integer(n)) == (if 0 <= n <= u8::MAX as int {
            None::<SchemaError>
        } else {
            Some(SchemaError::NumberOutOfBounds)
        }),
{
}

/// Enum fidelity: binding an enum variant tag validates the tag against
/// the type's known variants — a bare known tag is accepted, an unknown
/// tag is rejected as `UnknownIdentifier`; the contract of `deserialize`
/// reports exactly this verdict and yields exactly the named variant.
pub proof fn lemma_enum_fidelity(name: Seq<char>, payload: Val)
    ensures
        name == "Primary"@ || name == "Secondary"@ ==> <DataType as Schematize>::verdict(
            Val::EnumVariant(name, Box::new(payload)),
        ) is None,
        name != "Primary"@ && name != "Secondary"@ && name != "Tertiary"@
            ==> <DataType as Schematize>::verdict(Val::EnumVariant(name, Box::new(payload)))
            == Some(SchemaError::UnknownIdentifier),
{
}

} // verus!
