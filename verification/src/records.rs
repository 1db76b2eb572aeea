//! The storable record types of the demo definition format, with their
//! hand-written schema conformance. Producing such implementations by a
//! build-time generator is a concern outside this runtime core; what the
//! core requires is only that each storable type traverses its fields in
//! one fixed, self-consistent order, which these implementations do.

use vstd::prelude::*;

use crate::block::BlockHandle;
use crate::layout::{Layout, LayoutError};
use crate::model::Val;
use crate::schema::{next_bound, DeserializeContext, Schematize};
use crate::schema_array::SchemaArray;
use crate::schema_string::SchemaString;
use crate::value::{
    field_or_null, field_value, fields_depth, fields_model, fields_unique, has_field,
    lemma_depth_bounds, lemma_fields_model, object_lookup, string_is, sv_depth, sv_wf, val_model,
    SchemaError, SchemaResult, SchemaValue,
};

verus! {

/// The kind tag of a demo record: two bare variants and one carrying a
/// payload record.
pub enum DataType {
    /// The first, default variant.
    Primary,
    /// The second variant.
    Secondary,
    /// A variant carrying one payload record.
    Tertiary(StringWrapper),
}

impl Schematize for DataType {
    open spec fn model_size() -> nat {
        24
    }

    open spec fn model_align() -> nat {
        8
    }

    open spec fn spec_default() -> DataType {
        DataType::Primary
    }

    open spec fn inv(self) -> bool {
        match self {
            DataType::Tertiary(payload) => payload.inv(),
            _ => true,
        }
    }

    open spec fn decode(bytes: Seq<u8>) -> DataType {
        if bytes[0] == 0 {
            DataType::Primary
        } else if bytes[0] == 1 {
            DataType::Secondary
        } else {
            DataType::Tertiary(<StringWrapper as Schematize>::decode(bytes.subrange(8, 24)))
        }
    }

    open spec fn verdict(v: Val) -> Option<SchemaError> {
        match v {
            Val::EnumVariant(name, payload) => if name == "Primary"@ {
                None
            } else if name == "Secondary"@ {
                None
            } else if name == "Tertiary"@ {
                <StringWrapper as Schematize>::verdict(*payload)
            } else {
                Some(SchemaError::UnknownIdentifier)
            },
            _ => Some(SchemaError::WrongSchemaValue),
        }
    }

    open spec fn dyn_count(v: Val) -> nat {
        match v {
            Val::EnumVariant(name, payload) => if name == "Tertiary"@ {
                <StringWrapper as Schematize>::dyn_count(*payload)
            } else {
                0
            },
            _ => 0,
        }
    }

    open spec fn spec_layout(v: Val, l: Layout) -> Option<(Layout, Seq<usize>)> {
        match v {
            Val::EnumVariant(name, payload) => if name == "Tertiary"@ {
                <StringWrapper as Schematize>::spec_layout(*payload, l)
            } else {
                // a bare variant, or an unknown tag: no-op
                Some((l, Seq::empty()))
            },
            _ => Some((l, Seq::empty())),
        }
    }

    open spec fn table_ok(v: Val, offsets: Seq<usize>, idx: nat, len: nat) -> bool {
        match v {
            Val::EnumVariant(name, payload) => if name == "Tertiary"@ {
                <StringWrapper as Schematize>::table_ok(*payload, offsets, idx, len)
            } else {
                idx <= offsets.len()
            },
            _ => idx <= offsets.len(),
        }
    }

    open spec fn val_of(self, arena: Seq<u8>, d: nat) -> Val {
        match self {
            DataType::Primary => Val::EnumVariant("Primary"@, Box::new(Val::Null)),
            DataType::Secondary => Val::EnumVariant("Secondary"@, Box::new(Val::Null)),
            DataType::Tertiary(payload) => Val::EnumVariant(
                "Tertiary"@,
                Box::new(payload.val_of(arena, d)),
            ),
        }
    }

    open spec fn loaded(sv: SchemaValue) -> Val
        decreases sv,
    {
        match sv {
            SchemaValue::EnumVariant(name, payload) => if name@ == "Tertiary"@ {
                Val::EnumVariant(
                    "Tertiary"@,
                    Box::new(<StringWrapper as Schematize>::loaded(*payload)),
                )
            } else {
                // a bare variant: whatever payload came along is dropped
                Val::EnumVariant(name@, Box::new(Val::Null))
            },
            _ => Val::Null,
        }
    }

    proof fn layout_properties() {
        <StringWrapper as Schematize>::layout_properties();
    }

    proof fn layout_facts(v: Val, l: Layout) {
        match v {
            Val::EnumVariant(name, payload) => {
                if name == "Tertiary"@ {
                    <StringWrapper as Schematize>::layout_facts(*payload, l);
                }
            },
            _ => {},
        }
    }

    proof fn layout_fits(v: Val, l: Layout, offsets: Seq<usize>, idx: nat, len: nat) {
        match v {
            Val::EnumVariant(name, payload) => {
                if name == "Tertiary"@ {
                    <StringWrapper as Schematize>::layout_fits(*payload, l, offsets, idx, len);
                }
            },
            _ => {},
        }
    }

    fn schema_size() -> usize {
        24
    }

    fn schema_align() -> usize {
        8
    }

    fn schema_default() -> DataType {
        DataType::Primary
    }

    fn store(&self, block: &mut BlockHandle, off: usize) {
        let total = block.len();
        match self {
            DataType::Primary => {
                block.write_byte(off, 0);
                proof {
                    let win = final(block)@.subrange(off as int, off + 24);
                    assert(win[0] == 0u8);
                }
            },
            DataType::Secondary => {
                block.write_byte(off, 1);
                proof {
                    let win = final(block)@.subrange(off as int, off + 24);
                    assert(win[0] == 1u8);
                }
            },
            DataType::Tertiary(payload) => {
                block.write_byte(off, 2);
                let ghost b0 = block@;
                payload.store(block, off + 8);
                proof {
                    let win = final(block)@.subrange(off as int, off + 24);
                    assert(win[0] == 2u8);
                    assert(win.subrange(8, 24) =~= final(block)@.subrange(off + 8, off + 24));
                }
            },
        }
    }

    fn load(block: &BlockHandle, off: usize) -> (r: DataType) {
        let total = block.len();
        let tag = block.read_byte(off);
        if tag == 0 {
            DataType::Primary
        } else if tag == 1 {
            DataType::Secondary
        } else {
            let payload = <StringWrapper as Schematize>::load(block, off + 8);
            let r = DataType::Tertiary(payload);
            proof {
                let win = block@.subrange(off as int, off + 24);
                assert(win.subrange(8, 24) =~= block@.subrange(off + 8, off + 24));
            }
            r
        }
    }

    fn build_layout(v: &SchemaValue, layout: Layout, offsets: &mut Vec<usize>) -> (r: Result<
        Layout,
        LayoutError,
    >) {
        match v {
            SchemaValue::EnumVariant(name, payload) => {
                if string_is(name, "Tertiary") {
                    <StringWrapper as Schematize>::build_layout(&**payload, layout, offsets)
                } else {
                    // a bare variant, or an unknown tag: no-op
                    proof {
                        assert(final(offsets)@.skip(old(offsets)@.len() as int) =~= Seq::<
                            usize,
                        >::empty());
                    }
                    Ok(layout)
                }
            },
            _ => {
                // mismatched value kind: no-op, validation happens while writing
                proof {
                    assert(final(offsets)@.skip(old(offsets)@.len() as int) =~= Seq::<
                        usize,
                    >::empty());
                }
                Ok(layout)
            },
        }
    }

    fn deserialize(v: &SchemaValue, context: &mut DeserializeContext) -> (r: SchemaResult<
        DataType,
    >)
        ensures
            !(*v matches SchemaValue::EnumVariant(_, _)) ==> *final(context) == *old(context),
            match r {
                Ok(x) => v@ matches Val::EnumVariant(name, _) ==> ((name == "Primary"@ ==> x
                    == DataType::Primary) && (name == "Secondary"@ ==> x == DataType::Secondary)),
                _ => true,
            },
    {
        match v {
            SchemaValue::EnumVariant(name, payload) => {
                proof {
                    reveal_strlit("Primary");
                    reveal_strlit("Secondary");
                    reveal_strlit("Tertiary");
                    assert("Primary"@.len() == 7);
                    assert("Secondary"@.len() == 9);
                    assert("Tertiary"@.len() == 8);
                    assert("Primary"@ != "Tertiary"@);
                    assert("Secondary"@ != "Tertiary"@);
                }
                if string_is(name, "Primary") {
                    let result = DataType::Primary;
                    proof {
                        assert forall|other: Seq<u8>, d: nat|
                            true implies #[trigger] result.val_of(other, d) == Self::loaded(
                            *v,
                        ) by {}
                    }
                    Ok(result)
                } else if string_is(name, "Secondary") {
                    let result = DataType::Secondary;
                    proof {
                        assert forall|other: Seq<u8>, d: nat|
                            true implies #[trigger] result.val_of(other, d) == Self::loaded(
                            *v,
                        ) by {}
                    }
                    Ok(result)
                } else if string_is(name, "Tertiary") {
                    match <StringWrapper as Schematize>::deserialize(&**payload, context) {
                        Ok(x) => {
                            let result = DataType::Tertiary(x);
                            proof {
                                assert(sv_depth(*v) == sv_depth(**payload));
                                assert forall|other: Seq<u8>, d: nat|
                                    (other.len() == context.block@.len() && d >= sv_depth(*v) && (
                                    forall|m: int|
                                        next_bound(
                                            old(context).offsets@,
                                            old(context).offset_index as nat,
                                            old(context).block@.len() as nat,
                                        ) <= m < next_bound(
                                            old(context).offsets@,
                                            context.offset_index as nat,
                                            old(context).block@.len() as nat,
                                        ) ==> other[m] == context.block@[m])) implies
                                    #[trigger] result.val_of(other, d) == Self::loaded(*v) by {
                                    assert(x.val_of(other, d) == <StringWrapper as Schematize>::loaded(
                                        **payload,
                                    ));
                                }
                            }
                            Ok(result)
                        },
                        Err(e) => Err(e),
                    }
                } else {
                    Err(SchemaError::UnknownIdentifier)
                }
            },
            _ => Err(SchemaError::WrongSchemaValue),
        }
    }

    fn serialize(&self, block: &BlockHandle, fuel: u64) -> (r: SchemaValue)
        decreases fuel, 1int, self,
    {
        match self {
            DataType::Primary => {
                let none_box = Box::new(SchemaValue::Null);
                proof {
                    assert(*none_box == SchemaValue::Null);
                    assert(sv_wf(SchemaValue::Null));
                    assert(val_model(SchemaValue::Null) == Val::Null);
                }
                let r = SchemaValue::EnumVariant("Primary".to_owned(), none_box);
                proof {
                    assert(r@ == Val::EnumVariant("Primary"@, Box::new(Val::Null)));
                    assert(sv_wf(r));
                }
                r
            },
            DataType::Secondary => {
                let none_box = Box::new(SchemaValue::Null);
                proof {
                    assert(*none_box == SchemaValue::Null);
                    assert(sv_wf(SchemaValue::Null));
                    assert(val_model(SchemaValue::Null) == Val::Null);
                }
                let r = SchemaValue::EnumVariant("Secondary".to_owned(), none_box);
                proof {
                    assert(r@ == Val::EnumVariant("Secondary"@, Box::new(Val::Null)));
                    assert(sv_wf(r));
                }
                r
            },
            DataType::Tertiary(payload) => {
                let inner = payload.serialize(block, fuel);
                let inner_box = Box::new(inner);
                let ghost inner_model = (*inner_box)@;
                let r = SchemaValue::EnumVariant("Tertiary".to_owned(), inner_box);
                proof {
                    assert(r@ == Val::EnumVariant("Tertiary"@, Box::new(inner_model)));
                }
                r
            },
        }
    }
}





/// A record holding one arena string.
pub struct Wrapper {
    /// The `s` field.
    pub s: SchemaString,
}

impl Schematize for Wrapper {
    open spec fn model_size() -> nat {
        16
    }

    open spec fn model_align() -> nat {
        8
    }

    open spec fn spec_default() -> Wrapper {
        Wrapper { s: <SchemaString as Schematize>::spec_default() }
    }

    open spec fn inv(self) -> bool {
        self.s.inv()
    }

    open spec fn decode(bytes: Seq<u8>) -> Wrapper {
        Wrapper { s: <SchemaString as Schematize>::decode(bytes.subrange(0, 16)) }
    }

    open spec fn verdict(v: Val) -> Option<SchemaError> {
        match v {
            Val::Object(m) => {
                if !m.contains_key("s"@) {
                    Some(SchemaError::MissingField)
                } else if m.dom().len() != 1 {
                    Some(SchemaError::UnknownIdentifier)
                } else if <SchemaString as Schematize>::verdict(m["s"@]) is Some {
                    <SchemaString as Schematize>::verdict(m["s"@])
                } else {
                    None
                }
            },
            _ => Some(SchemaError::WrongSchemaValue),
        }
    }

    open spec fn dyn_count(v: Val) -> nat {
        match v {
            Val::Object(m) => <SchemaString as Schematize>::dyn_count(field_or_null(m, "s"@)),
            _ => 0,
        }
    }

    open spec fn spec_layout(v: Val, l: Layout) -> Option<(Layout, Seq<usize>)> {
        match v {
            Val::Object(m) => {
                let fv0 = field_or_null(m, "s"@);
                match <SchemaString as Schematize>::spec_layout(fv0, l) {
                    Some((l1, o1)) => {
                        Some((l1, o1))
                    },
                    None => None,
                }
            },
            _ => Some((l, Seq::empty())),
        }
    }

    open spec fn table_ok(v: Val, offsets: Seq<usize>, idx: nat, len: nat) -> bool {
        match v {
            Val::Object(m) => {
                let fv0 = field_or_null(m, "s"@);
                <SchemaString as Schematize>::table_ok(fv0, offsets, idx, len)
            },
            _ => idx <= offsets.len(),
        }
    }

    open spec fn val_of(self, arena: Seq<u8>, d: nat) -> Val {
        Val::Object(map!["s"@ => self.s.val_of(arena, d)])
    }

    open spec fn loaded(sv: SchemaValue) -> Val
        decreases sv,
    {
        match sv {
            SchemaValue::Object(fields) => Val::Object(
                map![
                    "s"@ => if has_field(fields@, "s"@) {
                        <SchemaString as Schematize>::loaded(field_value(fields@, "s"@))
                    } else {
                        Val::Null
                    },
                ],
            ),
            _ => Val::Null,
        }
    }

    proof fn layout_properties() {
        <SchemaString as Schematize>::layout_properties();
    }

    proof fn layout_facts(v: Val, l: Layout) {
        match v {
            Val::Object(m) => {
                let fv0 = field_or_null(m, "s"@);
                let (l1, o1) = <SchemaString as Schematize>::spec_layout(fv0, l).unwrap();
                <SchemaString as Schematize>::layout_facts(fv0, l);
            },
            _ => {},
        }
    }

    proof fn layout_fits(v: Val, l: Layout, offsets: Seq<usize>, idx: nat, len: nat) {
        match v {
            Val::Object(m) => {
                let fv0 = field_or_null(m, "s"@);
                let (l1, o1) = <SchemaString as Schematize>::spec_layout(fv0, l).unwrap();
                <SchemaString as Schematize>::layout_facts(fv0, l);
                assert(o1.len() > 0 ==> offsets[idx as int + (0)] == o1[0]) by {
                    if o1.len() > 0 {
                        assert(offsets.subrange(idx as int + (0), idx as int + (0) + o1.len() as int)[0] == offsets[idx as int + (0)]);
                    }
                }
                assert(next_bound(offsets, (idx + (o1.len() as int)) as nat, len) >= l1.size as int) by {
                    assert(idx + (o1.len() as int) == idx + (o1).len());
                }
                <SchemaString as Schematize>::layout_fits(fv0, l, offsets, (idx + (0)) as nat, len);
            },
            _ => {},
        }
    }

    fn schema_size() -> usize {
        16
    }

    fn schema_align() -> usize {
        8
    }

    fn schema_default() -> Wrapper {
        Wrapper { s: <SchemaString as Schematize>::schema_default() }
    }

    fn store(&self, block: &mut BlockHandle, off: usize) {
        let total = block.len();
        self.s.store(block, off);
        proof {
            let win = final(block)@.subrange(off as int, off + 16);
            assert(win.subrange(0, 16) =~= final(block)@.subrange(off + 0, off + 16));
            assert(Self::decode(win) == *self);
        }
    }

    fn load(block: &BlockHandle, off: usize) -> (r: Wrapper) {
        let total = block.len();
        let v0 = <SchemaString as Schematize>::load(block, off);
        let r = Wrapper { s: v0 };
        proof {
            let win = block@.subrange(off as int, off + 16);
            assert(win.subrange(0, 16) =~= block@.subrange(off + 0, off + 16));
            assert(Self::decode(win) == r);
        }
        r
    }

    fn build_layout(v: &SchemaValue, layout: Layout, offsets: &mut Vec<usize>) -> (r: Result<
        Layout,
        LayoutError,
    >) {
        match v {
            SchemaValue::Object(fields) => {
                proof {
                    lemma_fields_model(fields@);
                    assert(val_model(SchemaValue::Null) == Val::Null);
                }
                let ghost m = fields_model(fields@);
                let null_value = SchemaValue::Null;
                let mut running = layout;
                let ghost before0 = offsets@;
                let ghost prev_layout0 = running;
                let sub0 = match object_lookup(fields, "s") {
                    Some(sv) => sv,
                    None => &null_value,
                };
                proof {
                    assert(sub0@ == field_or_null(m, "s"@));
                    if sub0 != &null_value {
                        let k = choose|k: int| 0 <= k < fields@.len() && (#[trigger] fields@[k]).1 == *sub0;
                        assert(sv_wf(fields@[k].1));
                    } else {
                        assert(sv_wf(*sub0));
                    }
                }
                running = match <SchemaString as Schematize>::build_layout(sub0, running, offsets) {
                    Ok(next) => next,
                    Err(e) => {
                        return Err(e);
                    },
                };
                let ghost app0 = offsets@.skip(before0.len() as int);
                proof {
                    <SchemaString as Schematize>::layout_facts(sub0@, prev_layout0);
                }
                proof {
                    assert(final(offsets)@.skip(before0.len() as int) =~= app0);
                }
                Ok(running)
            },
            _ => {
                // mismatched value kind: no-op, validation happens while writing
                proof {
                    assert(final(offsets)@.skip(old(offsets)@.len() as int) =~= Seq::<usize>::empty());
                }
                Ok(layout)
            },
        }
    }

    #[verifier::rlimit(100)]
    fn deserialize(v: &SchemaValue, context: &mut DeserializeContext) -> (r: SchemaResult<Wrapper>)
        ensures
            !(*v matches SchemaValue::Object(_)) ==> *final(context) == *old(context),
    {
        let ghost offs = old(context).offsets@;
        let ghost lnn = old(context).block@.len() as nat;
        match v {
            SchemaValue::Object(fields) => {
                proof {
                    lemma_fields_model(fields@);
                    lemma_depth_bounds(fields@, Seq::empty());
                }
                let ghost blk0 = context.block@;
                let ghost idx0 = context.offset_index as nat;
                let entry0 = object_lookup(fields, "s");
                if entry0.is_none() {
                    return Err(SchemaError::MissingField);
                }
                if fields.len() != 1 {
                    return Err(SchemaError::UnknownIdentifier);
                }
                let sv0 = entry0.unwrap();
                proof {
                    let k = choose|k: int| 0 <= k < fields@.len() && (#[trigger] fields@[k]).1 == *sv0;
                    assert(sv_wf(fields@[k].1));
                }
                context.path.push(".s".to_owned());
                let val0 = match <SchemaString as Schematize>::deserialize(sv0, context) {
                    Ok(x) => x,
                    Err(e) => {
                        return Err(e);
                    },
                };
                context.path.pop();
                let ghost blk1 = context.block@;
                let ghost idx1 = context.offset_index as nat;
                proof {
                    assert(context.path@ =~= old(context).path@);
                    crate::schema::lemma_next_bound_mono(offs, idx0, idx1, lnn);
                }
                let result = Wrapper { s: val0 };
                proof {
                    crate::schema::lemma_next_bound_mono(offs, idx0, idx0, lnn);
                    assert(forall|m: int| 0 <= m < next_bound(offs, idx0, lnn) ==> #[trigger] blk1[m] == blk0[m]);
                    assert forall|other: Seq<u8>, d: nat|
                        (other.len() == context.block@.len() && d >= sv_depth(*v) && (
                        forall|m: int|
                            next_bound(offs, idx0, lnn) <= m < next_bound(offs, idx1, lnn)
                                ==> other[m] == context.block@[m])) implies
                        #[trigger] result.val_of(other, d) == Self::loaded(*v) by {
                        assert(forall|m: int| next_bound(offs, idx0, lnn) <= m < next_bound(offs, idx1, lnn) ==> other[m] == blk1[m]);
                        assert(sv_depth(*sv0) <= fields_depth(fields@)) by {
                            let k = choose|k: int| 0 <= k < fields@.len() && (#[trigger] fields@[k]).1 == *sv0;
                        }
                        assert(val0.val_of(other, d) == <SchemaString as Schematize>::loaded(*sv0));
                        assert(field_value(fields@, "s"@) == *sv0);
                        assert(result.val_of(other, d) == Val::Object(map!["s"@ => val0.val_of(other, d)]));
                        assert(Val::Object(map!["s"@ => val0.val_of(other, d)]) =~= Self::loaded(*v));
                    }
                }
                Ok(result)
            },
            _ => Err(SchemaError::WrongSchemaValue),
        }
    }

    fn serialize(&self, block: &BlockHandle, fuel: u64) -> (r: SchemaValue)
        decreases fuel, 1int, self,
    {
        let mut entries: Vec<(String, SchemaValue)> = Vec::new();
        let sv0 = self.s.serialize(block, fuel);
        entries.push(("s".to_owned(), sv0));
        let r = SchemaValue::Object(entries);
        proof {
            reveal_strlit("s");
            let ev = r->Object_0@;
            assert(ev.len() == 1);
            assert(ev.drop_last() =~= ev.subrange(0, 0));
            assert(ev.subrange(0, 0) =~= Seq::<(String, SchemaValue)>::empty());
            assert(ev[0].1 == sv0);
            assert(ev[0].0@ == "s"@);
            assert(fields_model(ev) == fields_model(ev.drop_last()).insert(ev[0].0@, val_model(ev[0].1)));
            assert(fields_model(ev.subrange(0, 0)) == Map::<Seq<char>, Val>::empty());
            assert(fields_model(r->Object_0@) =~= map!["s"@ => self.s.val_of(block@, fuel as nat)]);
            assert("s"@.len() == 1);
            assert forall|k1: int, k2: int| 0 <= k1 < k2 < ev.len() implies (
            #[trigger] ev[k1]).0@ != (#[trigger] ev[k2]).0@ by {
                assert(ev[0].0@ == "s"@);
            }
            assert(fields_unique(ev));
            assert(sv_wf(r));
        }
        r
    }
}

/// A record holding a dynamic array of string wrappers.
pub struct StringWrapper {
    /// The `string` field.
    pub string: SchemaArray<Wrapper>,
}

impl Schematize for StringWrapper {
    open spec fn model_size() -> nat {
        16
    }

    open spec fn model_align() -> nat {
        8
    }

    open spec fn spec_default() -> StringWrapper {
        StringWrapper { string: <SchemaArray<Wrapper> as Schematize>::spec_default() }
    }

    open spec fn inv(self) -> bool {
        self.string.inv()
    }

    open spec fn decode(bytes: Seq<u8>) -> StringWrapper {
        StringWrapper { string: <SchemaArray<Wrapper> as Schematize>::decode(bytes.subrange(0, 16)) }
    }

    open spec fn verdict(v: Val) -> Option<SchemaError> {
        match v {
            Val::Object(m) => {
                if !m.contains_key("string"@) {
                    Some(SchemaError::MissingField)
                } else if m.dom().len() != 1 {
                    Some(SchemaError::UnknownIdentifier)
                } else if <SchemaArray<Wrapper> as Schematize>::verdict(m["string"@]) is Some {
                    <SchemaArray<Wrapper> as Schematize>::verdict(m["string"@])
                } else {
                    None
                }
            },
            _ => Some(SchemaError::WrongSchemaValue),
        }
    }

    open spec fn dyn_count(v: Val) -> nat {
        match v {
            Val::Object(m) => <SchemaArray<Wrapper> as Schematize>::dyn_count(field_or_null(m, "string"@)),
            _ => 0,
        }
    }

    open spec fn spec_layout(v: Val, l: Layout) -> Option<(Layout, Seq<usize>)> {
        match v {
            Val::Object(m) => {
                let fv0 = field_or_null(m, "string"@);
                match <SchemaArray<Wrapper> as Schematize>::spec_layout(fv0, l) {
                    Some((l1, o1)) => {
                        Some((l1, o1))
                    },
                    None => None,
                }
            },
            _ => Some((l, Seq::empty())),
        }
    }

    open spec fn table_ok(v: Val, offsets: Seq<usize>, idx: nat, len: nat) -> bool {
        match v {
            Val::Object(m) => {
                let fv0 = field_or_null(m, "string"@);
                <SchemaArray<Wrapper> as Schematize>::table_ok(fv0, offsets, idx, len)
            },
            _ => idx <= offsets.len(),
        }
    }

    open spec fn val_of(self, arena: Seq<u8>, d: nat) -> Val {
        Val::Object(map!["string"@ => self.string.val_of(arena, d)])
    }

    open spec fn loaded(sv: SchemaValue) -> Val
        decreases sv,
    {
        match sv {
            SchemaValue::Object(fields) => Val::Object(
                map![
                    "string"@ => if has_field(fields@, "string"@) {
                        <SchemaArray<Wrapper> as Schematize>::loaded(field_value(fields@, "string"@))
                    } else {
                        Val::Null
                    },
                ],
            ),
            _ => Val::Null,
        }
    }

    proof fn layout_properties() {
        <SchemaArray<Wrapper> as Schematize>::layout_properties();
    }

    proof fn layout_facts(v: Val, l: Layout) {
        match v {
            Val::Object(m) => {
                let fv0 = field_or_null(m, "string"@);
                let (l1, o1) = <SchemaArray<Wrapper> as Schematize>::spec_layout(fv0, l).unwrap();
                <SchemaArray<Wrapper> as Schematize>::layout_facts(fv0, l);
            },
            _ => {},
        }
    }

    proof fn layout_fits(v: Val, l: Layout, offsets: Seq<usize>, idx: nat, len: nat) {
        match v {
            Val::Object(m) => {
                let fv0 = field_or_null(m, "string"@);
                let (l1, o1) = <SchemaArray<Wrapper> as Schematize>::spec_layout(fv0, l).unwrap();
                <SchemaArray<Wrapper> as Schematize>::layout_facts(fv0, l);
                assert(o1.len() > 0 ==> offsets[idx as int + (0)] == o1[0]) by {
                    if o1.len() > 0 {
                        assert(offsets.subrange(idx as int + (0), idx as int + (0) + o1.len() as int)[0] == offsets[idx as int + (0)]);
                    }
                }
                assert(next_bound(offsets, (idx + (o1.len() as int)) as nat, len) >= l1.size as int) by {
                    assert(idx + (o1.len() as int) == idx + (o1).len());
                }
                <SchemaArray<Wrapper> as Schematize>::layout_fits(fv0, l, offsets, (idx + (0)) as nat, len);
            },
            _ => {},
        }
    }

    fn schema_size() -> usize {
        16
    }

    fn schema_align() -> usize {
        8
    }

    fn schema_default() -> StringWrapper {
        StringWrapper { string: <SchemaArray<Wrapper> as Schematize>::schema_default() }
    }

    fn store(&self, block: &mut BlockHandle, off: usize) {
        let total = block.len();
        self.string.store(block, off);
        proof {
            let win = final(block)@.subrange(off as int, off + 16);
            assert(win.subrange(0, 16) =~= final(block)@.subrange(off + 0, off + 16));
            assert(Self::decode(win) == *self);
        }
    }

    fn load(block: &BlockHandle, off: usize) -> (r: StringWrapper) {
        let total = block.len();
        let v0 = <SchemaArray<Wrapper> as Schematize>::load(block, off);
        let r = StringWrapper { string: v0 };
        proof {
            let win = block@.subrange(off as int, off + 16);
            assert(win.subrange(0, 16) =~= block@.subrange(off + 0, off + 16));
            assert(Self::decode(win) == r);
        }
        r
    }

    fn build_layout(v: &SchemaValue, layout: Layout, offsets: &mut Vec<usize>) -> (r: Result<
        Layout,
        LayoutError,
    >) {
        match v {
            SchemaValue::Object(fields) => {
                proof {
                    lemma_fields_model(fields@);
                    assert(val_model(SchemaValue::Null) == Val::Null);
                }
                let ghost m = fields_model(fields@);
                let null_value = SchemaValue::Null;
                let mut running = layout;
                let ghost before0 = offsets@;
                let ghost prev_layout0 = running;
                let sub0 = match object_lookup(fields, "string") {
                    Some(sv) => sv,
                    None => &null_value,
                };
                proof {
                    assert(sub0@ == field_or_null(m, "string"@));
                    if sub0 != &null_value {
                        let k = choose|k: int| 0 <= k < fields@.len() && (#[trigger] fields@[k]).1 == *sub0;
                        assert(sv_wf(fields@[k].1));
                    } else {
                        assert(sv_wf(*sub0));
                    }
                }
                running = match <SchemaArray<Wrapper> as Schematize>::build_layout(sub0, running, offsets) {
                    Ok(next) => next,
                    Err(e) => {
                        return Err(e);
                    },
                };
                let ghost app0 = offsets@.skip(before0.len() as int);
                proof {
                    <SchemaArray<Wrapper> as Schematize>::layout_facts(sub0@, prev_layout0);
                }
                proof {
                    assert(final(offsets)@.skip(before0.len() as int) =~= app0);
                }
                Ok(running)
            },
            _ => {
                // mismatched value kind: no-op, validation happens while writing
                proof {
                    assert(final(offsets)@.skip(old(offsets)@.len() as int) =~= Seq::<usize>::empty());
                }
                Ok(layout)
            },
        }
    }

    #[verifier::rlimit(100)]
    fn deserialize(v: &SchemaValue, context: &mut DeserializeContext) -> (r: SchemaResult<StringWrapper>)
        ensures
            !(*v matches SchemaValue::Object(_)) ==> *final(context) == *old(context),
    {
        let ghost offs = old(context).offsets@;
        let ghost lnn = old(context).block@.len() as nat;
        match v {
            SchemaValue::Object(fields) => {
                proof {
                    lemma_fields_model(fields@);
                    lemma_depth_bounds(fields@, Seq::empty());
                }
                let ghost blk0 = context.block@;
                let ghost idx0 = context.offset_index as nat;
                let entry0 = object_lookup(fields, "string");
                if entry0.is_none() {
                    return Err(SchemaError::MissingField);
                }
                if fields.len() != 1 {
                    return Err(SchemaError::UnknownIdentifier);
                }
                let sv0 = entry0.unwrap();
                proof {
                    let k = choose|k: int| 0 <= k < fields@.len() && (#[trigger] fields@[k]).1 == *sv0;
                    assert(sv_wf(fields@[k].1));
                }
                context.path.push(".string".to_owned());
                let val0 = match <SchemaArray<Wrapper> as Schematize>::deserialize(sv0, context) {
                    Ok(x) => x,
                    Err(e) => {
                        return Err(e);
                    },
                };
                context.path.pop();
                let ghost blk1 = context.block@;
                let ghost idx1 = context.offset_index as nat;
                proof {
                    assert(context.path@ =~= old(context).path@);
                    crate::schema::lemma_next_bound_mono(offs, idx0, idx1, lnn);
                }
                let result = StringWrapper { string: val0 };
                proof {
                    crate::schema::lemma_next_bound_mono(offs, idx0, idx0, lnn);
                    assert(forall|m: int| 0 <= m < next_bound(offs, idx0, lnn) ==> #[trigger] blk1[m] == blk0[m]);
                    assert forall|other: Seq<u8>, d: nat|
                        (other.len() == context.block@.len() && d >= sv_depth(*v) && (
                        forall|m: int|
                            next_bound(offs, idx0, lnn) <= m < next_bound(offs, idx1, lnn)
                                ==> other[m] == context.block@[m])) implies
                        #[trigger] result.val_of(other, d) == Self::loaded(*v) by {
                        assert(forall|m: int| next_bound(offs, idx0, lnn) <= m < next_bound(offs, idx1, lnn) ==> other[m] == blk1[m]);
                        assert(sv_depth(*sv0) <= fields_depth(fields@)) by {
                            let k = choose|k: int| 0 <= k < fields@.len() && (#[trigger] fields@[k]).1 == *sv0;
                        }
                        assert(val0.val_of(other, d) == <SchemaArray<Wrapper> as Schematize>::loaded(*sv0));
                        assert(field_value(fields@, "string"@) == *sv0);
                        assert(result.val_of(other, d) == Val::Object(map!["string"@ => val0.val_of(other, d)]));
                        assert(Val::Object(map!["string"@ => val0.val_of(other, d)]) =~= Self::loaded(*v));
                    }
                }
                Ok(result)
            },
            _ => Err(SchemaError::WrongSchemaValue),
        }
    }

    fn serialize(&self, block: &BlockHandle, fuel: u64) -> (r: SchemaValue)
        decreases fuel, 1int, self,
    {
        let mut entries: Vec<(String, SchemaValue)> = Vec::new();
        let sv0 = self.string.serialize(block, fuel);
        entries.push(("string".to_owned(), sv0));
        let r = SchemaValue::Object(entries);
        proof {
            reveal_strlit("string");
            let ev = r->Object_0@;
            assert(ev.len() == 1);
            assert(ev.drop_last() =~= ev.subrange(0, 0));
            assert(ev.subrange(0, 0) =~= Seq::<(String, SchemaValue)>::empty());
            assert(ev[0].1 == sv0);
            assert(ev[0].0@ == "string"@);
            assert(fields_model(ev) == fields_model(ev.drop_last()).insert(ev[0].0@, val_model(ev[0].1)));
            assert(fields_model(ev.subrange(0, 0)) == Map::<Seq<char>, Val>::empty());
            assert(fields_model(r->Object_0@) =~= map!["string"@ => self.string.val_of(block@, fuel as nat)]);
            assert("string"@.len() == 6);
            assert forall|k1: int, k2: int| 0 <= k1 < k2 < ev.len() implies (
            #[trigger] ev[k1]).0@ != (#[trigger] ev[k2]).0@ by {
                assert(ev[0].0@ == "string"@);
            }
            assert(fields_unique(ev));
            assert(sv_wf(r));
        }
        r
    }
}

/// A record holding one fixed-size integer triple.
pub struct Data {
    /// The `point` field.
    pub point: [i32; 3],
}

impl Schematize for Data {
    open spec fn model_size() -> nat {
        12
    }

    open spec fn model_align() -> nat {
        4
    }

    open spec fn spec_default() -> Data {
        Data { point: <[i32; 3] as Schematize>::spec_default() }
    }

    open spec fn inv(self) -> bool {
        self.point.inv()
    }

    open spec fn decode(bytes: Seq<u8>) -> Data {
        Data { point: <[i32; 3] as Schematize>::decode(bytes.subrange(0, 12)) }
    }

    open spec fn verdict(v: Val) -> Option<SchemaError> {
        match v {
            Val::Object(m) => {
                if !m.contains_key("point"@) {
                    Some(SchemaError::MissingField)
                } else if m.dom().len() != 1 {
                    Some(SchemaError::UnknownIdentifier)
                } else if <[i32; 3] as Schematize>::verdict(m["point"@]) is Some {
                    <[i32; 3] as Schematize>::verdict(m["point"@])
                } else {
                    None
                }
            },
            _ => Some(SchemaError::WrongSchemaValue),
        }
    }

    open spec fn dyn_count(v: Val) -> nat {
        match v {
            Val::Object(m) => <[i32; 3] as Schematize>::dyn_count(field_or_null(m, "point"@)),
            _ => 0,
        }
    }

    open spec fn spec_layout(v: Val, l: Layout) -> Option<(Layout, Seq<usize>)> {
        match v {
            Val::Object(m) => {
                let fv0 = field_or_null(m, "point"@);
                match <[i32; 3] as Schematize>::spec_layout(fv0, l) {
                    Some((l1, o1)) => {
                        Some((l1, o1))
                    },
                    None => None,
                }
            },
            _ => Some((l, Seq::empty())),
        }
    }

    open spec fn table_ok(v: Val, offsets: Seq<usize>, idx: nat, len: nat) -> bool {
        match v {
            Val::Object(m) => {
                let fv0 = field_or_null(m, "point"@);
                <[i32; 3] as Schematize>::table_ok(fv0, offsets, idx, len)
            },
            _ => idx <= offsets.len(),
        }
    }

    open spec fn val_of(self, arena: Seq<u8>, d: nat) -> Val {
        Val::Object(map!["point"@ => self.point.val_of(arena, d)])
    }

    open spec fn loaded(sv: SchemaValue) -> Val
        decreases sv,
    {
        match sv {
            SchemaValue::Object(fields) => Val::Object(
                map![
                    "point"@ => if has_field(fields@, "point"@) {
                        <[i32; 3] as Schematize>::loaded(field_value(fields@, "point"@))
                    } else {
                        Val::Null
                    },
                ],
            ),
            _ => Val::Null,
        }
    }

    proof fn layout_properties() {
        <[i32; 3] as Schematize>::layout_properties();
    }

    proof fn layout_facts(v: Val, l: Layout) {
        match v {
            Val::Object(m) => {
                let fv0 = field_or_null(m, "point"@);
                let (l1, o1) = <[i32; 3] as Schematize>::spec_layout(fv0, l).unwrap();
                <[i32; 3] as Schematize>::layout_facts(fv0, l);
            },
            _ => {},
        }
    }

    proof fn layout_fits(v: Val, l: Layout, offsets: Seq<usize>, idx: nat, len: nat) {
        match v {
            Val::Object(m) => {
                let fv0 = field_or_null(m, "point"@);
                let (l1, o1) = <[i32; 3] as Schematize>::spec_layout(fv0, l).unwrap();
                <[i32; 3] as Schematize>::layout_facts(fv0, l);
                assert(o1.len() > 0 ==> offsets[idx as int + (0)] == o1[0]) by {
                    if o1.len() > 0 {
                        assert(offsets.subrange(idx as int + (0), idx as int + (0) + o1.len() as int)[0] == offsets[idx as int + (0)]);
                    }
                }
                assert(next_bound(offsets, (idx + (o1.len() as int)) as nat, len) >= l1.size as int) by {
                    assert(idx + (o1.len() as int) == idx + (o1).len());
                }
                <[i32; 3] as Schematize>::layout_fits(fv0, l, offsets, (idx + (0)) as nat, len);
            },
            _ => {},
        }
    }

    fn schema_size() -> usize {
        12
    }

    fn schema_align() -> usize {
        4
    }

    fn schema_default() -> Data {
        Data { point: <[i32; 3] as Schematize>::schema_default() }
    }

    fn store(&self, block: &mut BlockHandle, off: usize) {
        let total = block.len();
        self.point.store(block, off);
        proof {
            let win = final(block)@.subrange(off as int, off + 12);
            assert(win.subrange(0, 12) =~= final(block)@.subrange(off + 0, off + 12));
            assert(Self::decode(win) == *self);
        }
    }

    fn load(block: &BlockHandle, off: usize) -> (r: Data) {
        let total = block.len();
        let v0 = <[i32; 3] as Schematize>::load(block, off);
        let r = Data { point: v0 };
        proof {
            let win = block@.subrange(off as int, off + 12);
            assert(win.subrange(0, 12) =~= block@.subrange(off + 0, off + 12));
            assert(Self::decode(win) == r);
        }
        r
    }

    fn build_layout(v: &SchemaValue, layout: Layout, offsets: &mut Vec<usize>) -> (r: Result<
        Layout,
        LayoutError,
    >) {
        match v {
            SchemaValue::Object(fields) => {
                proof {
                    lemma_fields_model(fields@);
                    assert(val_model(SchemaValue::Null) == Val::Null);
                }
                let ghost m = fields_model(fields@);
                let null_value = SchemaValue::Null;
                let mut running = layout;
                let ghost before0 = offsets@;
                let ghost prev_layout0 = running;
                let sub0 = match object_lookup(fields, "point") {
                    Some(sv) => sv,
                    None => &null_value,
                };
                proof {
                    assert(sub0@ == field_or_null(m, "point"@));
                    if sub0 != &null_value {
                        let k = choose|k: int| 0 <= k < fields@.len() && (#[trigger] fields@[k]).1 == *sub0;
                        assert(sv_wf(fields@[k].1));
                    } else {
                        assert(sv_wf(*sub0));
                    }
                }
                running = match <[i32; 3] as Schematize>::build_layout(sub0, running, offsets) {
                    Ok(next) => next,
                    Err(e) => {
                        return Err(e);
                    },
                };
                let ghost app0 = offsets@.skip(before0.len() as int);
                proof {
                    <[i32; 3] as Schematize>::layout_facts(sub0@, prev_layout0);
                }
                proof {
                    assert(final(offsets)@.skip(before0.len() as int) =~= app0);
                }
                Ok(running)
            },
            _ => {
                // mismatched value kind: no-op, validation happens while writing
                proof {
                    assert(final(offsets)@.skip(old(offsets)@.len() as int) =~= Seq::<usize>::empty());
                }
                Ok(layout)
            },
        }
    }

    #[verifier::rlimit(100)]
    fn deserialize(v: &SchemaValue, context: &mut DeserializeContext) -> (r: SchemaResult<Data>)
        ensures
            !(*v matches SchemaValue::Object(_)) ==> *final(context) == *old(context),
    {
        let ghost offs = old(context).offsets@;
        let ghost lnn = old(context).block@.len() as nat;
        match v {
            SchemaValue::Object(fields) => {
                proof {
                    lemma_fields_model(fields@);
                    lemma_depth_bounds(fields@, Seq::empty());
                }
                let ghost blk0 = context.block@;
                let ghost idx0 = context.offset_index as nat;
                let entry0 = object_lookup(fields, "point");
                if entry0.is_none() {
                    return Err(SchemaError::MissingField);
                }
                if fields.len() != 1 {
                    return Err(SchemaError::UnknownIdentifier);
                }
                let sv0 = entry0.unwrap();
                proof {
                    let k = choose|k: int| 0 <= k < fields@.len() && (#[trigger] fields@[k]).1 == *sv0;
                    assert(sv_wf(fields@[k].1));
                }
                context.path.push(".point".to_owned());
                let val0 = match <[i32; 3] as Schematize>::deserialize(sv0, context) {
                    Ok(x) => x,
                    Err(e) => {
                        return Err(e);
                    },
                };
                context.path.pop();
                let ghost blk1 = context.block@;
                let ghost idx1 = context.offset_index as nat;
                proof {
                    assert(context.path@ =~= old(context).path@);
                    crate::schema::lemma_next_bound_mono(offs, idx0, idx1, lnn);
                }
                let result = Data { point: val0 };
                proof {
                    crate::schema::lemma_next_bound_mono(offs, idx0, idx0, lnn);
                    assert(forall|m: int| 0 <= m < next_bound(offs, idx0, lnn) ==> #[trigger] blk1[m] == blk0[m]);
                    assert forall|other: Seq<u8>, d: nat|
                        (other.len() == context.block@.len() && d >= sv_depth(*v) && (
                        forall|m: int|
                            next_bound(offs, idx0, lnn) <= m < next_bound(offs, idx1, lnn)
                                ==> other[m] == context.block@[m])) implies
                        #[trigger] result.val_of(other, d) == Self::loaded(*v) by {
                        assert(forall|m: int| next_bound(offs, idx0, lnn) <= m < next_bound(offs, idx1, lnn) ==> other[m] == blk1[m]);
                        assert(sv_depth(*sv0) <= fields_depth(fields@)) by {
                            let k = choose|k: int| 0 <= k < fields@.len() && (#[trigger] fields@[k]).1 == *sv0;
                        }
                        assert(val0.val_of(other, d) == <[i32; 3] as Schematize>::loaded(*sv0));
                        assert(field_value(fields@, "point"@) == *sv0);
                        assert(result.val_of(other, d) == Val::Object(map!["point"@ => val0.val_of(other, d)]));
                        assert(Val::Object(map!["point"@ => val0.val_of(other, d)]) =~= Self::loaded(*v));
                    }
                }
                Ok(result)
            },
            _ => Err(SchemaError::WrongSchemaValue),
        }
    }

    fn serialize(&self, block: &BlockHandle, fuel: u64) -> (r: SchemaValue)
        decreases fuel, 1int, self,
    {
        let mut entries: Vec<(String, SchemaValue)> = Vec::new();
        let sv0 = self.point.serialize(block, fuel);
        entries.push(("point".to_owned(), sv0));
        let r = SchemaValue::Object(entries);
        proof {
            reveal_strlit("point");
            let ev = r->Object_0@;
            assert(ev.len() == 1);
            assert(ev.drop_last() =~= ev.subrange(0, 0));
            assert(ev.subrange(0, 0) =~= Seq::<(String, SchemaValue)>::empty());
            assert(ev[0].1 == sv0);
            assert(ev[0].0@ == "point"@);
            assert(fields_model(ev) == fields_model(ev.drop_last()).insert(ev[0].0@, val_model(ev[0].1)));
            assert(fields_model(ev.subrange(0, 0)) == Map::<Seq<char>, Val>::empty());
            assert(fields_model(r->Object_0@) =~= map!["point"@ => self.point.val_of(block@, fuel as nat)]);
            assert("point"@.len() == 5);
            assert forall|k1: int, k2: int| 0 <= k1 < k2 < ev.len() implies (
            #[trigger] ev[k1]).0@ != (#[trigger] ev[k2]).0@ by {
                assert(ev[0].0@ == "point"@);
            }
            assert(fields_unique(ev));
            assert(sv_wf(r));
        }
        r
    }
}

/// A record holding a flag and an enum field; its declared
/// default overrides the enum to the secondary variant.
pub struct InnerData {
    /// The `flag` field.
    pub flag: bool,
    /// The `type_enum` field.
    pub type_enum: DataType,
}

impl Schematize for InnerData {
    open spec fn model_size() -> nat {
        32
    }

    open spec fn model_align() -> nat {
        8
    }

    open spec fn spec_default() -> InnerData {
        InnerData { flag: <bool as Schematize>::spec_default(), type_enum: DataType::Secondary }
    }

    open spec fn inv(self) -> bool {
        self.flag.inv() && self.type_enum.inv()
    }

    open spec fn decode(bytes: Seq<u8>) -> InnerData {
        InnerData { flag: <bool as Schematize>::decode(bytes.subrange(0, 1)), type_enum: <DataType as Schematize>::decode(bytes.subrange(8, 32)) }
    }

    open spec fn verdict(v: Val) -> Option<SchemaError> {
        match v {
            Val::Object(m) => {
                if !m.contains_key("flag"@) {
                    Some(SchemaError::MissingField)
                } else if !m.contains_key("type_enum"@) {
                    Some(SchemaError::MissingField)
                } else if m.dom().len() != 2 {
                    Some(SchemaError::UnknownIdentifier)
                } else if <bool as Schematize>::verdict(m["flag"@]) is Some {
                    <bool as Schematize>::verdict(m["flag"@])
                } else if <DataType as Schematize>::verdict(m["type_enum"@]) is Some {
                    <DataType as Schematize>::verdict(m["type_enum"@])
                } else {
                    None
                }
            },
            _ => Some(SchemaError::WrongSchemaValue),
        }
    }

    open spec fn dyn_count(v: Val) -> nat {
        match v {
            Val::Object(m) => <bool as Schematize>::dyn_count(field_or_null(m, "flag"@)) + <DataType as Schematize>::dyn_count(field_or_null(m, "type_enum"@)),
            _ => 0,
        }
    }

    open spec fn spec_layout(v: Val, l: Layout) -> Option<(Layout, Seq<usize>)> {
        match v {
            Val::Object(m) => {
                let fv0 = field_or_null(m, "flag"@);
                match <bool as Schematize>::spec_layout(fv0, l) {
                    Some((l1, o1)) => {
                        let fv1 = field_or_null(m, "type_enum"@);
                        match <DataType as Schematize>::spec_layout(fv1, l1) {
                            Some((l2, o2)) => {
                                Some((l2, o1 + (o2)))
                            },
                            None => None,
                        }
                    },
                    None => None,
                }
            },
            _ => Some((l, Seq::empty())),
        }
    }

    open spec fn table_ok(v: Val, offsets: Seq<usize>, idx: nat, len: nat) -> bool {
        match v {
            Val::Object(m) => {
                let fv0 = field_or_null(m, "flag"@);
                let fv1 = field_or_null(m, "type_enum"@);
                <bool as Schematize>::table_ok(fv0, offsets, idx, len) && <DataType as Schematize>::table_ok(fv1, offsets, (idx + <bool as Schematize>::dyn_count(fv0)) as nat, len)
            },
            _ => idx <= offsets.len(),
        }
    }

    open spec fn val_of(self, arena: Seq<u8>, d: nat) -> Val {
        Val::Object(map!["flag"@ => self.flag.val_of(arena, d), "type_enum"@ => self.type_enum.val_of(arena, d)])
    }

    open spec fn loaded(sv: SchemaValue) -> Val
        decreases sv,
    {
        match sv {
            SchemaValue::Object(fields) => Val::Object(
                map![
                    "flag"@ => if has_field(fields@, "flag"@) {
                        <bool as Schematize>::loaded(field_value(fields@, "flag"@))
                    } else {
                        Val::Null
                    },
                    "type_enum"@ => if has_field(fields@, "type_enum"@) {
                        <DataType as Schematize>::loaded(field_value(fields@, "type_enum"@))
                    } else {
                        Val::Null
                    },
                ],
            ),
            _ => Val::Null,
        }
    }

    proof fn layout_properties() {
        <bool as Schematize>::layout_properties();
        <DataType as Schematize>::layout_properties();
    }

    proof fn layout_facts(v: Val, l: Layout) {
        match v {
            Val::Object(m) => {
                let fv0 = field_or_null(m, "flag"@);
                let (l1, o1) = <bool as Schematize>::spec_layout(fv0, l).unwrap();
                <bool as Schematize>::layout_facts(fv0, l);
                let fv1 = field_or_null(m, "type_enum"@);
                let (l2, o2) = <DataType as Schematize>::spec_layout(fv1, l1).unwrap();
                <DataType as Schematize>::layout_facts(fv1, l1);
                assert(crate::schema::run_bounded(o1, l.size as int, l2.size as int));
                assert(crate::schema::run_bounded(o2, l1.size as int, l2.size as int));
                crate::schema::lemma_run_concat(o1, o2, l.size as int, l1.size as int, l2.size as int);
                assert(crate::schema::run_bounded(o1 + (o2), l.size as int, l2.size as int));
            },
            _ => {},
        }
    }

    proof fn layout_fits(v: Val, l: Layout, offsets: Seq<usize>, idx: nat, len: nat) {
        match v {
            Val::Object(m) => {
                let fv0 = field_or_null(m, "flag"@);
                let (l1, o1) = <bool as Schematize>::spec_layout(fv0, l).unwrap();
                <bool as Schematize>::layout_facts(fv0, l);
                let fv1 = field_or_null(m, "type_enum"@);
                let (l2, o2) = <DataType as Schematize>::spec_layout(fv1, l1).unwrap();
                <DataType as Schematize>::layout_facts(fv1, l1);
                crate::schema::lemma_subrange_concat_split(offsets, idx as int + (0), o1, o2);
                assert(o1.len() > 0 ==> offsets[idx as int + (0)] == o1[0]) by {
                    if o1.len() > 0 {
                        assert(offsets.subrange(idx as int + (0), idx as int + (0) + o1.len() as int)[0] == offsets[idx as int + (0)]);
                    }
                }
                assert(o2.len() > 0 ==> offsets[idx as int + (o1.len() as int)] == o2[0]) by {
                    if o2.len() > 0 {
                        assert(offsets.subrange(idx as int + (o1.len() as int), idx as int + (o1.len() as int) + o2.len() as int)[0] == offsets[idx as int + (o1.len() as int)]);
                    }
                }
                assert(next_bound(offsets, (idx + (o1.len() as int)) as nat, len) >= l1.size as int) by {
                    if o2.len() > 0 {
                        assert(next_bound(offsets, (idx + (o1.len() as int)) as nat, len) == o2[0]);
                        assert(o2[0] >= l1.size);
                    } else {
                        assert(idx + (o1.len() as int + o2.len() as int) == idx + (o1 + (o2)).len());
                    }
                }
                <bool as Schematize>::layout_fits(fv0, l, offsets, (idx + (0)) as nat, len);
                assert(next_bound(offsets, (idx + (o1.len() as int + o2.len() as int)) as nat, len) >= l2.size as int) by {
                    assert(idx + (o1.len() as int + o2.len() as int) == idx + (o1 + (o2)).len());
                }
                <DataType as Schematize>::layout_fits(fv1, l1, offsets, (idx + (o1.len() as int)) as nat, len);
            },
            _ => {},
        }
    }

    fn schema_size() -> usize {
        32
    }

    fn schema_align() -> usize {
        8
    }

    fn schema_default() -> InnerData {
        InnerData { flag: <bool as Schematize>::schema_default(), type_enum: DataType::Secondary }
    }

    fn store(&self, block: &mut BlockHandle, off: usize) {
        let total = block.len();
        self.flag.store(block, off);
        let ghost b0 = block@;
        self.type_enum.store(block, off + 8);
        proof {
            let win = final(block)@.subrange(off as int, off + 32);
            assert(win.subrange(0, 1) =~= b0.subrange(off + 0, off + 1));
            assert(win.subrange(8, 32) =~= final(block)@.subrange(off + 8, off + 32));
            assert(Self::decode(win) == *self);
        }
    }

    fn load(block: &BlockHandle, off: usize) -> (r: InnerData) {
        let total = block.len();
        let v0 = <bool as Schematize>::load(block, off);
        let v1 = <DataType as Schematize>::load(block, off + 8);
        let r = InnerData { flag: v0, type_enum: v1 };
        proof {
            let win = block@.subrange(off as int, off + 32);
            assert(win.subrange(0, 1) =~= block@.subrange(off + 0, off + 1));
            assert(win.subrange(8, 32) =~= block@.subrange(off + 8, off + 32));
            assert(Self::decode(win) == r);
        }
        r
    }

    fn build_layout(v: &SchemaValue, layout: Layout, offsets: &mut Vec<usize>) -> (r: Result<
        Layout,
        LayoutError,
    >) {
        match v {
            SchemaValue::Object(fields) => {
                proof {
                    lemma_fields_model(fields@);
                    assert(val_model(SchemaValue::Null) == Val::Null);
                }
                let ghost m = fields_model(fields@);
                let null_value = SchemaValue::Null;
                let mut running = layout;
                let ghost before0 = offsets@;
                let ghost prev_layout0 = running;
                let sub0 = match object_lookup(fields, "flag") {
                    Some(sv) => sv,
                    None => &null_value,
                };
                proof {
                    assert(sub0@ == field_or_null(m, "flag"@));
                    if sub0 != &null_value {
                        let k = choose|k: int| 0 <= k < fields@.len() && (#[trigger] fields@[k]).1 == *sub0;
                        assert(sv_wf(fields@[k].1));
                    } else {
                        assert(sv_wf(*sub0));
                    }
                }
                running = match <bool as Schematize>::build_layout(sub0, running, offsets) {
                    Ok(next) => next,
                    Err(e) => {
                        return Err(e);
                    },
                };
                let ghost app0 = offsets@.skip(before0.len() as int);
                proof {
                    <bool as Schematize>::layout_facts(sub0@, prev_layout0);
                }
                let ghost before1 = offsets@;
                let ghost prev_layout1 = running;
                let sub1 = match object_lookup(fields, "type_enum") {
                    Some(sv) => sv,
                    None => &null_value,
                };
                proof {
                    assert(sub1@ == field_or_null(m, "type_enum"@));
                    if sub1 != &null_value {
                        let k = choose|k: int| 0 <= k < fields@.len() && (#[trigger] fields@[k]).1 == *sub1;
                        assert(sv_wf(fields@[k].1));
                    } else {
                        assert(sv_wf(*sub1));
                    }
                }
                running = match <DataType as Schematize>::build_layout(sub1, running, offsets) {
                    Ok(next) => next,
                    Err(e) => {
                        return Err(e);
                    },
                };
                let ghost app1 = offsets@.skip(before1.len() as int);
                proof {
                    <DataType as Schematize>::layout_facts(sub1@, prev_layout1);
                }
                proof {
                    assert(final(offsets)@.skip(before1.len() as int) =~= app1);
                    assert(final(offsets)@.subrange(before0.len() as int, before1.len() as int) =~= app0);
                    crate::schema::lemma_skip_concat(final(offsets)@, before0.len() as int, before1.len() as int);
                }
                Ok(running)
            },
            _ => {
                // mismatched value kind: no-op, validation happens while writing
                proof {
                    assert(final(offsets)@.skip(old(offsets)@.len() as int) =~= Seq::<usize>::empty());
                }
                Ok(layout)
            },
        }
    }

    #[verifier::rlimit(100)]
    fn deserialize(v: &SchemaValue, context: &mut DeserializeContext) -> (r: SchemaResult<InnerData>)
        ensures
            !(*v matches SchemaValue::Object(_)) ==> *final(context) == *old(context),
    {
        let ghost offs = old(context).offsets@;
        let ghost lnn = old(context).block@.len() as nat;
        match v {
            SchemaValue::Object(fields) => {
                proof {
                    lemma_fields_model(fields@);
                    lemma_depth_bounds(fields@, Seq::empty());
                }
                let ghost blk0 = context.block@;
                let ghost idx0 = context.offset_index as nat;
                let entry0 = object_lookup(fields, "flag");
                if entry0.is_none() {
                    return Err(SchemaError::MissingField);
                }
                let entry1 = object_lookup(fields, "type_enum");
                if entry1.is_none() {
                    return Err(SchemaError::MissingField);
                }
                if fields.len() != 2 {
                    return Err(SchemaError::UnknownIdentifier);
                }
                let sv0 = entry0.unwrap();
                proof {
                    let k = choose|k: int| 0 <= k < fields@.len() && (#[trigger] fields@[k]).1 == *sv0;
                    assert(sv_wf(fields@[k].1));
                }
                context.path.push(".flag".to_owned());
                let val0 = match <bool as Schematize>::deserialize(sv0, context) {
                    Ok(x) => x,
                    Err(e) => {
                        return Err(e);
                    },
                };
                context.path.pop();
                let ghost blk1 = context.block@;
                let ghost idx1 = context.offset_index as nat;
                proof {
                    assert(context.path@ =~= old(context).path@);
                    crate::schema::lemma_next_bound_mono(offs, idx0, idx1, lnn);
                }
                let sv1 = entry1.unwrap();
                proof {
                    let k = choose|k: int| 0 <= k < fields@.len() && (#[trigger] fields@[k]).1 == *sv1;
                    assert(sv_wf(fields@[k].1));
                }
                context.path.push(".type_enum".to_owned());
                let val1 = match <DataType as Schematize>::deserialize(sv1, context) {
                    Ok(x) => x,
                    Err(e) => {
                        return Err(e);
                    },
                };
                context.path.pop();
                let ghost blk2 = context.block@;
                let ghost idx2 = context.offset_index as nat;
                proof {
                    assert(context.path@ =~= old(context).path@);
                    crate::schema::lemma_next_bound_mono(offs, idx1, idx2, lnn);
                }
                let result = InnerData { flag: val0, type_enum: val1 };
                proof {
                    crate::schema::lemma_next_bound_mono(offs, idx0, idx0, lnn);
                    assert(forall|m: int| 0 <= m < next_bound(offs, idx0, lnn) ==> #[trigger] blk1[m] == blk0[m]);
                    crate::schema::lemma_next_bound_mono(offs, idx0, idx1, lnn);
                    assert(forall|m: int| 0 <= m < next_bound(offs, idx0, lnn) ==> #[trigger] blk2[m] == blk1[m]);
                    assert forall|other: Seq<u8>, d: nat|
                        (other.len() == context.block@.len() && d >= sv_depth(*v) && (
                        forall|m: int|
                            next_bound(offs, idx0, lnn) <= m < next_bound(offs, idx2, lnn)
                                ==> other[m] == context.block@[m])) implies
                        #[trigger] result.val_of(other, d) == Self::loaded(*v) by {
                        assert(forall|m: int| 0 <= m < next_bound(offs, idx1, lnn) ==> #[trigger] blk2[m] == blk1[m]);
                        assert(forall|m: int| next_bound(offs, idx0, lnn) <= m < next_bound(offs, idx1, lnn) ==> other[m] == blk1[m]);
                        assert(sv_depth(*sv0) <= fields_depth(fields@)) by {
                            let k = choose|k: int| 0 <= k < fields@.len() && (#[trigger] fields@[k]).1 == *sv0;
                        }
                        assert(val0.val_of(other, d) == <bool as Schematize>::loaded(*sv0));
                        assert(field_value(fields@, "flag"@) == *sv0);
                        assert(forall|m: int| next_bound(offs, idx1, lnn) <= m < next_bound(offs, idx2, lnn) ==> other[m] == blk2[m]);
                        assert(sv_depth(*sv1) <= fields_depth(fields@)) by {
                            let k = choose|k: int| 0 <= k < fields@.len() && (#[trigger] fields@[k]).1 == *sv1;
                        }
                        assert(val1.val_of(other, d) == <DataType as Schematize>::loaded(*sv1));
                        assert(field_value(fields@, "type_enum"@) == *sv1);
                        assert(result.val_of(other, d) == Val::Object(map!["flag"@ => val0.val_of(other, d), "type_enum"@ => val1.val_of(other, d)]));
                        assert(Val::Object(map!["flag"@ => val0.val_of(other, d), "type_enum"@ => val1.val_of(other, d)]) =~= Self::loaded(*v));
                    }
                }
                Ok(result)
            },
            _ => Err(SchemaError::WrongSchemaValue),
        }
    }

    fn serialize(&self, block: &BlockHandle, fuel: u64) -> (r: SchemaValue)
        decreases fuel, 1int, self,
    {
        let mut entries: Vec<(String, SchemaValue)> = Vec::new();
        let sv0 = self.flag.serialize(block, fuel);
        entries.push(("flag".to_owned(), sv0));
        let sv1 = self.type_enum.serialize(block, fuel);
        entries.push(("type_enum".to_owned(), sv1));
        let r = SchemaValue::Object(entries);
        proof {
            reveal_strlit("flag");
            reveal_strlit("type_enum");
            let ev = r->Object_0@;
            assert(ev.len() == 2);
            assert(ev.drop_last() =~= ev.subrange(0, 1));
            assert(ev.subrange(0, 1).drop_last() =~= ev.subrange(0, 0));
            assert(ev.subrange(0, 0) =~= Seq::<(String, SchemaValue)>::empty());
            assert(ev[0].1 == sv0);
            assert(ev[0].0@ == "flag"@);
            assert(ev[1].1 == sv1);
            assert(ev[1].0@ == "type_enum"@);
            assert(fields_model(ev) == fields_model(ev.drop_last()).insert(ev[1].0@, val_model(ev[1].1)));
            assert(ev.subrange(0, 1)[0] == ev[0]);
            assert(fields_model(ev.subrange(0, 1)) == fields_model(ev.subrange(0, 1).drop_last()).insert(ev[0].0@, val_model(ev[0].1)));
            assert(fields_model(ev.subrange(0, 0)) == Map::<Seq<char>, Val>::empty());
            assert(fields_model(r->Object_0@) =~= map!["flag"@ => self.flag.val_of(block@, fuel as nat), "type_enum"@ => self.type_enum.val_of(block@, fuel as nat)]);
            assert("flag"@.len() == 4);
            assert("type_enum"@.len() == 9);
            assert("flag"@ != "type_enum"@);
            assert forall|k1: int, k2: int| 0 <= k1 < k2 < ev.len() implies (
            #[trigger] ev[k1]).0@ != (#[trigger] ev[k2]).0@ by {
                assert(ev[0].0@ == "flag"@);
                assert(ev[1].0@ == "type_enum"@);
            }
            assert(fields_unique(ev));
            assert(sv_wf(r));
        }
        r
    }
}

/// The root record of the demo definition format: a string, a
/// nested record, and two doubly nested dynamic arrays.
pub struct ParserData {
    /// The `s` field.
    pub s: SchemaString,
    /// The `inner` field.
    pub inner: InnerData,
    /// The `point` field.
    pub point: SchemaArray<SchemaArray<SchemaString>>,
    /// The `inners` field.
    pub inners: SchemaArray<SchemaArray<InnerData>>,
}

impl Schematize for ParserData {
    open spec fn model_size() -> nat {
        80
    }

    open spec fn model_align() -> nat {
        8
    }

    open spec fn spec_default() -> ParserData {
        ParserData { s: <SchemaString as Schematize>::spec_default(), inner: <InnerData as Schematize>::spec_default(), point: <SchemaArray<SchemaArray<SchemaString>> as Schematize>::spec_default(), inners: <SchemaArray<SchemaArray<InnerData>> as Schematize>::spec_default() }
    }

    open spec fn inv(self) -> bool {
        self.s.inv() && self.inner.inv() && self.point.inv() && self.inners.inv()
    }

    open spec fn decode(bytes: Seq<u8>) -> ParserData {
        ParserData { s: <SchemaString as Schematize>::decode(bytes.subrange(0, 16)), inner: <InnerData as Schematize>::decode(bytes.subrange(16, 48)), point: <SchemaArray<SchemaArray<SchemaString>> as Schematize>::decode(bytes.subrange(48, 64)), inners: <SchemaArray<SchemaArray<InnerData>> as Schematize>::decode(bytes.subrange(64, 80)) }
    }

    open spec fn verdict(v: Val) -> Option<SchemaError> {
        match v {
            Val::Object(m) => {
                if !m.contains_key("s"@) {
                    Some(SchemaError::MissingField)
                } else if !m.contains_key("inner"@) {
                    Some(SchemaError::MissingField)
                } else if !m.contains_key("point"@) {
                    Some(SchemaError::MissingField)
                } else if !m.contains_key("inners"@) {
                    Some(SchemaError::MissingField)
                } else if m.dom().len() != 4 {
                    Some(SchemaError::UnknownIdentifier)
                } else if <SchemaString as Schematize>::verdict(m["s"@]) is Some {
                    <SchemaString as Schematize>::verdict(m["s"@])
                } else if <InnerData as Schematize>::verdict(m["inner"@]) is Some {
                    <InnerData as Schematize>::verdict(m["inner"@])
                } else if <SchemaArray<SchemaArray<SchemaString>> as Schematize>::verdict(m["point"@]) is Some {
                    <SchemaArray<SchemaArray<SchemaString>> as Schematize>::verdict(m["point"@])
                } else if <SchemaArray<SchemaArray<InnerData>> as Schematize>::verdict(m["inners"@]) is Some {
                    <SchemaArray<SchemaArray<InnerData>> as Schematize>::verdict(m["inners"@])
                } else {
                    None
                }
            },
            _ => Some(SchemaError::WrongSchemaValue),
        }
    }

    open spec fn dyn_count(v: Val) -> nat {
        match v {
            Val::Object(m) => <SchemaString as Schematize>::dyn_count(field_or_null(m, "s"@)) + <InnerData as Schematize>::dyn_count(field_or_null(m, "inner"@)) + <SchemaArray<SchemaArray<SchemaString>> as Schematize>::dyn_count(field_or_null(m, "point"@)) + <SchemaArray<SchemaArray<InnerData>> as Schematize>::dyn_count(field_or_null(m, "inners"@)),
            _ => 0,
        }
    }

    open spec fn spec_layout(v: Val, l: Layout) -> Option<(Layout, Seq<usize>)> {
        match v {
            Val::Object(m) => {
                let fv0 = field_or_null(m, "s"@);
                match <SchemaString as Schematize>::spec_layout(fv0, l) {
                    Some((l1, o1)) => {
                        let fv1 = field_or_null(m, "inner"@);
                        match <InnerData as Schematize>::spec_layout(fv1, l1) {
                            Some((l2, o2)) => {
                                let fv2 = field_or_null(m, "point"@);
                                match <SchemaArray<SchemaArray<SchemaString>> as Schematize>::spec_layout(fv2, l2) {
                                    Some((l3, o3)) => {
                                        let fv3 = field_or_null(m, "inners"@);
                                        match <SchemaArray<SchemaArray<InnerData>> as Schematize>::spec_layout(fv3, l3) {
                                            Some((l4, o4)) => {
                                                Some((l4, o1 + (o2 + (o3 + (o4)))))
                                            },
                                            None => None,
                                        }
                                    },
                                    None => None,
                                }
                            },
                            None => None,
                        }
                    },
                    None => None,
                }
            },
            _ => Some((l, Seq::empty())),
        }
    }

    open spec fn table_ok(v: Val, offsets: Seq<usize>, idx: nat, len: nat) -> bool {
        match v {
            Val::Object(m) => {
                let fv0 = field_or_null(m, "s"@);
                let fv1 = field_or_null(m, "inner"@);
                let fv2 = field_or_null(m, "point"@);
                let fv3 = field_or_null(m, "inners"@);
                <SchemaString as Schematize>::table_ok(fv0, offsets, idx, len) && <InnerData as Schematize>::table_ok(fv1, offsets, (idx + <SchemaString as Schematize>::dyn_count(fv0)) as nat, len) && <SchemaArray<SchemaArray<SchemaString>> as Schematize>::table_ok(fv2, offsets, ((idx + <SchemaString as Schematize>::dyn_count(fv0)) as nat + <InnerData as Schematize>::dyn_count(fv1)) as nat, len) && <SchemaArray<SchemaArray<InnerData>> as Schematize>::table_ok(fv3, offsets, (((idx + <SchemaString as Schematize>::dyn_count(fv0)) as nat + <InnerData as Schematize>::dyn_count(fv1)) as nat + <SchemaArray<SchemaArray<SchemaString>> as Schematize>::dyn_count(fv2)) as nat, len)
            },
            _ => idx <= offsets.len(),
        }
    }

    open spec fn val_of(self, arena: Seq<u8>, d: nat) -> Val {
        Val::Object(map!["s"@ => self.s.val_of(arena, d), "inner"@ => self.inner.val_of(arena, d), "point"@ => self.point.val_of(arena, d), "inners"@ => self.inners.val_of(arena, d)])
    }

    open spec fn loaded(sv: SchemaValue) -> Val
        decreases sv,
    {
        match sv {
            SchemaValue::Object(fields) => Val::Object(
                map![
                    "s"@ => if has_field(fields@, "s"@) {
                        <SchemaString as Schematize>::loaded(field_value(fields@, "s"@))
                    } else {
                        Val::Null
                    },
                    "inner"@ => if has_field(fields@, "inner"@) {
                        <InnerData as Schematize>::loaded(field_value(fields@, "inner"@))
                    } else {
                        Val::Null
                    },
                    "point"@ => if has_field(fields@, "point"@) {
                        <SchemaArray<SchemaArray<SchemaString>> as Schematize>::loaded(field_value(fields@, "point"@))
                    } else {
                        Val::Null
                    },
                    "inners"@ => if has_field(fields@, "inners"@) {
                        <SchemaArray<SchemaArray<InnerData>> as Schematize>::loaded(field_value(fields@, "inners"@))
                    } else {
                        Val::Null
                    },
                ],
            ),
            _ => Val::Null,
        }
    }

    proof fn layout_properties() {
        <SchemaString as Schematize>::layout_properties();
        <InnerData as Schematize>::layout_properties();
        <SchemaArray<SchemaArray<SchemaString>> as Schematize>::layout_properties();
        <SchemaArray<SchemaArray<InnerData>> as Schematize>::layout_properties();
    }

    proof fn layout_facts(v: Val, l: Layout) {
        match v {
            Val::Object(m) => {
                let fv0 = field_or_null(m, "s"@);
                let (l1, o1) = <SchemaString as Schematize>::spec_layout(fv0, l).unwrap();
                <SchemaString as Schematize>::layout_facts(fv0, l);
                let fv1 = field_or_null(m, "inner"@);
                let (l2, o2) = <InnerData as Schematize>::spec_layout(fv1, l1).unwrap();
                <InnerData as Schematize>::layout_facts(fv1, l1);
                let fv2 = field_or_null(m, "point"@);
                let (l3, o3) = <SchemaArray<SchemaArray<SchemaString>> as Schematize>::spec_layout(fv2, l2).unwrap();
                <SchemaArray<SchemaArray<SchemaString>> as Schematize>::layout_facts(fv2, l2);
                let fv3 = field_or_null(m, "inners"@);
                let (l4, o4) = <SchemaArray<SchemaArray<InnerData>> as Schematize>::spec_layout(fv3, l3).unwrap();
                <SchemaArray<SchemaArray<InnerData>> as Schematize>::layout_facts(fv3, l3);
                assert(crate::schema::run_bounded(o1, l.size as int, l4.size as int));
                assert(crate::schema::run_bounded(o2, l1.size as int, l4.size as int));
                assert(crate::schema::run_bounded(o3, l2.size as int, l4.size as int));
                assert(crate::schema::run_bounded(o4, l3.size as int, l4.size as int));
                crate::schema::lemma_run_concat(o3, o4, l2.size as int, l3.size as int, l4.size as int);
                crate::schema::lemma_run_concat(o2, o3 + (o4), l1.size as int, l2.size as int, l4.size as int);
                crate::schema::lemma_run_concat(o1, o2 + (o3 + (o4)), l.size as int, l1.size as int, l4.size as int);
                assert(crate::schema::run_bounded(o1 + (o2 + (o3 + (o4))), l.size as int, l4.size as int));
            },
            _ => {},
        }
    }

    #[verifier::rlimit(100)]
    proof fn layout_fits(v: Val, l: Layout, offsets: Seq<usize>, idx: nat, len: nat) {
        match v {
            Val::Object(m) => {
                let fv0 = field_or_null(m, "s"@);
                let (l1, o1) = <SchemaString as Schematize>::spec_layout(fv0, l).unwrap();
                <SchemaString as Schematize>::layout_facts(fv0, l);
                let fv1 = field_or_null(m, "inner"@);
                let (l2, o2) = <InnerData as Schematize>::spec_layout(fv1, l1).unwrap();
                <InnerData as Schematize>::layout_facts(fv1, l1);
                let fv2 = field_or_null(m, "point"@);
                let (l3, o3) = <SchemaArray<SchemaArray<SchemaString>> as Schematize>::spec_layout(fv2, l2).unwrap();
                <SchemaArray<SchemaArray<SchemaString>> as Schematize>::layout_facts(fv2, l2);
                let fv3 = field_or_null(m, "inners"@);
                let (l4, o4) = <SchemaArray<SchemaArray<InnerData>> as Schematize>::spec_layout(fv3, l3).unwrap();
                <SchemaArray<SchemaArray<InnerData>> as Schematize>::layout_facts(fv3, l3);
                crate::schema::lemma_subrange_concat_split(offsets, idx as int + (0), o1, o2 + (o3 + (o4)));
                assert(o1.len() > 0 ==> offsets[idx as int + (0)] == o1[0]) by {
                    if o1.len() > 0 {
                        assert(offsets.subrange(idx as int + (0), idx as int + (0) + o1.len() as int)[0] == offsets[idx as int + (0)]);
                    }
                }
                crate::schema::lemma_subrange_concat_split(offsets, idx as int + (o1.len() as int), o2, o3 + (o4));
                assert(o2.len() > 0 ==> offsets[idx as int + (o1.len() as int)] == o2[0]) by {
                    if o2.len() > 0 {
                        assert(offsets.subrange(idx as int + (o1.len() as int), idx as int + (o1.len() as int) + o2.len() as int)[0] == offsets[idx as int + (o1.len() as int)]);
                    }
                }
                crate::schema::lemma_subrange_concat_split(offsets, idx as int + (o1.len() as int + o2.len() as int), o3, o4);
                assert(o3.len() > 0 ==> offsets[idx as int + (o1.len() as int + o2.len() as int)] == o3[0]) by {
                    if o3.len() > 0 {
                        assert(offsets.subrange(idx as int + (o1.len() as int + o2.len() as int), idx as int + (o1.len() as int + o2.len() as int) + o3.len() as int)[0] == offsets[idx as int + (o1.len() as int + o2.len() as int)]);
                    }
                }
                assert(o4.len() > 0 ==> offsets[idx as int + (o1.len() as int + o2.len() as int + o3.len() as int)] == o4[0]) by {
                    if o4.len() > 0 {
                        assert(offsets.subrange(idx as int + (o1.len() as int + o2.len() as int + o3.len() as int), idx as int + (o1.len() as int + o2.len() as int + o3.len() as int) + o4.len() as int)[0] == offsets[idx as int + (o1.len() as int + o2.len() as int + o3.len() as int)]);
                    }
                }
                assert(next_bound(offsets, (idx + (o1.len() as int)) as nat, len) >= l1.size as int) by {
                    if o2.len() > 0 {
                        assert(next_bound(offsets, (idx + (o1.len() as int)) as nat, len) == o2[0]);
                        assert(o2[0] >= l1.size);
                    } else {
                        if o3.len() > 0 {
                            assert(next_bound(offsets, (idx + (o1.len() as int + o2.len() as int)) as nat, len) == o3[0]);
                            assert(o3[0] >= l2.size);
                        } else {
                            if o4.len() > 0 {
                                assert(next_bound(offsets, (idx + (o1.len() as int + o2.len() as int + o3.len() as int)) as nat, len) == o4[0]);
                                assert(o4[0] >= l3.size);
                            } else {
                                assert(idx + (o1.len() as int + o2.len() as int + o3.len() as int + o4.len() as int) == idx + (o1 + (o2 + (o3 + (o4)))).len());
                            }
                        }
                    }
                }
                <SchemaString as Schematize>::layout_fits(fv0, l, offsets, (idx + (0)) as nat, len);
                assert(next_bound(offsets, (idx + (o1.len() as int + o2.len() as int)) as nat, len) >= l2.size as int) by {
                    if o3.len() > 0 {
                        assert(next_bound(offsets, (idx + (o1.len() as int + o2.len() as int)) as nat, len) == o3[0]);
                        assert(o3[0] >= l2.size);
                    } else {
                        if o4.len() > 0 {
                            assert(next_bound(offsets, (idx + (o1.len() as int + o2.len() as int + o3.len() as int)) as nat, len) == o4[0]);
                            assert(o4[0] >= l3.size);
                        } else {
                            assert(idx + (o1.len() as int + o2.len() as int + o3.len() as int + o4.len() as int) == idx + (o1 + (o2 + (o3 + (o4)))).len());
                        }
                    }
                }
                <InnerData as Schematize>::layout_fits(fv1, l1, offsets, (idx + (o1.len() as int)) as nat, len);
                assert(next_bound(offsets, (idx + (o1.len() as int + o2.len() as int + o3.len() as int)) as nat, len) >= l3.size as int) by {
                    if o4.len() > 0 {
                        assert(next_bound(offsets, (idx + (o1.len() as int + o2.len() as int + o3.len() as int)) as nat, len) == o4[0]);
                        assert(o4[0] >= l3.size);
                    } else {
                        assert(idx + (o1.len() as int + o2.len() as int + o3.len() as int + o4.len() as int) == idx + (o1 + (o2 + (o3 + (o4)))).len());
                    }
                }
                <SchemaArray<SchemaArray<SchemaString>> as Schematize>::layout_fits(fv2, l2, offsets, (idx + (o1.len() as int + o2.len() as int)) as nat, len);
                assert(next_bound(offsets, (idx + (o1.len() as int + o2.len() as int + o3.len() as int + o4.len() as int)) as nat, len) >= l4.size as int) by {
                    assert(idx + (o1.len() as int + o2.len() as int + o3.len() as int + o4.len() as int) == idx + (o1 + (o2 + (o3 + (o4)))).len());
                }
                <SchemaArray<SchemaArray<InnerData>> as Schematize>::layout_fits(fv3, l3, offsets, (idx + (o1.len() as int + o2.len() as int + o3.len() as int)) as nat, len);
            },
            _ => {},
        }
    }

    fn schema_size() -> usize {
        80
    }

    fn schema_align() -> usize {
        8
    }

    fn schema_default() -> ParserData {
        ParserData { s: <SchemaString as Schematize>::schema_default(), inner: <InnerData as Schematize>::schema_default(), point: <SchemaArray<SchemaArray<SchemaString>> as Schematize>::schema_default(), inners: <SchemaArray<SchemaArray<InnerData>> as Schematize>::schema_default() }
    }

    fn store(&self, block: &mut BlockHandle, off: usize) {
        let total = block.len();
        self.s.store(block, off);
        let ghost b0 = block@;
        self.inner.store(block, off + 16);
        let ghost b1 = block@;
        self.point.store(block, off + 48);
        let ghost b2 = block@;
        self.inners.store(block, off + 64);
        proof {
            let win = final(block)@.subrange(off as int, off + 80);
            assert(win.subrange(0, 16) =~= b0.subrange(off + 0, off + 16));
            assert(win.subrange(16, 48) =~= b1.subrange(off + 16, off + 48));
            assert(win.subrange(48, 64) =~= b2.subrange(off + 48, off + 64));
            assert(win.subrange(64, 80) =~= final(block)@.subrange(off + 64, off + 80));
            assert(Self::decode(win) == *self);
        }
    }

    fn load(block: &BlockHandle, off: usize) -> (r: ParserData) {
        let total = block.len();
        let v0 = <SchemaString as Schematize>::load(block, off);
        let v1 = <InnerData as Schematize>::load(block, off + 16);
        let v2 = <SchemaArray<SchemaArray<SchemaString>> as Schematize>::load(block, off + 48);
        let v3 = <SchemaArray<SchemaArray<InnerData>> as Schematize>::load(block, off + 64);
        let r = ParserData { s: v0, inner: v1, point: v2, inners: v3 };
        proof {
            let win = block@.subrange(off as int, off + 80);
            assert(win.subrange(0, 16) =~= block@.subrange(off + 0, off + 16));
            assert(win.subrange(16, 48) =~= block@.subrange(off + 16, off + 48));
            assert(win.subrange(48, 64) =~= block@.subrange(off + 48, off + 64));
            assert(win.subrange(64, 80) =~= block@.subrange(off + 64, off + 80));
            assert(Self::decode(win) == r);
        }
        r
    }

    #[verifier::rlimit(100)]
    fn build_layout(v: &SchemaValue, layout: Layout, offsets: &mut Vec<usize>) -> (r: Result<
        Layout,
        LayoutError,
    >) {
        match v {
            SchemaValue::Object(fields) => {
                proof {
                    lemma_fields_model(fields@);
                    assert(val_model(SchemaValue::Null) == Val::Null);
                }
                let ghost m = fields_model(fields@);
                let null_value = SchemaValue::Null;
                let mut running = layout;
                let ghost before0 = offsets@;
                let ghost prev_layout0 = running;
                let sub0 = match object_lookup(fields, "s") {
                    Some(sv) => sv,
                    None => &null_value,
                };
                proof {
                    assert(sub0@ == field_or_null(m, "s"@));
                    if sub0 != &null_value {
                        let k = choose|k: int| 0 <= k < fields@.len() && (#[trigger] fields@[k]).1 == *sub0;
                        assert(sv_wf(fields@[k].1));
                    } else {
                        assert(sv_wf(*sub0));
                    }
                }
                running = match <SchemaString as Schematize>::build_layout(sub0, running, offsets) {
                    Ok(next) => next,
                    Err(e) => {
                        return Err(e);
                    },
                };
                let ghost app0 = offsets@.skip(before0.len() as int);
                proof {
                    <SchemaString as Schematize>::layout_facts(sub0@, prev_layout0);
                }
                let ghost before1 = offsets@;
                let ghost prev_layout1 = running;
                let sub1 = match object_lookup(fields, "inner") {
                    Some(sv) => sv,
                    None => &null_value,
                };
                proof {
                    assert(sub1@ == field_or_null(m, "inner"@));
                    if sub1 != &null_value {
                        let k = choose|k: int| 0 <= k < fields@.len() && (#[trigger] fields@[k]).1 == *sub1;
                        assert(sv_wf(fields@[k].1));
                    } else {
                        assert(sv_wf(*sub1));
                    }
                }
                running = match <InnerData as Schematize>::build_layout(sub1, running, offsets) {
                    Ok(next) => next,
                    Err(e) => {
                        return Err(e);
                    },
                };
                let ghost app1 = offsets@.skip(before1.len() as int);
                proof {
                    <InnerData as Schematize>::layout_facts(sub1@, prev_layout1);
                }
                let ghost before2 = offsets@;
                let ghost prev_layout2 = running;
                let sub2 = match object_lookup(fields, "point") {
                    Some(sv) => sv,
                    None => &null_value,
                };
                proof {
                    assert(sub2@ == field_or_null(m, "point"@));
                    if sub2 != &null_value {
                        let k = choose|k: int| 0 <= k < fields@.len() && (#[trigger] fields@[k]).1 == *sub2;
                        assert(sv_wf(fields@[k].1));
                    } else {
                        assert(sv_wf(*sub2));
                    }
                }
                running = match <SchemaArray<SchemaArray<SchemaString>> as Schematize>::build_layout(sub2, running, offsets) {
                    Ok(next) => next,
                    Err(e) => {
                        return Err(e);
                    },
                };
                let ghost app2 = offsets@.skip(before2.len() as int);
                proof {
                    <SchemaArray<SchemaArray<SchemaString>> as Schematize>::layout_facts(sub2@, prev_layout2);
                }
                let ghost before3 = offsets@;
                let ghost prev_layout3 = running;
                let sub3 = match object_lookup(fields, "inners") {
                    Some(sv) => sv,
                    None => &null_value,
                };
                proof {
                    assert(sub3@ == field_or_null(m, "inners"@));
                    if sub3 != &null_value {
                        let k = choose|k: int| 0 <= k < fields@.len() && (#[trigger] fields@[k]).1 == *sub3;
                        assert(sv_wf(fields@[k].1));
                    } else {
                        assert(sv_wf(*sub3));
                    }
                }
                running = match <SchemaArray<SchemaArray<InnerData>> as Schematize>::build_layout(sub3, running, offsets) {
                    Ok(next) => next,
                    Err(e) => {
                        return Err(e);
                    },
                };
                let ghost app3 = offsets@.skip(before3.len() as int);
                proof {
                    <SchemaArray<SchemaArray<InnerData>> as Schematize>::layout_facts(sub3@, prev_layout3);
                }
                proof {
                    assert(final(offsets)@.skip(before3.len() as int) =~= app3);
                    assert(final(offsets)@.subrange(before2.len() as int, before3.len() as int) =~= app2);
                    crate::schema::lemma_skip_concat(final(offsets)@, before2.len() as int, before3.len() as int);
                    assert(final(offsets)@.subrange(before1.len() as int, before2.len() as int) =~= app1);
                    crate::schema::lemma_skip_concat(final(offsets)@, before1.len() as int, before2.len() as int);
                    assert(final(offsets)@.subrange(before0.len() as int, before1.len() as int) =~= app0);
                    crate::schema::lemma_skip_concat(final(offsets)@, before0.len() as int, before1.len() as int);
                }
                Ok(running)
            },
            _ => {
                // mismatched value kind: no-op, validation happens while writing
                proof {
                    assert(final(offsets)@.skip(old(offsets)@.len() as int) =~= Seq::<usize>::empty());
                }
                Ok(layout)
            },
        }
    }

    #[verifier::rlimit(100)]
    fn deserialize(v: &SchemaValue, context: &mut DeserializeContext) -> (r: SchemaResult<ParserData>)
        ensures
            !(*v matches SchemaValue::Object(_)) ==> *final(context) == *old(context),
    {
        let ghost offs = old(context).offsets@;
        let ghost lnn = old(context).block@.len() as nat;
        match v {
            SchemaValue::Object(fields) => {
                proof {
                    lemma_fields_model(fields@);
                    lemma_depth_bounds(fields@, Seq::empty());
                }
                let ghost blk0 = context.block@;
                let ghost idx0 = context.offset_index as nat;
                let entry0 = object_lookup(fields, "s");
                if entry0.is_none() {
                    return Err(SchemaError::MissingField);
                }
                let entry1 = object_lookup(fields, "inner");
                if entry1.is_none() {
                    return Err(SchemaError::MissingField);
                }
                let entry2 = object_lookup(fields, "point");
                if entry2.is_none() {
                    return Err(SchemaError::MissingField);
                }
                let entry3 = object_lookup(fields, "inners");
                if entry3.is_none() {
                    return Err(SchemaError::MissingField);
                }
                if fields.len() != 4 {
                    return Err(SchemaError::UnknownIdentifier);
                }
                let sv0 = entry0.unwrap();
                proof {
                    let k = choose|k: int| 0 <= k < fields@.len() && (#[trigger] fields@[k]).1 == *sv0;
                    assert(sv_wf(fields@[k].1));
                }
                context.path.push(".s".to_owned());
                let val0 = match <SchemaString as Schematize>::deserialize(sv0, context) {
                    Ok(x) => x,
                    Err(e) => {
                        return Err(e);
                    },
                };
                context.path.pop();
                let ghost blk1 = context.block@;
                let ghost idx1 = context.offset_index as nat;
                proof {
                    assert(context.path@ =~= old(context).path@);
                    crate::schema::lemma_next_bound_mono(offs, idx0, idx1, lnn);
                }
                let sv1 = entry1.unwrap();
                proof {
                    let k = choose|k: int| 0 <= k < fields@.len() && (#[trigger] fields@[k]).1 == *sv1;
                    assert(sv_wf(fields@[k].1));
                }
                context.path.push(".inner".to_owned());
                let val1 = match <InnerData as Schematize>::deserialize(sv1, context) {
                    Ok(x) => x,
                    Err(e) => {
                        return Err(e);
                    },
                };
                context.path.pop();
                let ghost blk2 = context.block@;
                let ghost idx2 = context.offset_index as nat;
                proof {
                    assert(context.path@ =~= old(context).path@);
                    crate::schema::lemma_next_bound_mono(offs, idx1, idx2, lnn);
                }
                let sv2 = entry2.unwrap();
                proof {
                    let k = choose|k: int| 0 <= k < fields@.len() && (#[trigger] fields@[k]).1 == *sv2;
                    assert(sv_wf(fields@[k].1));
                }
                context.path.push(".point".to_owned());
                let val2 = match <SchemaArray<SchemaArray<SchemaString>> as Schematize>::deserialize(sv2, context) {
                    Ok(x) => x,
                    Err(e) => {
                        return Err(e);
                    },
                };
                context.path.pop();
                let ghost blk3 = context.block@;
                let ghost idx3 = context.offset_index as nat;
                proof {
                    assert(context.path@ =~= old(context).path@);
                    crate::schema::lemma_next_bound_mono(offs, idx2, idx3, lnn);
                }
                let sv3 = entry3.unwrap();
                proof {
                    let k = choose|k: int| 0 <= k < fields@.len() && (#[trigger] fields@[k]).1 == *sv3;
                    assert(sv_wf(fields@[k].1));
                }
                context.path.push(".inners".to_owned());
                let val3 = match <SchemaArray<SchemaArray<InnerData>> as Schematize>::deserialize(sv3, context) {
                    Ok(x) => x,
                    Err(e) => {
                        return Err(e);
                    },
                };
                context.path.pop();
                let ghost blk4 = context.block@;
                let ghost idx4 = context.offset_index as nat;
                proof {
                    assert(context.path@ =~= old(context).path@);
                    crate::schema::lemma_next_bound_mono(offs, idx3, idx4, lnn);
                }
                let result = ParserData { s: val0, inner: val1, point: val2, inners: val3 };
                proof {
                    crate::schema::lemma_next_bound_mono(offs, idx0, idx0, lnn);
                    assert(forall|m: int| 0 <= m < next_bound(offs, idx0, lnn) ==> #[trigger] blk1[m] == blk0[m]);
                    crate::schema::lemma_next_bound_mono(offs, idx0, idx1, lnn);
                    assert(forall|m: int| 0 <= m < next_bound(offs, idx0, lnn) ==> #[trigger] blk2[m] == blk1[m]);
                    crate::schema::lemma_next_bound_mono(offs, idx0, idx2, lnn);
                    assert(forall|m: int| 0 <= m < next_bound(offs, idx0, lnn) ==> #[trigger] blk3[m] == blk2[m]);
                    crate::schema::lemma_next_bound_mono(offs, idx0, idx3, lnn);
                    assert(forall|m: int| 0 <= m < next_bound(offs, idx0, lnn) ==> #[trigger] blk4[m] == blk3[m]);
                    assert forall|other: Seq<u8>, d: nat|
                        (other.len() == context.block@.len() && d >= sv_depth(*v) && (
                        forall|m: int|
                            next_bound(offs, idx0, lnn) <= m < next_bound(offs, idx4, lnn)
                                ==> other[m] == context.block@[m])) implies
                        #[trigger] result.val_of(other, d) == Self::loaded(*v) by {
                        assert(forall|m: int| 0 <= m < next_bound(offs, idx1, lnn) ==> #[trigger] blk2[m] == blk1[m]);
                        assert(forall|m: int| 0 <= m < next_bound(offs, idx1, lnn) ==> #[trigger] blk3[m] == blk2[m]);
                        assert(forall|m: int| 0 <= m < next_bound(offs, idx1, lnn) ==> #[trigger] blk4[m] == blk3[m]);
                        assert(forall|m: int| next_bound(offs, idx0, lnn) <= m < next_bound(offs, idx1, lnn) ==> other[m] == blk1[m]);
                        assert(sv_depth(*sv0) <= fields_depth(fields@)) by {
                            let k = choose|k: int| 0 <= k < fields@.len() && (#[trigger] fields@[k]).1 == *sv0;
                        }
                        assert(val0.val_of(other, d) == <SchemaString as Schematize>::loaded(*sv0));
                        assert(field_value(fields@, "s"@) == *sv0);
                        assert(forall|m: int| 0 <= m < next_bound(offs, idx2, lnn) ==> #[trigger] blk3[m] == blk2[m]);
                        assert(forall|m: int| 0 <= m < next_bound(offs, idx2, lnn) ==> #[trigger] blk4[m] == blk3[m]);
                        assert(forall|m: int| next_bound(offs, idx1, lnn) <= m < next_bound(offs, idx2, lnn) ==> other[m] == blk2[m]);
                        assert(sv_depth(*sv1) <= fields_depth(fields@)) by {
                            let k = choose|k: int| 0 <= k < fields@.len() && (#[trigger] fields@[k]).1 == *sv1;
                        }
                        assert(val1.val_of(other, d) == <InnerData as Schematize>::loaded(*sv1));
                        assert(field_value(fields@, "inner"@) == *sv1);
                        assert(forall|m: int| 0 <= m < next_bound(offs, idx3, lnn) ==> #[trigger] blk4[m] == blk3[m]);
                        assert(forall|m: int| next_bound(offs, idx2, lnn) <= m < next_bound(offs, idx3, lnn) ==> other[m] == blk3[m]);
                        assert(sv_depth(*sv2) <= fields_depth(fields@)) by {
                            let k = choose|k: int| 0 <= k < fields@.len() && (#[trigger] fields@[k]).1 == *sv2;
                        }
                        assert(val2.val_of(other, d) == <SchemaArray<SchemaArray<SchemaString>> as Schematize>::loaded(*sv2));
                        assert(field_value(fields@, "point"@) == *sv2);
                        assert(forall|m: int| next_bound(offs, idx3, lnn) <= m < next_bound(offs, idx4, lnn) ==> other[m] == blk4[m]);
                        assert(sv_depth(*sv3) <= fields_depth(fields@)) by {
                            let k = choose|k: int| 0 <= k < fields@.len() && (#[trigger] fields@[k]).1 == *sv3;
                        }
                        assert(val3.val_of(other, d) == <SchemaArray<SchemaArray<InnerData>> as Schematize>::loaded(*sv3));
                        assert(field_value(fields@, "inners"@) == *sv3);
                        assert(result.val_of(other, d) == Val::Object(map!["s"@ => val0.val_of(other, d), "inner"@ => val1.val_of(other, d), "point"@ => val2.val_of(other, d), "inners"@ => val3.val_of(other, d)]));
                        assert(Val::Object(map!["s"@ => val0.val_of(other, d), "inner"@ => val1.val_of(other, d), "point"@ => val2.val_of(other, d), "inners"@ => val3.val_of(other, d)]) =~= Self::loaded(*v));
                    }
                }
                Ok(result)
            },
            _ => Err(SchemaError::WrongSchemaValue),
        }
    }

    fn serialize(&self, block: &BlockHandle, fuel: u64) -> (r: SchemaValue)
        decreases fuel, 1int, self,
    {
        let mut entries: Vec<(String, SchemaValue)> = Vec::new();
        let sv0 = self.s.serialize(block, fuel);
        entries.push(("s".to_owned(), sv0));
        let sv1 = self.inner.serialize(block, fuel);
        entries.push(("inner".to_owned(), sv1));
        let sv2 = self.point.serialize(block, fuel);
        entries.push(("point".to_owned(), sv2));
        let sv3 = self.inners.serialize(block, fuel);
        entries.push(("inners".to_owned(), sv3));
        let r = SchemaValue::Object(entries);
        proof {
            reveal_strlit("s");
            reveal_strlit("inner");
            reveal_strlit("point");
            reveal_strlit("inners");
            let ev = r->Object_0@;
            assert(ev.len() == 4);
            assert(ev.drop_last() =~= ev.subrange(0, 3));
            assert(ev.subrange(0, 3).drop_last() =~= ev.subrange(0, 2));
            assert(ev.subrange(0, 2).drop_last() =~= ev.subrange(0, 1));
            assert(ev.subrange(0, 1).drop_last() =~= ev.subrange(0, 0));
            assert(ev.subrange(0, 0) =~= Seq::<(String, SchemaValue)>::empty());
            assert(ev[0].1 == sv0);
            assert(ev[0].0@ == "s"@);
            assert(ev[1].1 == sv1);
            assert(ev[1].0@ == "inner"@);
            assert(ev[2].1 == sv2);
            assert(ev[2].0@ == "point"@);
            assert(ev[3].1 == sv3);
            assert(ev[3].0@ == "inners"@);
            assert(fields_model(ev) == fields_model(ev.drop_last()).insert(ev[3].0@, val_model(ev[3].1)));
            assert(ev.subrange(0, 3)[2] == ev[2]);
            assert(fields_model(ev.subrange(0, 3)) == fields_model(ev.subrange(0, 3).drop_last()).insert(ev[2].0@, val_model(ev[2].1)));
            assert(ev.subrange(0, 2)[1] == ev[1]);
            assert(fields_model(ev.subrange(0, 2)) == fields_model(ev.subrange(0, 2).drop_last()).insert(ev[1].0@, val_model(ev[1].1)));
            assert(ev.subrange(0, 1)[0] == ev[0]);
            assert(fields_model(ev.subrange(0, 1)) == fields_model(ev.subrange(0, 1).drop_last()).insert(ev[0].0@, val_model(ev[0].1)));
            assert(fields_model(ev.subrange(0, 0)) == Map::<Seq<char>, Val>::empty());
            assert(fields_model(r->Object_0@) =~= map!["s"@ => self.s.val_of(block@, fuel as nat), "inner"@ => self.inner.val_of(block@, fuel as nat), "point"@ => self.point.val_of(block@, fuel as nat), "inners"@ => self.inners.val_of(block@, fuel as nat)]);
            assert("s"@.len() == 1);
            assert("inner"@.len() == 5);
            assert("point"@.len() == 5);
            assert("inners"@.len() == 6);
            assert("s"@ != "inner"@);
            assert("s"@ != "point"@);
            assert("s"@ != "inners"@);
            assert("inner"@[0] != "point"@[0]);
            assert("inner"@ != "point"@);
            assert("inner"@ != "inners"@);
            assert("point"@ != "inners"@);
            assert forall|k1: int, k2: int| 0 <= k1 < k2 < ev.len() implies (
            #[trigger] ev[k1]).0@ != (#[trigger] ev[k2]).0@ by {
                assert(ev[0].0@ == "s"@);
                assert(ev[1].0@ == "inner"@);
                assert(ev[2].0@ == "point"@);
                assert(ev[3].0@ == "inners"@);
            }
            assert(fields_unique(ev));
            assert(sv_wf(r));
        }
        r
    }
}

} // verus!
