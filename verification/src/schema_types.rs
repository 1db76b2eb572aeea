//! Schema conformance for primitive types: integers through a 64-bit
//! intermediate with explicit range checking, booleans as one byte, and
//! the fixed-size integer triple used for point data.

use vstd::prelude::*;

use crate::block::BlockHandle;
use crate::layout::{Layout, LayoutError};
use crate::model::Val;
use crate::schema::{DeserializeContext, Schematize};
use crate::value::{SchemaError, SchemaResult, SchemaValue};

verus! {

broadcast use vstd::array::group_array_axioms;

impl Schematize for u8 {
    open spec fn model_size() -> nat {
        1
    }

    open spec fn model_align() -> nat {
        1
    }

    open spec fn spec_default() -> u8 {
        0
    }

    open spec fn inv(self) -> bool {
        true
    }

    open spec fn decode(bytes: Seq<u8>) -> u8 {
        bytes[0]
    }

    open spec fn verdict(v: Val) -> Option<SchemaError> {
        match v {
            Val::Integer(n) => if 0 <= n <= u8::MAX as int {
                None
            } else {
                Some(SchemaError::NumberOutOfBounds)
            },
            _ => Some(SchemaError::WrongSchemaValue),
        }
    }

    open spec fn dyn_count(v: Val) -> nat {
        0
    }

    open spec fn spec_layout(v: Val, l: Layout) -> Option<(Layout, Seq<usize>)> {
        Some((l, Seq::empty()))
    }

    open spec fn table_ok(v: Val, offsets: Seq<usize>, idx: nat, len: nat) -> bool {
        idx <= offsets.len()
    }

    open spec fn val_of(self, arena: Seq<u8>, d: nat) -> Val {
        Val::Integer(self as int)
    }

    open spec fn loaded(sv: SchemaValue) -> Val {
        crate::value::val_model(sv)
    }

    proof fn layout_properties() {
    }

    proof fn layout_facts(v: Val, l: Layout) {
    }

    proof fn layout_fits(v: Val, l: Layout, offsets: Seq<usize>, idx: nat, len: nat) {
    }

    fn schema_size() -> usize {
        1
    }

    fn schema_align() -> usize {
        1
    }

    fn schema_default() -> u8 {
        0
    }

    fn store(&self, block: &mut BlockHandle, off: usize) {
        block.write_byte(off, *self);
        proof {
            assert(final(block)@.subrange(off as int, off + 1)[0] == *self);
        }
    }

    fn load(block: &BlockHandle, off: usize) -> u8 {
        block.read_byte(off)
    }

    fn build_layout(v: &SchemaValue, layout: Layout, offsets: &mut Vec<usize>) -> Result<
        Layout,
        LayoutError,
    > {
        // NO-OP: no dynamic memory behind a scalar
        proof {
            assert(final(offsets)@.skip(old(offsets)@.len() as int) =~= Seq::<usize>::empty());
        }
        Ok(layout)
    }

    fn deserialize(v: &SchemaValue, context: &mut DeserializeContext) -> (r: SchemaResult<u8>)
        ensures
            *final(context) == *old(context),
    {
        match v {
            SchemaValue::Integer(num) => {
                if *num < 0 || *num > u8::MAX as i64 {
                    Err(SchemaError::NumberOutOfBounds)
                } else {
                    Ok(*num as u8)
                }
            },
            _ => Err(SchemaError::WrongSchemaValue),
        }
    }

    fn serialize(&self, block: &BlockHandle, fuel: u64) -> SchemaValue {
        SchemaValue::Integer(*self as i64)
    }
}

/// The value four little-endian arena bytes decode to.
pub open spec fn spec_i32_of_bytes(bytes: Seq<u8>) -> i32 {
    vstd::bytes::spec_u32_from_le_bytes(bytes.subrange(0, 4)) as i32
}

impl Schematize for i32 {
    open spec fn model_size() -> nat {
        4
    }

    open spec fn model_align() -> nat {
        4
    }

    open spec fn spec_default() -> i32 {
        0
    }

    open spec fn inv(self) -> bool {
        true
    }

    open spec fn decode(bytes: Seq<u8>) -> i32 {
        spec_i32_of_bytes(bytes)
    }

    open spec fn verdict(v: Val) -> Option<SchemaError> {
        match v {
            Val::Integer(n) => if i32::MIN as int <= n <= i32::MAX as int {
                None
            } else {
                Some(SchemaError::NumberOutOfBounds)
            },
            _ => Some(SchemaError::WrongSchemaValue),
        }
    }

    open spec fn dyn_count(v: Val) -> nat {
        0
    }

    open spec fn spec_layout(v: Val, l: Layout) -> Option<(Layout, Seq<usize>)> {
        Some((l, Seq::empty()))
    }

    open spec fn table_ok(v: Val, offsets: Seq<usize>, idx: nat, len: nat) -> bool {
        idx <= offsets.len()
    }

    open spec fn val_of(self, arena: Seq<u8>, d: nat) -> Val {
        Val::Integer(self as int)
    }

    open spec fn loaded(sv: SchemaValue) -> Val {
        crate::value::val_model(sv)
    }

    proof fn layout_properties() {
    }

    proof fn layout_facts(v: Val, l: Layout) {
    }

    proof fn layout_fits(v: Val, l: Layout, offsets: Seq<usize>, idx: nat, len: nat) {
    }

    fn schema_size() -> usize {
        4
    }

    fn schema_align() -> usize {
        4
    }

    fn schema_default() -> i32 {
        0
    }

    fn store(&self, block: &mut BlockHandle, off: usize) {
        let as_bits = *self as u32;
        let bytes = vstd::bytes::u32_to_le_bytes(as_bits);
        proof {
            vstd::bytes::lemma_auto_spec_u32_to_from_le_bytes();
        }
        block.write_bytes(off, bytes.as_slice());
        proof {
            let window = final(block)@.subrange(off as int, off + 4);
            assert(window.subrange(0, 4) =~= window);
            assert((*self as u32) as i32 == *self) by (bit_vector);
        }
    }

    fn load(block: &BlockHandle, off: usize) -> i32 {
        let bytes = block.read_bytes(off, 4);
        let as_bits = vstd::bytes::u32_from_le_bytes(bytes.as_slice());
        proof {
            assert(block@.subrange(off as int, off + 4).subrange(0, 4) =~= block@.subrange(
                off as int,
                off + 4,
            ));
        }
        as_bits as i32
    }

    fn build_layout(v: &SchemaValue, layout: Layout, offsets: &mut Vec<usize>) -> Result<
        Layout,
        LayoutError,
    > {
        // NO-OP: no dynamic memory behind a scalar
        proof {
            assert(final(offsets)@.skip(old(offsets)@.len() as int) =~= Seq::<usize>::empty());
        }
        Ok(layout)
    }

    fn deserialize(v: &SchemaValue, context: &mut DeserializeContext) -> (r: SchemaResult<i32>)
        ensures
            *final(context) == *old(context),
    {
        match v {
            SchemaValue::Integer(num) => {
                if *num < i32::MIN as i64 || *num > i32::MAX as i64 {
                    Err(SchemaError::NumberOutOfBounds)
                } else {
                    Ok(*num as i32)
                }
            },
            _ => Err(SchemaError::WrongSchemaValue),
        }
    }

    fn serialize(&self, block: &BlockHandle, fuel: u64) -> SchemaValue {
        SchemaValue::Integer(*self as i64)
    }
}

impl Schematize for bool {
    open spec fn model_size() -> nat {
        1
    }

    open spec fn model_align() -> nat {
        1
    }

    open spec fn spec_default() -> bool {
        false
    }

    open spec fn inv(self) -> bool {
        true
    }

    open spec fn decode(bytes: Seq<u8>) -> bool {
        bytes[0] != 0
    }

    open spec fn verdict(v: Val) -> Option<SchemaError> {
        match v {
            Val::Bool(_) => None,
            _ => Some(SchemaError::WrongSchemaValue),
        }
    }

    open spec fn dyn_count(v: Val) -> nat {
        0
    }

    open spec fn spec_layout(v: Val, l: Layout) -> Option<(Layout, Seq<usize>)> {
        Some((l, Seq::empty()))
    }

    open spec fn table_ok(v: Val, offsets: Seq<usize>, idx: nat, len: nat) -> bool {
        idx <= offsets.len()
    }

    open spec fn val_of(self, arena: Seq<u8>, d: nat) -> Val {
        Val::Bool(self)
    }

    open spec fn loaded(sv: SchemaValue) -> Val {
        crate::value::val_model(sv)
    }

    proof fn layout_properties() {
    }

    proof fn layout_facts(v: Val, l: Layout) {
    }

    proof fn layout_fits(v: Val, l: Layout, offsets: Seq<usize>, idx: nat, len: nat) {
    }

    fn schema_size() -> usize {
        1
    }

    fn schema_align() -> usize {
        1
    }

    fn schema_default() -> bool {
        false
    }

    fn store(&self, block: &mut BlockHandle, off: usize) {
        let byte: u8 = if *self {
            1
        } else {
            0
        };
        block.write_byte(off, byte);
        proof {
            assert(final(block)@.subrange(off as int, off + 1)[0] == byte);
        }
    }

    fn load(block: &BlockHandle, off: usize) -> bool {
        block.read_byte(off) != 0
    }

    fn build_layout(v: &SchemaValue, layout: Layout, offsets: &mut Vec<usize>) -> Result<
        Layout,
        LayoutError,
    > {
        // NO-OP: no dynamic memory behind a scalar
        proof {
            assert(final(offsets)@.skip(old(offsets)@.len() as int) =~= Seq::<usize>::empty());
        }
        Ok(layout)
    }

    fn deserialize(v: &SchemaValue, context: &mut DeserializeContext) -> (r: SchemaResult<bool>)
        ensures
            *final(context) == *old(context),
    {
        match v {
            SchemaValue::Bool(b) => Ok(*b),
            _ => Err(SchemaError::WrongSchemaValue),
        }
    }

    fn serialize(&self, block: &BlockHandle, fuel: u64) -> SchemaValue {
        SchemaValue::Bool(*self)
    }
}

/// The integer triple three windows of four arena bytes decode to.
pub open spec fn spec_triple_of_bytes(bytes: Seq<u8>) -> Seq<i32> {
    seq![
        spec_i32_of_bytes(bytes.subrange(0, 4)),
        spec_i32_of_bytes(bytes.subrange(4, 8)),
        spec_i32_of_bytes(bytes.subrange(8, 12)),
    ]
}

/// Writing-pass outcome of binding one parsed value to one integer element.
pub open spec fn spec_triple_elem_verdict(v: Val) -> Option<SchemaError> {
    <i32 as Schematize>::verdict(v)
}

impl Schematize for [i32; 3] {
    open spec fn model_size() -> nat {
        12
    }

    open spec fn model_align() -> nat {
        4
    }

    open spec fn spec_default() -> [i32; 3] {
        vstd::array::spec_array_fill_for_copy_type(0i32)
    }

    open spec fn inv(self) -> bool {
        true
    }

    open spec fn decode(bytes: Seq<u8>) -> [i32; 3] {
        choose|a: [i32; 3]| a@ == spec_triple_of_bytes(bytes)
    }

    open spec fn verdict(v: Val) -> Option<SchemaError> {
        match v {
            Val::Array(items) => if items.len() != 3 {
                Some(SchemaError::WrongSizedArray)
            } else if spec_triple_elem_verdict(items[0]) is Some {
                spec_triple_elem_verdict(items[0])
            } else if spec_triple_elem_verdict(items[1]) is Some {
                spec_triple_elem_verdict(items[1])
            } else {
                spec_triple_elem_verdict(items[2])
            },
            _ => Some(SchemaError::WrongSchemaValue),
        }
    }

    open spec fn dyn_count(v: Val) -> nat {
        0
    }

    open spec fn spec_layout(v: Val, l: Layout) -> Option<(Layout, Seq<usize>)> {
        Some((l, Seq::empty()))
    }

    open spec fn table_ok(v: Val, offsets: Seq<usize>, idx: nat, len: nat) -> bool {
        idx <= offsets.len()
    }

    open spec fn val_of(self, arena: Seq<u8>, d: nat) -> Val {
        Val::Array(
            seq![
                Val::Integer(self@[0] as int),
                Val::Integer(self@[1] as int),
                Val::Integer(self@[2] as int),
            ],
        )
    }

    open spec fn loaded(sv: SchemaValue) -> Val {
        crate::value::val_model(sv)
    }

    proof fn layout_properties() {
    }

    proof fn layout_facts(v: Val, l: Layout) {
    }

    proof fn layout_fits(v: Val, l: Layout, offsets: Seq<usize>, idx: nat, len: nat) {
    }

    fn schema_size() -> usize {
        12
    }

    fn schema_align() -> usize {
        4
    }

    fn schema_default() -> [i32; 3] {
        vstd::array::array_fill_for_copy_types(0i32)
    }

    fn store(&self, block: &mut BlockHandle, off: usize) {
        let ghost pre = old(block)@;
        let total = block.len();
        let e0: i32 = self[0];
        let e1: i32 = self[1];
        let e2: i32 = self[2];
        e0.store(block, off);
        let ghost b0 = block@;
        e1.store(block, off + 4);
        let ghost b1 = block@;
        e2.store(block, off + 8);
        proof {
            let win = final(block)@.subrange(off as int, off + 12);
            assert(win.subrange(0, 4) =~= b0.subrange(off as int, off + 4));
            assert(win.subrange(4, 8) =~= b1.subrange(off + 4, off + 8));
            assert(win.subrange(8, 12) =~= final(block)@.subrange(off + 8, off + 12));
            assert(win.subrange(0, 4).subrange(0, 4) =~= win.subrange(0, 4));
            assert(win.subrange(4, 8).subrange(0, 4) =~= win.subrange(4, 8));
            assert(win.subrange(8, 12).subrange(0, 4) =~= win.subrange(8, 12));
            assert(spec_triple_of_bytes(win) =~= self@);
            let a = choose|a: [i32; 3]| a@ == spec_triple_of_bytes(win);
            assert(self@ == spec_triple_of_bytes(win));
            assert(a@ =~= self@);
            vstd::array::axiom_array_ext_equal(a, *self);
            assert(a == *self);
        }
    }

    fn load(block: &BlockHandle, off: usize) -> (r: [i32; 3]) {
        let total = block.len();
        let e0 = <i32 as Schematize>::load(block, off);
        let e1 = <i32 as Schematize>::load(block, off + 4);
        let e2 = <i32 as Schematize>::load(block, off + 8);
        let r = [e0, e1, e2];
        proof {
            let win = block@.subrange(off as int, off + 12);
            assert(win.subrange(0, 4) =~= block@.subrange(off as int, off + 4));
            assert(win.subrange(4, 8) =~= block@.subrange(off + 4, off + 8));
            assert(win.subrange(8, 12) =~= block@.subrange(off + 8, off + 12));
            assert(win.subrange(0, 4).subrange(0, 4) =~= win.subrange(0, 4));
            assert(win.subrange(4, 8).subrange(0, 4) =~= win.subrange(4, 8));
            assert(win.subrange(8, 12).subrange(0, 4) =~= win.subrange(8, 12));
            assert(r@ =~= spec_triple_of_bytes(win));
            let a = choose|a: [i32; 3]| a@ == spec_triple_of_bytes(win);
            assert(a@ =~= r@);
            vstd::array::axiom_array_ext_equal(a, r);
            assert(a == r);
        }
        r
    }

    fn build_layout(v: &SchemaValue, layout: Layout, offsets: &mut Vec<usize>) -> Result<
        Layout,
        LayoutError,
    > {
        // NO-OP: a fixed-size array of scalars uses no dynamic memory
        proof {
            assert(final(offsets)@.skip(old(offsets)@.len() as int) =~= Seq::<usize>::empty());
        }
        Ok(layout)
    }

    fn deserialize(v: &SchemaValue, context: &mut DeserializeContext) -> (r: SchemaResult<
        [i32; 3],
    >)
        ensures
            *final(context) == *old(context),
    {
        match v {
            SchemaValue::Array(items) => {
                proof {
                    crate::value::lemma_array_model(items@);
                }
                if items.len() != 3 {
                    return Err(SchemaError::WrongSizedArray);
                }
                let e0 = match <i32 as Schematize>::deserialize(&items[0], context) {
                    Ok(x) => x,
                    Err(e) => {
                        return Err(e);
                    },
                };
                let e1 = match <i32 as Schematize>::deserialize(&items[1], context) {
                    Ok(x) => x,
                    Err(e) => {
                        return Err(e);
                    },
                };
                let e2 = match <i32 as Schematize>::deserialize(&items[2], context) {
                    Ok(x) => x,
                    Err(e) => {
                        return Err(e);
                    },
                };
                let result = [e0, e1, e2];
                proof {
                    assert(result@ =~= seq![e0, e1, e2]);
                    assert forall|arena: Seq<u8>, d: nat|
                        #[trigger] result.val_of(arena, d) == v@ by {
                        // an integer's reading ignores the arena and depth
                        assert(e0.val_of(context.block@, d) == items@[0]@);
                        assert(e1.val_of(context.block@, d) == items@[1]@);
                        assert(e2.val_of(context.block@, d) == items@[2]@);
                        assert(seq![
                            Val::Integer(result@[0] as int),
                            Val::Integer(result@[1] as int),
                            Val::Integer(result@[2] as int),
                        ] =~= crate::value::array_model(items@));
                    }
                    assert(Self::loaded(*v) == v@);
                }
                Ok(result)
            },
            _ => Err(SchemaError::WrongSchemaValue),
        }
    }

    fn serialize(&self, block: &BlockHandle, fuel: u64) -> (r: SchemaValue) {
        let mut items: Vec<SchemaValue> = Vec::new();
        items.push(SchemaValue::Integer(self[0] as i64));
        items.push(SchemaValue::Integer(self[1] as i64));
        items.push(SchemaValue::Integer(self[2] as i64));
        let r = SchemaValue::Array(items);
        proof {
            crate::value::lemma_array_model(r->Array_0@);
            assert(crate::value::array_model(r->Array_0@) =~= seq![
                Val::Integer(self@[0] as int),
                Val::Integer(self@[1] as int),
                Val::Integer(self@[2] as int),
            ]);
            assert forall|k: int| 0 <= k < r->Array_0@.len() implies crate::value::sv_wf(
                #[trigger] r->Array_0@[k],
            ) by {
                assert(r->Array_0@[k] is Integer);
            }
        }
        r
    }
}

} // verus!
