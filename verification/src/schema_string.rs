//! Schema conformance for strings: a view of UTF-8 bytes packed into the
//! arena, as a (pointer-into-arena, byte length) pair.

use vstd::prelude::*;
use vstd::utf8::{decode_utf8, encode_utf8, valid_utf8};

use crate::block::{BlockHandle, BlockPointer};
use crate::layout::{Layout, LayoutError};
use crate::model::Val;
use crate::schema::{next_bound, DeserializeContext, Schematize};
use crate::value::{SchemaError, SchemaResult, SchemaValue};

verus! {

/// A string stored in the arena: a pointer to its UTF-8 bytes and their
/// count. An empty string owns no bytes and its pointer is null.
pub struct SchemaString {
    /// Pointer to the string's UTF-8 bytes within the arena.
    pub block_ptr: BlockPointer,
    /// Number of UTF-8 bytes the string occupies.
    pub len: usize,
}

/// Relies on String::from_utf8: it succeeds exactly on valid UTF-8 input
/// and returns the string of exactly those bytes.
#[verifier::external_body]
fn string_from_utf8(bytes: Vec<u8>) -> (r: Option<String>)
    ensures
        r is Some <==> valid_utf8(bytes@),
        r is Some ==> encode_utf8(r.unwrap()@) == bytes@,
{
    String::from_utf8(bytes).ok()
}

/// Encoding is faithful to emptiness: only the empty character sequence
/// encodes to no bytes at all.
proof fn lemma_encode_empty(s: Seq<char>)
    requires
        encode_utf8(s).len() == 0,
    ensures
        s =~= Seq::<char>::empty(),
{
    if s.len() > 0 {
        assert(encode_utf8(s) == vstd::utf8::encode_scalar(s[0] as u32) + encode_utf8(
            s.drop_first(),
        ));
        assert(vstd::utf8::encode_scalar(s[0] as u32).len() >= 1);
    }
}

impl SchemaString {
    /// The string this view stands for, read back out of its block; `None`
    /// for the null view, or when the view does not resolve to text.
    pub fn as_str(&self, block: &BlockHandle) -> (r: Option<String>)
        requires
            self.inv(),
        ensures
            match r {
                Some(s) => self.val_of(block@, 0) == Val::Strg(s@),
                None => self.val_of(block@, 0) == Val::Strg(Seq::<char>::empty()),
            },
    {
        if self.block_ptr.is_null() {
            return None;
        }
        let total = block.len();
        let off = self.block_ptr.get_offset();
        if off > total || self.len > total - off {
            return None;
        }
        let bytes = block.read_bytes(off, self.len);
        match string_from_utf8(bytes) {
            Some(text) => {
                proof {
                    vstd::utf8::encode_utf8_decode_utf8(text@);
                }
                Some(text)
            },
            None => None,
        }
    }
}

impl Schematize for SchemaString {
    open spec fn model_size() -> nat {
        16
    }

    open spec fn model_align() -> nat {
        8
    }

    open spec fn spec_default() -> SchemaString {
        SchemaString { block_ptr: BlockPointer { offset: 0, absent: true }, len: 0 }
    }

    open spec fn inv(self) -> bool {
        &&& self.block_ptr.absent <==> self.len == 0
        &&& self.block_ptr.absent ==> self.block_ptr.offset == 0
    }

    open spec fn decode(bytes: Seq<u8>) -> SchemaString {
        let off = vstd::bytes::spec_u64_from_le_bytes(bytes.subrange(0, 8)) as usize;
        let ln = vstd::bytes::spec_u64_from_le_bytes(bytes.subrange(8, 16)) as usize;
        if ln == 0 {
            Self::spec_default()
        } else {
            SchemaString { block_ptr: BlockPointer { offset: off, absent: false }, len: ln }
        }
    }

    open spec fn verdict(v: Val) -> Option<SchemaError> {
        match v {
            Val::Strg(_) => None,
            _ => Some(SchemaError::WrongSchemaValue),
        }
    }

    open spec fn dyn_count(v: Val) -> nat {
        match v {
            Val::Strg(s) => if encode_utf8(s).len() > 0 {
                1
            } else {
                0
            },
            _ => 0,
        }
    }

    open spec fn spec_layout(v: Val, l: Layout) -> Option<(Layout, Seq<usize>)> {
        match v {
            Val::Strg(s) => {
                let bl = encode_utf8(s).len();
                if bl == 0 {
                    // string of zero length: no dynamic memory
                    Some((l, Seq::empty()))
                } else if bl > usize::MAX {
                    None
                } else {
                    match l.spec_extend(Layout { size: bl as usize, align: 1 }) {
                        Some((l2, off)) => match l2.spec_pad() {
                            Some(l3) => Some((l3, seq![off as usize])),
                            None => None,
                        },
                        None => None,
                    }
                }
            },
            // mismatched value kind: no-op, validation is the writing pass's job
            _ => Some((l, Seq::empty())),
        }
    }

    open spec fn table_ok(v: Val, offsets: Seq<usize>, idx: nat, len: nat) -> bool {
        match v {
            Val::Strg(s) => {
                let bl = encode_utf8(s).len();
                if bl > 0 {
                    &&& idx < offsets.len()
                    &&& offsets[idx as int] + bl <= len
                    &&& offsets[idx as int] + bl <= next_bound(offsets, (idx + 1) as nat, len)
                } else {
                    idx <= offsets.len()
                }
            },
            _ => idx <= offsets.len(),
        }
    }

    open spec fn val_of(self, arena: Seq<u8>, d: nat) -> Val {
        if self.block_ptr.absent {
            Val::Strg(Seq::empty())
        } else if self.block_ptr.offset + self.len <= arena.len() {
            let bytes = arena.subrange(
                self.block_ptr.offset as int,
                self.block_ptr.offset + self.len,
            );
            if valid_utf8(bytes) {
                Val::Strg(decode_utf8(bytes))
            } else {
                Val::Strg(Seq::empty())
            }
        } else {
            Val::Strg(Seq::empty())
        }
    }

    open spec fn loaded(sv: SchemaValue) -> Val {
        crate::value::val_model(sv)
    }

    proof fn layout_properties() {
    }

    proof fn layout_facts(v: Val, l: Layout) {
        match v {
            Val::Strg(s) => {
                let bl = encode_utf8(s).len();
                if bl > 0 {
                    crate::layout::lemma_round_up(l.size as nat, 1);
                    let (l2, off) = l.spec_extend(Layout { size: bl as usize, align: 1 }).unwrap();
                    crate::layout::lemma_round_up(l2.size as nat, l2.align as nat);
                }
            },
            _ => {},
        }
    }

    proof fn layout_fits(v: Val, l: Layout, offsets: Seq<usize>, idx: nat, len: nat) {
        match v {
            Val::Strg(s) => {
                let bl = encode_utf8(s).len();
                if bl > 0 {
                    crate::layout::lemma_round_up(l.size as nat, 1);
                    let (l2, off) = l.spec_extend(Layout { size: bl as usize, align: 1 }).unwrap();
                    crate::layout::lemma_round_up(l2.size as nat, l2.align as nat);
                    assert(offsets.subrange(idx as int, idx as int + 1)[0] == offsets[idx as int]);
                    assert(offsets[idx as int] == off);
                    // the bytes past this entry begin at or after the padded
                    // layout, so the string's data ends before them
                    assert(offsets[idx as int] + bl <= next_bound(offsets, (idx + 1) as nat, len));
                }
            },
            _ => {},
        }
    }

    fn schema_size() -> usize {
        16
    }

    fn schema_align() -> usize {
        8
    }

    fn schema_default() -> SchemaString {
        SchemaString { block_ptr: BlockPointer::null(), len: 0 }
    }

    fn store(&self, block: &mut BlockHandle, off: usize) {
        let total = block.len();
        proof {
            vstd::bytes::lemma_auto_spec_u64_to_from_le_bytes();
        }
        let off_bytes = vstd::bytes::u64_to_le_bytes(self.block_ptr.get_offset() as u64);
        block.write_bytes(off, off_bytes.as_slice());
        let ghost b0 = block@;
        let len_bytes = vstd::bytes::u64_to_le_bytes(self.len as u64);
        block.write_bytes(off + 8, len_bytes.as_slice());
        proof {
            let win = final(block)@.subrange(off as int, off + 16);
            assert(win.subrange(0, 8) =~= b0.subrange(off as int, off + 8));
            assert(win.subrange(8, 16) =~= final(block)@.subrange(off + 8, off + 16));
        }
    }

    fn load(block: &BlockHandle, off: usize) -> (r: SchemaString) {
        let total = block.len();
        let off_bytes = block.read_bytes(off, 8);
        let len_bytes = block.read_bytes(off + 8, 8);
        let stored_off = vstd::bytes::u64_from_le_bytes(off_bytes.as_slice());
        let stored_len = vstd::bytes::u64_from_le_bytes(len_bytes.as_slice());
        proof {
            let win = block@.subrange(off as int, off + 16);
            assert(win.subrange(0, 8) =~= block@.subrange(off as int, off + 8));
            assert(win.subrange(8, 16) =~= block@.subrange(off + 8, off + 16));
        }
        let out_off = #[verifier::truncate] (stored_off as usize);
        let out_len = #[verifier::truncate] (stored_len as usize);
        if out_len == 0 {
            SchemaString { block_ptr: BlockPointer::null(), len: 0 }
        } else {
            SchemaString { block_ptr: BlockPointer::from_raw_parts(out_off), len: out_len }
        }
    }

    fn build_layout(v: &SchemaValue, layout: Layout, offsets: &mut Vec<usize>) -> (r: Result<
        Layout,
        LayoutError,
    >) {
        match v {
            SchemaValue::Strg(text) => {
                let bytes = text.as_str().as_bytes();
                if bytes.len() > 0 {
                    let string_layout = Layout { size: bytes.len(), align: 1 };
                    match layout.extend(string_layout) {
                        Ok((new_layout, offset)) => {
                            offsets.push(offset);
                            match new_layout.pad_to_align() {
                                Ok(padded) => {
                                    proof {
                                        assert(final(offsets)@.skip(old(offsets)@.len() as int)
                                            =~= seq![offset]);
                                    }
                                    Ok(padded)
                                },
                                Err(e) => Err(e),
                            }
                        },
                        Err(e) => Err(e),
                    }
                } else {
                    // string of zero length: no-op
                    proof {
                        assert(final(offsets)@.skip(old(offsets)@.len() as int) =~= Seq::<
                            usize,
                        >::empty());
                    }
                    Ok(layout)
                }
            },
            _ => {
                // mismatched value kind: no-op, validation happens while writing
                proof {
                    assert(final(offsets)@.skip(old(offsets)@.len() as int) =~= Seq::<
                        usize,
                    >::empty());
                }
                Ok(layout)
            },
        }
    }

    fn deserialize(v: &SchemaValue, context: &mut DeserializeContext) -> (r: SchemaResult<
        SchemaString,
    >)
        ensures
            !(*v matches SchemaValue::Strg(_)) ==> *final(context) == *old(context),
            match r {
                Ok(x) => (Self::dyn_count(v@) == 0 ==> x == Self::spec_default()) && (
                Self::dyn_count(v@) == 1 ==> !x.block_ptr.absent && x.block_ptr.offset == old(
                    context,
                ).offsets@[old(context).offset_index as int]),
                _ => true,
            },
    {
        match v {
            SchemaValue::Strg(text) => {
                let bytes = text.as_str().as_bytes();
                if bytes.len() > 0 {
                    let table_len = context.offsets.len();
                    let arena_len = context.block.len();
                    let offset_index = context.offset_index;
                    let byte_offset = context.offsets[offset_index];
                    context.offset_index = offset_index + 1;
                    context.block.write_bytes(byte_offset, bytes);
                    let result = SchemaString {
                        block_ptr: BlockPointer::from_raw_parts(byte_offset),
                        len: bytes.len(),
                    };
                    proof {
                        vstd::utf8::encode_utf8_valid_utf8(text@);
                        vstd::utf8::encode_utf8_decode_utf8(text@);
                        let offsets = old(context).offsets@;
                        let ln = old(context).block@.len() as nat;
                        assert forall|other: Seq<u8>, d: nat|
                            (other.len() == context.block@.len() && (forall|m: int|
                                next_bound(offsets, offset_index as nat, ln) <= m < next_bound(
                                    offsets,
                                    (offset_index + 1) as nat,
                                    ln,
                                ) ==> other[m] == context.block@[m])) implies #[trigger] result.val_of(
                            other,
                            d,
                        ) == Self::loaded(*v) by {
                            assert(other.subrange(byte_offset as int, byte_offset + bytes@.len())
                                =~= context.block@.subrange(
                                byte_offset as int,
                                byte_offset + bytes@.len(),
                            ));
                            assert(context.block@.subrange(
                                byte_offset as int,
                                byte_offset + bytes@.len(),
                            ) == encode_utf8(text@));
                        }
                    }
                    Ok(result)
                } else {
                    // string of zero length: an empty view, no dynamic memory
                    let result = SchemaString { block_ptr: BlockPointer::null(), len: 0 };
                    proof {
                        lemma_encode_empty(text@);
                    }
                    Ok(result)
                }
            },
            _ => Err(SchemaError::WrongSchemaValue),
        }
    }

    fn serialize(&self, block: &BlockHandle, fuel: u64) -> (r: SchemaValue) {
        match self.as_str(block) {
            Some(text) => SchemaValue::Strg(text),
            None => SchemaValue::Strg(String::new()),
        }
    }
}

} // verus!
