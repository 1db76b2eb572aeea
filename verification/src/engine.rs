//! The definition pipeline: text to a loaded, typed record, and back.
//!
//! Loading runs the tokenizer, the parser, then the two passes of the
//! layout/deserialization engine: the sizing pass computes the packed
//! arena layout and the offset table, one block is allocated, and the
//! writing pass validates the parsed tree and fills the arena, consuming
//! the table in the same traversal order — the table is consumed exactly,
//! entry for entry, which this module proves from the conformance
//! contracts. Serialization runs the inverse way, back to formatted text.

use vstd::prelude::*;

use crate::block::{allocate_block, BlockHandle};
use crate::format::{format_schema_value, spec_format};
use crate::layout::Layout;
use crate::model::Val;
use crate::parse::{spec_parse_document, tokens_to_schema_value};
use crate::schema::{DeserializeContext, Schematize, SerializeContext};
use crate::tokens::{spec_tokenize, string_to_tokens, ParseError, ParseResult};
use crate::value::{sv_depth, sv_wf, SchemaValue};

verus! {

/// A loaded definition: the arena block holding its bytes, and the typed
/// record handle into it. The handle is only meaningful together with its
/// block, which owns every byte of the record's dynamic data.
pub struct BlockDefinition<T> {
    /// The arena the record and its dynamic data live in.
    pub block_handle: BlockHandle,
    /// The typed record.
    pub definition: T,
}

impl<T: Schematize> BlockDefinition<T> {
    /// A loaded definition holds a structurally valid record, its block is
    /// never null — it has room for the root record at its base — and the
    /// root record is stored there.
    pub open spec fn wf(self) -> bool {
        &&& self.definition.inv()
        &&& T::model_size() <= self.block_handle@.len()
        &&& T::decode(self.block_handle@.subrange(0, T::model_size() as int)) == self.definition
    }

    /// The arena block this definition lives in.
    pub fn get_block_handle(&self) -> (r: &BlockHandle)
        ensures
            r@ == self.block_handle@,
    {
        &self.block_handle
    }

    /// The loaded record.
    pub fn get_definition(&self) -> (r: &T)
        ensures
            *r == self.definition,
    {
        &self.definition
    }
}

/// The parsed value a definition text denotes, if it tokenizes and parses.
pub open spec fn spec_load_value(text: Seq<char>) -> Option<Val> {
    match spec_tokenize(text, 0) {
        Some(ts) => spec_parse_document(ts),
        None => None,
    }
}

/// The base layout of a root type: its static size and alignment, where
/// the sizing pass starts from.
pub open spec fn spec_base_layout<T: Schematize>() -> Layout {
    Layout { size: T::model_size() as usize, align: T::model_align() as usize }
}

/// Whether a definition text loads as a record of type `T`: it tokenizes,
/// parses, its arena layout fits the address space, and the parsed tree
/// passes the writing pass's validation.
pub open spec fn spec_definition_accepted<T: Schematize>(text: Seq<char>) -> bool {
    &&& spec_load_value(text) is Some
    &&& T::spec_layout(spec_load_value(text).unwrap(), spec_base_layout::<T>()) is Some
    &&& T::spec_layout(
        spec_load_value(text).unwrap(),
        spec_base_layout::<T>(),
    ).unwrap().0.spec_pad() is Some
    &&& T::verdict(spec_load_value(text).unwrap()) is None
}

/// Parses definition text and deserializes it into a record of type `T`,
/// backed by one freshly allocated arena block: succeeds exactly when the
/// text is accepted for `T`.
pub fn build_definition<T: Schematize>(contents: &str) -> (r: ParseResult<BlockDefinition<T>>)
    ensures
        r is Ok <==> spec_definition_accepted::<T>(contents@),
        r is Ok ==> r.unwrap().wf(),
        r is Ok ==> exists|sv: SchemaValue|
            sv_wf(sv) && (#[trigger] sv@) == spec_load_value(contents@).unwrap() && (forall|d: nat|
                d >= sv_depth(sv) ==> r.unwrap().definition.val_of(r.unwrap().block_handle@, d)
                    == T::loaded(sv)),
{
    // Parse the text into a dynamically typed value representation.
    let tokens = match string_to_tokens(contents) {
        Ok(t) => t,
        Err(e) => {
            return Err(e);
        },
    };
    let schema_value = match tokens_to_schema_value(&tokens) {
        Ok(v) => v,
        Err(e) => {
            return Err(e);
        },
    };
    // Build the memory layout for the definition, starting from the root
    // type's static size. This is a no-op unless fields use dynamic
    // memory (strings, arrays); each such field appends its byte offset.
    proof {
        T::layout_properties();
    }
    let layout = Layout::from_size_align(T::schema_size(), T::schema_align());
    let mut layout_offsets: Vec<usize> = Vec::new();
    let built = match T::build_layout(&schema_value, layout, &mut layout_offsets) {
        Ok(l) => l,
        Err(_) => {
            return Err(ParseError { message: "Failed to build layout for definition.", index: 0 });
        },
    };
    proof {
        T::layout_facts(schema_value@, layout);
    }
    let padded = match built.pad_to_align() {
        Ok(l) => l,
        Err(_) => {
            return Err(ParseError { message: "Failed to build layout for definition.", index: 0 });
        },
    };
    // Allocate the block memory.
    let block = allocate_block(padded);
    // The writing pass consumes the offset table in the same traversal
    // order the sizing pass built it; the offsets fit the fresh arena.
    proof {
        T::layout_facts(schema_value@, layout);
        assert(layout_offsets@.subrange(0, layout_offsets@.len() as int) =~= layout_offsets@);
        assert(layout_offsets@ =~= layout_offsets@.skip(0));
        T::layout_fits(schema_value@, layout, layout_offsets@, 0, padded.size as nat);
    }
    let mut deserialize_context = DeserializeContext {
        block,
        offsets: layout_offsets,
        offset_index: 0,
        path: Vec::new(),  // used for diagnostics
    };
    let result = match T::deserialize(&schema_value, &mut deserialize_context) {
        Ok(x) => x,
        Err(_) => {
            return Err(
                ParseError { message: "Failed to deserialize schema definition.", index: 0 },
            );
        },
    };
    // The central invariant of the two passes: every table entry built by
    // sizing was consumed by writing, one per dynamic field.
    assert(deserialize_context.offset_index == deserialize_context.offsets@.len());
    let ghost written = deserialize_context.block@;
    let ghost offsets_model = deserialize_context.offsets@;
    // Store the assembled record at the arena's base address. The first
    // table entry lies at or past the root's static size, so the store
    // touches none of the dynamic data.
    let mut block_final = deserialize_context.block;
    result.store(&mut block_final, 0);
    let definition = BlockDefinition { block_handle: block_final, definition: result };
    proof {
        let ghost_sv = schema_value;
        let lnn = written.len() as nat;
        assert forall|d: nat| d >= sv_depth(ghost_sv) implies definition.definition.val_of(
            definition.block_handle@,
            d,
        ) == T::loaded(ghost_sv) by {
            assert(forall|m: int|
                crate::schema::next_bound(offsets_model, 0, lnn) <= m < crate::schema::next_bound(
                    offsets_model,
                    offsets_model.len(),
                    lnn,
                ) ==> definition.block_handle@[m] == written[m]);
        }
        assert(sv_wf(ghost_sv) && ghost_sv@ == spec_load_value(contents@).unwrap());
    }
    Ok(definition)
}

/// Reads a definition's record back into a parsed value, descending
/// through at most `fuel` levels of arena views.
pub fn definition_to_value<T: Schematize>(object: &BlockDefinition<T>, fuel: u64) -> (r:
    SchemaValue)
    requires
        object.wf(),
    ensures
        r@ == object.definition.val_of(object.block_handle@, fuel as nat),
        sv_wf(r),
{
    object.definition.serialize(&object.block_handle, fuel)
}

/// Serializes a loaded definition back into formatted definition text:
/// the rendering of the parsed value its record stands for.
pub fn serialize_definition<T: Schematize>(object: &BlockDefinition<T>) -> (r: String)
    requires
        object.wf(),
    ensures
        exists|sv: SchemaValue|
            (#[trigger] sv@) == object.definition.val_of(
                object.block_handle@,
                u64::MAX as nat,
            ) && sv_wf(sv) && r@ == spec_format(sv, 0),
{
    let schema_value = definition_to_value(object, u64::MAX);
    let mut serialize_context = SerializeContext::new();
    format_schema_value(&schema_value, &mut serialize_context);
    proof {
        assert(Seq::<char>::empty() + spec_format(schema_value, 0) =~= spec_format(
            schema_value,
            0,
        ));
    }
    serialize_context.string
}

} // verus!
