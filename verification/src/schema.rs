//! The schema conformance contract and the two pass contexts.
//!
//! Every storable type implements [`Schematize`]: default construction,
//! layout sizing, writing into the arena, and serialization back to a
//! [`SchemaValue`]. The sizing pass and the writing pass traverse fields
//! in the same declared order; the offset table built by the first is
//! consumed, entry by entry, by the second. The contracts here pin that
//! lockstep down: sizing appends exactly `dyn_count` offsets, in order and
//! within the arena, writing consumes exactly `dyn_count` of them, writes
//! nothing below its next pending entry, and leaves a record that reads
//! back as the model it bound.

use vstd::prelude::*;

use crate::block::BlockHandle;
use crate::layout::{Layout, LayoutError};
use crate::model::Val;
use crate::value::{sv_depth, sv_wf, SchemaError, SchemaResult, SchemaValue};

verus! {

/// State of the writing pass: the block of memory being deserialized
/// into, the offset table built by the sizing pass, the cursor that
/// consumes it, and the dotted field path used in diagnostics.
pub struct DeserializeContext {
    /// The allocated block of memory to deserialize into.
    pub block: BlockHandle,
    /// Byte offsets of dynamic fields, built by the sizing pass.
    pub offsets: Vec<usize>,
    /// Cursor into `offsets`, advanced once per dynamic field written.
    pub offset_index: usize,
    /// The field path while deserializing nested objects, e.g. `inner.point.x`.
    pub path: Vec<String>,
}

/// The views of a path's segments.
pub open spec fn path_model(path: Seq<String>) -> Seq<Seq<char>> {
    path.map_values(|s: String| s@)
}

/// All of a path's segments, joined.
pub open spec fn spec_joined(path: Seq<Seq<char>>) -> Seq<char>
    decreases path,
{
    if path.len() == 0 {
        Seq::empty()
    } else {
        spec_joined(path.drop_last()) + path.last()
    }
}

/// The dotted field path a joined path renders as: the leading period of
/// the first segment is trimmed off.
pub open spec fn spec_path_string(path: Seq<Seq<char>>) -> Seq<char> {
    let full = spec_joined(path);
    if full.len() > 0 {
        full.subrange(1, full.len() as int)
    } else {
        full
    }
}

impl DeserializeContext {
    /// The dotted field path currently being deserialized, for diagnostics.
    pub fn get_path(&self) -> (r: String)
        ensures
            r@ == spec_path_string(path_model(self.path@)),
    {
        let mut full = String::new();
        let n = self.path.len();
        let mut k: usize = 0;
        while k < n
            invariant
                k <= n,
                n == self.path@.len(),
                full@ == spec_joined(path_model(self.path@).subrange(0, k as int)),
            decreases n - k,
        {
            full.append(self.path[k].as_str());
            proof {
                let p = path_model(self.path@);
                assert(p.subrange(0, k + 1).drop_last() =~= p.subrange(0, k as int));
                assert(p.subrange(0, k + 1).last() == self.path@[k as int]@);
            }
            k = k + 1;
        }
        proof {
            assert(path_model(self.path@).subrange(0, n as int) =~= path_model(self.path@));
        }
        let full_len = full.as_str().unicode_len();
        if full_len > 0 {
            // trim off the first character, the leading period
            let trimmed = full.as_str().substring_char(1, full_len);
            trimmed.to_owned()
        } else {
            full
        }
    }
}

/// State of serialization: the formatted text built so far and the
/// current indentation depth.
pub struct SerializeContext {
    /// The formatted text built so far.
    pub string: String,
    /// Current indentation depth, two spaces per level.
    pub tabs: usize,
}

/// The characters one indentation renders as.
pub open spec fn spec_tabs(n: nat) -> Seq<char>
    decreases n,
{
    if n == 0 {
        Seq::empty()
    } else {
        spec_tabs((n - 1) as nat) + seq![' ', ' ']
    }
}

impl SerializeContext {
    /// A fresh serialization at indentation zero.
    pub fn new() -> (r: SerializeContext)
        ensures
            r.string@ == Seq::<char>::empty(),
            r.tabs == 0,
    {
        SerializeContext { string: String::new(), tabs: 0 }
    }

    /// Appends text to the output.
    pub fn print(&mut self, content: &str)
        ensures
            final(self).string@ == old(self).string@ + content@,
            final(self).tabs == old(self).tabs,
    {
        self.string.append(content);
    }

    /// Appends the current indentation to the output.
    pub fn print_tabs(&mut self)
        ensures
            final(self).string@ == old(self).string@ + spec_tabs(old(self).tabs as nat),
            final(self).tabs == old(self).tabs,
    {
        let n = self.tabs;
        let mut k: usize = 0;
        while k < n
            invariant
                k <= n,
                n == self.tabs,
                self.string@ == old(self).string@ + spec_tabs(k as nat),
            decreases n - k,
        {
            proof {
                reveal_strlit("  ");
                assert("  "@ =~= seq![' ', ' ']);
            }
            self.string.append("  ");
            k = k + 1;
        }
    }

    /// Appends a line break to the output.
    pub fn println(&mut self)
        ensures
            final(self).string@ == old(self).string@ + seq!['\n'],
            final(self).tabs == old(self).tabs,
    {
        proof {
            reveal_strlit("\n");
            assert("\n"@ =~= seq!['\n']);
        }
        self.string.append("\n");
    }
}

/// The next pending entry of the offset table, or the arena's end once
/// the table is consumed: the low edge of the bytes a writing step may
/// still touch.
pub open spec fn next_bound(offsets: Seq<usize>, idx: nat, len: nat) -> int {
    if idx < offsets.len() {
        offsets[idx as int] as int
    } else {
        len as int
    }
}

/// A well-formed offset table: entries in nondecreasing order, none past
/// the arena's end — what a single sizing pass produces.
pub open spec fn table_sorted(offsets: Seq<usize>, len: nat) -> bool {
    &&& forall|k1: int, k2: int|
        0 <= k1 <= k2 < offsets.len() ==> (#[trigger] offsets[k1]) <= (#[trigger] offsets[k2])
    &&& forall|k: int| 0 <= k < offsets.len() ==> (#[trigger] offsets[k]) <= len
}

/// Over a well-formed table, the pending bound never moves backwards as
/// the cursor advances.
pub proof fn lemma_next_bound_mono(offsets: Seq<usize>, i1: nat, i2: nat, len: nat)
    requires
        table_sorted(offsets, len),
        i1 <= i2,
    ensures
        next_bound(offsets, i1, len) <= next_bound(offsets, i2, len),
{
}

/// A run of offset-table entries confined to a window: each entry between
/// the two bounds, in nondecreasing order.
pub open spec fn run_bounded(offs: Seq<usize>, lo: int, hi: int) -> bool {
    &&& forall|k: int| 0 <= k < offs.len() ==> lo <= (#[trigger] offs[k]) <= hi
    &&& forall|k1: int, k2: int|
        0 <= k1 <= k2 < offs.len() ==> (#[trigger] offs[k1]) <= (#[trigger] offs[k2])
}

/// Two adjacent confined runs concatenate to one confined run.
pub proof fn lemma_run_concat(a: Seq<usize>, b: Seq<usize>, lo: int, mid: int, hi: int)
    requires
        run_bounded(a, lo, mid),
        run_bounded(b, mid, hi),
        lo <= mid <= hi,
    ensures
        run_bounded(a + b, lo, hi),
{
    assert(forall|k: int| 0 <= k < a.len() ==> (a + b)[k] == a[k]);
    assert(forall|k: int| a.len() <= k < (a + b).len() ==> (a + b)[k] == b[k - a.len()]);
}

/// The operation set every storable type supplies: default construction,
/// layout sizing, writing into the arena, and serialization back to a
/// [`SchemaValue`]. The sizing pass ([`Schematize::build_layout`]) and the
/// writing pass ([`Schematize::deserialize`]) must agree on which values
/// use dynamic memory and visit fields in the same order, so that the
/// offset table lines up; the contracts here enforce that agreement.
pub trait Schematize: Sized {
    /// Fixed byte size of this type's encoding in the arena.
    spec fn model_size() -> nat;

    /// Byte alignment of this type within the arena.
    spec fn model_align() -> nat;

    /// The structurally valid zero value deserialization starts from.
    spec fn spec_default() -> Self;

    /// Structural well-formedness of a value's arena views.
    spec fn inv(self) -> bool;

    /// The value a fixed-size byte image of this type decodes to.
    spec fn decode(bytes: Seq<u8>) -> Self;

    /// Outcome of validating a parsed value against this type: `None`
    /// when the writing pass accepts it, otherwise exactly the error the
    /// pass reports.
    spec fn verdict(v: Val) -> Option<SchemaError>;

    /// Offset-table entries a value of this shape uses: one per dynamic
    /// field, in traversal order. Sizing appends this many entries and
    /// writing consumes this many.
    spec fn dyn_count(v: Val) -> nat;

    /// Mirror of the sizing pass: the layout after this value and the
    /// offsets appended for it, or `None` when the block would overflow.
    spec fn spec_layout(v: Val, l: Layout) -> Option<(Layout, Seq<usize>)>;

    /// The offset-table entries from `idx` on suit value `v` in an arena
    /// of `len` bytes: enough entries, and every write they call for
    /// lands inside the arena.
    spec fn table_ok(v: Val, offsets: Seq<usize>, idx: nat, len: nat) -> bool;

    /// The model this value stands for, its dynamic content read back
    /// from the arena, descending at most `d` levels of views.
    spec fn val_of(self, arena: Seq<u8>, d: nat) -> Val;

    /// The model the writing pass binds a parsed value to: the parsed
    /// value itself, save that a payload handed to a bare enum variant is
    /// dropped (the pass ignores it, as the grammar allows one).
    spec fn loaded(sv: SchemaValue) -> Val;

    /// Constant facts of this type's layout and default.
    proof fn layout_properties()
        ensures
            Self::model_align() >= 1,
            Self::model_align() <= usize::MAX,
            Self::model_size() >= 1,
            (Self::model_size() as int) % (Self::model_align() as int) == 0,
            Self::model_size() <= usize::MAX,
            Self::spec_default().inv(),
    ;

    /// What a successful sizing step guarantees: a well-formed layout that
    /// only grew, and one appended offset per dynamic field.
    proof fn layout_facts(v: Val, l: Layout)
        requires
            l.wf(),
            Self::spec_layout(v, l) is Some,
        ensures
            Self::spec_layout(v, l).unwrap().0.wf(),
            Self::spec_layout(v, l).unwrap().0.size >= l.size,
            Self::spec_layout(v, l).unwrap().0.align >= l.align,
            Self::spec_layout(v, l).unwrap().1.len() == Self::dyn_count(v),
            forall|k: int|
                0 <= k < Self::spec_layout(v, l).unwrap().1.len() ==> l.size <= (
                #[trigger] Self::spec_layout(v, l).unwrap().1[k]) <= Self::spec_layout(
                    v,
                    l,
                ).unwrap().0.size,
            forall|k1: int, k2: int|
                0 <= k1 <= k2 < Self::spec_layout(v, l).unwrap().1.len() ==> (
                #[trigger] Self::spec_layout(v, l).unwrap().1[k1]) <= (#[trigger] Self::spec_layout(
                    v,
                    l,
                ).unwrap().1[k2]),
    ;

    /// The offsets a sizing step appends suit the value in any arena at
    /// least as large as the resulting layout: the central lockstep
    /// property that lets the writing pass consume the table blindly.
    proof fn layout_fits(v: Val, l: Layout, offsets: Seq<usize>, idx: nat, len: nat)
        requires
            l.wf(),
            Self::spec_layout(v, l) is Some,
            idx + Self::spec_layout(v, l).unwrap().1.len() <= offsets.len(),
            offsets.subrange(
                idx as int,
                idx + Self::spec_layout(v, l).unwrap().1.len() as int,
            ) == Self::spec_layout(v, l).unwrap().1,
            Self::spec_layout(v, l).unwrap().0.size <= len,
            next_bound(offsets, (idx + Self::spec_layout(v, l).unwrap().1.len()) as nat, len)
                >= Self::spec_layout(v, l).unwrap().0.size,
        ensures
            Self::table_ok(v, offsets, idx, len),
    ;

    /// The fixed byte size of this type's encoding.
    fn schema_size() -> (n: usize)
        ensures
            n as nat == Self::model_size(),
    ;

    /// The byte alignment of this type within the arena.
    fn schema_align() -> (a: usize)
        ensures
            a as nat == Self::model_align(),
    ;

    /// A structurally valid zero value.
    fn schema_default() -> (r: Self)
        ensures
            r == Self::spec_default(),
    ;

    /// Writes this value's fixed-size encoding at byte offset `off` of
    /// the block; bytes outside that window keep their values.
    fn store(&self, block: &mut BlockHandle, off: usize)
        requires
            self.inv(),
            off + Self::model_size() <= old(block)@.len(),
        ensures
            final(block)@.len() == old(block)@.len(),
            forall|m: int|
                0 <= m < old(block)@.len() && !(off <= m < off + Self::model_size())
                    ==> #[trigger] final(block)@[m] == old(block)@[m],
            Self::decode(final(block)@.subrange(off as int, off + Self::model_size())) == *self,
    ;

    /// Reads a value of this type back from its fixed-size encoding at
    /// byte offset `off` of the block.
    fn load(block: &BlockHandle, off: usize) -> (r: Self)
        requires
            off + Self::model_size() <= block@.len(),
        ensures
            r == Self::decode(block@.subrange(off as int, off + Self::model_size())),
            r.inv(),
    ;

    /// The sizing pass: extends the running layout by whatever dynamic
    /// memory this value needs, appending the byte offset of each dynamic
    /// field to the table, in traversal order. A no-op for statically
    /// sized types, and for mismatched value kinds (validation is the
    /// writing pass's job). On failure the caller discards the table,
    /// which may hold a partial run.
    fn build_layout(v: &SchemaValue, layout: Layout, offsets: &mut Vec<usize>) -> (r: Result<
        Layout,
        LayoutError,
    >)
        requires
            sv_wf(*v),
            layout.wf(),
        ensures
            final(offsets)@.len() >= old(offsets)@.len(),
            forall|m: int|
                0 <= m < old(offsets)@.len() ==> #[trigger] final(offsets)@[m] == old(
                    offsets,
                )@[m],
            match r {
                Ok(l2) => Self::spec_layout(v@, layout) == Some(
                    (l2, final(offsets)@.skip(old(offsets)@.len() as int)),
                ),
                Err(_) => Self::spec_layout(v@, layout) is None,
            },
    ;

    /// The writing pass: validates the parsed value against this type,
    /// writes any dynamic data at the offsets the table holds, consuming
    /// exactly one entry per dynamic field, and produces the typed value.
    /// Rejects the value with exactly the verdict error.
    fn deserialize(v: &SchemaValue, context: &mut DeserializeContext) -> (r: SchemaResult<Self>)
        requires
            sv_wf(*v),
            table_sorted(old(context).offsets@, old(context).block@.len() as nat),
            Self::table_ok(
                v@,
                old(context).offsets@,
                old(context).offset_index as nat,
                old(context).block@.len() as nat,
            ),
        ensures
            final(context).offsets@ == old(context).offsets@,
            final(context).block@.len() == old(context).block@.len(),
            forall|m: int|
                0 <= m < next_bound(
                    old(context).offsets@,
                    old(context).offset_index as nat,
                    old(context).block@.len() as nat,
                ) ==> #[trigger] final(context).block@[m] == old(context).block@[m],
            match r {
                Ok(x) => Self::verdict(v@) is None && x.inv() && final(context).offset_index
                    == old(context).offset_index + Self::dyn_count(v@) && final(context).path@
                    == old(context).path@ && (forall|other: Seq<u8>, d: nat|
                    (other.len() == final(context).block@.len() && d >= sv_depth(*v) && (
                    forall|m: int|
                        next_bound(
                            old(context).offsets@,
                            old(context).offset_index as nat,
                            old(context).block@.len() as nat,
                        ) <= m < next_bound(
                            old(context).offsets@,
                            final(context).offset_index as nat,
                            old(context).block@.len() as nat,
                        ) ==> other[m] == final(context).block@[m])) ==> #[trigger] x.val_of(
                        other,
                        d,
                    ) == Self::loaded(*v)),
                Err(e) => Self::verdict(v@) == Some(e),
            },
    ;

    /// The serialization inverse of the writing pass: reads this value's
    /// dynamic content back out of the block and renders the value model
    /// it stands for, descending through at most `fuel` levels of views.
    fn serialize(&self, block: &BlockHandle, fuel: u64) -> (r: SchemaValue)
        requires
            self.inv(),
        ensures
            r@ == self.val_of(block@, fuel as nat),
            sv_wf(r),
    ;
}

/// Splits one table equation over a concatenation: when a run of the
/// offset table equals `a + b`, its two halves equal `a` and `b`.
pub proof fn lemma_subrange_concat_split(offsets: Seq<usize>, idx: int, a: Seq<usize>, b: Seq<usize>)
    requires
        0 <= idx,
        idx + a.len() + b.len() <= offsets.len(),
        offsets.subrange(idx, idx + a.len() + b.len()) == a + b,
    ensures
        offsets.subrange(idx, idx + a.len()) == a,
        offsets.subrange(idx + a.len(), idx + a.len() + b.len()) == b,
{
    assert(offsets.subrange(idx, idx + a.len()) =~= (a + b).subrange(0, a.len() as int));
    assert((a + b).subrange(0, a.len() as int) =~= a);
    assert(offsets.subrange(idx + a.len(), idx + a.len() + b.len()) =~= (a + b).subrange(
        a.len() as int,
        (a + b).len() as int,
    ));
    assert((a + b).subrange(a.len() as int, (a + b).len() as int) =~= b);
}

/// A tail of a sequence splits at any later point into a run and the
/// remaining tail.
pub proof fn lemma_skip_concat(s: Seq<usize>, i: int, j: int)
    requires
        0 <= i <= j <= s.len(),
    ensures
        s.skip(i) == s.subrange(i, j) + s.skip(j),
{
    assert(s.skip(i) =~= s.subrange(i, j) + s.skip(j));
}

} // verus!
