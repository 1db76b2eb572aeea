//! Schema conformance for dynamically sized arrays: a view of elements
//! packed back to back into the arena, as a (pointer-into-arena, element
//! count) pair. Elements may themselves own dynamic memory; their offsets
//! follow the array's own entry in the offset table, in element order.

use core::marker::PhantomData;

use vstd::prelude::*;

use crate::block::{BlockHandle, BlockPointer};
use crate::layout::{Layout, LayoutError};
use crate::model::Val;
use crate::schema::{next_bound, table_sorted, DeserializeContext, Schematize};
use crate::value::{
    array_model, items_depth, lemma_array_model, lemma_depth_bounds, sv_depth, sv_wf,
    SchemaError, SchemaResult, SchemaValue,
};

verus! {

/// An array stored in the arena: a pointer to its packed elements and
/// their count. An empty array owns no bytes and its pointer is null.
pub struct SchemaArray<T> {
    /// Pointer to the array's packed elements within the arena.
    pub block_ptr: BlockPointer,
    /// Number of elements.
    pub len: usize,
    /// The element type the packed bytes decode as.
    pub element: PhantomData<T>,
}

/// Byte window of the `k`-th packed element of an array starting at byte
/// offset `off`.
pub open spec fn elem_window<T: Schematize>(arena: Seq<u8>, off: nat, k: int) -> Seq<u8> {
    arena.subrange(off + k * T::model_size(), off + (k + 1) * T::model_size())
}

/// First validation error among an array's members, in element order.
pub open spec fn arr_verdict<T: Schematize>(items: Seq<Val>) -> Option<SchemaError>
    decreases items.len(),
{
    if items.len() == 0 {
        None
    } else {
        match T::verdict(items[0]) {
            Some(e) => Some(e),
            None => arr_verdict::<T>(items.drop_first()),
        }
    }
}

/// Offset-table entries an array's members use, in element order.
pub open spec fn arr_dyn_count<T: Schematize>(items: Seq<Val>) -> nat
    decreases items.len(),
{
    if items.len() == 0 {
        0
    } else {
        T::dyn_count(items[0]) + arr_dyn_count::<T>(items.drop_first())
    }
}

/// Mirror of the sizing pass over an array's members, in element order.
pub open spec fn arr_layout<T: Schematize>(items: Seq<Val>, l: Layout) -> Option<
    (Layout, Seq<usize>),
>
    decreases items.len(),
{
    if items.len() == 0 {
        Some((l, Seq::empty()))
    } else {
        match T::spec_layout(items[0], l) {
            Some((l1, offs1)) => match arr_layout::<T>(items.drop_first(), l1) {
                Some((l2, offs2)) => Some((l2, offs1 + offs2)),
                None => None,
            },
            None => None,
        }
    }
}

/// The offset-table entries from `idx` on suit an array's members.
pub open spec fn arr_table_ok<T: Schematize>(
    items: Seq<Val>,
    offsets: Seq<usize>,
    idx: nat,
    len: nat,
) -> bool
    decreases items.len(),
{
    if items.len() == 0 {
        idx <= offsets.len()
    } else {
        T::table_ok(items[0], offsets, idx, len) && arr_table_ok::<T>(
            items.drop_first(),
            offsets,
            idx + T::dyn_count(items[0]),
            len,
        )
    }
}

/// What a successful sizing pass over members guarantees, member by
/// member: the layout only grows and each member appends its own count.
pub proof fn arr_layout_facts<T: Schematize>(items: Seq<Val>, l: Layout)
    requires
        l.wf(),
        arr_layout::<T>(items, l) is Some,
    ensures
        arr_layout::<T>(items, l).unwrap().0.wf(),
        arr_layout::<T>(items, l).unwrap().0.size >= l.size,
        arr_layout::<T>(items, l).unwrap().0.align >= l.align,
        arr_layout::<T>(items, l).unwrap().1.len() == arr_dyn_count::<T>(items),
        forall|k: int|
            0 <= k < arr_layout::<T>(items, l).unwrap().1.len() ==> l.size <= (
            #[trigger] arr_layout::<T>(items, l).unwrap().1[k]) <= arr_layout::<T>(
                items,
                l,
            ).unwrap().0.size,
        forall|k1: int, k2: int|
            0 <= k1 <= k2 < arr_layout::<T>(items, l).unwrap().1.len() ==> (
            #[trigger] arr_layout::<T>(items, l).unwrap().1[k1]) <= (#[trigger] arr_layout::<T>(
                items,
                l,
            ).unwrap().1[k2]),
    decreases items.len(),
{
    if items.len() > 0 {
        let (l1, offs1) = T::spec_layout(items[0], l).unwrap();
        let (l2, offs2) = arr_layout::<T>(items.drop_first(), l1).unwrap();
        T::layout_facts(items[0], l);
        arr_layout_facts::<T>(items.drop_first(), l1);
        let app = offs1 + offs2;
        assert(forall|k: int| 0 <= k < offs1.len() ==> app[k] == offs1[k]);
        assert(forall|k: int|
            offs1.len() <= k < app.len() ==> app[k] == offs2[k - offs1.len()]);
    }
}

/// The offsets a sizing pass over members appends suit the members in any
/// arena at least as large as the resulting layout.
pub proof fn arr_layout_fits<T: Schematize>(
    items: Seq<Val>,
    l: Layout,
    offsets: Seq<usize>,
    idx: nat,
    len: nat,
)
    requires
        l.wf(),
        arr_layout::<T>(items, l) is Some,
        idx + arr_layout::<T>(items, l).unwrap().1.len() <= offsets.len(),
        offsets.subrange(idx as int, idx + arr_layout::<T>(items, l).unwrap().1.len() as int)
            == arr_layout::<T>(items, l).unwrap().1,
        arr_layout::<T>(items, l).unwrap().0.size <= len,
        next_bound(offsets, (idx + arr_layout::<T>(items, l).unwrap().1.len()) as nat, len)
            >= arr_layout::<T>(items, l).unwrap().0.size,
    ensures
        arr_table_ok::<T>(items, offsets, idx, len),
    decreases items.len(),
{
    if items.len() > 0 {
        let (l1, offs1) = T::spec_layout(items[0], l).unwrap();
        let (l2, offs2) = arr_layout::<T>(items.drop_first(), l1).unwrap();
        T::layout_facts(items[0], l);
        arr_layout_facts::<T>(items.drop_first(), l1);
        assert(offsets.subrange(idx as int, idx + offs1.len() as int) =~= (offs1
            + offs2).subrange(0, offs1.len() as int));
        assert((offs1 + offs2).subrange(0, offs1.len() as int) =~= offs1);
        // the bytes past this member's run begin at or after its layout:
        // the next entry is the rest's first offset, or the whole run's end
        if offs2.len() > 0 {
            assert(offsets[idx + offs1.len() as int] == (offs1 + offs2)[offs1.len() as int]);
            assert((offs1 + offs2)[offs1.len() as int] == offs2[0]);
            assert(next_bound(offsets, (idx + offs1.len()) as nat, len) >= l1.size as int);
        } else {
            assert(next_bound(offsets, (idx + offs1.len()) as nat, len) >= l1.size as int);
        }
        T::layout_fits(items[0], l, offsets, idx, len);
        assert(offsets.subrange(
            idx + offs1.len() as int,
            idx + offs1.len() + offs2.len() as int,
        ) =~= (offs1 + offs2).subrange(offs1.len() as int, offs1.len() + offs2.len() as int));
        assert((offs1 + offs2).subrange(offs1.len() as int, offs1.len() + offs2.len() as int)
            =~= offs2);
        arr_layout_fits::<T>(items.drop_first(), l1, offsets, (idx + offs1.len()) as nat, len);
    }
}

/// The models an array's parsed members are bound to, in order.
pub open spec fn arr_loaded<T: Schematize>(items: Seq<SchemaValue>) -> Seq<Val>
    decreases items,
{
    if items.len() == 0 {
        Seq::empty()
    } else {
        seq![T::loaded(items[0])] + arr_loaded::<T>(items.drop_first())
    }
}

/// The bound members, member by member.
pub proof fn lemma_arr_loaded<T: Schematize>(items: Seq<SchemaValue>)
    ensures
        arr_loaded::<T>(items).len() == items.len(),
        forall|k: int|
            0 <= k < items.len() ==> #[trigger] arr_loaded::<T>(items)[k] == T::loaded(items[k]),
    decreases items,
{
    if items.len() > 0 {
        lemma_arr_loaded::<T>(items.drop_first());
        assert(forall|k: int|
            0 <= k < items.len() - 1 ==> #[trigger] items.drop_first()[k] == items[k + 1]);
    }
}

impl<T: Schematize> SchemaArray<T> {
    /// Number of elements this view holds.
    pub fn len(&self) -> (r: usize)
        ensures
            r == self.len,
    {
        self.len
    }

    /// A view assembled from its parts; the caller answers for their
    /// consistency with the arena.
    pub fn from_raw_parts(block_ptr: BlockPointer, len: usize) -> (r: SchemaArray<T>)
        ensures
            r.block_ptr == block_ptr,
            r.len == len,
    {
        SchemaArray { block_ptr, len, element: PhantomData }
    }

    /// The elements this view stands for, decoded out of their block;
    /// `None` for the null view, or when the view does not fit the block.
    #[verifier::loop_isolation(false)]
    pub fn as_slice(&self, block: &BlockHandle) -> (r: Option<Vec<T>>)
        requires
            self.inv(),
        ensures
            match r {
                Some(v) => !self.block_ptr.absent && v@.len() == self.len
                    && self.block_ptr.offset + self.len * T::model_size() <= block@.len() && (
                forall|k: int|
                    0 <= k < self.len ==> #[trigger] v@[k] == T::decode(
                        elem_window::<T>(block@, self.block_ptr.offset as nat, k),
                    ) && v@[k].inv()),
                None => self.block_ptr.absent || self.block_ptr.offset + self.len
                    * T::model_size() > block@.len(),
            },
    {
        if self.block_ptr.is_null() {
            return None;
        }
        let total = block.len();
        let off = self.block_ptr.get_offset();
        let size = T::schema_size();
        match crate::layout::array_size(size, self.len) {
            Ok(bytes) => {
                if off > total || bytes > total - off {
                    return None;
                }
                let mut out: Vec<T> = Vec::new();
                let mut k: usize = 0;
                while k < self.len
                    invariant
                        k <= self.len,
                        size as nat == T::model_size(),
                        off == self.block_ptr.offset,
                        off + self.len * size <= block@.len(),
                        block@.len() == total,
                        out@.len() == k,
                        forall|m: int|
                            0 <= m < k ==> #[trigger] out@[m] == T::decode(
                                elem_window::<T>(block@, off as nat, m),
                            ) && out@[m].inv(),
                    decreases self.len - k,
                {
                    proof {
                        assert((k + 1) * size as int <= self.len * size as int)
                            by (nonlinear_arith)
                            requires
                                k < self.len,
                                size >= 0,
                        ;
                        assert(k * size as int >= 0) by (nonlinear_arith)
                            requires
                                k >= 0,
                                size >= 0,
                        ;
                        assert((k + 1) * size as int == k * size as int + size as int)
                            by (nonlinear_arith);
                    }
                    let elem = T::load(block, off + k * size);
                    out.push(elem);
                    k = k + 1;
                }
                Some(out)
            },
            Err(_) => {
                proof {
                    assert(self.len * T::model_size() > usize::MAX as nat);
                }
                None
            },
        }
    }
}

/// Serializes decoded elements back into one parsed-value array, in order.
#[verifier::loop_isolation(false)]
pub fn serialize_array<T: Schematize>(elems: &Vec<T>, block: &BlockHandle, fuel: u64) -> (r:
    SchemaValue)
    requires
        forall|k: int| 0 <= k < elems@.len() ==> (#[trigger] elems@[k]).inv(),
    ensures
        r@ == Val::Array(
            Seq::new(elems@.len(), |k: int| elems@[k].val_of(block@, fuel as nat)),
        ),
        sv_wf(r),
    decreases fuel, 2int, 0int,
{
    let mut items: Vec<SchemaValue> = Vec::new();
    let n = elems.len();
    let mut k: usize = 0;
    while k < n
        invariant
            k <= n,
            n == elems@.len(),
            items@.len() == k,
            forall|m: int| 0 <= m < elems@.len() ==> (#[trigger] elems@[m]).inv(),
            forall|m: int|
                0 <= m < k ==> (#[trigger] items@[m])@ == elems@[m].val_of(block@, fuel as nat),
            forall|m: int| 0 <= m < k ==> sv_wf(#[trigger] items@[m]),
        decreases n - k,
    {
        let sv = elems[k].serialize(block, fuel);
        items.push(sv);
        k = k + 1;
    }
    let r = SchemaValue::Array(items);
    proof {
        lemma_array_model(r->Array_0@);
        assert(array_model(r->Array_0@) =~= Seq::new(
            elems@.len(),
            |k: int| elems@[k].val_of(block@, fuel as nat),
        ));
    }
    r
}

impl<T: Schematize> Schematize for SchemaArray<T> {
    open spec fn model_size() -> nat {
        16
    }

    open spec fn model_align() -> nat {
        8
    }

    open spec fn spec_default() -> SchemaArray<T> {
        SchemaArray { block_ptr: BlockPointer { offset: 0, absent: true }, len: 0, element: PhantomData }
    }

    open spec fn inv(self) -> bool {
        &&& self.block_ptr.absent <==> self.len == 0
        &&& self.block_ptr.absent ==> self.block_ptr.offset == 0
    }

    open spec fn decode(bytes: Seq<u8>) -> SchemaArray<T> {
        let off = vstd::bytes::spec_u64_from_le_bytes(bytes.subrange(0, 8)) as usize;
        let ln = vstd::bytes::spec_u64_from_le_bytes(bytes.subrange(8, 16)) as usize;
        if ln == 0 {
            Self::spec_default()
        } else {
            SchemaArray {
                block_ptr: BlockPointer { offset: off, absent: false },
                len: ln,
                element: PhantomData,
            }
        }
    }

    open spec fn verdict(v: Val) -> Option<SchemaError> {
        match v {
            Val::Array(items) => arr_verdict::<T>(items),
            _ => Some(SchemaError::WrongSchemaValue),
        }
    }

    open spec fn dyn_count(v: Val) -> nat {
        match v {
            Val::Array(items) => if items.len() > 0 {
                1 + arr_dyn_count::<T>(items)
            } else {
                0
            },
            _ => 0,
        }
    }

    open spec fn spec_layout(v: Val, l: Layout) -> Option<(Layout, Seq<usize>)> {
        match v {
            Val::Array(items) => if items.len() == 0 {
                // array of size zero: no dynamic memory
                Some((l, Seq::empty()))
            } else {
                match crate::layout::spec_array_size(T::model_size(), items.len()) {
                    Some(array_bytes) => match l.spec_extend(
                        Layout { size: array_bytes as usize, align: T::model_align() as usize },
                    ) {
                        Some((l2, off)) => match l2.spec_pad() {
                            Some(l3) => match arr_layout::<T>(items, l3) {
                                Some((lf, elem_offs)) => Some(
                                    (lf, seq![off as usize] + elem_offs),
                                ),
                                None => None,
                            },
                            None => None,
                        },
                        None => None,
                    },
                    None => None,
                }
            },
            // mismatched value kind: no-op, validation is the writing pass's job
            _ => Some((l, Seq::empty())),
        }
    }

    open spec fn table_ok(v: Val, offsets: Seq<usize>, idx: nat, len: nat) -> bool {
        match v {
            Val::Array(items) => if items.len() > 0 {
                &&& idx < offsets.len()
                &&& offsets[idx as int] + items.len() * T::model_size() <= len
                &&& offsets[idx as int] + items.len() * T::model_size() <= next_bound(
                    offsets,
                    (idx + 1) as nat,
                    len,
                )
                &&& arr_table_ok::<T>(items, offsets, (idx + 1) as nat, len)
            } else {
                idx <= offsets.len()
            },
            _ => idx <= offsets.len(),
        }
    }

    open spec fn val_of(self, arena: Seq<u8>, d: nat) -> Val {
        if self.block_ptr.absent || self.len == 0 || d == 0 || self.block_ptr.offset + self.len
            * T::model_size() > arena.len() {
            Val::Array(Seq::empty())
        } else {
            Val::Array(
                Seq::new(
                    self.len as nat,
                    |k: int|
                        T::decode(
                            elem_window::<T>(arena, self.block_ptr.offset as nat, k),
                        ).val_of(arena, (d - 1) as nat),
                ),
            )
        }
    }

    open spec fn loaded(sv: SchemaValue) -> Val
        decreases sv,
    {
        match sv {
            SchemaValue::Array(items) => Val::Array(arr_loaded::<T>(items@)),
            _ => Val::Null,
        }
    }

    proof fn layout_properties() {
    }

    proof fn layout_facts(v: Val, l: Layout) {
        match v {
            Val::Array(items) => {
                if items.len() > 0 {
                    T::layout_properties();
                    let array_bytes = crate::layout::spec_array_size(
                        T::model_size(),
                        items.len(),
                    ).unwrap();
                    let item_layout = Layout {
                        size: array_bytes as usize,
                        align: T::model_align() as usize,
                    };
                    crate::layout::lemma_round_up(l.size as nat, item_layout.align as nat);
                    let (l2, off) = l.spec_extend(item_layout).unwrap();
                    crate::layout::lemma_round_up(l2.size as nat, l2.align as nat);
                    let l3 = l2.spec_pad().unwrap();
                    arr_layout_facts::<T>(items, l3);
                    let (lf, elem_offs) = arr_layout::<T>(items, l3).unwrap();
                    let appended = seq![off as usize] + elem_offs;
                    assert(appended[0] == off as usize);
                    assert(forall|k: int|
                        1 <= k < appended.len() ==> appended[k] == elem_offs[k - 1]);
                }
            },
            _ => {},
        }
    }

    proof fn layout_fits(v: Val, l: Layout, offsets: Seq<usize>, idx: nat, len: nat) {
        match v {
            Val::Array(items) => {
                if items.len() > 0 {
                    T::layout_properties();
                    let array_bytes = crate::layout::spec_array_size(
                        T::model_size(),
                        items.len(),
                    ).unwrap();
                    let item_layout = Layout {
                        size: array_bytes as usize,
                        align: T::model_align() as usize,
                    };
                    crate::layout::lemma_round_up(l.size as nat, item_layout.align as nat);
                    let (l2, off) = l.spec_extend(item_layout).unwrap();
                    crate::layout::lemma_round_up(l2.size as nat, l2.align as nat);
                    let l3 = l2.spec_pad().unwrap();
                    let (lf, elem_offs) = arr_layout::<T>(items, l3).unwrap();
                    arr_layout_facts::<T>(items, l3);
                    let appended = seq![off as usize] + elem_offs;
                    assert(offsets.subrange(idx as int, idx as int + 1)[0] == offsets[idx as int]);
                    assert(appended[0] == off as usize);
                    assert(offsets[idx as int] == off as usize);
                    assert(offsets.subrange(idx as int + 1, idx + appended.len() as int)
                        =~= appended.subrange(1, appended.len() as int));
                    assert(appended.subrange(1, appended.len() as int) =~= elem_offs);
                    // the bytes past the member block begin at or after the
                    // padded layout: the next entry is the first member's
                    // offset, or whatever follows the whole run
                    if elem_offs.len() > 0 {
                        assert(offsets[idx as int + 1] == elem_offs[0]);
                        assert(elem_offs[0] >= l3.size);
                        assert(next_bound(offsets, (idx + 1) as nat, len) >= l2.size as int);
                    } else {
                        assert(next_bound(offsets, (idx + 1) as nat, len) >= l2.size as int);
                    }
                    assert(offsets[idx as int] + items.len() * T::model_size() <= l2.size as int);
                    arr_layout_fits::<T>(items, l3, offsets, (idx + 1) as nat, len);
                }
            },
            _ => {},
        }
    }

    fn schema_size() -> usize {
        16
    }

    fn schema_align() -> usize {
        8
    }

    fn schema_default() -> SchemaArray<T> {
        SchemaArray { block_ptr: BlockPointer::null(), len: 0, element: PhantomData }
    }

    fn store(&self, block: &mut BlockHandle, off: usize) {
        let total = block.len();
        proof {
            vstd::bytes::lemma_auto_spec_u64_to_from_le_bytes();
        }
        let off_bytes = vstd::bytes::u64_to_le_bytes(self.block_ptr.get_offset() as u64);
        block.write_bytes(off, off_bytes.as_slice());
        let ghost b0 = block@;
        let len_bytes = vstd::bytes::u64_to_le_bytes(self.len as u64);
        block.write_bytes(off + 8, len_bytes.as_slice());
        proof {
            let win = final(block)@.subrange(off as int, off + 16);
            assert(win.subrange(0, 8) =~= b0.subrange(off as int, off + 8));
            assert(win.subrange(8, 16) =~= final(block)@.subrange(off + 8, off + 16));
        }
    }

    fn load(block: &BlockHandle, off: usize) -> (r: SchemaArray<T>) {
        let total = block.len();
        let off_bytes = block.read_bytes(off, 8);
        let len_bytes = block.read_bytes(off + 8, 8);
        let stored_off = vstd::bytes::u64_from_le_bytes(off_bytes.as_slice());
        let stored_len = vstd::bytes::u64_from_le_bytes(len_bytes.as_slice());
        proof {
            let win = block@.subrange(off as int, off + 16);
            assert(win.subrange(0, 8) =~= block@.subrange(off as int, off + 8));
            assert(win.subrange(8, 16) =~= block@.subrange(off + 8, off + 16));
        }
        let out_off = #[verifier::truncate] (stored_off as usize);
        let out_len = #[verifier::truncate] (stored_len as usize);
        if out_len == 0 {
            SchemaArray { block_ptr: BlockPointer::null(), len: 0, element: PhantomData }
        } else {
            SchemaArray {
                block_ptr: BlockPointer::from_raw_parts(out_off),
                len: out_len,
                element: PhantomData,
            }
        }
    }

    #[verifier::loop_isolation(false)]
    fn build_layout(v: &SchemaValue, layout: Layout, offsets: &mut Vec<usize>) -> (r: Result<
        Layout,
        LayoutError,
    >) {
        match v {
            SchemaValue::Array(items) => {
                proof {
                    lemma_array_model(items@);
                }
                let ghost models = array_model(items@);
                if items.len() > 0 {
                    proof {
                        T::layout_properties();
                    }
                    let size = T::schema_size();
                    let align = T::schema_align();
                    match crate::layout::array_size(size, items.len()) {
                        Ok(array_bytes) => {
                            match layout.extend(Layout { size: array_bytes, align }) {
                                Ok((extended, offset)) => {
                                    offsets.push(offset);
                                    let ghost base = old(offsets)@.len() as int;
                                    match extended.pad_to_align() {
                                        Ok(padded) => {
                                            let mut running = padded;
                                            let mut k: usize = 0;
                                            proof {
                                                assert(models.skip(0) =~= models);
                                                assert(offsets@.skip(base + 1) =~= Seq::<
                                                    usize,
                                                >::empty());
                                            }
                                            while k < items.len()
                                                invariant
                                                    k <= items@.len(),
                                                    models == array_model(items@),
                                                    models.len() == items@.len(),
                                                    forall|m: int|
                                                        0 <= m < items@.len()
                                                            ==> #[trigger] models[m]
                                                            == items@[m]@,
                                                    running.wf(),
                                                    padded.wf(),
                                                    offsets@.len() >= base + 1,
                                                    forall|m: int|
                                                        0 <= m < base ==> offsets@[m] == old(
                                                            offsets,
                                                        )@[m],
                                                    offsets@[base] == offset,
                                                    arr_layout::<T>(models, padded) == (
                                                    match arr_layout::<T>(
                                                        models.skip(k as int),
                                                        running,
                                                    ) {
                                                        Some((lf, offs2)) => Some(
                                                            (
                                                                lf,
                                                                offsets@.skip(base + 1) + offs2,
                                                            ),
                                                        ),
                                                        None => None,
                                                    }),
                                                decreases items@.len() - k,
                                            {
                                                let ghost pre = offsets@.skip(base + 1);
                                                let ghost before = offsets@;
                                                proof {
                                                    assert(models.skip(k as int)[0]
                                                        == models[k as int]);
                                                    assert(models.skip(k as int).drop_first()
                                                        =~= models.skip(k + 1));
                                                }
                                                match T::build_layout(&items[k], running, offsets) {
                                                    Ok(next) => {
                                                        proof {
                                                            T::layout_facts(
                                                                models[k as int],
                                                                running,
                                                            );
                                                            let appended = offsets@.skip(
                                                                before.len() as int,
                                                            );
                                                            assert(offsets@.skip(base + 1)
                                                                =~= pre + appended);
                                                            lemma_arr_layout_shift::<T>(
                                                                models.skip(k + 1),
                                                                next,
                                                                pre,
                                                                appended,
                                                            );
                                                        }
                                                        running = next;
                                                    },
                                                    Err(e) => {
                                                        proof {
                                                            assert(arr_layout::<T>(
                                                                models.skip(k as int),
                                                                running,
                                                            ) is None);
                                                            assert(arr_layout::<T>(
                                                                models,
                                                                padded,
                                                            ) is None);
                                                            assert(Self::spec_layout(
                                                                v@,
                                                                layout,
                                                            ) is None);
                                                        }
                                                        return Err(e);
                                                    },
                                                }
                                                k = k + 1;
                                            }
                                            proof {
                                                assert(models.skip(items@.len() as int)
                                                    =~= Seq::<Val>::empty());
                                                assert(arr_layout::<T>(
                                                    models.skip(items@.len() as int),
                                                    running,
                                                ) == Some((running, Seq::<usize>::empty())));
                                                assert(offsets@.skip(base + 1) + Seq::<
                                                    usize,
                                                >::empty() =~= offsets@.skip(base + 1));
                                                assert(offsets@.skip(base) =~= seq![offset]
                                                    + offsets@.skip(base + 1));
                                            }
                                            Ok(running)
                                        },
                                        Err(e) => {
                                            proof {
                                                assert(Self::spec_layout(v@, layout) is None);
                                            }
                                            Err(e)
                                        },
                                    }
                                },
                                Err(e) => {
                                    proof {
                                        assert(Self::spec_layout(v@, layout) is None);
                                    }
                                    Err(e)
                                },
                            }
                        },
                        Err(e) => {
                            proof {
                                assert(Self::spec_layout(v@, layout) is None);
                            }
                            Err(e)
                        },
                    }
                } else {
                    // array of size zero: no-op
                    proof {
                        assert(final(offsets)@.skip(old(offsets)@.len() as int) =~= Seq::<
                            usize,
                        >::empty());
                    }
                    Ok(layout)
                }
            },
            _ => {
                // mismatched value kind: no-op, validation happens while writing
                proof {
                    assert(final(offsets)@.skip(old(offsets)@.len() as int) =~= Seq::<
                        usize,
                    >::empty());
                }
                Ok(layout)
            },
        }
    }


    #[verifier::loop_isolation(false)]
    #[verifier::rlimit(100)]
    fn deserialize(v: &SchemaValue, context: &mut DeserializeContext) -> (r: SchemaResult<
        SchemaArray<T>,
    >)
        ensures
            !(*v matches SchemaValue::Array(_)) ==> *final(context) == *old(context),
            match r {
                Ok(x) => (Self::dyn_count(v@) == 0 ==> x == Self::spec_default()) && (
                Self::dyn_count(v@) > 0 ==> !x.block_ptr.absent && x.block_ptr.offset == old(
                    context,
                ).offsets@[old(context).offset_index as int] && (v@ matches Val::Array(items)
                    && x.len == items.len())),
                _ => true,
            },
    {
        let ghost offs = old(context).offsets@;
        let ghost lnn = old(context).block@.len() as nat;
        match v {
            SchemaValue::Array(items) => {
                proof {
                    lemma_array_model(items@);
                    lemma_depth_bounds(Seq::empty(), items@);
                }
                let ghost models = array_model(items@);
                if items.len() > 0 {
                    let table_len = context.offsets.len();
                    let arena_len = context.block.len();
                    let offset_index = context.offset_index;
                    let byte_offset = context.offsets[offset_index];
                    context.offset_index = offset_index + 1;
                    let size = T::schema_size();
                    let mut k: usize = 0;
                    proof {
                        assert(models.skip(0) =~= models);
                    }
                    while k < items.len()
                        invariant
                            k <= items@.len(),
                            models == array_model(items@),
                            models.len() == items@.len(),
                            forall|m: int|
                                0 <= m < items@.len() ==> #[trigger] models[m] == items@[m]@,
                            forall|m: int|
                                0 <= m < items@.len() ==> sv_wf(#[trigger] items@[m]),
                            size as nat == T::model_size(),
                            context.block@.len() == arena_len,
                            context.offsets@ == old(context).offsets@,
                            context.path@ == old(context).path@,
                            byte_offset + items@.len() * size <= arena_len,
                            context.offset_index >= offset_index + 1,
                            next_bound(offs, context.offset_index as nat, lnn) >= byte_offset
                                + items@.len() * size,
                            arr_table_ok::<T>(
                                models.skip(k as int),
                                context.offsets@,
                                context.offset_index as nat,
                                arena_len as nat,
                            ),
                            arr_verdict::<T>(models) == arr_verdict::<T>(models.skip(k as int)),
                            context.offset_index + arr_dyn_count::<T>(models.skip(k as int))
                                == offset_index + 1 + arr_dyn_count::<T>(models),
                            // bytes below the array's own entry stay untouched
                            forall|m: int|
                                0 <= m < byte_offset ==> #[trigger] context.block@[m] == old(
                                    context,
                                ).block@[m],
                            // windows written so far decode to values that model
                            // their members, over any arena that keeps the
                            // written windows and the members' own data
                            forall|kk: int, other: Seq<u8>, dd: nat|
                                (0 <= kk < k && other.len() == arena_len && dd >= items_depth(
                                    items@,
                                ) && (forall|m: int|
                                    byte_offset <= m < byte_offset + k * size ==> other[m]
                                        == context.block@[m]) && (forall|m: int|
                                    byte_offset + items@.len() * size <= m < next_bound(
                                        offs,
                                        context.offset_index as nat,
                                        lnn,
                                    ) ==> other[m] == context.block@[m]))
                                    ==> #[trigger] T::decode(
                                    elem_window::<T>(other, byte_offset as nat, kk),
                                ).val_of(other, dd) == T::loaded(items@[kk]),
                        decreases items@.len() - k,
                    {
                        proof {
                            assert(models.skip(k as int)[0] == models[k as int]);
                            assert(models.skip(k as int).drop_first() =~= models.skip(k + 1));
                        }
                        let ghost blk_pre = context.block@;
                        let ghost idx_pre = context.offset_index as nat;
                        let mut index_text = "[".to_owned();
                        index_text.append(crate::digits::usize_to_string(k).as_str());
                        index_text.append("]");
                        context.path.push(index_text);
                        let ghost ctx_before = *context;
                        let elem = match T::deserialize(&items[k], context) {
                            Ok(x) => x,
                            Err(e) => {
                                return Err(e);
                            },
                        };
                        let ghost blk_mid = context.block@;
                        let ghost idx_mid = context.offset_index as nat;
                        proof {
                            assert((k + 1) * size as int <= items@.len() * size as int)
                                by (nonlinear_arith)
                                requires
                                    k < items@.len(),
                                    size >= 0,
                            ;
                            assert(k * size as int >= 0) by (nonlinear_arith)
                                requires
                                    k >= 0,
                                    size >= 0,
                            ;
                            assert((k + 1) * size as int == k * size as int + size as int)
                                by (nonlinear_arith);
                            crate::schema::lemma_next_bound_mono(offs, idx_pre, idx_mid, lnn);
                        }
                        elem.store(&mut context.block, byte_offset + k * size);
                        context.path.pop();
                        proof {
                            assert(context.path@ =~= ctx_before.path@.drop_last());
                            assert(ctx_before.path@.drop_last() =~= old(context).path@);
                            let bo = byte_offset as int;
                            let bend = byte_offset + items@.len() * size;
                            // the freshly stored window holds the member's encoding
                            assert(T::decode(
                                context.block@.subrange(bo + k * size, bo + (k + 1) * size),
                            ) == elem);
                            assert forall|kk: int, other: Seq<u8>, dd: nat|
                                (0 <= kk < k + 1 && other.len() == arena_len && dd >= items_depth(
                                    items@,
                                ) && (forall|m: int|
                                    bo <= m < bo + (k + 1) * size ==> other[m]
                                        == context.block@[m]) && (forall|m: int|
                                    bend <= m < next_bound(offs, idx_mid, lnn) ==> other[m]
                                        == context.block@[m])) implies #[trigger] T::decode(
                                elem_window::<T>(other, byte_offset as nat, kk),
                            ).val_of(other, dd) == T::loaded(items@[kk]) by {
                                if kk < k {
                                    // the older windows and the consumed data
                                    // kept their bytes through this iteration
                                    assert(forall|m: int|
                                        bo <= m < bo + k * size ==> other[m] == blk_pre[m]);
                                    assert(forall|m: int|
                                        bend <= m < next_bound(offs, idx_pre, lnn) ==> other[m]
                                            == blk_pre[m]);
                                } else {
                                    assert(elem_window::<T>(other, byte_offset as nat, kk)
                                        =~= context.block@.subrange(
                                        bo + k * size,
                                        bo + (k + 1) * size,
                                    ));
                                    assert(T::decode(
                                        elem_window::<T>(other, byte_offset as nat, kk),
                                    ) == elem);
                                    assert(dd >= sv_depth(items@[kk]));
                                    // this member's own dynamic data kept its
                                    // bytes through the store
                                    assert(forall|m: int|
                                        next_bound(offs, idx_pre, lnn) <= m < next_bound(
                                            offs,
                                            idx_mid,
                                            lnn,
                                        ) ==> other[m] == blk_mid[m]);
                                    assert(elem.val_of(other, dd) == T::loaded(items@[kk]));
                                }
                            }
                        }
                        k = k + 1;
                    }
                    proof {
                        assert(models.skip(items@.len() as int) =~= Seq::<Val>::empty());
                    }
                    let result = SchemaArray {
                        block_ptr: BlockPointer::from_raw_parts(byte_offset),
                        len: items.len(),
                        element: PhantomData,
                    };
                    proof {
                        let n = items@.len();
                        let bo = byte_offset as int;
                        lemma_arr_loaded::<T>(items@);
                        crate::schema::lemma_next_bound_mono(
                            offs,
                            (offset_index + 1) as nat,
                            context.offset_index as nat,
                            lnn,
                        );
                        assert forall|other: Seq<u8>, d: nat|
                            (other.len() == context.block@.len() && d >= sv_depth(*v) && (
                            forall|m: int|
                                next_bound(offs, offset_index as nat, lnn) <= m < next_bound(
                                    offs,
                                    context.offset_index as nat,
                                    lnn,
                                ) ==> other[m] == context.block@[m])) implies
                            #[trigger] result.val_of(other, d) == Self::loaded(*v) by {
                            assert(forall|m: int|
                                bo <= m < bo + n * size ==> other[m] == context.block@[m]);
                            assert(forall|m: int|
                                bo + n * size <= m < next_bound(
                                    offs,
                                    context.offset_index as nat,
                                    lnn,
                                ) ==> other[m] == context.block@[m]);
                            assert forall|kk: int| 0 <= kk < n implies T::decode(
                                elem_window::<T>(other, byte_offset as nat, kk),
                            ).val_of(other, (d - 1) as nat) == T::loaded(items@[kk]) by {
                            }
                            assert(result.val_of(other, d) == Val::Array(
                                Seq::new(
                                    n,
                                    |kk: int|
                                        T::decode(
                                            elem_window::<T>(other, byte_offset as nat, kk),
                                        ).val_of(other, (d - 1) as nat),
                                ),
                            ));
                            assert(Seq::new(
                                n,
                                |kk: int|
                                    T::decode(
                                        elem_window::<T>(other, byte_offset as nat, kk),
                                    ).val_of(other, (d - 1) as nat),
                            ) =~= arr_loaded::<T>(items@));
                        }
                    }
                    Ok(result)
                } else {
                    // array of size zero: an empty view, no dynamic memory
                    let result = SchemaArray::<T> {
                        block_ptr: BlockPointer::null(),
                        len: 0,
                        element: PhantomData,
                    };
                    proof {
                        assert(arr_loaded::<T>(items@) =~= Seq::<Val>::empty());
                        assert forall|other: Seq<u8>, d: nat|
                            true implies #[trigger] result.val_of(other, d) == Self::loaded(
                            *v,
                        ) by {
                        }
                    }
                    Ok(result)
                }
            },
            _ => Err(SchemaError::WrongSchemaValue),
        }
    }

    fn serialize(&self, block: &BlockHandle, fuel: u64) -> (r: SchemaValue)
        decreases fuel, 0int, 0int,
    {
        if fuel == 0 {
            let empty_items: Vec<SchemaValue> = Vec::new();
            let r = SchemaValue::Array(empty_items);
            proof {
                assert(array_model(r->Array_0@) =~= Seq::<Val>::empty());
            }
            return r;
        }
        match self.as_slice(block) {
            Some(elems) => {
                let r = serialize_array::<T>(&elems, block, fuel - 1);
                proof {
                    assert(Seq::new(
                        elems@.len(),
                        |k: int| elems@[k].val_of(block@, (fuel - 1) as nat),
                    ) =~= Seq::new(
                        self.len as nat,
                        |k: int|
                            T::decode(
                                elem_window::<T>(block@, self.block_ptr.offset as nat, k),
                            ).val_of(block@, (fuel - 1) as nat),
                    ));
                    assert(r@ == self.val_of(block@, fuel as nat));
                }
                r
            },
            None => {
                let empty_items: Vec<SchemaValue> = Vec::new();
                let r = SchemaValue::Array(empty_items);
                proof {
                    assert(array_model(r->Array_0@) =~= Seq::<Val>::empty());
                }
                r
            },
        }
    }
}

/// Appending one member's offsets to the already-collected prefix keeps
/// the members' sizing equation intact.
proof fn lemma_arr_layout_shift<T: Schematize>(
    rest: Seq<Val>,
    l: Layout,
    pre: Seq<usize>,
    appended: Seq<usize>,
)
    ensures
        (match arr_layout::<T>(rest, l) {
            Some((lf, offs2)) => Some((lf, (pre + appended) + offs2)),
            None => None,
        }) == (match arr_layout::<T>(rest, l) {
            Some((lf, offs2)) => Some((lf, pre + (appended + offs2))),
            None => None,
        }),
{
    match arr_layout::<T>(rest, l) {
        Some((lf, offs2)) => {
            assert((pre + appended) + offs2 =~= pre + (appended + offs2));
        },
        None => {},
    }
}

} // verus!
