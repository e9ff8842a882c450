//! Lists of the runs of free blocks of a page, and the store of buffers that such
//! lists come from.

use vstd::arithmetic::power2::{lemma_pow2_strictly_increases, pow2};
use vstd::prelude::*;

use crate::heap::lemma_shift_is_pow2;

verus! {

/// A run of free blocks.
#[derive(Clone, Copy, PartialEq, Eq, Debug, Structural)]
pub struct GcFl {
    pub pos: u16,
    pub count: u16,
}

impl GcFl {
    /// The block behind the run.
    pub open spec fn end(self) -> int {
        self.pos + self.count
    }
}

/// A list of runs. Those in front of `current` are used up. The buffer behind it has
/// room for `2^size_bits` runs.
pub struct GcFreeList {
    pub current: usize,
    pub size_bits: usize,
    pub data: Vec<GcFl>,
}

impl GcFreeList {
    pub fn new() -> (r: Self)
        ensures
            r.current == 0,
            r.size_bits == 0,
            r.data@ == Seq::<GcFl>::empty(),
    {
        GcFreeList { current: 0, size_bits: 0, data: Vec::new() }
    }

    /// The runs fit in the buffer.
    pub open spec fn wf(&self) -> bool {
        &&& self.size_bits < 31
        &&& self.data@.len() <= pow2(self.size_bits as nat)
    }

    /// The runs that are not used up.
    pub open spec fn left(&self) -> Seq<GcFl> {
        self.data@.skip(self.current as int)
    }

    /// Run `pos`.
    pub fn get(&self, pos: usize) -> (r: GcFl)
        requires
            pos < self.data@.len(),
        ensures
            r == self.data@[pos as int],
    {
        self.data[pos]
    }
}

/// The number of unused buffers of one size. At most sixteen are kept.
#[derive(Clone, Copy, PartialEq, Eq, Debug, Structural)]
pub struct CachedSlot {
    pub count: usize,
}

impl CachedSlot {
    pub fn new() -> (r: Self)
        ensures
            r.count == 0,
    {
        CachedSlot { count: 0 }
    }
}

/// The unused buffers of every size, and how much all buffers take.
pub struct FreeListStore {
    pub cached_slots: Vec<CachedSlot>,
    pub free_list_size: usize,
    pub free_list_count: usize,
}

/// What the contracts say of a store.
#[verifier::ext_equal]
pub struct StoreView {
    pub counts: Seq<int>,
    pub size: usize,
    pub count: usize,
}

/// The bytes of a buffer for `2^bits` runs.
pub open spec fn buffer_bytes(bits: int) -> usize {
    (4 * pow2(bits as nat)) as usize
}

/// The store after a buffer for `2^bits` runs has been taken.
pub open spec fn taken(st: StoreView, bits: int) -> StoreView {
    if st.counts[bits] != 0 {
        StoreView { counts: st.counts.update(bits, st.counts[bits] - 1), ..st }
    } else {
        StoreView {
            size: st.size.wrapping_add(buffer_bytes(bits)),
            count: st.count.wrapping_add(1),
            ..st
        }
    }
}

/// The store after a buffer for `2^bits` runs has been given back.
pub open spec fn given(st: StoreView, bits: int) -> StoreView {
    if st.counts[bits] == 16 {
        StoreView { size: st.size.wrapping_sub(buffer_bytes(bits)), ..st }
    } else {
        StoreView { counts: st.counts.update(bits, st.counts[bits] + 1), ..st }
    }
}

/// The store after a run has been added to a list of `len` runs in a buffer for
/// `2^bits`: a full buffer is replaced by one of twice the size.
pub open spec fn appended(st: StoreView, len: int, bits: int) -> StoreView {
    if len == pow2(bits as nat) {
        given(taken(st, bits + 1), bits)
    } else {
        st
    }
}

/// The exponent of the buffer after a run has been added.
pub open spec fn appended_bits(len: int, bits: int) -> int {
    if len == pow2(bits as nat) {
        bits + 1
    } else {
        bits
    }
}

impl FreeListStore {
    pub open spec fn view(&self) -> StoreView {
        StoreView {
            counts: Seq::new(self.cached_slots@.len(), |i: int| self.cached_slots@[i].count as int),
            size: self.free_list_size,
            count: self.free_list_count,
        }
    }

    pub open spec fn wf(&self) -> bool {
        &&& self.cached_slots@.len() == 32
        &&& forall|i: int| 0 <= i < 32 ==> (#[trigger] self.cached_slots@[i]).count <= 16
    }

    /// A store without buffers.
    pub fn new() -> (r: Self)
        ensures
            r.wf(),
            r@ == (StoreView { counts: Seq::new(32, |i: int| 0int), size: 0, count: 0 }),
    {
        let mut cached_slots: Vec<CachedSlot> = Vec::new();
        let mut i: usize = 0;
        while i < 32
            invariant
                i <= 32,
                cached_slots@.len() == i,
                forall|k: int| 0 <= k < i ==> (#[trigger] cached_slots@[k]).count == 0,
            decreases 32 - i,
        {
            cached_slots.push(CachedSlot::new());
            i = i + 1;
        }
        let r = FreeListStore { cached_slots, free_list_size: 0, free_list_count: 0 };
        assert(r@.counts =~= Seq::new(32, |i: int| 0int));
        r
    }

    /// The bytes of a buffer for `2^size` runs.
    fn bytes(size: usize) -> (r: usize)
        requires
            size < 32,
        ensures
            r == buffer_bytes(size as int),
    {
        proof {
            lemma_shift_is_pow2(size as u64);
            vstd::arithmetic::power2::lemma2_to64();
            if size < 31 {
                lemma_pow2_strictly_increases(size as nat, 31);
            }
        }
        #[verifier::truncate]
        ((4 * (1u64 << (size as u64))) as usize)
    }

    /// An empty list with a buffer for `2^size` runs.
    pub fn alloc_freelist(&mut self, size: usize) -> (r: GcFreeList)
        requires
            old(self).wf(),
            size < 32,
        ensures
            final(self).wf(),
            final(self)@ == taken(old(self)@, size as int),
            r.current == 0,
            r.size_bits == size,
            r.data@ == Seq::<GcFl>::empty(),
    {
        let ghost before = self@;
        let count: usize = self.cached_slots[size].count;
        if count != 0 {
            self.cached_slots[size].count = count - 1;
            assert(self@.counts =~= before.counts.update(size as int, count - 1));
        } else {
            let bytes: usize = Self::bytes(size);
            self.free_list_size = self.free_list_size.wrapping_add(bytes);
            self.free_list_count = self.free_list_count.wrapping_add(1);
            assert(self@.counts =~= before.counts);
        }
        GcFreeList { data: Vec::new(), current: 0, size_bits: size }
    }

    /// Gives the buffer of a list for `2^size_bits` runs back.
    pub fn free_freelist(&mut self, size_bits: usize)
        requires
            old(self).wf(),
            size_bits < 32,
        ensures
            final(self).wf(),
            final(self)@ == given(old(self)@, size_bits as int),
    {
        let ghost before = self@;
        let count: usize = self.cached_slots[size_bits].count;
        if count == 16 {
            let bytes: usize = Self::bytes(size_bits);
            self.free_list_size = self.free_list_size.wrapping_sub(bytes);
            assert(self@.counts =~= before.counts);
            return ;
        }
        self.cached_slots[size_bits].count = count + 1;
        assert(self@.counts =~= before.counts.update(size_bits as int, count + 1));
    }

    /// Adds a run at the end of a list.
    pub fn freelist_append(&mut self, fl: &mut GcFreeList, pos: u16, count: u16)
        requires
            old(self).wf(),
            old(fl).wf(),
            old(fl).data@.len() <= 0xffff,
        ensures
            final(self).wf(),
            final(fl).wf(),
            final(fl).data@ == old(fl).data@.push(GcFl { pos, count }),
            final(fl).current == old(fl).current,
            final(fl).size_bits == appended_bits(
                old(fl).data@.len() as int,
                old(fl).size_bits as int,
            ),
            final(self)@ == appended(
                old(self)@,
                old(fl).data@.len() as int,
                old(fl).size_bits as int,
            ),
    {
        proof {
            lemma_shift_is_pow2(fl.size_bits as u64);
            vstd::arithmetic::power2::lemma2_to64();
            if fl.size_bits >= 16 {
                if fl.size_bits > 16 {
                    lemma_pow2_strictly_increases(16, fl.size_bits as nat);
                }
            }
            vstd::arithmetic::power2::lemma_pow2_unfold((fl.size_bits + 1) as nat);
        }
        if fl.data.len() as u64 == 1u64 << (fl.size_bits as u64) {
            let fl2: GcFreeList = self.alloc_freelist(fl.size_bits + 1);
            self.free_freelist(fl.size_bits);
            fl.size_bits = fl2.size_bits;
        }
        fl.data.push(GcFl { pos, count });
    }
}

/// Taking and giving back undo each other as long as the store has buffers, or has room for
/// them, and it never keeps more than sixteen of a size.
pub proof fn lemma_store(st: StoreView, bits: int)
    requires
        0 <= bits < st.counts.len(),
        0 <= st.counts[bits] <= 16,
    ensures
        0 < st.counts[bits] ==> given(taken(st, bits), bits) == st,
        st.counts[bits] < 16 ==> taken(given(st, bits), bits) == st,
        0 <= taken(st, bits).counts[bits] <= 16,
        0 <= given(st, bits).counts[bits] <= 16,
        0 < st.counts[bits] ==> taken(st, bits).size == st.size && taken(st, bits).count == st.count,
        st.counts[bits] < 16 ==> given(st, bits).size == st.size,
        forall|i: int|
            0 <= i < st.counts.len() && i != bits ==> #[trigger] taken(st, bits).counts[i]
                == st.counts[i],
        forall|i: int|
            0 <= i < st.counts.len() && i != bits ==> #[trigger] given(st, bits).counts[i]
                == st.counts[i],
{
    assert(given(taken(st, bits), bits).counts =~= st.counts || st.counts[bits] == 0);
    assert(taken(given(st, bits), bits).counts =~= st.counts || st.counts[bits] == 16);
    if 0 < st.counts[bits] {
        assert(given(taken(st, bits), bits) =~= st);
    }
    if st.counts[bits] < 16 {
        assert(taken(given(st, bits), bits) =~= st);
    }
}

/// A buffer always has room for one more run, and grows only when it is full.
pub proof fn lemma_appended_fits(len: int, bits: int)
    requires
        0 <= bits,
        0 <= len <= pow2(bits as nat),
    ensures
        len + 1 <= pow2(appended_bits(len, bits) as nat),
        len < pow2(bits as nat) ==> appended_bits(len, bits) == bits,
        appended_bits(len, bits) <= bits + 1,
{
    vstd::arithmetic::power2::lemma_pow2_unfold((bits + 1) as nat);
    vstd::arithmetic::power2::lemma_pow2_pos(bits as nat);
}

} // verus!
