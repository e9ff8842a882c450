//! Segregated free list of a region.
//!
//! Free entries are kept in buckets by the power of two below their size. Each
//! bucket is a stack: the entry that was added last is taken first.

use vstd::arithmetic::power2::{lemma_pow2_strictly_increases, pow2};
use vstd::prelude::*;

use super::region::{lemma_log2_monotone, HeapOptions};
use super::{
    lemma_log2_floor, lemma_log2_unique, lemma_shift_is_pow2, log2_floor,
    round_down_to_power_of_two32, which_power_of_two,
};

verus! {

/// The size of the header of a free entry. Smaller gaps are filled instead.
pub const ENTRY_SIZE: usize = 16;

/// The size of the header that fills a gap.
pub const FILLER_SIZE: usize = 8;

/// The bucket of a size, of which the low 32 bits count.
pub open spec fn bucket_of(size: usize) -> int {
    log2_floor((size as u32) as int) as int
}

/// A size in bucket `b` is at least `2^b` and less than `2^(b+1)`, and larger sizes are in no
/// lower bucket.
pub proof fn lemma_bucket(size: usize, larger: usize)
    requires
        1 <= size <= larger <= u32::MAX,
    ensures
        pow2(bucket_of(size) as nat) <= size < pow2((bucket_of(size) + 1) as nat),
        0 <= bucket_of(size) <= bucket_of(larger) < 32,
{
    lemma_log2_floor(size as int);
    lemma_log2_floor(larger as int);
    lemma_log2_monotone(size as int, larger as int);
    vstd::arithmetic::power2::lemma2_to64();
    let b = bucket_of(larger) as nat;
    if b >= 32 {
        if b > 32 {
            lemma_pow2_strictly_increases(32, b);
        }
    }
}

/// The bucket for entries of the given size.
pub fn bucket_index_for_size(size: usize) -> (r: usize)
    requires
        size as u32 != 0,
    ensures
        r == bucket_of(size),
        r < 32,
        size <= u32::MAX ==> pow2(r as nat) <= size < pow2((r + 1) as nat),
{
    let low: u32 = #[verifier::truncate]
    (size as u32);
    let p: u32 = round_down_to_power_of_two32(low);
    proof {
        let k = choose|k: nat| p as int == #[trigger] pow2(k);
        vstd::arithmetic::power2::lemma_pow2_unfold(k + 1);
        lemma_log2_unique(low as int, k);
        if size <= u32::MAX {
            lemma_log2_floor(size as int);
        }
        vstd::arithmetic::power2::lemma2_to64();
        if k >= 32 {
            if k > 32 {
                lemma_pow2_strictly_increases(32, k);
            }
        }
    }
    which_power_of_two(p as usize)
}

/// A free piece of memory.
#[derive(Clone, Copy, PartialEq, Eq, Debug, Structural)]
pub struct Entry {
    pub addr: usize,
    pub size: usize,
}

impl Entry {
    /// The address of the word that holds the size of an entry that is too large
    /// for its tag.
    pub fn size_address(&self) -> (r: usize)
        requires
            self.addr + 16 <= usize::MAX,
        ensures
            r == self.addr + 16,
    {
        self.addr + 16
    }

    /// The size of the header of an entry of `size` bytes, where sizes below
    /// `max_size_tag` fit in the tag.
    pub fn header_size_for(size: usize, max_size_tag: usize) -> (r: usize)
        ensures
            r == (if size == 0 {
                0int
            } else if size >= max_size_tag {
                24
            } else {
                16
            }),
    {
        if size == 0 {
            0
        } else {
            (if size >= max_size_tag {
                3
            } else {
                2
            }) * 8
        }
    }
}

/// The bytes of the entries of one bucket.
pub open spec fn list_bytes(list: Seq<Entry>) -> int
    decreases list.len(),
{
    if list.len() == 0 {
        0
    } else {
        list_bytes(list.drop_last()) + list.last().size
    }
}

/// The bytes of the entries of all buckets.
pub open spec fn all_bytes(lists: Seq<Seq<Entry>>) -> int
    decreases lists.len(),
{
    if lists.len() == 0 {
        0
    } else {
        all_bytes(lists.drop_last()) + list_bytes(lists.last())
    }
}

/// The number of entries in all buckets.
pub open spec fn all_count(lists: Seq<Seq<Entry>>) -> int
    decreases lists.len(),
{
    if lists.len() == 0 {
        0
    } else {
        all_count(lists.drop_last()) + lists.last().len()
    }
}

/// The size of the largest entry of a bucket.
pub open spec fn list_largest(list: Seq<Entry>) -> int
    decreases list.len(),
{
    if list.len() == 0 {
        0
    } else {
        let rest = list_largest(list.drop_last());
        if list.last().size > rest {
            list.last().size as int
        } else {
            rest
        }
    }
}

/// The size of the largest entry of all buckets.
pub open spec fn all_largest(lists: Seq<Seq<Entry>>) -> int
    decreases lists.len(),
{
    if lists.len() == 0 {
        0
    } else {
        let rest = all_largest(lists.drop_last());
        if list_largest(lists.last()) > rest {
            list_largest(lists.last())
        } else {
            rest
        }
    }
}

proof fn lemma_list_bytes_nonneg(list: Seq<Entry>)
    ensures
        list_bytes(list) >= 0,
        forall|i: int| 0 <= i < list.len() ==> #[trigger] list[i].size <= list_bytes(list),
    decreases list.len(),
{
    if list.len() > 0 {
        lemma_list_bytes_nonneg(list.drop_last());
        assert forall|i: int| 0 <= i < list.len() implies #[trigger] list[i].size <= list_bytes(
            list,
        ) by {
            if i < list.len() - 1 {
                assert(list.drop_last()[i] == list[i]);
            }
        }
    }
}

pub proof fn lemma_totals(lists: Seq<Seq<Entry>>)
    ensures
        all_bytes(lists) >= 0,
        all_count(lists) >= 0,
        forall|i: int|
            0 <= i < lists.len() ==> list_bytes(#[trigger] lists[i]) <= all_bytes(lists)
                && lists[i].len() <= all_count(lists),
    decreases lists.len(),
{
    if lists.len() > 0 {
        lemma_totals(lists.drop_last());
        lemma_list_bytes_nonneg(lists.last());
        assert forall|i: int| 0 <= i < lists.len() implies list_bytes(#[trigger] lists[i])
            <= all_bytes(lists) && lists[i].len() <= all_count(lists) by {
            if i < lists.len() - 1 {
                assert(lists.drop_last()[i] == lists[i]);
            }
        }
    }
}

proof fn lemma_totals_update(lists: Seq<Seq<Entry>>, i: int, list: Seq<Entry>)
    requires
        0 <= i < lists.len(),
    ensures
        all_bytes(lists.update(i, list)) == all_bytes(lists) - list_bytes(lists[i]) + list_bytes(
            list,
        ),
        all_count(lists.update(i, list)) == all_count(lists) - lists[i].len() + list.len(),
    decreases lists.len(),
{
    let next = lists.update(i, list);
    if i == lists.len() - 1 {
        assert(next.drop_last() =~= lists.drop_last());
    } else {
        lemma_totals_update(lists.drop_last(), i, list);
        assert(next.drop_last() =~= lists.drop_last().update(i, list));
    }
}

proof fn lemma_list_bytes_concat(a: Seq<Entry>, b: Seq<Entry>)
    ensures
        list_bytes(a + b) == list_bytes(a) + list_bytes(b),
    decreases b.len(),
{
    if b.len() == 0 {
        assert(a + b =~= a);
    } else {
        lemma_list_bytes_concat(a, b.drop_last());
        assert((a + b).drop_last() =~= a + b.drop_last());
    }
}

pub proof fn lemma_empty_totals(lists: Seq<Seq<Entry>>)
    requires
        forall|i: int| 0 <= i < lists.len() ==> #[trigger] lists[i] == Seq::<Entry>::empty(),
    ensures
        all_bytes(lists) == 0,
        all_count(lists) == 0,
    decreases lists.len(),
{
    if lists.len() > 0 {
        assert forall|i: int| 0 <= i < lists.drop_last().len() implies #[trigger] lists.drop_last()[i]
            == Seq::<Entry>::empty() by {
            assert(lists[i] == Seq::<Entry>::empty());
        }
        lemma_empty_totals(lists.drop_last());
        assert(lists.last() == lists[lists.len() - 1]);
    }
}

/// The bucket at which a search for `size` bytes that starts at bucket `index`
/// comes to a decision: the first that is not empty, or whose entries may be
/// too small.
pub open spec fn decisive_bucket(lists: Seq<Seq<Entry>>, size: int, index: int) -> int
    decreases index,
{
    if index <= 0 {
        0
    } else if lists[index].len() > 0 || size > pow2(index as nat) {
        index
    } else {
        decisive_bucket(lists, size, index - 1)
    }
}

/// Whether a request of `size` bytes can be served from the bucket at which the
/// search comes to a decision.
pub open spec fn servable_in(lists: Seq<Seq<Entry>>, biggest: int, size: int) -> bool {
    let index = decisive_bucket(lists, size, biggest);
    &&& index > 0
    &&& lists[index].len() > 0
    &&& (size <= pow2(index as nat) || lists[index].last().size >= size)
}

/// The buckets after the piece of `size` bytes at `addr` has been added.
pub open spec fn lists_with(lists: Seq<Seq<Entry>>, addr: usize, size: usize) -> Seq<Seq<Entry>> {
    if size < ENTRY_SIZE {
        lists
    } else {
        lists.update(bucket_of(size), lists[bucket_of(size)].push(Entry { addr, size }))
    }
}

/// The biggest bucket after a piece of `size` bytes has been added.
pub open spec fn biggest_with(biggest: int, size: usize) -> int {
    if size >= ENTRY_SIZE && bucket_of(size) > biggest {
        bucket_of(size)
    } else {
        biggest
    }
}

/// Whether two pieces of memory have no byte in common.
pub open spec fn apart(a: int, a_size: int, b: int, b_size: int) -> bool {
    a + a_size <= b || b + b_size <= a
}

/// Whether a position is that of an entry.
pub open spec fn has_entry(lists: Seq<Seq<Entry>>, i: int, j: int) -> bool {
    0 <= i < lists.len() && 0 <= j < lists[i].len()
}

/// Whether no entry shares a byte with the given piece.
pub open spec fn apart_from_all(lists: Seq<Seq<Entry>>, addr: int, size: int) -> bool {
    forall|i: int, j: int|
        has_entry(lists, i, j) ==> apart(
            (#[trigger] lists[i][j]).addr as int,
            lists[i][j].size as int,
            addr,
            size,
        )
}

/// Whether no two entries share a byte.
pub open spec fn entries_apart(lists: Seq<Seq<Entry>>) -> bool {
    forall|i: int, j: int, k: int, l: int|
        has_entry(lists, i, j) && has_entry(lists, k, l) && (i != k || j != l) ==> apart(
            (#[trigger] lists[i][j]).addr as int,
            lists[i][j].size as int,
            (#[trigger] lists[k][l]).addr as int,
            lists[k][l].size as int,
        )
}

/// Adding a piece that is apart from all entries keeps them apart.
pub proof fn lemma_apart_add(lists: Seq<Seq<Entry>>, addr: usize, size: usize)
    requires
        entries_apart(lists),
        apart_from_all(lists, addr as int, size as int),
        size >= ENTRY_SIZE ==> 0 <= bucket_of(size) < lists.len(),
    ensures
        entries_apart(lists_with(lists, addr, size)),
        forall|a: int, n: int| #[trigger]
            apart_from_all(lists, a, n) && apart(addr as int, size as int, a, n)
                ==> apart_from_all(lists_with(lists, addr, size), a, n),
{
    if size >= ENTRY_SIZE {
        let b = bucket_of(size);
        let next = lists_with(lists, addr, size);
        let e = Entry { addr, size };
        assert forall|i: int, j: int| has_entry(next, i, j) implies (has_entry(lists, i, j)
            && #[trigger] next[i][j] == lists[i][j]) || (i == b && j == lists[b].len()
            && next[i][j] == e) by {}
        assert forall|i: int, j: int, k: int, l: int|
            has_entry(next, i, j) && has_entry(next, k, l) && (i != k || j != l) implies apart(
            (#[trigger] next[i][j]).addr as int,
            next[i][j].size as int,
            (#[trigger] next[k][l]).addr as int,
            next[k][l].size as int,
        ) by {
            if has_entry(lists, i, j) && next[i][j] == lists[i][j] {
                if has_entry(lists, k, l) && next[k][l] == lists[k][l] {
                    assert(lists[i][j] == next[i][j] && lists[k][l] == next[k][l]);
                } else {
                    assert(lists[i][j] == next[i][j]);
                }
            } else {
                assert(lists[k][l] == next[k][l]);
            }
        }
        assert forall|a: int, n: int| #[trigger]
            apart_from_all(lists, a, n) && apart(addr as int, size as int, a, n) implies apart_from_all(
            next,
            a,
            n,
        ) by {
            assert forall|i: int, j: int| has_entry(next, i, j) implies apart(
                (#[trigger] next[i][j]).addr as int,
                next[i][j].size as int,
                a,
                n,
            ) by {
                if has_entry(lists, i, j) && next[i][j] == lists[i][j] {
                    assert(lists[i][j] == next[i][j]);
                }
            }
        }
    }
}

/// Taking the last entry of a bucket leaves the others apart, from each other
/// and from the one that was taken.
pub proof fn lemma_apart_take(lists: Seq<Seq<Entry>>, index: int)
    requires
        entries_apart(lists),
        0 <= index < lists.len(),
        lists[index].len() > 0,
    ensures
        entries_apart(lists.update(index, lists[index].drop_last())),
        apart_from_all(
            lists.update(index, lists[index].drop_last()),
            lists[index].last().addr as int,
            lists[index].last().size as int,
        ),
{
    let next = lists.update(index, lists[index].drop_last());
    let e = lists[index][lists[index].len() - 1];
    assert forall|i: int, j: int| has_entry(next, i, j) implies has_entry(lists, i, j) && (#[trigger] next[i][j])
        == lists[i][j] && (i != index || j != lists[index].len() - 1) by {}
    assert forall|i: int, j: int, k: int, l: int|
        has_entry(next, i, j) && has_entry(next, k, l) && (i != k || j != l) implies apart(
        (#[trigger] next[i][j]).addr as int,
        next[i][j].size as int,
        (#[trigger] next[k][l]).addr as int,
        next[k][l].size as int,
    ) by {
        assert(lists[i][j] == next[i][j] && lists[k][l] == next[k][l]);
    }
    assert forall|i: int, j: int| has_entry(next, i, j) implies apart(
        (#[trigger] next[i][j]).addr as int,
        next[i][j].size as int,
        e.addr as int,
        e.size as int,
    ) by {
        assert(lists[i][j] == next[i][j]);
    }
}

pub proof fn lemma_decisive_bucket(lists: Seq<Seq<Entry>>, size: int, index: int)
    requires
        0 <= index,
    ensures
        0 <= decisive_bucket(lists, size, index) <= index,
        forall|i: int|
            decisive_bucket(lists, size, index) < i <= index ==> #[trigger] lists[i].len() == 0,
    decreases index,
{
    if index > 0 && !(lists[index].len() > 0 || size > pow2(index as nat)) {
        lemma_decisive_bucket(lists, size, index - 1);
    }
}

/// A segregated free list.
pub struct FreeList {
    buckets: Vec<Vec<Entry>>,
    biggest_free_list_index: usize,
    count: usize,
    free_bytes: usize,
}

impl FreeList {
    /// The entries of each bucket; the last one of a bucket is taken first.
    pub closed spec fn lists(&self) -> Seq<Seq<Entry>> {
        Seq::new(self.buckets@.len(), |i: int| self.buckets@[i]@)
    }

    /// The bucket at which a search starts.
    pub closed spec fn biggest(&self) -> int {
        self.biggest_free_list_index as int
    }

    /// The number of entries.
    pub closed spec fn entries(&self) -> int {
        self.count as int
    }

    /// The bytes of all entries.
    pub closed spec fn free_total(&self) -> int {
        self.free_bytes as int
    }

    /// Entries are in the bucket of their size, no bucket above the biggest one
    /// has an entry, and the totals are those of the entries.
    pub open spec fn wf(&self) -> bool {
        &&& 0 < self.lists().len() <= 64
        &&& 0 <= self.biggest() < self.lists().len()
        &&& self.entries() == all_count(self.lists())
        &&& self.free_total() == all_bytes(self.lists())
        &&& forall|i: int|
            self.biggest() < i < self.lists().len() ==> #[trigger] self.lists()[i].len() == 0
        &&& forall|i: int, j: int|
            0 <= i < self.lists().len() && 0 <= j < self.lists()[i].len() ==> {
                let e = #[trigger] self.lists()[i][j];
                &&& e.addr != 0
                &&& e.size >= ENTRY_SIZE
                &&& pow2(i as nat) <= e.size
                &&& bucket_of(e.size) == i
            }
    }

    /// A list without entries for regions of the given size.
    pub fn new(page_opts: &HeapOptions) -> (r: Self)
        requires
            page_opts.region_size_log2 < 64,
        ensures
            r.wf(),
            r.lists().len() == page_opts.region_size_log2 + 1,
            forall|i: int| 0 <= i < r.lists().len() ==> #[trigger] r.lists()[i] == Seq::<Entry>::empty(),
            r.biggest() == 0,
            r.entries() == 0,
            r.free_total() == 0,
    {
        let n: usize = page_opts.region_size_log2 + 1;
        let mut buckets: Vec<Vec<Entry>> = Vec::new();
        let mut i: usize = 0;
        while i < n
            invariant
                i <= n,
                buckets@.len() == i,
                forall|k: int| 0 <= k < i ==> (#[trigger] buckets@[k])@ == Seq::<Entry>::empty(),
            decreases n - i,
        {
            buckets.push(Vec::new());
            i = i + 1;
        }
        let r = FreeList { buckets, biggest_free_list_index: 0, count: 0, free_bytes: 0 };
        proof {
            lemma_empty_totals(r.lists());
        }
        r
    }

    /// Adds the `size` bytes at `addr` and returns the bounds of the part that
    /// the entry leaves unused. A piece that is too small for an entry becomes a
    /// filler and is not added.
    pub fn add_returning_unused_bounds(&mut self, addr: usize, size: usize) -> (r: (usize, usize))
        requires
            old(self).wf(),
            addr != 0,
            size != 0,
            addr + size <= usize::MAX,
            addr + ENTRY_SIZE <= usize::MAX,
            size >= ENTRY_SIZE ==> {
                &&& size as u32 != 0
                &&& bucket_of(size) < old(self).lists().len()
                &&& old(self).free_total() + size <= usize::MAX
                &&& old(self).entries() < usize::MAX
            },
        ensures
            final(self).wf(),
            size < ENTRY_SIZE ==> *final(self) == *old(self) && r == (
                (addr + FILLER_SIZE) as usize,
                (addr + FILLER_SIZE) as usize,
            ),
            final(self).lists() == lists_with(old(self).lists(), addr, size),
            final(self).biggest() == biggest_with(old(self).biggest(), size),
            size >= ENTRY_SIZE ==> {
                &&& final(self).entries() == old(self).entries() + 1
                &&& final(self).free_total() == old(self).free_total() + size
                &&& r == ((addr + ENTRY_SIZE) as usize, (addr + size) as usize)
            },
    {
        if size < ENTRY_SIZE {
            return (addr + FILLER_SIZE, addr + FILLER_SIZE);
        }
        let ghost before = *self;
        let index: usize = bucket_index_for_size(size);
        let entry = Entry { addr, size };
        self.buckets[index].push(entry);
        if index > self.biggest_free_list_index {
            self.biggest_free_list_index = index;
        }
        self.count = self.count + 1;
        self.free_bytes = self.free_bytes + size;
        proof {
            let list = before.lists()[index as int].push(entry);
            assert(self.lists() =~= before.lists().update(index as int, list));
            lemma_totals_update(before.lists(), index as int, list);
            assert(list.drop_last() =~= before.lists()[index as int]);
            lemma_log2_floor((size as u32) as int);
            assert(size as u32 <= size) by (bit_vector);
            assert forall|i: int, j: int|
                0 <= i < self.lists().len() && 0 <= j < self.lists()[i].len() implies {
                let e = #[trigger] self.lists()[i][j];
                &&& e.addr != 0
                &&& e.size >= ENTRY_SIZE
                &&& pow2(i as nat) <= e.size
                &&& bucket_of(e.size) == i
            } by {
                if i == index && j == list.len() - 1 {
                    assert(self.lists()[i][j] == entry);
                } else {
                    assert(self.lists()[i][j] == before.lists()[i][j]);
                }
            }
        }
        (addr + ENTRY_SIZE, addr + size)
    }

    /// Whether there is room for an entry for the `size` bytes at `addr`.
    pub open spec fn can_add(&self, addr: usize, size: usize) -> bool {
        &&& self.wf()
        &&& addr != 0
        &&& size != 0
        &&& addr + size <= usize::MAX
        &&& addr + ENTRY_SIZE <= usize::MAX
        &&& size >= ENTRY_SIZE ==> {
            &&& size as u32 != 0
            &&& bucket_of(size) < self.lists().len()
            &&& self.free_total() + size <= usize::MAX
            &&& self.entries() < usize::MAX
        }
    }

    /// Adds the `size` bytes at `addr`, or fills them if they are too small for
    /// an entry.
    pub fn add(&mut self, addr: usize, size: usize)
        requires
            old(self).can_add(addr, size),
        ensures
            final(self).wf(),
            size < ENTRY_SIZE ==> *final(self) == *old(self),
            final(self).lists() == lists_with(old(self).lists(), addr, size),
            final(self).biggest() == biggest_with(old(self).biggest(), size),
            size >= ENTRY_SIZE ==> {
                &&& final(self).entries() == old(self).entries() + 1
                &&& final(self).free_total() == old(self).free_total() + size
            },
    {
        let bounds: (usize, usize) = self.add_returning_unused_bounds(addr, size);
    }

    /// Moves all entries of `other` in front of those of this list.
    pub fn append(&mut self, other: &mut FreeList)
        requires
            old(self).wf(),
            old(other).wf(),
            old(self).lists().len() == old(other).lists().len(),
            old(self).free_total() + old(other).free_total() <= usize::MAX,
            old(self).entries() + old(other).entries() <= usize::MAX,
        ensures
            final(self).wf(),
            final(self).lists().len() == old(self).lists().len(),
            forall|i: int|
                0 <= i < old(self).lists().len() ==> #[trigger] final(self).lists()[i]
                    == old(self).lists()[i] + old(other).lists()[i],
            final(self).entries() == old(self).entries() + old(other).entries(),
            final(self).free_total() == old(self).free_total() + old(other).free_total(),
            final(self).biggest() == (if old(other).biggest() > old(self).biggest() {
                old(other).biggest()
            } else {
                old(self).biggest()
            }),
            final(other).lists().len() == old(other).lists().len(),
            forall|i: int|
                0 <= i < final(other).lists().len() ==> #[trigger] final(other).lists()[i] == Seq::<
                    Entry,
                >::empty(),
            final(other).biggest() == old(other).biggest(),
            final(other).entries() == old(other).entries(),
            final(other).free_total() == old(other).free_total(),
    {
        let ghost before = *self;
        let ghost donor = *other;
        let n: usize = self.buckets.len();
        let mut index: usize = 0;
        while index < n
            invariant
                index <= n,
                n == self.buckets@.len(),
                n == other.buckets@.len(),
                before.lists().len() == n,
                donor.lists().len() == n,
                forall|i: int|
                    0 <= i < index ==> (#[trigger] self.buckets@[i])@ == before.lists()[i]
                        + donor.lists()[i],
                forall|i: int|
                    index <= i < n ==> (#[trigger] self.buckets@[i])@ == before.lists()[i],
                forall|i: int|
                    0 <= i < index ==> (#[trigger] other.buckets@[i])@ == Seq::<Entry>::empty(),
                forall|i: int|
                    index <= i < n ==> (#[trigger] other.buckets@[i])@ == donor.lists()[i],
                self.count == before.count,
                self.free_bytes == before.free_bytes,
                self.biggest_free_list_index == before.biggest_free_list_index,
                other.count == donor.count,
                other.free_bytes == donor.free_bytes,
                other.biggest_free_list_index == donor.biggest_free_list_index,
            decreases n - index,
        {
            let mut moved: Vec<Entry> = Vec::new();
            std::mem::swap(&mut moved, &mut other.buckets[index]);
            self.buckets[index].append(&mut moved);
            index = index + 1;
        }
        self.count = self.count + other.count;
        self.free_bytes = self.free_bytes + other.free_bytes;
        if other.biggest_free_list_index > self.biggest_free_list_index {
            self.biggest_free_list_index = other.biggest_free_list_index;
        }
        proof {
            lemma_totals_append(before.lists(), donor.lists(), self.lists());
            assert forall|i: int, j: int|
                0 <= i < self.lists().len() && 0 <= j < self.lists()[i].len() implies {
                let e = #[trigger] self.lists()[i][j];
                &&& e.addr != 0
                &&& e.size >= ENTRY_SIZE
                &&& pow2(i as nat) <= e.size
                &&& bucket_of(e.size) == i
            } by {
                let k = before.lists()[i].len();
                if j < k {
                    assert(self.lists()[i][j] == before.lists()[i][j]);
                } else {
                    assert(self.lists()[i][j] == donor.lists()[i][j - k]);
                }
            }
            assert forall|i: int| self.biggest() < i < self.lists().len() implies #[trigger] self.lists()[i].len()
                == 0 by {
                assert(before.lists()[i].len() == 0);
                assert(donor.lists()[i].len() == 0);
            }
        }
    }

    /// The bytes of all entries.
    pub fn free(&self) -> (r: usize)
        ensures
            r == self.free_total(),
    {
        self.free_bytes
    }

    /// Drops all entries.
    pub fn clear(&mut self)
        requires
            0 < old(self).lists().len() <= 64,
        ensures
            final(self).wf(),
            final(self).lists().len() == old(self).lists().len(),
            forall|i: int|
                0 <= i < final(self).lists().len() ==> #[trigger] final(self).lists()[i] == Seq::<
                    Entry,
                >::empty(),
            final(self).biggest() == 0,
            final(self).entries() == 0,
            final(self).free_total() == 0,
    {
        let n: usize = self.buckets.len();
        self.free_bytes = 0;
        self.count = 0;
        self.biggest_free_list_index = 0;
        let mut i: usize = 0;
        while i < n
            invariant
                i <= n,
                n == self.buckets@.len(),
                self.free_bytes == 0,
                self.count == 0,
                self.biggest_free_list_index == 0,
                forall|k: int| 0 <= k < i ==> (#[trigger] self.buckets@[k])@ == Seq::<Entry>::empty(),
            decreases n - i,
        {
            self.buckets.set(i, Vec::new());
            i = i + 1;
        }
        proof {
            lemma_empty_totals(self.lists());
        }
    }

    /// Whether a request of `size` bytes can be served.
    pub open spec fn servable(&self, size: int) -> bool {
        servable_in(self.lists(), self.biggest(), size)
    }

    /// Takes an entry of at least `allocation_size` bytes and returns its address
    /// and size, or zeros. The search goes down from the biggest bucket; of the
    /// last bucket whose entries may be too small only the first one is tried, as
    /// a linear scan is considered too costly.
    pub fn allocate(&mut self, allocation_size: usize) -> (r: (usize, usize))
        requires
            old(self).wf(),
        ensures
            final(self).wf(),
            final(self).biggest() == decisive_bucket(
                old(self).lists(),
                allocation_size as int,
                old(self).biggest(),
            ),
            old(self).servable(allocation_size as int) ==> {
                let index = final(self).biggest();
                let entry = old(self).lists()[index].last();
                &&& r == (entry.addr, entry.size)
                &&& r.0 != 0
                &&& r.1 >= allocation_size
                &&& final(self).lists() == old(self).lists().update(
                    index,
                    old(self).lists()[index].drop_last(),
                )
                &&& final(self).entries() == old(self).entries() - 1
                &&& final(self).free_total() == old(self).free_total() - entry.size
            },
            !old(self).servable(allocation_size as int) ==> {
                &&& r == (0usize, 0usize)
                &&& final(self).lists() == old(self).lists()
                &&& final(self).entries() == old(self).entries()
                &&& final(self).free_total() == old(self).free_total()
            },
    {
        let ghost before = *self;
        let ghost lists = self.lists();
        let mut index: usize = self.biggest_free_list_index;
        proof {
            lemma_decisive_bucket(lists, allocation_size as int, before.biggest());
        }
        while index > 0
            invariant_except_break
                before == *self,
                before == *old(self),
                before.wf(),
                lists == before.lists(),
                0 <= index <= before.biggest(),
                decisive_bucket(lists, allocation_size as int, index as int) == decisive_bucket(
                    lists,
                    allocation_size as int,
                    before.biggest(),
                ),
            ensures
                before == *self,
                before.wf(),
                lists == before.lists(),
                index == decisive_bucket(lists, allocation_size as int, before.biggest()),
                !before.servable(allocation_size as int),
            decreases index,
        {
            assert(index < 64);
            proof {
                lemma_shift_is_pow2(index as u64);
            }
            let bucket_size: u64 = 1u64 << index as u64;
            let n: usize = self.buckets[index].len();
            assert(lists[index as int].len() == n);
            if allocation_size as u64 > bucket_size {
                if n == 0 || self.buckets[index][n - 1].size < allocation_size {
                    break;
                }
            }
            if n > 0 {
                let entry: Entry = self.buckets[index][n - 1];
                proof {
                    assert(entry == lists[index as int][n - 1]);
                    lemma_totals(lists);
                    lemma_list_bytes_nonneg(lists[index as int]);
                    let rest = lists[index as int].drop_last();
                    lemma_totals_update(lists, index as int, rest);
                    assert(lists[index as int].last() == entry);
                }
                let popped: Option<Entry> = self.buckets[index].pop();
                self.biggest_free_list_index = index;
                self.free_bytes = self.free_bytes - entry.size;
                self.count = self.count - 1;
                proof {
                    let rest = lists[index as int].drop_last();
                    assert(self.lists() =~= lists.update(index as int, rest));
                    lemma_decisive_bucket(lists, allocation_size as int, before.biggest());
                    assert forall|i: int| self.biggest() < i < self.lists().len() implies #[trigger] self.lists()[i].len()
                        == 0 by {
                        assert(lists[i].len() == 0);
                    }
                    assert forall|i: int, j: int|
                        0 <= i < self.lists().len() && 0 <= j < self.lists()[i].len() implies {
                        let e = #[trigger] self.lists()[i][j];
                        &&& e.addr != 0
                        &&& e.size >= ENTRY_SIZE
                        &&& pow2(i as nat) <= e.size
                        &&& bucket_of(e.size) == i
                    } by {
                        assert(self.lists()[i][j] == lists[i][j]);
                    }
                }
                return (entry.addr, entry.size);
            }
            index = index - 1;
        }
        self.biggest_free_list_index = index;
        assert(self.lists() =~= lists);
        proof {
            lemma_decisive_bucket(lists, allocation_size as int, before.biggest());
            assert forall|i: int| self.biggest() < i < self.lists().len() implies #[trigger] self.lists()[i].len()
                == 0 by {
                assert(lists[i].len() == 0);
            }
        }
        (0, 0)
    }

    /// The size of the entry that the biggest bucket would hand out, or zero.
    pub fn peek_free(&self) -> (r: usize)
        requires
            self.wf(),
        ensures
            r == (if self.biggest() > 0 && self.lists()[self.biggest()].len() > 0 {
                self.lists()[self.biggest()].last().size
            } else {
                0
            }),
    {
        let index: usize = self.biggest_free_list_index;
        if index > 0 {
            let n: usize = self.buckets[index].len();
            assert(self.lists()[index as int].len() == n);
            if n > 0 {
                assert(self.lists()[index as int].last() == self.buckets@[index as int]@[n - 1]);
                return self.buckets[index][n - 1].size;
            }
        }
        0
    }

    /// The size of the largest entry and the sum of all sizes. External
    /// fragmentation is one less their quotient.
    pub fn largest_and_total(&self) -> (r: (usize, usize))
        requires
            self.wf(),
        ensures
            r.0 == all_largest(self.lists()),
            r.1 == all_bytes(self.lists()),
    {
        let mut largest: usize = 0;
        let mut total: usize = 0;
        let mut i: usize = 0;
        let ghost lists = self.lists();
        while i < self.buckets.len()
            invariant
                i <= self.buckets@.len(),
                lists == self.lists(),
                all_bytes(lists) <= usize::MAX,
                largest == all_largest(lists.take(i as int)),
                total == all_bytes(lists.take(i as int)),
            decreases self.buckets@.len() - i,
        {
            let ghost list = lists[i as int];
            let ghost base_largest = largest as int;
            let ghost base_total = total as int;
            proof {
                assert(lists.take(i + 1).drop_last() =~= lists.take(i as int));
                lemma_prefix_bytes(lists, i + 1);
                lemma_list_bytes_nonneg(list);
            }
            let mut j: usize = 0;
            while j < self.buckets[i].len()
                invariant
                    i < self.buckets@.len(),
                    list == self.buckets@[i as int]@,
                    j <= list.len(),
                    total == base_total + list_bytes(list.take(j as int)),
                    base_total + list_bytes(list) <= usize::MAX,
                    base_largest >= 0,
                    largest == (if list_largest(list.take(j as int)) > base_largest {
                        list_largest(list.take(j as int))
                    } else {
                        base_largest
                    }),
                decreases list.len() - j,
            {
                let size: usize = self.buckets[i][j].size;
                proof {
                    assert(list.take(j + 1).drop_last() =~= list.take(j as int));
                    lemma_prefix_list_bytes(list, j + 1);
                }
                total = total + size;
                if size > largest {
                    largest = size;
                }
                j = j + 1;
            }
            assert(list.take(j as int) =~= list);
            assert(lists.take(i + 1).last() == list);
            i = i + 1;
        }
        assert(lists.take(i as int) =~= lists);
        (largest, total)
    }
}

proof fn lemma_prefix_list_bytes(list: Seq<Entry>, k: int)
    requires
        0 <= k <= list.len(),
    ensures
        list_bytes(list.take(k)) <= list_bytes(list),
    decreases list.len() - k,
{
    if k < list.len() {
        lemma_prefix_list_bytes(list, k + 1);
        assert(list.take(k + 1).drop_last() =~= list.take(k));
    } else {
        assert(list.take(k) =~= list);
    }
}

proof fn lemma_prefix_bytes(lists: Seq<Seq<Entry>>, k: int)
    requires
        0 <= k <= lists.len(),
    ensures
        all_bytes(lists.take(k)) <= all_bytes(lists),
    decreases lists.len() - k,
{
    if k < lists.len() {
        lemma_prefix_bytes(lists, k + 1);
        assert(lists.take(k + 1).drop_last() =~= lists.take(k));
        lemma_list_bytes_nonneg(lists[k]);
        assert(lists.take(k + 1).last() == lists[k]);
    } else {
        assert(lists.take(k) =~= lists);
    }
}

proof fn lemma_totals_append(a: Seq<Seq<Entry>>, b: Seq<Seq<Entry>>, c: Seq<Seq<Entry>>)
    requires
        a.len() == b.len(),
        a.len() == c.len(),
        forall|i: int| 0 <= i < a.len() ==> #[trigger] c[i] == a[i] + b[i],
    ensures
        all_bytes(c) == all_bytes(a) + all_bytes(b),
        all_count(c) == all_count(a) + all_count(b),
    decreases a.len(),
{
    if a.len() > 0 {
        assert forall|i: int| 0 <= i < a.drop_last().len() implies #[trigger] c.drop_last()[i]
            == a.drop_last()[i] + b.drop_last()[i] by {
            assert(c[i] == a[i] + b[i]);
        }
        lemma_totals_append(a.drop_last(), b.drop_last(), c.drop_last());
        assert(c[a.len() - 1] == a.last() + b.last());
        lemma_list_bytes_concat(a.last(), b.last());
    }
}

} // verus!
