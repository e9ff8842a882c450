//! Side bitmaps that record object starts and marks, one bit per aligned slot
//! of the covered memory range, and a byte map of the same shape.

use vstd::arithmetic::div_mod::{lemma_div_plus_one, lemma_fundamental_div_mod};
use vstd::prelude::*;

use crate::bits::{
    ascending, bit8, cell_set, clear_cell_bit, count_cells, is_power_of_two, lemma_align_mask,
    lemma_ascending, lemma_ascending_agree, lemma_ascending_gap, lemma_ascending_split, lemma_bit8,
    lemma_count_is_slots, lemma_mask8, lemma_some_bit8, lemma_zero_bits8, lemma_zero_cells_empty,
    set_cell_bit, set_slots, test_cell_bit, zero_cells, zeroed_cells,
};

verus! {

/// The number of pointers that `sweep_walk` collects before it hands them out,
/// less the largest number that one cell can add.
pub const SWEEP_BATCH: usize = 56;

/// The number of cells that cover `size` bytes at one bit per `align` bytes.
pub open spec fn cells_for(size: int, align: int) -> int {
    (size + (8 * align - 1)) / (8 * align)
}

/// `x` rounded up to a multiple of `align`.
pub open spec fn rounded_up(x: int, align: int) -> int {
    (x + align - 1) - (x + align - 1) % align
}

/// The number of steps of `align` that lead from `from` to `to` or past it.
pub open spec fn steps(from: int, to: int, align: int) -> int {
    if from >= to {
        0
    } else {
        (to - from + align - 1) / align
    }
}

/// The slot before which a walk over the offsets `from..to` stops. For offsets
/// that are multiples of `align` it is the slot of `to`; a walk that never
/// leaves its first cell counts a partial last slot as well.
pub open spec fn walk_end(from: int, to: int, align: int) -> int {
    let first = from / align;
    let n = steps(from, to, align);
    if n <= (8 - first % 8) % 8 {
        first + n
    } else {
        to / align
    }
}

/// For aligned offsets a walk covers exactly the slots of the range.
pub proof fn lemma_walk_end_aligned(from: int, to: int, align: int)
    requires
        align > 0,
        from % align == 0,
        to % align == 0,
        0 <= from <= to,
    ensures
        walk_end(from, to, align) == to / align,
{
    lemma_fundamental_div_mod(from, align);
    lemma_fundamental_div_mod(to, align);
    if from < to {
        let d = to / align - from / align;
        assert(to - from == d * align) by (nonlinear_arith)
            requires
                from == align * (from / align),
                to == align * (to / align),
                d == to / align - from / align,
        ;
        assert((d * align + (align - 1)) / align == d) by {
            lemma_div_multiples_vanish_offset(d, align - 1, align);
        }
    } else {
        assert(from == to);
    }
}

/// Adding a multiple of the divisor adds to the quotient.
pub proof fn lemma_div_multiples_vanish_offset(q: int, r: int, d: int)
    requires
        0 <= r < d,
    ensures
        (q * d + r) / d == q,
        (q * d + r) % d == r,
{
    vstd::arithmetic::div_mod::lemma_fundamental_div_mod_converse(q * d + r, d, q, r);
}

/// One step of `align` moves on by one slot.
pub proof fn lemma_slot_step(x: int, align: int)
    requires
        align > 0,
    ensures
        (x + align) / align == x / align + 1,
        (x - align) / align == x / align - 1,
{
    lemma_div_plus_one(x, align);
    lemma_div_plus_one(x - align, align);
}

/// `steps` counts down by one with every step taken.
pub proof fn lemma_steps(from: int, to: int, align: int)
    requires
        align > 0,
        from < to,
    ensures
        steps(from, to, align) >= 1,
        steps(from + align, to, align) == steps(from, to, align) - 1,
        from / align + steps(from, to, align) >= to / align,
{
    let m = to - from + align - 1;
    lemma_slot_step(m, align);
    assert(m / align >= 1) by {
        vstd::arithmetic::div_mod::lemma_div_is_ordered(align, m, align);
        vstd::arithmetic::div_mod::lemma_div_by_self(align);
    }
    if from + align >= to {
        assert(m < 2 * align);
        assert(m / align == 1) by {
            vstd::arithmetic::div_mod::lemma_fundamental_div_mod_converse(m, align, 1, m - align);
        }
    }
    lemma_fundamental_div_mod(from, align);
    lemma_fundamental_div_mod(to, align);
    lemma_fundamental_div_mod(m, align);
    let a = from / align;
    let b = to / align;
    let k = m / align;
    assert(a + k >= b) by (nonlinear_arith)
        requires
            align > 0,
            from == align * a + from % align,
            to == align * b + to % align,
            m == align * k + m % align,
            m == to - from + align - 1,
            0 <= from % align < align,
            0 <= to % align < align,
            0 <= m % align < align,
    ;
}

/// The slots of the partly covered cells at both ends of a walk over the
/// offsets `from..to`; all of them, if the walk stays in its first cell.
pub open spec fn edge_slot(from: int, to: int, align: int, k: int) -> bool {
    let first = from / align;
    let n = steps(from, to, align);
    let edge = (8 - first % 8) % 8;
    if n <= edge {
        first <= k < first + n
    } else {
        first <= k < first + edge || 8 * ((to / align) / 8) <= k < to / align
    }
}

/// Clears the bits of the partly covered cells at both ends of a range and
/// returns the cells in between.
pub fn clear_edges(cells: &mut Vec<u8>, begin: usize, end: usize, align: usize) -> (r: (
    usize,
    usize,
))
    requires
        align > 0,
        end + align <= usize::MAX,
        walk_end(begin as int, end as int, align as int) <= 8 * old(cells)@.len(),
        end as int / align as int <= 8 * old(cells)@.len(),
    ensures
        final(cells)@.len() == old(cells)@.len(),
        r.1 == (end as int / align as int) / 8,
        set_slots(final(cells)@) == set_slots(old(cells)@).filter(
            |k: int| !edge_slot(begin as int, end as int, align as int, k),
        ),
        ({
            let first = begin as int / align as int;
            let n = steps(begin as int, end as int, align as int);
            let edge = (8 - first % 8) % 8;
            if n <= edge {
                r.0 == (first + n) / 8
            } else {
                r.0 <= r.1 && 8 * r.0 == first + edge
            }
        }),
{
    let ghost before = set_slots(cells@);
    let ghost len = cells@.len();
    let mut begin_offset: usize = begin;
    let mut end_offset: usize = end;
    let ghost from = begin_offset as int;
    let ghost to = end_offset as int;
    let ghost a = align as int;
    let ghost first = from / a;
    let ghost total = steps(from, to, a);
    let ghost edge = (8 - first % 8) % 8;
    let ghost mut k: int = 0;
    proof {
        assert(before =~= before.filter(|m: int| !(first <= m < first + 0)));
    }
    while begin_offset < end_offset && (begin_offset / align) % 8 != 0
        invariant
            align > 0,
            a == align as int,
            cells@.len() == len,
            end + align <= usize::MAX,
            walk_end(from, to, a) <= 8 * len,
            from == begin,
            to == end,
            first == from / a,
            total == steps(from, to, a),
            edge == (8 - first % 8) % 8,
            0 <= k <= edge,
            k <= total,
            begin_offset == from + k * a,
            begin_offset as int / a == first + k,
            steps(begin_offset as int, to, a) == total - k,
            end_offset == to,
            set_slots(cells@) == before.filter(|m: int| !(first <= m < first + k)),
        decreases total - k,
    {
        proof {
            lemma_steps(begin_offset as int, to, a);
            lemma_slot_step(begin_offset as int, a);
            assert((k + 1) * a == k * a + a) by (nonlinear_arith);
            assert(k < edge);
            if total > edge {
                lemma_steps(begin_offset + a, to, a);
                vstd::arithmetic::div_mod::lemma_div_is_ordered(begin_offset + a, to, a);
            }
        }
        let slot: usize = begin_offset / align;
        clear_cell_bit(cells, slot / 8, slot % 8);
        begin_offset = begin_offset + align;
        proof {
            assert(set_slots(cells@) =~= before.filter(|m: int| !(first <= m < first + (k + 1))));
            k = k + 1;
        }
    }
    let ghost stop = first + k;
    let ghost last = to / a;
    let ghost mut j: int = 0;
    let ghost middle = set_slots(cells@);
    proof {
        if begin_offset < end_offset {
            lemma_steps(begin_offset as int, to, a);
            assert(k == edge);
            vstd::arithmetic::div_mod::lemma_div_is_ordered(begin_offset as int, to, a);
        } else {
            assert(total == k);
        }
        assert(middle =~= middle.filter(|m: int| !(last - 0 <= m < last)));
    }
    while begin_offset < end_offset && (end_offset / align) % 8 != 0
        invariant
            align > 0,
            a == align as int,
            cells@.len() == len,
            to / a <= 8 * len,
            to == end,
            last == to / a,
            0 <= j <= last % 8,
            end_offset == to - j * a,
            end_offset as int / a == last - j,
            begin_offset as int / a == stop,
            begin_offset < to ==> stop % 8 == 0 && 0 <= stop <= last - j,
            begin_offset >= to ==> j == 0,
            last >= 0,
            set_slots(cells@) == middle.filter(|m: int| !(last - j <= m < last)),
        decreases last - j,
    {
        proof {
            lemma_slot_step(end_offset as int, a);
            assert((j + 1) * a == j * a + a) by (nonlinear_arith);
            assert(j < last % 8);
            lemma_fundamental_div_mod(end_offset as int, a);
            lemma_fundamental_div_mod(begin_offset as int, a);
            let q = end_offset as int / a;
            assert(end_offset >= a) by (nonlinear_arith)
                requires
                    a > 0,
                    q >= 1,
                    end_offset as int == a * q + end_offset as int % a,
                    0 <= end_offset as int % a,
            ;
        }
        end_offset = end_offset - align;
        let slot: usize = end_offset / align;
        clear_cell_bit(cells, slot / 8, slot % 8);
        proof {
            assert(set_slots(cells@) =~= middle.filter(|m: int| !(last - (j + 1) <= m < last)));
            j = j + 1;
        }
    }
    proof {
        if begin_offset < to {
            let q = end_offset as int / a;
            if q % 8 != 0 {
                lemma_fundamental_div_mod(end_offset as int, a);
                lemma_fundamental_div_mod(begin_offset as int, a);
                assert(end_offset > begin_offset) by (nonlinear_arith)
                    requires
                        a > 0,
                        q >= stop + 1,
                        end_offset as int == a * q + end_offset as int % a,
                        begin_offset as int == a * stop + begin_offset as int % a,
                        0 <= end_offset as int % a,
                        begin_offset as int % a < a,
                ;
            }
            assert(j == last % 8);
            assert(set_slots(cells@) =~= before.filter(
                |m: int| !(first <= m < 8 * (stop / 8)) && !(8 * (last / 8) <= m < last),
            ));
        }
        assert(set_slots(cells@) =~= before.filter(|m: int| !edge_slot(from, to, a, m)));
    }
    let start_index: usize = begin_offset / align / 8;
    let end_index: usize = end_offset / align / 8;
    (start_index, end_index)
}

/// The offsets of the given slots from the start of the covered range.
pub open spec fn offsets<const ALIGN: usize>(slots: Seq<int>) -> Seq<usize> {
    slots.map_values(|n: int| (n * ALIGN) as usize)
}

/// The cell value with the bits that are set in a live cell and not in the
/// corresponding mark cell.
pub open spec fn garbage_cell(live: Seq<u8>, mark: Seq<u8>, start: int, mark_start: int, k: int) -> u8 {
    live[start + k] & !mark[mark_start + k]
}

/// The offsets that cell `k` of a sweep adds.
pub open spec fn garbage_offsets<const ALIGN: usize>(
    live: Seq<u8>,
    mark: Seq<u8>,
    start: int,
    mark_start: int,
    k: int,
) -> Seq<usize> {
    offsets::<ALIGN>(
        ascending(
            cell_set(garbage_cell(live, mark, start, mark_start, k), start + k),
            8 * (start + k),
            8 * (start + k) + 8,
        ),
    )
}

/// The offsets that a sweep holds back after `k` cells.
pub open spec fn sweep_pending<const ALIGN: usize>(
    live: Seq<u8>,
    mark: Seq<u8>,
    start: int,
    mark_start: int,
    k: nat,
) -> Seq<usize>
    decreases k,
{
    if k == 0 {
        Seq::empty()
    } else {
        let cur = sweep_pending::<ALIGN>(live, mark, start, mark_start, (k - 1) as nat)
            + garbage_offsets::<ALIGN>(live, mark, start, mark_start, k - 1);
        if garbage_cell(live, mark, start, mark_start, k - 1) != 0 && cur.len() >= SWEEP_BATCH {
            Seq::empty()
        } else {
            cur
        }
    }
}

/// The batches that a sweep has handed out after `k` cells.
pub open spec fn sweep_done<const ALIGN: usize>(
    live: Seq<u8>,
    mark: Seq<u8>,
    start: int,
    mark_start: int,
    k: nat,
) -> Seq<Seq<usize>>
    decreases k,
{
    if k == 0 {
        Seq::empty()
    } else {
        let done = sweep_done::<ALIGN>(live, mark, start, mark_start, (k - 1) as nat);
        let cur = sweep_pending::<ALIGN>(live, mark, start, mark_start, (k - 1) as nat)
            + garbage_offsets::<ALIGN>(live, mark, start, mark_start, k - 1);
        if garbage_cell(live, mark, start, mark_start, k - 1) != 0 && cur.len() >= SWEEP_BATCH {
            done.push(cur)
        } else {
            done
        }
    }
}

/// All batches of a sweep over `k` cells.
pub open spec fn sweep_batches<const ALIGN: usize>(
    live: Seq<u8>,
    mark: Seq<u8>,
    start: int,
    mark_start: int,
    k: nat,
) -> Seq<Seq<usize>> {
    let done = sweep_done::<ALIGN>(live, mark, start, mark_start, k);
    let pending = sweep_pending::<ALIGN>(live, mark, start, mark_start, k);
    if pending.len() > 0 {
        done.push(pending)
    } else {
        done
    }
}

/// The offsets of all garbage slots of the first `k` cells, in order.
pub open spec fn all_garbage<const ALIGN: usize>(
    live: Seq<u8>,
    mark: Seq<u8>,
    start: int,
    mark_start: int,
    k: nat,
) -> Seq<usize>
    decreases k,
{
    if k == 0 {
        Seq::empty()
    } else {
        all_garbage::<ALIGN>(live, mark, start, mark_start, (k - 1) as nat) + garbage_offsets::<
            ALIGN,
        >(live, mark, start, mark_start, k - 1)
    }
}

proof fn lemma_sweep_partial<const ALIGN: usize>(
    live: Seq<u8>,
    mark: Seq<u8>,
    start: int,
    mark_start: int,
    k: nat,
)
    ensures
        sweep_done::<ALIGN>(live, mark, start, mark_start, k).flatten() + sweep_pending::<ALIGN>(
            live,
            mark,
            start,
            mark_start,
            k,
        ) == all_garbage::<ALIGN>(live, mark, start, mark_start, k),
    decreases k,
{
    if k == 0 {
        assert(Seq::<Seq<usize>>::empty().flatten() + Seq::<usize>::empty() =~= Seq::<
            usize,
        >::empty());
    } else {
        lemma_sweep_partial::<ALIGN>(live, mark, start, mark_start, (k - 1) as nat);
        let done = sweep_done::<ALIGN>(live, mark, start, mark_start, (k - 1) as nat);
        let prev = sweep_pending::<ALIGN>(live, mark, start, mark_start, (k - 1) as nat);
        let add = garbage_offsets::<ALIGN>(live, mark, start, mark_start, k - 1);
        let cur = prev + add;
        assert(done.flatten() + cur =~= (done.flatten() + prev) + add);
        if garbage_cell(live, mark, start, mark_start, k - 1) != 0 && cur.len() >= SWEEP_BATCH {
            done.lemma_flatten_push(cur);
            assert(done.push(cur).flatten() + Seq::<usize>::empty() =~= done.flatten() + cur);
        }
    }
}

/// A sweep hands out every garbage slot exactly once, in ascending order: its
/// batches put together are the garbage of all the cells it walks.
pub proof fn lemma_sweep_complete<const ALIGN: usize>(
    live: Seq<u8>,
    mark: Seq<u8>,
    start: int,
    mark_start: int,
    k: nat,
)
    ensures
        sweep_batches::<ALIGN>(live, mark, start, mark_start, k).flatten() == all_garbage::<ALIGN>(
            live,
            mark,
            start,
            mark_start,
            k,
        ),
{
    lemma_sweep_partial::<ALIGN>(live, mark, start, mark_start, k);
    let done = sweep_done::<ALIGN>(live, mark, start, mark_start, k);
    let pending = sweep_pending::<ALIGN>(live, mark, start, mark_start, k);
    if pending.len() > 0 {
        done.lemma_flatten_push(pending);
    } else {
        assert(done.flatten() + pending =~= done.flatten());
    }
}

/// A cell value whose bits are those of cell `i` between `lo` and `hi` stands
/// for the set slots there.
proof fn lemma_cell_part(cells: Seq<u8>, i: int, part: u8, lo: int, hi: int)
    requires
        0 <= i < cells.len(),
        lo <= hi,
        8 * i <= lo <= 8 * i + 8,
        8 * i <= hi <= 8 * i + 8,
        forall|j: u8|
            j < 8 ==> (bit8(part, j) <==> bit8(cells[i], j) && lo <= 8 * i + j && 8 * i + j < hi),
    ensures
        ascending(cell_set(part, i), 8 * i, 8 * i + 8) == ascending(set_slots(cells), lo, hi),
{
    let s = cell_set(part, i);
    let t = set_slots(cells);
    assert forall|n: int| 8 * i <= n < 8 * i + 8 implies (s.contains(n) <==> (t.contains(n) && lo
        <= n < hi)) by {
        let j = (n - 8 * i) as u8;
        assert(n / 8 == i && n % 8 == j);
        assert(bit8(part, j) <==> bit8(cells[i], j) && lo <= 8 * i + j && 8 * i + j < hi);
    }
    lemma_ascending_gap(s, 8 * i, hi, 8 * i + 8);
    lemma_ascending_split(s, 8 * i, lo, hi);
    lemma_ascending_gap(s, 8 * i, 8 * i, lo);
    lemma_ascending_agree(s, t, lo, hi);
    assert(ascending(s, 8 * i, hi) =~= ascending(s, lo, hi));
}

/// A bitmap with one bit for every `ALIGN` bytes of a memory range.
pub struct HeapBitmap<const ALIGN: usize> {
    offset: usize,
    limit: usize,
    bmp: Vec<u8>,
}

impl<const ALIGN: usize> HeapBitmap<ALIGN> {
    /// The first address that the bitmap covers.
    pub closed spec fn start(&self) -> int {
        self.offset as int
    }

    /// The end of the covered range.
    pub closed spec fn end(&self) -> int {
        self.limit as int
    }

    /// The slots whose bit is set.
    pub closed spec fn slots(&self) -> Set<int> {
        set_slots(self.bmp@)
    }

    /// The number of slots that there are bits for.
    pub closed spec fn capacity(&self) -> int {
        8 * self.bmp@.len() as int
    }

    /// The cell values.
    pub closed spec fn cells(&self) -> Seq<u8> {
        self.bmp@
    }

    /// The bitmap has exactly the cells that its range needs.
    pub closed spec fn wf(&self) -> bool {
        &&& self.offset <= self.limit
        &&& (ALIGN > 0 ==> self.bmp@.len() == cells_for(self.limit - self.offset, ALIGN as int))
    }

    /// The slot of an address.
    pub open spec fn slot(&self, addr: int) -> int {
        (addr - self.start()) / ALIGN as int
    }

    /// Whether there is a bit for an address.
    pub open spec fn covers(&self, addr: int) -> bool {
        &&& ALIGN > 0
        &&& self.start() <= addr
        &&& self.slot(addr) < self.capacity()
    }

    /// Whether the bits of the range `begin..end` can be cleared: both ends lie
    /// in the covered range, up to its last cell.
    pub open spec fn clearable(&self, begin: int, end: int) -> bool {
        let from = begin - self.start();
        let to = end - self.start();
        &&& ALIGN > 0
        &&& 0 <= from
        &&& 0 <= to
        &&& end <= usize::MAX
        &&& to + ALIGN <= usize::MAX
        &&& walk_end(from, to, ALIGN as int) <= self.capacity()
        &&& to / ALIGN as int <= self.capacity()
    }

    /// Only the bits differ: the covered range is the same.
    pub open spec fn same_shape(&self, other: &Self) -> bool {
        &&& self.start() == other.start()
        &&& self.end() == other.end()
        &&& self.capacity() == other.capacity()
        &&& self.wf() == other.wf()
    }

    /// Whether a range that can be cleared is in order: its first whole cell
    /// does not lie behind the cell of its end.
    pub open spec fn ordered(&self, begin: int, end: int) -> bool {
        let from = begin - self.start();
        let to = end - self.start();
        let first = from / ALIGN as int;
        let n = steps(from, to, ALIGN as int);
        n <= (8 - first % 8) % 8 ==> (first + n) / 8 <= (to / ALIGN as int) / 8
    }

    /// The slots that a walk over `begin..end` covers.
    pub open spec fn walked(&self, begin: int, end: int, k: int) -> bool {
        let from = begin - self.start();
        let to = end - self.start();
        from / ALIGN as int <= k < walk_end(from, to, ALIGN as int)
    }

    /// The addresses of the given slots.
    pub open spec fn addresses(&self, slots: Seq<int>) -> Seq<usize> {
        slots.map_values(|n: int| (self.start() + n * ALIGN) as usize)
    }

    /// Every slot has an address and an offset that fit.
    pub open spec fn addressable(&self) -> bool {
        ALIGN > 0 && self.start() + self.capacity() * ALIGN <= usize::MAX
    }

    pub proof fn lemma_slots(&self)
        ensures
            forall|n: int| #[trigger] self.slots().contains(n) ==> 0 <= n < self.capacity(),
            self.capacity() >= 0,
            self.capacity() % 8 == 0,
            self.slots() == set_slots(self.cells()),
            self.capacity() == 8 * self.cells().len(),
            0 <= self.start() <= usize::MAX,
            0 <= self.end() <= usize::MAX,
    {
    }

    /// Every address of the range has a bit.
    pub proof fn lemma_covers_range(&self, addr: int)
        requires
            self.wf(),
            ALIGN > 0,
            self.start() <= addr < self.end(),
        ensures
            self.covers(addr),
    {
        let a = ALIGN as int;
        let size = self.end() - self.start();
        let off = addr - self.start();
        let n = cells_for(size, a);
        lemma_fundamental_div_mod(size + (8 * a - 1), 8 * a);
        lemma_fundamental_div_mod(off, a);
        let q = off / a;
        assert(q < 8 * n) by (nonlinear_arith)
            requires
                off < size,
                size + (8 * a - 1) == (8 * a) * n + (size + (8 * a - 1)) % (8 * a),
                0 <= (size + (8 * a - 1)) % (8 * a) < 8 * a,
                off == a * q + off % a,
                0 <= off % a,
                a > 0,
        ;
    }

    /// A bitmap that covers nothing.
    pub fn empty() -> (r: Self)
        ensures
            r.start() == 0,
            r.end() == 0,
            r.capacity() == 0,
            r.slots() == Set::<int>::empty(),
            r.wf(),
    {
        let r = Self { limit: 0, offset: 0, bmp: Vec::new() };
        proof {
            lemma_zero_cells_empty(r.bmp@);
            if ALIGN > 0 {
                vstd::arithmetic::div_mod::lemma_basic_div(8 * ALIGN - 1, 8 * ALIGN as int);
            }
        }
        r
    }

    pub fn bits_per_cell() -> (r: usize)
        ensures
            r == 8,
    {
        8
    }

    pub fn cell_mask() -> (r: usize)
        ensures
            r == 7,
    {
        Self::bits_per_cell() - 1
    }

    /// The number of cells for `arena_size` bytes.
    pub fn bitmap_size(arena_size: usize) -> (r: usize)
        requires
            ALIGN > 0,
            8 * ALIGN <= usize::MAX,
            arena_size + 8 * ALIGN - 1 <= usize::MAX,
        ensures
            r == cells_for(arena_size as int, ALIGN as int),
    {
        (arena_size + ((Self::bits_per_cell() * ALIGN) - 1)) / (Self::bits_per_cell() * ALIGN)
    }

    /// The bytes to reserve for the cells of `arena_size` bytes.
    pub fn reserved_for_bitmap(arena_size: usize) -> (r: usize)
        requires
            ALIGN > 0,
            8 * ALIGN <= usize::MAX,
            arena_size + 8 * ALIGN - 1 <= usize::MAX,
            cells_for(arena_size as int, ALIGN as int) + ALIGN - 1 <= usize::MAX,
        ensures
            r == ((cells_for(arena_size as int, ALIGN as int) + ALIGN - 1) as usize) & !((ALIGN
                - 1) as usize),
            is_power_of_two(ALIGN as int) ==> r == rounded_up(
                cells_for(arena_size as int, ALIGN as int),
                ALIGN as int,
            ),
    {
        let n: usize = Self::bitmap_size(arena_size) + (ALIGN - 1);
        proof {
            if is_power_of_two(ALIGN as int) {
                lemma_align_mask(n, ALIGN);
            }
        }
        n & !(ALIGN - 1)
    }

    /// A bitmap with no bit set for the `arena_size` bytes from `offset`.
    pub fn new(offset: usize, arena_size: usize) -> (r: Self)
        requires
            ALIGN > 0,
            8 * ALIGN <= usize::MAX,
            arena_size + 8 * ALIGN - 1 <= usize::MAX,
            offset + arena_size <= usize::MAX,
        ensures
            r.start() == offset,
            r.end() == offset + arena_size,
            r.capacity() == 8 * cells_for(arena_size as int, ALIGN as int),
            r.slots() == Set::<int>::empty(),
            r.wf(),
    {
        Self {
            offset,
            limit: offset + arena_size,
            bmp: zeroed_cells(Self::bitmap_size(arena_size)),
        }
    }

    /// The bit, within its cell, of the slot at `offset`.
    pub fn offset_index_bit(offset: usize) -> (r: usize)
        requires
            ALIGN > 0,
        ensures
            r == (offset as int / ALIGN as int) % 8,
    {
        (offset / ALIGN) % Self::bits_per_cell()
    }

    /// The start of the covered range.
    pub(crate) fn base(&self) -> (r: usize)
        ensures
            r == self.start(),
    {
        self.offset
    }

    /// The last set slot at or before the one of an address. Addresses are taken in units
    /// of sixteen bytes.
    pub fn last_slot(&self, maybe_middle_of_an_object: usize) -> (r: Option<usize>)
        requires
            self.start() <= maybe_middle_of_an_object,
            (maybe_middle_of_an_object - self.start()) / 16 < self.capacity(),
        ensures
            ({
                let last = (maybe_middle_of_an_object - self.start()) / 16;
                match r {
                    None => forall|n: int| 0 <= n <= last ==> !#[trigger] self.slots().contains(n),
                    Some(n) => {
                        &&& n <= last
                        &&& self.slots().contains(n as int)
                        &&& forall|m: int|
                            n < m <= last ==> !#[trigger] self.slots().contains(m)
                    },
                }
            }),
    {
        let object_offset: usize = maybe_middle_of_an_object - self.offset;
        let object_start_number: usize = object_offset / 16;
        let mut cell_index: usize = object_start_number / Self::bits_per_cell();
        let bit: usize = object_start_number % 8;
        let ghost last = object_start_number as int;
        let first: u8 = self.bmp[cell_index];
        proof {
            if bit < 7 {
                lemma_bit8(0, (bit + 1) as u8, 0);
            }
        }
        let mut byte: u8 = if bit == 7 {
            first
        } else {
            first & ((1u8 << (bit as u8 + 1)) - 1)
        };
        proof {
            assert forall|j: u8| j < 8 implies (bit8(byte, j) <==> bit8(first, j) && j <= bit) by {
                if bit < 7 {
                    lemma_mask8(first, 0, (bit + 1) as u8, j);
                }
            }
        }
        while byte == 0 && cell_index > 0
            invariant
                cell_index < self.bmp@.len(),
                8 * cell_index <= last < 8 * self.bmp@.len(),
                forall|n: int|
                    8 * cell_index + 8 <= n <= last ==> !self.slots().contains(n),
                forall|j: u8|
                    j < 8 ==> (bit8(byte, j) <==> bit8(self.bmp@[cell_index as int], j) && 8
                        * cell_index + j <= last),
            decreases cell_index,
        {
            proof {
                assert forall|n: int|
                    8 * (cell_index - 1) + 8 <= n <= last implies !self.slots().contains(n) by {
                    if n < 8 * cell_index + 8 {
                        lemma_zero_bits8((n % 8) as u8);
                        assert(!bit8(byte, (n % 8) as u8));
                        assert(n / 8 == cell_index);
                    }
                }
            }
            cell_index = cell_index - 1;
            byte = self.bmp[cell_index];
        }
        if byte == 0 {
            proof {
                assert forall|n: int| 0 <= n <= last implies !self.slots().contains(n) by {
                    if n < 8 {
                        lemma_zero_bits8((n % 8) as u8);
                        assert(!bit8(byte, (n % 8) as u8));
                    }
                }
            }
            return None;
        }
        let zeros: u32 = byte.leading_zeros();
        proof {
            broadcast use vstd::std_specs::bits::axiom_u8_leading_zeros;
        }
        let found: usize = cell_index * 8 + (7 - zeros as usize);
        proof {
            let top = (7 - zeros) as u8;
            assert(bit8(byte, top)) by {
                lemma_bit8(byte, 0, top);
            }
            assert(self.slots().contains(found as int)) by {
                assert(found / 8 == cell_index && found % 8 == top);
            }
            assert forall|m: int| found < m <= last implies !self.slots().contains(m) by {
                if m < 8 * cell_index + 8 {
                    let j = (m % 8) as u8;
                    assert(m / 8 == cell_index);
                    assert(!bit8(byte, j)) by {
                        assert(8 - zeros <= j < 8);
                        assert((byte >> j) & 1u8 == 0u8);
                    }
                }
            }
        }
        Some(found)
    }

    /// The start of the object that an address points into: the address of the
    /// last set slot at or before it, or zero if there is none. Addresses are
    /// taken in units of sixteen bytes.
    pub fn find_object_start(&self, maybe_middle_of_an_object: usize) -> (r: usize)
        requires
            ALIGN > 0,
            self.start() <= maybe_middle_of_an_object,
            (maybe_middle_of_an_object - self.start()) / 16 < self.capacity(),
            forall|n: int|
                self.slots().contains(n) && n <= (maybe_middle_of_an_object - self.start()) / 16 ==> {
                    &&& self.start() + n * ALIGN < self.end()
                    &&& (self.start() + n * ALIGN) % ALIGN as int == 0
                },
        ensures
            ({
                let last = (maybe_middle_of_an_object - self.start()) / 16;
                ||| r == 0 && (forall|n: int| 0 <= n <= last ==> !self.slots().contains(n))
                ||| exists|n: int|
                    #![trigger self.slots().contains(n)]
                    {
                        &&& 0 <= n <= last
                        &&& self.slots().contains(n)
                        &&& r == self.start() + n * ALIGN
                        &&& forall|m: int| n < m <= last ==> !self.slots().contains(m)
                    }
            }),
    {
        match self.last_slot(maybe_middle_of_an_object) {
            None => 0,
            Some(found) => {
                proof {
                    assert(self.slots().contains(found as int));
                    assert(self.start() + found * ALIGN < self.end());
                    assert(found * ALIGN >= 0) by (nonlinear_arith)
                        requires
                            found >= 0,
                            ALIGN >= 0,
                    ;
                }
                found * ALIGN + self.offset
            },
        }
    }

    /// The offset of the first slot of a cell.
    pub fn object_offset(&self, index: usize) -> (r: usize)
        requires
            index * ALIGN * 8 <= usize::MAX,
        ensures
            r == index * ALIGN * 8,
    {
        proof {
            assert(index * ALIGN <= index * ALIGN * 8 && index * ALIGN >= 0) by (nonlinear_arith)
                requires
                    index >= 0,
                    ALIGN >= 0,
            ;
        }
        index * ALIGN * Self::bits_per_cell()
    }

    /// The cell of an address and the bit within the cell.
    pub fn object_start_index_bit(&self, addr: usize) -> (r: (usize, usize))
        requires
            ALIGN > 0,
            self.start() <= addr,
        ensures
            r.0 == self.slot(addr as int) / 8,
            r.1 == self.slot(addr as int) % 8,
    {
        let object_offset: usize = addr - self.offset;
        let object_start_number: usize = object_offset / ALIGN;
        (object_start_number / Self::bits_per_cell(), object_start_number % Self::bits_per_cell())
    }

    /// Sets the bit of an address.
    pub fn set_bit(&mut self, addr: usize)
        requires
            old(self).covers(addr as int),
        ensures
            final(self).same_shape(old(self)),
            final(self).slots() == old(self).slots().insert(old(self).slot(addr as int)),
    {
        let (index, bit): (usize, usize) = self.object_start_index_bit(addr);
        set_cell_bit(&mut self.bmp, index, bit);
    }

    /// Sets the bit of an address.
    pub fn set_atomic(&mut self, addr: usize)
        requires
            old(self).covers(addr as int),
        ensures
            final(self).same_shape(old(self)),
            final(self).slots() == old(self).slots().insert(old(self).slot(addr as int)),
    {
        let (index, bit): (usize, usize) = self.object_start_index_bit(addr);
        set_cell_bit(&mut self.bmp, index, bit);
    }

    /// Clears the bit of an address.
    pub fn clear_atomic(&mut self, addr: usize)
        requires
            old(self).covers(addr as int),
        ensures
            final(self).same_shape(old(self)),
            final(self).slots() == old(self).slots().remove(old(self).slot(addr as int)),
    {
        let (index, bit): (usize, usize) = self.object_start_index_bit(addr);
        clear_cell_bit(&mut self.bmp, index, bit);
    }

    /// Whether the bit of an address is set.
    pub fn check_atomic(&self, addr: usize) -> (r: bool)
        requires
            self.covers(addr as int),
        ensures
            r == self.slots().contains(self.slot(addr as int)),
    {
        let (index, bit): (usize, usize) = self.object_start_index_bit(addr);
        test_cell_bit(&self.bmp, index, bit)
    }

    /// Clears the bit of an address.
    pub fn clear_bit(&mut self, addr: usize)
        requires
            old(self).covers(addr as int),
        ensures
            final(self).same_shape(old(self)),
            final(self).slots() == old(self).slots().remove(old(self).slot(addr as int)),
    {
        let (index, bit): (usize, usize) = self.object_start_index_bit(addr);
        clear_cell_bit(&mut self.bmp, index, bit);
    }

    /// Whether the bit of an address is set.
    pub fn check_bit(&self, addr: usize) -> (r: bool)
        requires
            self.covers(addr as int),
        ensures
            r == self.slots().contains(self.slot(addr as int)),
    {
        let (index, bit): (usize, usize) = self.object_start_index_bit(addr);
        test_cell_bit(&self.bmp, index, bit)
    }

    /// Sets the bit of an address and tells whether it was set before.
    pub fn fetch_and_set(&mut self, addr: usize) -> (r: bool)
        requires
            old(self).covers(addr as int),
        ensures
            final(self).same_shape(old(self)),
            final(self).slots() == old(self).slots().insert(old(self).slot(addr as int)),
            r == old(self).slots().contains(old(self).slot(addr as int)),
    {
        let (index, bit): (usize, usize) = self.object_start_index_bit(addr);
        let was: bool = test_cell_bit(&self.bmp, index, bit);
        set_cell_bit(&mut self.bmp, index, bit);
        was
    }

    /// Clears the bit of an address and tells whether it was set before.
    pub fn fetch_and_clear(&mut self, addr: usize) -> (r: bool)
        requires
            old(self).covers(addr as int),
        ensures
            final(self).same_shape(old(self)),
            final(self).slots() == old(self).slots().remove(old(self).slot(addr as int)),
            r == old(self).slots().contains(old(self).slot(addr as int)),
    {
        let (index, bit): (usize, usize) = self.object_start_index_bit(addr);
        let was: bool = test_cell_bit(&self.bmp, index, bit);
        clear_cell_bit(&mut self.bmp, index, bit);
        was
    }

    /// Sets the bit of an address and tells whether this call was the one that
    /// set it.
    pub fn atomic_test_and_set(&mut self, addr: usize) -> (r: bool)
        requires
            old(self).covers(addr as int),
        ensures
            final(self).same_shape(old(self)),
            final(self).slots() == old(self).slots().insert(old(self).slot(addr as int)),
            r == !old(self).slots().contains(old(self).slot(addr as int)),
    {
        let (index, bit): (usize, usize) = self.object_start_index_bit(addr);
        if test_cell_bit(&self.bmp, index, bit) {
            proof {
                assert(self.slots() =~= self.slots().insert(self.slot(addr as int)));
            }
            return false;
        }
        set_cell_bit(&mut self.bmp, index, bit);
        true
    }

    /// Clears the bits of the range `begin..end`.
    pub fn clear_range(&mut self, begin: usize, end: usize)
        requires
            old(self).clearable(begin as int, end as int),
            old(self).ordered(begin as int, end as int),
        ensures
            final(self).same_shape(old(self)),
            final(self).slots() == old(self).slots().filter(
                |k: int| !old(self).walked(begin as int, end as int, k),
            ),
    {
        let ghost before = *self;
        let (start_index, end_index): (usize, usize) = clear_edges(
            &mut self.bmp,
            begin - self.offset,
            end - self.offset,
            ALIGN,
        );
        zero_cells(&mut self.bmp, start_index, end_index);
        proof {
            let from = begin - before.start();
            let to = end - before.start();
            if from < to {
                lemma_steps(from, to, ALIGN as int);
            } else {
                vstd::arithmetic::div_mod::lemma_div_is_ordered(to, from, ALIGN as int);
            }
            assert(self.slots() =~= before.slots().filter(
                |k: int| !before.walked(begin as int, end as int, k),
            ));
        }
    }

    /// Clears the bits of the partly covered cells at both ends of the range `begin..end`.
    pub fn clear_range_edges(&mut self, begin: usize, end: usize)
        requires
            old(self).clearable(begin as int, end as int),
        ensures
            final(self).same_shape(old(self)),
            final(self).slots() == old(self).slots().filter(
                |k: int|
                    !edge_slot(
                        begin - old(self).start(),
                        end - old(self).start(),
                        ALIGN as int,
                        k,
                    ),
            ),
    {
        let between: (usize, usize) = clear_edges(
            &mut self.bmp,
            begin - self.offset,
            end - self.offset,
            ALIGN,
        );
    }

    /// Clears the bits of the range `begin..end`.
    pub fn clear_range_atomic(&mut self, begin: usize, end: usize)
        requires
            old(self).clearable(begin as int, end as int),
        ensures
            final(self).same_shape(old(self)),
            final(self).slots() == old(self).slots().filter(
                |k: int| !old(self).walked(begin as int, end as int, k),
            ),
    {
        let ghost before = *self;
        let (start_index, end_index): (usize, usize) = clear_edges(
            &mut self.bmp,
            begin - self.offset,
            end - self.offset,
            ALIGN,
        );
        let ghost edges = self.slots();
        proof {
            let from = begin - before.start();
            let to = end - before.start();
            let first = from / ALIGN as int;
            let n = steps(from, to, ALIGN as int);
            if from < to {
                lemma_steps(from, to, ALIGN as int);
            } else {
                vstd::arithmetic::div_mod::lemma_div_is_ordered(to, from, ALIGN as int);
            }
            assert(n <= (8 - first % 8) % 8 ==> start_index >= end_index);
            assert(start_index >= end_index ==> edges =~= before.slots().filter(
                |k: int| !before.walked(begin as int, end as int, k),
            ));
        }
        if start_index < end_index {
            zero_cells(&mut self.bmp, start_index, end_index);
            assert(self.slots() =~= before.slots().filter(
                |k: int| !before.walked(begin as int, end as int, k),
            ));
        }
        proof {
            assert(self.slots() =~= before.slots().filter(
                |k: int| !before.walked(begin as int, end as int, k),
            ));
        }
    }

    /// Whether any bit of the range `begin..end` is set.
    pub fn is_marked_range(&self, begin: usize, end: usize) -> (r: bool)
        requires
            self.clearable(begin as int, end as int),
            self.ordered(begin as int, end as int),
        ensures
            r == exists|k: int|
                self.walked(begin as int, end as int, k) && #[trigger] self.slots().contains(k),
    {
        let mut begin_offset: usize = begin - self.offset;
        let mut end_offset: usize = end - self.offset;
        let ghost from = begin_offset as int;
        let ghost to = end_offset as int;
        let ghost a = ALIGN as int;
        let ghost first = from / a;
        let ghost total = steps(from, to, a);
        let ghost edge = (8 - first % 8) % 8;
        let ghost mut k: int = 0;
        while begin_offset < end_offset && Self::offset_index_bit(begin_offset) != 0
            invariant
                ALIGN > 0,
                a == ALIGN as int,
                self.clearable(begin as int, end as int),
                from == begin - self.start(),
                to == end - self.start(),
                first == from / a,
                total == steps(from, to, a),
                edge == (8 - first % 8) % 8,
                0 <= k <= edge,
                k <= total,
                begin_offset == from + k * a,
                begin_offset as int / a == first + k,
                steps(begin_offset as int, to, a) == total - k,
                end_offset == to,
                forall|m: int| first <= m < first + k ==> !self.slots().contains(m),
            decreases total - k,
        {
            proof {
                lemma_steps(begin_offset as int, to, a);
                lemma_slot_step(begin_offset as int, a);
                assert((k + 1) * a == k * a + a) by (nonlinear_arith);
                assert(k < edge);
                if total > edge {
                    lemma_steps(begin_offset + a, to, a);
                    vstd::arithmetic::div_mod::lemma_div_is_ordered(begin_offset + a, to, a);
                }
            }
            if self.check_bit(self.offset + begin_offset) {
                assert(self.walked(begin as int, end as int, first + k));
                return true;
            }
            begin_offset = begin_offset + ALIGN;
            proof {
                k = k + 1;
            }
        }
        let ghost stop = first + k;
        let ghost last = to / a;
        let ghost mut j: int = 0;
        proof {
            if begin_offset < end_offset {
                lemma_steps(begin_offset as int, to, a);
                assert(k == edge);
                vstd::arithmetic::div_mod::lemma_div_is_ordered(begin_offset as int, to, a);
            } else {
                assert(total == k);
                vstd::arithmetic::div_mod::lemma_div_is_ordered(to, begin_offset as int, a);
            }
        }
        while begin_offset < end_offset && Self::offset_index_bit(end_offset) != 0
            invariant
                ALIGN > 0,
                a == ALIGN as int,
                self.clearable(begin as int, end as int),
                from == begin - self.start(),
                to == end - self.start(),
                first == from / a,
                total == steps(from, to, a),
                edge == (8 - first % 8) % 8,
                begin_offset < to ==> total > edge && k == edge,
                last == to / a,
                stop == first + k,
                0 <= k,
                0 <= j <= last % 8,
                end_offset == to - j * a,
                end_offset as int / a == last - j,
                begin_offset as int / a == stop,
                begin_offset < to ==> stop % 8 == 0 && 0 <= stop <= last - j,
                begin_offset >= to ==> j == 0 && stop >= last,
                last >= 0,
                forall|m: int| last - j <= m < last ==> !self.slots().contains(m),
            decreases last - j,
        {
            proof {
                lemma_slot_step(end_offset as int, a);
                assert((j + 1) * a == j * a + a) by (nonlinear_arith);
                assert(j < last % 8);
                lemma_fundamental_div_mod(end_offset as int, a);
                let q = end_offset as int / a;
                assert(end_offset >= a) by (nonlinear_arith)
                    requires
                        a > 0,
                        q >= 1,
                        end_offset as int == a * q + end_offset as int % a,
                        0 <= end_offset as int % a,
                ;
            }
            end_offset = end_offset - ALIGN;
            if self.check_bit(self.offset + end_offset) {
                assert(self.walked(begin as int, end as int, last - (j + 1)));
                return true;
            }
            proof {
                j = j + 1;
            }
        }
        proof {
            if begin_offset < to {
                let q = end_offset as int / a;
                if q % 8 != 0 {
                    lemma_fundamental_div_mod(end_offset as int, a);
                    lemma_fundamental_div_mod(begin_offset as int, a);
                    assert(end_offset > begin_offset) by (nonlinear_arith)
                        requires
                            a > 0,
                            q >= stop + 1,
                            end_offset as int == a * q + end_offset as int % a,
                            begin_offset as int == a * stop + begin_offset as int % a,
                            0 <= end_offset as int % a,
                            begin_offset as int % a < a,
                    ;
                }
                assert(j == last % 8);
            }
        }
        let start_index: usize = begin_offset / ALIGN / Self::bits_per_cell();
        let end_index: usize = end_offset / ALIGN / Self::bits_per_cell();
        let mut i: usize = start_index;
        while i < end_index
            invariant
                begin_offset < to ==> walk_end(from, to, a) == last && 8 * start_index == stop && 8
                    * end_index == last - j,
                begin_offset >= to ==> start_index >= end_index,
                start_index <= i,
                i <= end_index || i == start_index,
                begin_offset < to ==> end_index <= self.bmp@.len(),
                from == begin - self.start(),
                to == end - self.start(),
                a == ALIGN as int,
                first == from / a,
                0 <= j,
                stop == first + k,
                0 <= k,
                forall|m: int| 8 * start_index <= m < 8 * i ==> !self.slots().contains(m),
            decreases end_index - i,
        {
            if self.bmp[i] != 0 {
                proof {
                    lemma_some_bit8(self.bmp@[i as int]);
                    let b = choose|b: u8| b < 8 && bit8(self.bmp@[i as int], b);
                    let m = 8 * i + b;
                    assert(m / 8 == i && m % 8 == b);
                    assert(self.slots().contains(m));
                    assert(self.walked(begin as int, end as int, m));
                }
                return true;
            }
            proof {
                assert forall|m: int| 8 * start_index <= m < 8 * (i + 1) implies !self.slots().contains(m) by {
                    if m >= 8 * i {
                        lemma_zero_bits8((m % 8) as u8);
                    }
                }
            }
            i = i + 1;
        }
        false
    }

    /// Clears every bit.
    pub fn clear(&mut self)
        ensures
            final(self).same_shape(old(self)),
            final(self).slots() == Set::<int>::empty(),
    {
        let n: usize = self.bmp.len();
        let ghost before = *self;
        zero_cells(&mut self.bmp, 0, n);
        assert(self.slots() =~= Set::<int>::empty());
    }

    /// Appends the addresses of the slots that a cell value stands for.
    fn push_cell(&self, cell: u8, index: usize, out: &mut Vec<usize>)
        requires
            self.addressable(),
            8 * index + 8 <= self.capacity(),
        ensures
            final(out)@ == old(out)@ + self.addresses(
                ascending(cell_set(cell, index as int), 8 * index, 8 * index + 8),
            ),
    {
        let ghost s = cell_set(cell, index as int);
        let ghost before = out@;
        let mut shift: u8 = 0;
        assert(before + self.addresses(ascending(s, 8 * index, 8 * index + 0)) =~= before);
        while shift < 8
            invariant
                shift <= 8,
                self.addressable(),
                8 * index + 8 <= self.capacity(),
                s == cell_set(cell, index as int),
                out@ == before + self.addresses(ascending(s, 8 * index, 8 * index + shift)),
            decreases 8 - shift,
        {
            let ghost n = 8 * index + shift;
            if (cell >> shift) & 1 == 1 {
                assert(s.contains(n));
                proof {
                    let cap = self.capacity();
                    assert(0 <= index * ALIGN <= index * ALIGN * 8 && index * ALIGN * 8 + shift
                        * ALIGN == n * ALIGN && n * ALIGN <= cap * ALIGN && shift * ALIGN >= 0)
                        by (nonlinear_arith)
                        requires
                            n == 8 * index + shift,
                            n <= cap,
                            index >= 0,
                            shift >= 0,
                            ALIGN >= 0,
                    ;
                }
                let ptr_base: usize = self.object_offset(index) + self.offset;
                let obj: usize = ptr_base + shift as usize * ALIGN;
                out.push(obj);
                assert(out@ =~= before + self.addresses(ascending(s, 8 * index, n + 1)));
            } else {
                assert(!s.contains(n));
            }
            shift = shift + 1;
        }
    }

    /// The addresses of the set bits in `visit_begin..visit_end`, in ascending
    /// order.
    pub fn visit_marked_range(&self, visit_begin: usize, visit_end: usize) -> (r: Vec<usize>)
        requires
            self.addressable(),
            self.covers(visit_begin as int),
            self.start() <= visit_end,
            self.slot(visit_end as int) <= self.capacity(),
            self.slot(visit_begin as int) / 8 <= self.slot(visit_end as int) / 8,
        ensures
            r@ == self.addresses(
                ascending(
                    self.slots(),
                    self.slot(visit_begin as int),
                    self.slot(visit_end as int),
                ),
            ),
    {
        let (index_start, start_bit): (usize, usize) = self.object_start_index_bit(visit_begin);
        let (index_end, end_bit): (usize, usize) = self.object_start_index_bit(visit_end);
        let ghost lo = self.slot(visit_begin as int);
        let ghost hi = self.slot(visit_end as int);
        let ghost cells = self.bmp@;
        let ghost all = self.slots();
        let first: u8 = self.bmp[index_start];
        proof {
            lemma_bit8(0, start_bit as u8, 0);
            lemma_bit8(0, end_bit as u8, 0);
        }
        let left_edge: u8 = first & !((1u8 << start_bit as u8) - 1);
        let mut out: Vec<usize> = Vec::new();
        let mut right_edge: u8 = left_edge;
        proof {
            assert forall|j: u8| j < 8 implies (bit8(left_edge, j) <==> bit8(first, j) && lo <= 8
                * index_start + j) by {
                lemma_mask8(first, 0, start_bit as u8, j);
            }
            assert(out@ =~= self.addresses(ascending(all, lo, lo)));
        }
        if index_start < index_end {
            self.push_cell(left_edge, index_start, &mut out);
            proof {
                lemma_cell_part(cells, index_start as int, left_edge, lo, 8 * index_start + 8);
                assert(out@ =~= self.addresses(ascending(all, lo, 8 * index_start + 8)));
            }
            let mut i: usize = index_start + 1;
            while i < index_end
                invariant
                    index_start < i <= index_end,
                    self.addressable(),
                    8 * index_end <= self.capacity(),
                    cells == self.bmp@,
                    all == self.slots(),
                    lo < 8 * i,
                    out@ == self.addresses(ascending(all, lo, 8 * i)),
                decreases index_end - i,
            {
                let w: u8 = self.bmp[i];
                let ghost before = out@;
                self.push_cell(w, i, &mut out);
                proof {
                    lemma_cell_part(cells, i as int, w, 8 * i as int, 8 * i + 8);
                    lemma_ascending_split(all, lo, 8 * i as int, 8 * i + 8);
                    assert(out@ =~= self.addresses(ascending(all, lo, 8 * i + 8)));
                }
                i = i + 1;
            }
            if end_bit == 0 {
                right_edge = 0;
            } else {
                right_edge = self.bmp[index_end];
            }
        }
        let ghost unmasked = right_edge;
        right_edge = right_edge & ((1u8 << end_bit as u8) - 1);
        let ghost base = if index_start < index_end { 8 * index_end as int } else { lo };
        proof {
            assert forall|j: u8| j < 8 implies (bit8(right_edge, j) <==> bit8(unmasked, j) && 8
                * index_end + j < hi) by {
                lemma_mask8(unmasked, 0, end_bit as u8, j);
            }
        }
        if right_edge != 0 {
            proof {
                lemma_some_bit8(right_edge);
                if end_bit == 0 {
                    let j = choose|j: u8| j < 8 && bit8(right_edge, j);
                    assert(bit8(unmasked, j) && 8 * index_end + j < hi);
                }
            }
            let ghost before = out@;
            self.push_cell(right_edge, index_end, &mut out);
            proof {
                lemma_cell_part(cells, index_end as int, right_edge, base, hi);
                if index_start < index_end {
                    lemma_ascending_split(all, lo, base, hi);
                    assert(out@ =~= self.addresses(ascending(all, lo, hi)));
                } else {
                    if lo <= hi {
                        assert(out@ =~= self.addresses(ascending(all, lo, hi)));
                    } else {
                        let j = choose|j: u8| j < 8 && bit8(right_edge, j);
                        assert(bit8(unmasked, j) && 8 * index_end + j < hi);
                        assert(bit8(left_edge, j) && lo <= 8 * index_start + j);
                        assert(false);
                    }
                }
            }
        } else {
            proof {
                assert forall|m: int| base <= m < hi implies !all.contains(m) by {
                    let j = (m - 8 * index_end) as u8;
                    lemma_zero_bits8(j);
                    assert(!bit8(right_edge, j));
                    assert(m / 8 == index_end && m % 8 == j);
                    if index_start == index_end {
                        assert(bit8(left_edge, j) <==> bit8(first, j) && lo <= 8 * index_start + j);
                    }
                }
                if index_start < index_end {
                    lemma_ascending_gap(all, lo, base, hi);
                } else if lo <= hi {
                    lemma_ascending_gap(all, lo, lo, hi);
                }
                assert(out@ =~= self.addresses(ascending(all, lo, hi)));
            }
        }
        out
    }

    /// Walks the cells from `sweep_begin` to `sweep_end`, both included, and
    /// collects the offsets of the slots that are set in `live_bitmap` and not
    /// in `mark_bitmap`. They are handed out in batches.
    pub fn sweep_walk(
        live_bitmap: &Self,
        mark_bitmap: &Self,
        sweep_begin: usize,
        sweep_end: usize,
    ) -> (r: Vec<Vec<usize>>)
        requires
            live_bitmap.addressable(),
            live_bitmap.covers(sweep_begin as int),
            live_bitmap.covers(sweep_end as int),
            mark_bitmap.covers(sweep_begin as int),
            mark_bitmap.covers(sweep_end as int),
            sweep_begin <= sweep_end,
            live_bitmap.slot(sweep_end as int) / 8 - live_bitmap.slot(sweep_begin as int) / 8
                == mark_bitmap.slot(sweep_end as int) / 8 - mark_bitmap.slot(sweep_begin as int)
                / 8,
        ensures
            r@.map_values(|v: Vec<usize>| v@) == ({
                let start = live_bitmap.slot(sweep_begin as int) / 8;
                let mark_start = mark_bitmap.slot(sweep_begin as int) / 8;
                let count = live_bitmap.slot(sweep_end as int) / 8 - start + 1;
                sweep_batches::<ALIGN>(
                    live_bitmap.cells(),
                    mark_bitmap.cells(),
                    start,
                    mark_start,
                    count as nat,
                )
            }),
    {
        let (start, start_bit): (usize, usize) = live_bitmap.object_start_index_bit(sweep_begin);
        let (end, end_bit): (usize, usize) = live_bitmap.object_start_index_bit(sweep_end);
        let (mark_start, mark_bit): (usize, usize) = mark_bitmap.object_start_index_bit(
            sweep_begin,
        );
        proof {
            vstd::arithmetic::div_mod::lemma_div_is_ordered(
                sweep_begin - live_bitmap.start(),
                sweep_end - live_bitmap.start(),
                ALIGN as int,
            );
        }
        let count: usize = end - start + 1;
        let ghost live = live_bitmap.bmp@;
        let ghost mark = mark_bitmap.bmp@;
        let mut batches: Vec<Vec<usize>> = Vec::new();
        let mut pending: Vec<usize> = Vec::new();
        let mut k: usize = 0;
        let view = Ghost(|v: Vec<usize>| v@);
        assert(batches@.map_values(view@) =~= Seq::<Seq<usize>>::empty());
        while k < count
            invariant
                k <= count,
                live_bitmap.addressable(),
                live == live_bitmap.bmp@,
                mark == mark_bitmap.bmp@,
                start + count <= live_bitmap.bmp.len(),
                mark_start + count <= mark_bitmap.bmp.len(),
                view@ == (|v: Vec<usize>| v@),
                batches@.map_values(view@) == sweep_done::<ALIGN>(
                    live,
                    mark,
                    start as int,
                    mark_start as int,
                    k as nat,
                ),
                pending@ == sweep_pending::<ALIGN>(
                    live,
                    mark,
                    start as int,
                    mark_start as int,
                    k as nat,
                ),
            decreases count - k,
        {
            let garbage: u8 = live_bitmap.bmp[start + k] & !mark_bitmap.bmp[mark_start + k];
            let ghost carried = pending@;
            if garbage != 0 {
                live_bitmap.push_cell_offsets(garbage, start + k, &mut pending);
                if pending.len() >= SWEEP_BATCH {
                    let ghost before = batches@;
                    let mut full: Vec<usize> = Vec::new();
                    std::mem::swap(&mut full, &mut pending);
                    let ghost out = full@;
                    batches.push(full);
                    assert(batches@.map_values(view@) =~= before.map_values(view@).push(out));
                }
            } else {
                proof {
                    let s = cell_set(garbage, start + k);
                    assert forall|n: int| 8 * (start + k) <= n < 8 * (start + k) + 8 implies !s.contains(n) by {
                        lemma_zero_bits8((n - 8 * (start + k)) as u8);
                    }
                    lemma_ascending_gap(
                        s,
                        8 * (start + k),
                        8 * (start + k),
                        8 * (start + k) + 8,
                    );
                    assert(carried + offsets::<ALIGN>(
                        ascending(s, 8 * (start + k), 8 * (start + k) + 8),
                    ) =~= carried);
                }
            }
            k = k + 1;
        }
        if pending.len() > 0 {
            let ghost before = batches@;
            let ghost out = pending@;
            batches.push(pending);
            assert(batches@.map_values(view@) =~= before.map_values(view@).push(out));
        }
        batches
    }

    /// Appends the offsets of the slots that a cell value stands for.
    fn push_cell_offsets(&self, cell: u8, index: usize, out: &mut Vec<usize>)
        requires
            self.addressable(),
            8 * index + 8 <= self.capacity(),
        ensures
            final(out)@ == old(out)@ + offsets::<ALIGN>(
                ascending(cell_set(cell, index as int), 8 * index, 8 * index + 8),
            ),
            cell != 0 ==> final(out)@.len() > old(out)@.len(),
            final(out)@.len() <= old(out)@.len() + 8,
    {
        let ghost s = cell_set(cell, index as int);
        let ghost before = out@;
        let mut shift: u8 = 0;
        assert(before + offsets::<ALIGN>(ascending(s, 8 * index, 8 * index + 0)) =~= before);
        while shift < 8
            invariant
                shift <= 8,
                self.addressable(),
                8 * index + 8 <= self.capacity(),
                s == cell_set(cell, index as int),
                out@ == before + offsets::<ALIGN>(ascending(s, 8 * index, 8 * index + shift)),
            decreases 8 - shift,
        {
            let ghost n = 8 * index + shift;
            if (cell >> shift) & 1 == 1 {
                assert(s.contains(n));
                proof {
                    let cap = self.capacity();
                    assert(0 <= index * ALIGN <= index * ALIGN * 8 && index * ALIGN * 8 + shift
                        * ALIGN == n * ALIGN && n * ALIGN <= cap * ALIGN && shift * ALIGN >= 0)
                        by (nonlinear_arith)
                        requires
                            n == 8 * index + shift,
                            n <= cap,
                            index >= 0,
                            shift >= 0,
                            ALIGN >= 0,
                    ;
                }
                let ptr_base: usize = self.object_offset(index);
                out.push(ptr_base + shift as usize * ALIGN);
                assert(out@ =~= before + offsets::<ALIGN>(ascending(s, 8 * index, n + 1)));
            } else {
                assert(!s.contains(n));
            }
            shift = shift + 1;
        }
        proof {
            lemma_ascending(s, 8 * index as int, 8 * index + 8);
            if cell != 0 {
                lemma_some_bit8(cell);
                let b = choose|b: u8| b < 8 && bit8(cell, b);
                assert(s.contains(8 * index + b));
                assert(ascending(s, 8 * index as int, 8 * index + 8).contains(8 * index + b));
            }
        }
    }
}

/// Bitmap that allows to mark objects with arbitrary alignment in a heap.
pub struct CHeapBitmap {
    align: usize,
    offset: usize,
    bitmap: Vec<u8>,
}

impl CHeapBitmap {
    /// The distance between two slots.
    pub closed spec fn alignment(&self) -> int {
        self.align as int
    }

    /// The first address that the bitmap covers.
    pub closed spec fn start(&self) -> int {
        self.offset as int
    }

    /// The slots whose bit is set.
    pub closed spec fn slots(&self) -> Set<int> {
        set_slots(self.bitmap@)
    }

    /// The cell values.
    pub closed spec fn cells(&self) -> Seq<u8> {
        self.bitmap@
    }

    /// The slot of an address.
    pub open spec fn slot(&self, addr: int) -> int {
        (addr - self.start()) / self.alignment()
    }

    /// The number of slots that there are bits for.
    pub open spec fn capacity(&self) -> int {
        8 * self.cells().len() as int
    }

    /// Whether there is a bit for an address.
    pub open spec fn covers(&self, addr: int) -> bool {
        &&& self.alignment() > 0
        &&& self.start() <= addr
        &&& self.slot(addr) < self.capacity()
    }

    /// Only the bits differ.
    pub open spec fn same_shape(&self, other: &Self) -> bool {
        &&& self.start() == other.start()
        &&& self.alignment() == other.alignment()
        &&& self.cells().len() == other.cells().len()
    }

    pub fn bits_per_cell() -> (r: usize)
        ensures
            r == 8,
    {
        8
    }

    pub fn cell_mask() -> (r: usize)
        ensures
            r == 7,
    {
        Self::bits_per_cell() - 1
    }

    /// The number of cells for `heap_size` bytes at one bit per `align` bytes.
    pub fn bitmap_size(heap_size: usize, align: usize) -> (r: usize)
        requires
            align > 0,
            8 * align <= usize::MAX,
            heap_size + 8 * align - 1 <= usize::MAX,
        ensures
            r == cells_for(heap_size as int, align as int),
    {
        (heap_size + ((Self::bits_per_cell() * align) - 1)) / (Self::bits_per_cell() * align)
    }

    /// The bytes to reserve for the cells of `heap_size` bytes.
    pub fn reserved_for_bitmap(heap_size: usize, align: usize) -> (r: usize)
        requires
            align > 0,
            8 * align <= usize::MAX,
            heap_size + 8 * align - 1 <= usize::MAX,
            cells_for(heap_size as int, align as int) + align <= usize::MAX,
        ensures
            r == ((cells_for(heap_size as int, align as int) + align - 1) as usize) & !((align
                - 1) as usize),
            is_power_of_two(align as int) ==> r == rounded_up(
                cells_for(heap_size as int, align as int),
                align as int,
            ),
    {
        let n: usize = Self::bitmap_size(heap_size, align) + align - 1;
        proof {
            if is_power_of_two(align as int) {
                lemma_align_mask(n, align);
            }
        }
        n & !(align - 1)
    }

    /// A bitmap that covers nothing.
    pub fn empty() -> (r: Self)
        ensures
            r.alignment() == 0,
            r.start() == 0,
            r.cells().len() == 0,
            r.slots() == Set::<int>::empty(),
    {
        let r = Self { align: 0, offset: 0, bitmap: Vec::new() };
        proof {
            lemma_zero_cells_empty(r.bitmap@);
        }
        r
    }

    /// A bitmap with no bit set for the `heap_size` bytes from `offset`.
    pub fn new(align: usize, offset: usize, heap_size: usize) -> (r: Self)
        requires
            align > 0,
            8 * align <= usize::MAX,
            heap_size + 8 * align - 1 <= usize::MAX,
        ensures
            r.alignment() == align,
            r.start() == offset,
            r.cells().len() == cells_for(heap_size as int, align as int),
            r.slots() == Set::<int>::empty(),
    {
        Self { align, offset, bitmap: zeroed_cells(Self::bitmap_size(heap_size, align)) }
    }

    /// The cell of an address and the bit within the cell.
    pub fn object_start_index_bit(&self, addr: usize) -> (r: (usize, usize))
        requires
            self.alignment() > 0,
            self.start() <= addr,
        ensures
            r.0 == self.slot(addr as int) / 8,
            r.1 == self.slot(addr as int) % 8,
    {
        let object_offset: usize = addr - self.offset;
        let object_start_number: usize = object_offset / self.align;
        (object_start_number / Self::bits_per_cell(), object_start_number % Self::bits_per_cell())
    }

    /// Sets the bit of an address.
    pub fn set_bit(&mut self, addr: usize)
        requires
            old(self).covers(addr as int),
        ensures
            final(self).same_shape(old(self)),
            final(self).slots() == old(self).slots().insert(old(self).slot(addr as int)),
    {
        let (index, bit): (usize, usize) = self.object_start_index_bit(addr);
        set_cell_bit(&mut self.bitmap, index, bit);
    }

    /// Whether the bit of an address is set.
    pub fn check_bit(&self, addr: usize) -> (r: bool)
        requires
            self.covers(addr as int),
        ensures
            r == self.slots().contains(self.slot(addr as int)),
    {
        let (index, bit): (usize, usize) = self.object_start_index_bit(addr);
        test_cell_bit(&self.bitmap, index, bit)
    }

    /// Clears the bit of an address.
    pub fn clear_bit(&mut self, addr: usize)
        requires
            old(self).covers(addr as int),
        ensures
            final(self).same_shape(old(self)),
            final(self).slots() == old(self).slots().remove(old(self).slot(addr as int)),
    {
        let (index, bit): (usize, usize) = self.object_start_index_bit(addr);
        clear_cell_bit(&mut self.bitmap, index, bit);
    }

    /// The bit, within its cell, of the slot at `offset`.
    pub fn offset_index_bit(&self, offset: usize) -> (r: usize)
        requires
            self.alignment() > 0,
        ensures
            r == (offset as int / self.alignment()) % 8,
    {
        (offset / self.align) % Self::bits_per_cell()
    }

    /// Clears the bits of the partly covered cells at both ends of the range
    /// `begin..end`; whole cells in between keep their bits.
    pub fn clear_range(&mut self, begin: usize, end: usize)
        requires
            old(self).alignment() > 0,
            old(self).start() <= begin,
            old(self).start() <= end,
            end - old(self).start() + old(self).alignment() <= usize::MAX,
            walk_end(begin - old(self).start(), end - old(self).start(), old(self).alignment())
                <= old(self).capacity(),
            old(self).slot(end as int) <= old(self).capacity(),
        ensures
            final(self).same_shape(old(self)),
            final(self).slots() == old(self).slots().filter(
                |k: int|
                    !edge_slot(
                        begin - old(self).start(),
                        end - old(self).start(),
                        old(self).alignment(),
                        k,
                    ),
            ),
    {
        let align: usize = self.align;
        let from: usize = begin - self.offset;
        let to: usize = end - self.offset;
        let cells: (usize, usize) = clear_edges(&mut self.bitmap, from, to, align);
    }

    /// Clears every bit.
    pub fn clear(&mut self)
        ensures
            final(self).same_shape(old(self)),
            final(self).slots() == Set::<int>::empty(),
    {
        let n: usize = self.bitmap.len();
        zero_cells(&mut self.bitmap, 0, n);
        assert(self.slots() =~= Set::<int>::empty());
    }

    /// The number of set bits.
    pub fn count_ones(&self) -> (r: usize)
        requires
            self.capacity() <= usize::MAX,
        ensures
            r == self.slots().len(),
            self.slots().finite(),
    {
        proof {
            lemma_count_is_slots(self.bitmap@);
        }
        count_cells(&self.bitmap)
    }
}

/// One byte for every `ALIGN` bytes of a memory range. Addresses are counted
/// downwards from the start.
pub struct HeapBytemap<const ALIGN: usize> {
    offset: usize,
    bytes: Vec<u8>,
}

impl<const ALIGN: usize> HeapBytemap<ALIGN> {
    /// The address from which offsets are counted.
    pub closed spec fn start(&self) -> int {
        self.offset as int
    }

    /// The bytes.
    pub closed spec fn view(&self) -> Seq<u8> {
        self.bytes@
    }

    /// The byte that belongs to an address.
    pub open spec fn index_of(&self, addr: int) -> int {
        (self.start() - addr) / ALIGN as int
    }

    /// Whether there is a byte for an address.
    pub open spec fn covers(&self, addr: int) -> bool {
        &&& ALIGN > 0
        &&& addr <= self.start()
        &&& self.index_of(addr) < self@.len()
    }

    /// The number of bytes for `heap_size` bytes.
    pub fn bytemap_size(heap_size: usize) -> (r: usize)
        requires
            ALIGN > 0,
            heap_size + ALIGN <= usize::MAX,
        ensures
            r == (heap_size + ALIGN - 1) / ALIGN as int,
    {
        (heap_size + ALIGN - 1) / ALIGN
    }

    /// The bytes to reserve for the byte map of `heap_size` bytes.
    pub fn reserved_for_bytemap(heap_size: usize) -> (r: usize)
        requires
            ALIGN > 0,
            heap_size + ALIGN <= usize::MAX,
            (heap_size + ALIGN - 1) / ALIGN as int + ALIGN - 1 <= usize::MAX,
        ensures
            r == (((heap_size + ALIGN - 1) / ALIGN as int + ALIGN - 1) as usize) & !((ALIGN
                - 1) as usize),
            is_power_of_two(ALIGN as int) ==> r == rounded_up(
                (heap_size + ALIGN - 1) / ALIGN as int,
                ALIGN as int,
            ),
    {
        let n: usize = Self::bytemap_size(heap_size) + (ALIGN - 1);
        proof {
            if is_power_of_two(ALIGN as int) {
                lemma_align_mask(n, ALIGN);
            }
        }
        n & !(ALIGN - 1)
    }

    /// A byte map of zeros for `heap_size` bytes.
    pub fn new(heap: usize, heap_size: usize) -> (r: Self)
        requires
            ALIGN > 0,
            heap_size + ALIGN <= usize::MAX,
        ensures
            r.start() == heap,
            r@.len() == (heap_size + ALIGN - 1) / ALIGN as int,
            forall|i: int| 0 <= i < r@.len() ==> r@[i] == 0,
    {
        Self { offset: heap, bytes: zeroed_cells(Self::bytemap_size(heap_size)) }
    }

    /// Stores the byte of an address.
    pub fn set_byte(&mut self, addr: usize, byte: u8)
        requires
            old(self).covers(addr as int),
        ensures
            final(self).start() == old(self).start(),
            final(self)@ == old(self)@.update(old(self).index_of(addr as int), byte),
    {
        let offset: usize = self.offset - addr;
        let index: usize = offset / ALIGN;
        self.bytes.set(index, byte);
    }

    /// Loads the byte of an address.
    pub fn get_byte(&self, addr: usize) -> (r: u8)
        requires
            self.covers(addr as int),
        ensures
            r == self@[self.index_of(addr as int)],
    {
        let offset: usize = self.offset - addr;
        let index: usize = offset / ALIGN;
        self.bytes[index]
    }

    /// Zeroes every byte.
    pub fn clear(&mut self)
        ensures
            final(self).start() == old(self).start(),
            final(self)@.len() == old(self)@.len(),
            forall|i: int| 0 <= i < final(self)@.len() ==> final(self)@[i] == 0,
    {
        let n: usize = self.bytes.len();
        self.bytes = zeroed_cells(n);
    }

    /// The byte at `offset`.
    pub fn offset_index_byte(offset: usize) -> (r: usize)
        requires
            ALIGN > 0,
        ensures
            r == offset as int / ALIGN as int,
    {
        offset / ALIGN
    }

    /// Whether a range can be cleared: it is empty, or lies in the first granule above the
    /// start, or below the start where there are bytes and a granule is left in between.
    pub open spec fn clearable(&self, begin: int, end: int) -> bool {
        if self.start() <= begin {
            &&& self.start() <= end
            &&& begin < end ==> end <= self.start() + ALIGN
            &&& begin < end && end == self.start() + ALIGN ==> self@.len() > 0
        } else {
            begin < end < self.start() ==> self.covers(begin) && end + ALIGN <= self.start()
        }
    }

    /// Whether clearing a range clears byte `i`. Below the start these are the bytes of
    /// `begin` and of every `ALIGN` bytes from there up to the end. Above it, a range that
    /// fills up the first granule clears the first byte.
    pub open spec fn range_clears(&self, begin: int, end: int, i: int) -> bool {
        if self.start() <= begin {
            begin < end && end == self.start() + ALIGN && i == 0
        } else {
            begin < end < self.start() && self.index_of(begin) - granules(begin, end, ALIGN as int)
                < i <= self.index_of(begin)
        }
    }

    /// Clears the bytes of a range.
    pub fn clear_range(&mut self, begin: usize, end: usize)
        requires
            ALIGN > 0,
            old(self).clearable(begin as int, end as int),
        ensures
            final(self).start() == old(self).start(),
            final(self)@.len() == old(self)@.len(),
            forall|i: int|
                0 <= i < old(self)@.len() ==> (#[trigger] final(self)@[i]) == if old(self).range_clears(begin as int, end as int, i) {
                    0
                } else {
                    old(self)@[i]
                },
    {
        if begin >= end {
            return ;
        }
        if begin >= self.offset {
            if end - self.offset >= ALIGN {
                self.bytes.set(0, 0);
            }
            return ;
        }
        if end >= self.offset {
            return ;
        }
        let ghost before = *self;
        let ghost a = ALIGN as int;
        let ghost top = before.index_of(begin as int);
        let ghost mut k: int = 0;
        let mut at: usize = begin;
        proof {
            assert(0int / a == 0) by {
                vstd::arithmetic::div_mod::lemma_div_basics(a);
            }
            assert(begin + 0 * a == begin);
        }
        while at < end
            invariant
                a == ALIGN,
                a > 0,
                0 <= k,
                begin <= at,
                begin < end,
                at == begin + k * a,
                k > 0 ==> begin + (k - 1) * a < end,
                self.start() == before.start(),
                self@.len() == before@.len(),
                end + a <= before.start(),
                before.covers(begin as int),
                top == before.index_of(begin as int),
                forall|i: int|
                    0 <= i < before@.len() ==> (#[trigger] self@[i]) == if top - k < i <= top {
                        0
                    } else {
                        before@[i]
                    },
            decreases end + a - at,
        {
            proof {
                lemma_index_step(before.start() - begin, a, k);
                assert(before.index_of(at as int) == top - k);
                vstd::arithmetic::div_mod::lemma_div_pos_is_pos(before.start() - at, a);
                assert((k + 1) * a == k * a + a) by (nonlinear_arith);
                vstd::arithmetic::mul::lemma_mul_nonnegative(k, a);
            }
            self.set_byte(at, 0);
            at = at + ALIGN;
            proof {
                k = k + 1;
            }
        }
        proof {
            lemma_granules(begin as int, end as int, a, k);
        }
    }
}

/// The number of granules of `align` bytes that a range takes, the last one maybe in part.
pub open spec fn granules(begin: int, end: int, align: int) -> int {
    (end - begin + align - 1) / align
}

proof fn lemma_index_step(offset: int, align: int, k: int)
    requires
        align > 0,
        0 <= k,
    ensures
        (offset - k * align) / align == offset / align - k,
{
    vstd::arithmetic::div_mod::lemma_hoist_over_denominator(offset, -k, align as nat);
    assert(offset - k * align == offset + (-k) * align) by (nonlinear_arith);
}

proof fn lemma_granules(begin: int, end: int, align: int, k: int)
    requires
        align > 0,
        begin < end,
        k > 0,
        begin + (k - 1) * align < end,
        end <= begin + k * align,
    ensures
        granules(begin, end, align) == k,
{
    let n = end - begin + align - 1;
    assert((k - 1) * align == k * align - align) by (nonlinear_arith);
    vstd::arithmetic::div_mod::lemma_fundamental_div_mod_converse(
        n,
        align,
        k,
        n - k * align,
    );
}

} // verus!
