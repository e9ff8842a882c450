//! The free cells of a page, and the sweep that finds them.

use vstd::prelude::*;

use super::bitmap::ObjectStartBitmap;
use super::PAGE_HEADER;

verus! {

/// A free cell. The address of the next one is scrambled with a secret.
#[derive(Clone, Copy, PartialEq, Eq, Debug, Structural)]
pub struct FreeCell {
    pub preserved_bits: u64,
    pub scramble_next: usize,
}

/// The colour of an object.
#[derive(Clone, Copy, PartialEq, Eq, Debug, Structural)]
pub enum CellState {
    White,
    Black,
}

proof fn lemma_xor(a: usize, b: usize)
    by (bit_vector)
    ensures
        (a ^ b) ^ b == a,
        0usize ^ b == b,
{
}

impl FreeCell {
    pub fn scramble(next: usize, secret: usize) -> (r: usize)
        ensures
            r == next ^ secret,
    {
        next ^ secret
    }

    pub fn descramble(scrambled: usize, secret: usize) -> (r: usize)
        ensures
            r == scrambled ^ secret,
    {
        scrambled ^ secret
    }

    pub fn set_next(&mut self, next: usize, secret: usize)
        ensures
            *final(self) == (FreeCell { scramble_next: next ^ secret, ..*old(self) }),
    {
        self.scramble_next = Self::scramble(next, secret);
    }

    pub fn next(&self, secret: usize) -> (r: usize)
        ensures
            r == self.scramble_next ^ secret,
    {
        Self::descramble(self.scramble_next, secret)
    }

    /// What was scrambled with a secret is descrambled with it.
    pub proof fn lemma_round_trip(next: usize, secret: usize)
        ensures
            (next ^ secret) ^ secret == next,
            0usize ^ secret == secret,
    {
        lemma_xor(next, secret);
    }
}

/// The free cells of a page: a piece at its end that has never been used, or else a list
/// of cells.
#[derive(Clone, Copy, PartialEq, Eq, Debug, Structural)]
pub struct FreeList {
    pub scrambled_head: usize,
    pub secret: usize,
    pub payload_end: usize,
    pub remaining: usize,
    pub original_size: usize,
    pub cell_size: usize,
}

/// The number of the cell at an address.
pub open spec fn cell_of(base: int, addr: int) -> int {
    (addr - base) / 16
}

/// Whether free cells are linked: each one refers to the one before it, and the first one
/// to nothing.
pub open spec fn linked(cells: Seq<FreeCell>, base: int, secret: usize, list: Seq<usize>) -> bool {
    forall|i: int|
        0 <= i < list.len() ==> {
            &&& (#[trigger] list[i]) != 0
            &&& base <= list[i]
            &&& cell_of(base, list[i] as int) < cells.len()
            &&& cells[cell_of(base, list[i] as int)].scramble_next == before(list, i) ^ secret
        }
}

/// What cell `i` of a list refers to.
pub open spec fn before(list: Seq<usize>, i: int) -> usize {
    if i <= 0 {
        0
    } else {
        list[i - 1]
    }
}

impl FreeList {
    /// The first free cell.
    pub open spec fn spec_head(&self) -> usize {
        self.scrambled_head ^ self.secret
    }

    /// Whether the list holds the given cells, the last one first.
    pub open spec fn holds(&self, cells: Seq<FreeCell>, base: int, list: Seq<usize>) -> bool {
        &&& linked(cells, base, self.secret, list)
        &&& self.spec_head() == before(list, list.len() as int)
    }

    pub fn new(cell_size: usize) -> (r: Self)
        ensures
            r == (FreeList {
                scrambled_head: 0,
                secret: 0,
                payload_end: 0,
                remaining: 0,
                original_size: 0,
                cell_size,
            }),
    {
        FreeList {
            scrambled_head: 0,
            secret: 0,
            payload_end: 0,
            remaining: 0,
            original_size: 0,
            cell_size,
        }
    }

    pub fn head(&self) -> (r: usize)
        ensures
            r == self.spec_head(),
    {
        FreeCell::descramble(self.scrambled_head, self.secret)
    }

    pub fn cell_size(&self) -> (r: usize)
        ensures
            r == self.cell_size,
    {
        self.cell_size
    }

    pub fn allocation_will_fail(&self) -> (r: bool)
        ensures
            r == (self.spec_head() == 0 && self.remaining == 0),
    {
        self.head() == 0 && self.remaining == 0
    }

    pub fn allocation_will_succeed(&self) -> (r: bool)
        ensures
            r == !(self.spec_head() == 0 && self.remaining == 0),
    {
        !self.allocation_will_fail()
    }

    /// Takes a cell, if there is one: from the unused piece, or else from the list.
    pub fn allocate(&mut self, cells: &Vec<FreeCell>, base: usize) -> (r: Option<usize>)
        requires
            old(self).remaining > 0 ==> old(self).cell_size <= old(self).remaining && old(self).remaining <= old(self).payload_end,
            old(self).remaining == 0 && old(self).spec_head() != 0 ==> base <= old(self).spec_head() && cell_of(base as int, old(self).spec_head() as int) < cells@.len(),
        ensures
            old(self).remaining > 0 ==> {
                &&& r == Some((old(self).payload_end - old(self).remaining) as usize)
                &&& *final(self) == (FreeList {
                    remaining: (old(self).remaining - old(self).cell_size) as usize,
                    ..*old(self)
                })
            },
            old(self).remaining == 0 ==> {
                let head = old(self).spec_head();
                &&& r == if head == 0 {
                    None
                } else {
                    Some(head)
                }
                &&& *final(self) == if head == 0 {
                    *old(self)
                } else {
                    FreeList {
                        scrambled_head: cells@[cell_of(
                            base as int,
                            head as int,
                        )].scramble_next,
                        ..*old(self)
                    }
                }
            },
    {
        let mut remaining: usize = self.remaining;
        if remaining != 0 {
            let cell_size: usize = self.cell_size;
            remaining = remaining - cell_size;
            self.remaining = remaining;
            return Some(self.payload_end - remaining - cell_size);
        }
        let result: usize = self.head();
        if result == 0 {
            return None;
        }
        self.scrambled_head = cells[(result - base) / 16].scramble_next;
        Some(result)
    }

    pub fn clear(&mut self)
        ensures
            *final(self) == (FreeList {
                scrambled_head: 0,
                remaining: 0,
                secret: 0,
                payload_end: 0,
                original_size: 0,
                ..*old(self)
            }),
    {
        self.scrambled_head = 0;
        self.remaining = 0;
        self.secret = 0;
        self.payload_end = 0;
        self.original_size = 0;
    }

    pub fn initialize_list(&mut self, head: usize, secret: usize, bytes: usize)
        ensures
            *final(self) == (FreeList {
                scrambled_head: head ^ secret,
                secret,
                payload_end: 0,
                remaining: 0,
                original_size: bytes,
                ..*old(self)
            }),
            final(self).spec_head() == head,
    {
        proof {
            lemma_xor(head, secret);
        }
        self.scrambled_head = FreeCell::scramble(head, secret);
        self.secret = secret;
        self.payload_end = 0;
        self.remaining = 0;
        self.original_size = bytes;
    }

    pub fn initialize_bump(&mut self, payload_end: usize, remaining: usize)
        ensures
            *final(self) == (FreeList {
                scrambled_head: 0,
                secret: 0,
                payload_end,
                remaining,
                original_size: remaining,
                ..*old(self)
            }),
    {
        self.scrambled_head = 0;
        self.secret = 0;
        self.payload_end = payload_end;
        self.remaining = remaining;
        self.original_size = remaining;
    }
}

/// Taking a cell from a list leaves a list of the others: the cells come out one by one,
/// the last one first.
pub proof fn lemma_allocate_pops(
    free: FreeList,
    cells: Seq<FreeCell>,
    base: int,
    list: Seq<usize>,
)
    requires
        free.remaining == 0,
        free.holds(cells, base, list),
        list.len() > 0,
    ensures
        free.spec_head() == list.last(),
        ({
            let next = FreeList {
                scrambled_head: cells[cell_of(base, free.spec_head() as int)].scramble_next,
                ..free
            };
            next.holds(cells, base, list.drop_last())
        }),
{
    let n = list.len() - 1;
    let rest = list.drop_last();
    assert(list[n] == list.last());
    lemma_xor(before(list, n as int), free.secret);
    assert forall|i: int| 0 <= i < rest.len() implies {
        &&& (#[trigger] rest[i]) != 0
        &&& base <= rest[i]
        &&& cell_of(base, rest[i] as int) < cells.len()
        &&& cells[cell_of(base, rest[i] as int)].scramble_next == before(rest, i) ^ free.secret
    } by {
        assert(rest[i] == list[i]);
    }
}

/// A piece that is taken from the unused end of a page: the cells come out in order of
/// their addresses, side by side.
pub proof fn lemma_bump_order(free: FreeList)
    requires
        free.cell_size > 0,
        2 * free.cell_size <= free.remaining <= free.payload_end,
    ensures
        ({
            let next = FreeList { remaining: (free.remaining - free.cell_size) as usize, ..free };
            next.payload_end - next.remaining == free.payload_end - free.remaining
                + free.cell_size
        }),
{
}

/// The number of cells in a page.
pub open spec fn cell_count(start: int, end: int, block_size: int) -> int {
    (end - start + block_size - 1) / block_size
}

/// Whether the cell at an address is free once a page has been swept: nothing starts
/// there, or an object of the colour that is swept.
pub open spec fn is_dead(
    slots: Set<int>,
    states: Seq<CellState>,
    base: int,
    color: CellState,
    addr: int,
) -> bool {
    !slots.contains(cell_of(base, addr)) || states[cell_of(base, addr)] == color
}

/// The free cells among the first `n`, in order.
pub open spec fn dead_cells(
    slots: Set<int>,
    states: Seq<CellState>,
    base: int,
    color: CellState,
    start: int,
    block_size: int,
    n: int,
) -> Seq<usize>
    decreases n,
{
    if n <= 0 {
        Seq::empty()
    } else {
        let rest = dead_cells(slots, states, base, color, start, block_size, n - 1);
        let addr = start + (n - 1) * block_size;
        if is_dead(slots, states, base, color, addr) {
            rest.push(addr as usize)
        } else {
            rest
        }
    }
}

proof fn lemma_dead_cells(
    slots: Set<int>,
    states: Seq<CellState>,
    base: int,
    color: CellState,
    start: int,
    block_size: int,
    n: int,
)
    requires
        0 <= n,
        0 < start,
        0 < block_size,
        start + n * block_size <= usize::MAX + block_size,
    ensures
        ({
            let list = dead_cells(slots, states, base, color, start, block_size, n);
            &&& list.len() <= n
            &&& forall|i: int|
                0 <= i < list.len() ==> exists|k: int|
                    0 <= k < n && (#[trigger] list[i]) == #[trigger] nth(start, block_size, k)
            &&& forall|k: int|
                0 <= k < n ==> (is_dead(
                    slots,
                    states,
                    base,
                    color,
                    #[trigger] nth(start, block_size, k),
                ) <==> list.contains(nth(start, block_size, k) as usize))
        }),
    decreases n,
{
    let list = dead_cells(slots, states, base, color, start, block_size, n);
    if n > 0 {
        let rest = dead_cells(slots, states, base, color, start, block_size, n - 1);
        let addr = nth(start, block_size, n - 1);
        assert((n - 1) * block_size + block_size == n * block_size) by (nonlinear_arith);
        assert(0 <= (n - 1) * block_size) by (nonlinear_arith)
            requires
                n >= 1,
                block_size > 0,
        ;
        lemma_dead_cells(slots, states, base, color, start, block_size, n - 1);
        assert forall|i: int| 0 <= i < list.len() implies exists|k: int|
            0 <= k < n && (#[trigger] list[i]) == #[trigger] nth(start, block_size, k) by {
            if i < rest.len() {
                assert(list[i] == rest[i]);
                let k = choose|k: int|
                    0 <= k < n - 1 && rest[i] == #[trigger] nth(start, block_size, k);
                assert(list[i] == nth(start, block_size, k));
            } else {
                assert(list[i] == addr);
            }
        }
        assert forall|k: int| 0 <= k < n implies (is_dead(
            slots,
            states,
            base,
            color,
            #[trigger] nth(start, block_size, k),
        ) <==> list.contains(nth(start, block_size, k) as usize)) by {
            let a = nth(start, block_size, k);
            assert(a <= addr && 0 <= a && (k < n - 1 ==> a < addr)) by (nonlinear_arith)
                requires
                    a == start + k * block_size,
                    addr == start + (n - 1) * block_size,
                    0 <= k <= n - 1,
                    block_size > 0,
                    start > 0,
            ;
            if k < n - 1 {
                if rest.contains(a as usize) {
                    let w = choose|w: int| 0 <= w < rest.len() && rest[w] == a as usize;
                    assert(list[w] == a as usize);
                }
                if list.contains(a as usize) {
                    let w = choose|w: int| 0 <= w < list.len() && list[w] == a as usize;
                    assert(w < rest.len());
                    assert(rest[w] == a as usize);
                }
            } else if is_dead(slots, states, base, color, a) {
                assert(list[list.len() - 1] == a as usize);
            } else if list.contains(a as usize) {
                let w = choose|w: int| 0 <= w < rest.len() && rest[w] == a as usize;
                let j = choose|j: int|
                    0 <= j < n - 1 && rest[w] == #[trigger] nth(start, block_size, j);
                assert(nth(start, block_size, j) < addr) by (nonlinear_arith)
                    requires
                        nth(start, block_size, j) == start + j * block_size,
                        addr == start + (n - 1) * block_size,
                        j < n - 1,
                        block_size > 0,
                ;
            }
        }
    }
}

/// The address of cell `k`.
pub open spec fn nth(start: int, block_size: int, k: int) -> int {
    start + k * block_size
}

/// Free cells that have been swept are each swept once, and are exactly the cells that
/// hold no object, or one of the colour that is swept.
pub proof fn lemma_sweep_exact(
    slots: Set<int>,
    states: Seq<CellState>,
    base: int,
    color: CellState,
    start: int,
    block_size: int,
    n: int,
    k: int,
)
    requires
        0 <= k < n,
        0 < start,
        0 < block_size,
        start + n * block_size <= usize::MAX + block_size,
    ensures
        dead_cells(slots, states, base, color, start, block_size, n).contains(
            nth(start, block_size, k) as usize,
        ) <==> is_dead(slots, states, base, color, nth(start, block_size, k)),
{
    lemma_dead_cells(slots, states, base, color, start, block_size, n);
    let a = nth(start, block_size, k);
    assert(is_dead(slots, states, base, color, a) <==> dead_cells(
        slots,
        states,
        base,
        color,
        start,
        block_size,
        n,
    ).contains(a as usize));
}

/// A page of an arena.
#[derive(Clone, Copy, PartialEq, Eq, Debug, Structural)]
pub struct Page {
    pub start: usize,
}

impl Page {
    pub fn payload_start(&self) -> (r: usize)
        ensures
            r == self.start,
    {
        self.start
    }

    /// Whether a page can be swept: it lies in its arena, and its cells have the size of
    /// some grains.
    pub open spec fn sweepable(
        &self,
        bmp: &ObjectStartBitmap,
        cells: int,
        page_size: int,
        block_size: int,
    ) -> bool {
        let first = self.start + PAGE_HEADER;
        let end = self.start + page_size;
        &&& 0 < block_size
        &&& block_size % 16 == 0
        &&& PAGE_HEADER <= page_size
        &&& bmp.start() <= self.start
        &&& (self.start - bmp.start()) % 16 == 0
        &&& end + block_size <= usize::MAX
        &&& page_size + block_size <= usize::MAX
        &&& forall|a: int| first <= a < end ==> #[trigger] bmp.covers(a)
        &&& cell_of(bmp.start(), end + 15) <= cells
        &&& first > 0
    }

    /// Sweeps the page. An empty page is given to the free list as a whole. Otherwise the
    /// cells without an object, and those with one of the colour that is swept, become
    /// free. Tells whether no object is left.
    pub fn specialized_sweep(
        &self,
        free_list: &mut FreeList,
        wants_list: bool,
        is_empty: bool,
        bmp: &mut ObjectStartBitmap,
        cells: &mut Vec<FreeCell>,
        states: &Vec<CellState>,
        page_size: usize,
        sweep_color: CellState,
        block_size: usize,
        secret: usize,
    ) -> (r: bool)
        requires
            self.sweepable(
                old(bmp),
                old(cells)@.len() as int,
                page_size as int,
                block_size as int,
            ),
            states@.len() == old(cells)@.len(),
        ensures
            final(cells)@.len() == old(cells)@.len(),
            final(bmp).bits().same_shape(&old(bmp).bits()),
            is_empty ==> {
                &&& r
                &&& final(cells)@ == old(cells)@
                &&& final(bmp).slots() == old(bmp).slots()
                &&& *final(free_list) == if wants_list {
                    FreeList {
                        scrambled_head: 0,
                        secret: 0,
                        payload_end: (self.start + PAGE_HEADER) as usize,
                        remaining: (page_size - PAGE_HEADER) as usize,
                        original_size: (page_size - PAGE_HEADER) as usize,
                        ..*old(free_list)
                    }
                } else {
                    *old(free_list)
                }
            },
            !is_empty ==> {
                let base = old(bmp).start();
                let first = self.start + PAGE_HEADER;
                let n = cell_count(first, self.start + page_size, block_size as int);
                let list = dead_cells(
                    old(bmp).slots(),
                    states@,
                    base,
                    sweep_color,
                    first,
                    block_size as int,
                    n,
                );
                &&& r == (list.len() == n)
                &&& forall|s: int| #[trigger]
                    final(bmp).slots().contains(s) <==> old(bmp).slots().contains(s)
                        && !in_list(list, base, s)
                &&& wants_list ==> {
                    &&& final(free_list).holds(final(cells)@, base, list)
                    &&& *final(free_list) == (FreeList {
                        scrambled_head: final(free_list).scrambled_head,
                        secret,
                        payload_end: 0,
                        remaining: 0,
                        original_size: (list.len() * block_size) as usize,
                        ..*old(free_list)
                    })
                    &&& forall|s: int|
                        0 <= s < old(cells)@.len() && !in_list(list, base, s) ==> (
                        #[trigger] final(cells)@[s]) == old(cells)@[s]
                }
                &&& !wants_list ==> final(cells)@ == old(cells)@ && *final(free_list) == *old(free_list)
            },
    {
        let start: usize = self.payload_start() + PAGE_HEADER;
        let end: usize = self.payload_start() + page_size;
        if is_empty {
            if wants_list {
                free_list.initialize_bump(start, end - start);
            }
            return true;
        }
        let ghost base = bmp.start();
        let ghost slots = bmp.slots();
        let ghost old_cells = cells@;
        let ghost shape = *bmp;
        let ghost bs = block_size as int;
        let ghost n = cell_count(start as int, end as int, bs);
        let ghost mut k: int = 0;
        let ghost mut list = Seq::<usize>::empty();
        let mut head: usize = 0;
        let mut count: usize = 0;
        let mut empty: bool = true;
        let mut current: usize = start;
        proof {
            lemma_count(start as int, end as int, bs);
            bmp.bits().lemma_slots();
        }
        while current < end
            invariant
                bs == block_size,
                0 < bs,
                bs % 16 == 0,
                start == self.start + PAGE_HEADER,
                end == self.start + page_size,
                0 < start,
                0 <= k,
                start <= current,
                current == nth(start as int, bs, k),
                n == cell_count(start as int, end as int, bs),
                k <= n,
                nth(start as int, bs, n) < end + bs,
                nth(start as int, bs, n) >= end,
                end + bs <= usize::MAX,
                base == shape.start(),
                0 <= base,
                base <= self.start,
                (self.start - base) % 16 == 0,
                cell_of(base, end + 15) <= cells@.len(),
                cells@.len() == old_cells.len(),
                states@.len() == cells@.len(),
                forall|a: int| start <= a < end ==> #[trigger] shape.covers(a),
                bmp.bits().same_shape(&shape.bits()),
                list == dead_cells(slots, states@, base, sweep_color, start as int, bs, k),
                list.len() <= k,
                count == if wants_list {
                    list.len() as int
                } else {
                    0
                },
                empty == (list.len() == k),
                forall|i: int| 0 <= i < list.len() ==> start <= (#[trigger] list[i]) < current,
                forall|i: int|
                    0 <= i < list.len() ==> (list[i] - base) % 16 == 0 && (#[trigger] list[i])
                        < end,
                forall|s: int| #[trigger]
                    bmp.slots().contains(s) <==> slots.contains(s) && !in_list(list, base, s),
                wants_list ==> head == before(list, list.len() as int),
                wants_list ==> linked(cells@, base, secret, list),
                wants_list ==> forall|s: int|
                    0 <= s < old_cells.len() && !in_list(list, base, s) ==> (#[trigger] cells@[s])
                        == old_cells[s],
                !wants_list ==> cells@ == old_cells,
            decreases end + bs - current,
        {
            proof {
                assert(nth(start as int, bs, k + 1) == current + bs) by (nonlinear_arith)
                    requires
                        nth(start as int, bs, k + 1) == start + (k + 1) * bs,
                        current == start + k * bs,
                ;
                assert(k < n) by (nonlinear_arith)
                    requires
                        start + k * bs < end,
                        start + n * bs >= end,
                        bs > 0,
                ;
                lemma_sixteenths(start as int, base, k, bs);
                assert(shape.covers(current as int));
                assert(!in_list(list, base, cell_of(base, current as int))) by {
                    if in_list(list, base, cell_of(base, current as int)) {
                        let i = choose|i: int|
                            0 <= i < list.len() && cell_of(base, (#[trigger] list[i]) as int)
                                == cell_of(base, current as int);
                        assert(list[i] < current);
                    }
                }
            }
            let mut dead: bool = true;
            if bmp.check_bit(current) {
                if states[self.cell_number(bmp, current)] == sweep_color {
                    bmp.clear_bit(current);
                } else {
                    empty = false;
                    dead = false;
                }
            }
            let ghost next = list.push(current);
            let ghost cells0 = cells@;
            if dead && wants_list {
                let at: usize = self.cell_number(bmp, current);
                let mut cell: FreeCell = cells[at];
                cell.set_next(head, secret);
                cells.set(at, cell);
                head = current;
                count = count + 1;
            }
            proof {
                let c = cell_of(base, current as int);
                if dead {
                    assert forall|s: int| #[trigger] in_list(next, base, s) <==> in_list(
                        list,
                        base,
                        s,
                    ) || s == c by {
                        if in_list(list, base, s) {
                            let i = choose|i: int|
                                0 <= i < list.len() && cell_of(
                                    base,
                                    (#[trigger] list[i]) as int,
                                ) == s;
                            assert(next[i] == list[i]);
                        }
                        if s == c {
                            assert(next[next.len() - 1] == current);
                        }
                        if in_list(next, base, s) && s != c {
                            let i = choose|i: int|
                                0 <= i < next.len() && cell_of(
                                    base,
                                    (#[trigger] next[i]) as int,
                                ) == s;
                            assert(list[i] == next[i]);
                        }
                    }
                    if wants_list {
                        assert forall|i: int| 0 <= i < next.len() implies {
                            &&& (#[trigger] next[i]) != 0
                            &&& base <= next[i]
                            &&& cell_of(base, next[i] as int) < cells@.len()
                            &&& cells@[cell_of(base, next[i] as int)].scramble_next == before(
                                next,
                                i,
                            ) ^ secret
                        } by {
                            if i < list.len() {
                                assert(next[i] == list[i]);
                                assert(in_list(list, base, cell_of(base, list[i] as int)));
                                assert(before(next, i) == before(list, i));
                            }
                        }
                    }
                    list = next;
                }
                k = k + 1;
            }
            current = current + block_size;
        }
        proof {
            assert(k == n) by (nonlinear_arith)
                requires
                    start + k * bs >= end,
                    k <= n,
                    start + n * bs < end + bs,
                    bs > 0,
            ;
            assert(list.len() * bs <= n * bs) by (nonlinear_arith)
                requires
                    list.len() <= n,
                    bs > 0,
            ;
        }
        if wants_list {
            free_list.initialize_list(head, secret, count * block_size);
        }
        empty
    }

    /// The number of the cell at an address of the page.
    fn cell_number(&self, bmp: &ObjectStartBitmap, addr: usize) -> (r: usize)
        requires
            bmp.start() <= addr,
        ensures
            r == cell_of(bmp.start(), addr as int),
    {
        let (index, bit): (usize, usize) = bmp.object_start_index_bit(addr);
        proof {
            bmp.bits().lemma_slots();
            let s = bmp.slot(addr as int);
            assert(0 <= s <= addr);
            assert(s == (s / 8) * 8 + s % 8);
        }
        index * 8 + bit
    }
}

/// Whether a cell is that of an address of a list.
pub open spec fn in_list(list: Seq<usize>, base: int, s: int) -> bool {
    exists|i: int| 0 <= i < list.len() && cell_of(base, (#[trigger] list[i]) as int) == s
}

proof fn lemma_count(start: int, end: int, bs: int)
    requires
        0 < bs,
        start <= end,
    ensures
        0 <= cell_count(start, end, bs),
        end <= nth(start, bs, cell_count(start, end, bs)) < end + bs,
{
    let m = end - start + bs - 1;
    vstd::arithmetic::div_mod::lemma_fundamental_div_mod(m, bs);
    let q = m / bs;
    assert(q * bs == bs * q) by (nonlinear_arith);
    assert(0 <= q) by (nonlinear_arith)
        requires
            m == bs * q + m % bs,
            0 <= m % bs < bs,
            m >= 0,
            bs > 0,
    ;
}

proof fn lemma_sixteenths(start: int, base: int, k: int, bs: int)
    requires
        (start - base) % 16 == 0,
        bs % 16 == 0,
    ensures
        (nth(start, bs, k) - base) % 16 == 0,
{
    let q = bs / 16;
    assert(k * bs == (k * q) * 16) by (nonlinear_arith)
        requires
            bs == 16 * q,
    ;
    vstd::arithmetic::div_mod::lemma_mod_multiples_basic(k * q, 16);
}

} // verus!
