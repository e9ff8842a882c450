//! All arenas, and the pages that are handed out of them.

use vstd::prelude::*;

use super::bitmap::{first_page, Arena};
use super::free_list::{cell_of, CellState, FreeCell, FreeList, Page};
use super::{align_usize, LargeObject, MemoryType, PAGE_HEADER, WORD};

verus! {

/// What is known of a piece of memory: what it is used for, where it starts, and which
/// arena or large object it is.
#[derive(Clone, Copy, PartialEq, Eq, Debug, Structural)]
pub struct BaseMemory {
    pub typ: MemoryType,
    pub start: usize,
    pub id: usize,
}

/// The pieces of memory in order of their addresses.
pub struct ArenaTree {
    pub set: Vec<BaseMemory>,
}

/// Whether pieces are in order of their addresses.
pub open spec fn tree_ok(set: Seq<BaseMemory>) -> bool {
    forall|i: int, j: int|
        0 <= i < j < set.len() ==> (#[trigger] set[i]).start < (#[trigger] set[j]).start
}

/// Whether a piece is in the tree.
pub open spec fn in_tree(set: Seq<BaseMemory>, m: BaseMemory) -> bool {
    exists|i: int| 0 <= i < set.len() && (#[trigger] set[i]) == m
}

impl ArenaTree {
    pub open spec fn wf(&self) -> bool {
        tree_ok(self.set@)
    }

    /// Whether a piece is the last one that starts at or before an address.
    pub open spec fn finds(&self, m: BaseMemory, addr: usize) -> bool {
        &&& self.has(m)
        &&& m.start <= addr
        &&& forall|x: BaseMemory| #[trigger] self.has(x) && x.start <= addr ==> x.start <= m.start
    }

    /// Whether no piece starts at or before an address.
    pub open spec fn finds_none(&self, addr: usize) -> bool {
        forall|x: BaseMemory| #[trigger] self.has(x) ==> x.start > addr
    }

    pub open spec fn has(&self, m: BaseMemory) -> bool {
        in_tree(self.set@, m)
    }

    pub fn new() -> (r: Self)
        ensures
            r.wf(),
            r.set@.len() == 0,
    {
        ArenaTree { set: Vec::new() }
    }

    /// The number of pieces that start before an address.
    fn position(&self, start: usize) -> (r: usize)
        requires
            self.wf(),
        ensures
            r <= self.set@.len(),
            forall|i: int| 0 <= i < r ==> (#[trigger] self.set@[i]).start < start,
            forall|i: int| r <= i < self.set@.len() ==> (#[trigger] self.set@[i]).start >= start,
    {
        let mut i: usize = 0;
        while i < self.set.len() && self.set[i].start < start
            invariant
                i <= self.set@.len(),
                self.wf(),
                forall|k: int| 0 <= k < i ==> (#[trigger] self.set@[k]).start < start,
            decreases self.set@.len() - i,
        {
            i = i + 1;
        }
        i
    }

    /// Adds a piece. It takes the place of one that starts at the same address.
    pub fn add(&mut self, m: BaseMemory)
        requires
            old(self).wf(),
        ensures
            final(self).wf(),
            forall|x: BaseMemory| #[trigger]
                final(self).has(x) <==> x == m || (old(self).has(x) && x.start != m.start),
    {
        let ghost before = self.set@;
        let i: usize = self.position(m.start);
        if i < self.set.len() && self.set[i].start == m.start {
            self.set.set(i, m);
            proof {
                assert forall|x: BaseMemory| #[trigger] self.has(x) <==> x == m || (in_tree(
                    before,
                    x,
                ) && x.start != m.start) by {
                    if self.has(x) && x != m {
                        let k = choose|k: int|
                            0 <= k < self.set@.len() && (#[trigger] self.set@[k]) == x;
                        assert(before[k] == x);
                    }
                    if x == m {
                        assert(self.set@[i as int] == m);
                    }
                    if in_tree(before, x) && x.start != m.start {
                        let k = choose|k: int| 0 <= k < before.len() && (#[trigger] before[k]) == x;
                        assert(self.set@[k] == x);
                    }
                }
            }
        } else {
            self.set.insert(i, m);
            proof {
                let after = self.set@;
                assert(after =~= before.insert(i as int, m));
                assert forall|a: int, b: int| 0 <= a < b < after.len() implies (
                #[trigger] after[a]).start < (#[trigger] after[b]).start by {
                    if a < i && b > i {
                        assert(before[a].start < before[b - 1].start);
                    } else if a > i {
                        assert(before[a - 1].start < before[b - 1].start);
                    } else if b < i {
                        assert(before[a].start < before[b].start);
                    } else if a == i {
                        assert(before[b - 1].start >= m.start);
                        if b - 1 > i {
                            assert(before[i as int].start < before[b - 1].start);
                        }
                    }
                }
                assert forall|x: BaseMemory| #[trigger] self.has(x) <==> x == m || (in_tree(
                    before,
                    x,
                ) && x.start != m.start) by {
                    if self.has(x) && x != m {
                        let k = choose|k: int|
                            0 <= k < self.set@.len() && (#[trigger] self.set@[k]) == x;
                        if k < i {
                            assert(before[k] == x);
                        } else {
                            assert(before[k - 1] == x);
                            if k - 1 > i {
                                assert(before[i as int].start < before[k - 1].start);
                            }
                        }
                    }
                    if x == m {
                        assert(self.set@[i as int] == m);
                    }
                    if in_tree(before, x) {
                        let k = choose|k: int| 0 <= k < before.len() && (#[trigger] before[k]) == x;
                        if k < i {
                            assert(self.set@[k] == x);
                        } else {
                            assert(self.set@[k + 1] == x);
                        }
                    }
                }
            }
        }
    }

    /// Removes the piece that starts at an address.
    pub fn remove(&mut self, start: usize)
        requires
            old(self).wf(),
        ensures
            final(self).wf(),
            forall|x: BaseMemory| #[trigger]
                final(self).has(x) <==> old(self).has(x) && x.start != start,
    {
        let ghost before = self.set@;
        let i: usize = self.position(start);
        if i < self.set.len() && self.set[i].start == start {
            let removed: BaseMemory = self.set.remove(i);
            proof {
                let after = self.set@;
                assert(after =~= before.remove(i as int));
                assert forall|a: int, b: int| 0 <= a < b < after.len() implies (
                #[trigger] after[a]).start < (#[trigger] after[b]).start by {
                    let p = if a < i {
                        a
                    } else {
                        a + 1
                    };
                    let q = if b < i {
                        b
                    } else {
                        b + 1
                    };
                    assert(before[p].start < before[q].start);
                }
                assert forall|x: BaseMemory| #[trigger] self.has(x) <==> in_tree(before, x)
                    && x.start != start by {
                    if self.has(x) {
                        let k = choose|k: int|
                            0 <= k < self.set@.len() && (#[trigger] self.set@[k]) == x;
                        if k < i {
                            assert(before[k] == x);
                        } else {
                            assert(before[k + 1] == x);
                            assert(before[i as int].start < before[k + 1].start);
                        }
                    }
                    if in_tree(before, x) && x.start != start {
                        let k = choose|k: int| 0 <= k < before.len() && (#[trigger] before[k]) == x;
                        if k < i {
                            assert(self.set@[k] == x);
                        } else {
                            assert(self.set@[k - 1] == x);
                        }
                    }
                }
            }
        } else {
            proof {
                assert forall|x: BaseMemory| #[trigger] self.has(x) <==> in_tree(before, x)
                    && x.start != start by {
                    if in_tree(before, x) && x.start == start {
                        let k = choose|k: int| 0 <= k < before.len() && (#[trigger] before[k]) == x;
                        if k > i {
                            assert(before[i as int].start < before[k].start);
                        }
                    }
                }
            }
        }
    }

    /// The last piece that starts at or before an address.
    pub fn lookup(&self, maybe_points_to_middle_of_arena: usize) -> (r: Option<BaseMemory>)
        requires
            self.wf(),
        ensures
            match r {
                Some(m) => self.finds(m, maybe_points_to_middle_of_arena),
                None => self.finds_none(maybe_points_to_middle_of_arena),
            },
    {
        let mut i: usize = 0;
        while i < self.set.len() && self.set[i].start <= maybe_points_to_middle_of_arena
            invariant
                i <= self.set@.len(),
                self.wf(),
                forall|k: int|
                    0 <= k < i ==> (#[trigger] self.set@[k]).start
                        <= maybe_points_to_middle_of_arena,
            decreases self.set@.len() - i,
        {
            i = i + 1;
        }
        proof {
            assert forall|x: BaseMemory| #[trigger]
                self.has(x) && x.start <= maybe_points_to_middle_of_arena implies i > 0 && x.start
                <= self.set@[i - 1].start by {
                let k = choose|k: int| 0 <= k < self.set@.len() && (#[trigger] self.set@[k]) == x;
                if k >= i {
                    if k > i {
                        assert(self.set@[i as int].start < self.set@[k].start);
                    }
                } else if k < i - 1 {
                    assert(self.set@[k].start < self.set@[i - 1].start);
                }
            }
        }
        if i == 0 {
            None
        } else {
            assert(self.set@[i - 1] == self.set@[i - 1]);
            Some(self.set[i - 1])
        }
    }
}

/// Two pieces of a tree that start at the same address are the same.
proof fn lemma_same_start(set: Seq<BaseMemory>, a: BaseMemory, b: BaseMemory)
    requires
        tree_ok(set),
        in_tree(set, a),
        in_tree(set, b),
        a.start == b.start,
    ensures
        a == b,
{
    let i = choose|i: int| 0 <= i < set.len() && (#[trigger] set[i]) == a;
    let j = choose|j: int| 0 <= j < set.len() && (#[trigger] set[j]) == b;
    if i < j {
        assert(set[i].start < set[j].start);
    } else if j < i {
        assert(set[j].start < set[i].start);
    }
}

/// Whether a piece is an arena whose table starts where it does, or a large object.
pub open spec fn piece_ok(arenas: Seq<Arena>, m: BaseMemory) -> bool {
    if m.typ == MemoryType::Large {
        m.start + 32 <= usize::MAX
    } else {
        m.id < arenas.len() && arenas[m.id as int].bmp.start() == m.start
    }
}

/// All arenas and large objects.
pub struct ArenaCollection {
    /// Every arena that there ever was, by number.
    pub arenas: Vec<Arena>,
    pub current_arena: Option<usize>,
    pub arena_size: usize,
    pub page_size: usize,
    pub small_request_threshold: usize,
    pub arenas_count: usize,
    pub nblocks_for_size: Vec<usize>,
    pub max_pages_per_arena: usize,
    /// The arenas with a number of free pages, the next one to use at the end.
    pub arenas_lists: Vec<Vec<usize>>,
    pub min_empty_nfreepages: usize,
    pub num_uninitialized_pages: i64,
    pub footprint_limit: usize,
    pub bytes_allocated_this_cycle: usize,
    pub tree: ArenaTree,
    pub sweep_color: CellState,
    pub large_objects: Vec<LargeObject>,
}

/// The arena that is picked next, and the place of its list. Lists below `from` are not
/// looked at.
pub open spec fn picked(lists: Seq<Seq<usize>>, from: int) -> int
    decreases lists.len() - from,
{
    if from < 0 || from >= lists.len() || lists[from].len() > 0 {
        from
    } else {
        picked(lists, from + 1)
    }
}

/// The lists, and the arenas that are given up, after the first `n` lists have been sorted
/// by the number of free pages. An arena is given up if all its pages are free.
#[verifier::ext_equal]
pub struct Rehashed {
    pub lists: Seq<Seq<usize>>,
    pub given_up: Seq<usize>,
}

/// The state after the last `k` arenas of a list have been sorted, the next one to use
/// first.
pub open spec fn list_sorted(arenas: Seq<Arena>, r: Rehashed, list: Seq<usize>, k: int) -> Rehashed
    decreases k,
{
    if k <= 0 {
        r
    } else {
        let rest = list_sorted(arenas, r, list, k - 1);
        let id = list[list.len() - k];
        let a = arenas[id as int];
        if a.nfreepages == a.totalpages {
            Rehashed { given_up: rest.given_up.push(id), ..rest }
        } else {
            Rehashed {
                lists: rest.lists.update(
                    a.nfreepages as int,
                    rest.lists[a.nfreepages as int].push(id),
                ),
                ..rest
            }
        }
    }
}

pub open spec fn lists_sorted(arenas: Seq<Arena>, old_lists: Seq<Vec<usize>>, n: int) -> Rehashed
    decreases n,
{
    if n <= 0 {
        Rehashed {
            lists: Seq::new(old_lists.len(), |i: int| Seq::<usize>::empty()),
            given_up: Seq::empty(),
        }
    } else {
        list_sorted(
            arenas,
            lists_sorted(arenas, old_lists, n - 1),
            old_lists[n - 1]@,
            old_lists[n - 1]@.len() as int,
        )
    }
}

/// The arena that is allocated from, if there is one.
pub open spec fn current_first(current: Option<usize>) -> Seq<usize> {
    match current {
        Some(arena) => seq![arena],
        None => Seq::empty(),
    }
}

/// The members of the first `n` lists, in order.
pub open spec fn in_lists(lists: Seq<Seq<usize>>, n: int) -> Seq<usize>
    decreases n,
{
    if n <= 0 {
        Seq::empty()
    } else {
        in_lists(lists, n - 1) + lists[n - 1]
    }
}

/// Replacing one list by another changes the number of members by the difference.
proof fn lemma_in_lists_update(lists: Seq<Seq<usize>>, i: int, list: Seq<usize>, n: int)
    requires
        0 <= i < lists.len(),
        0 <= n <= lists.len(),
    ensures
        in_lists(lists.update(i, list), n).len() == in_lists(lists, n).len() + if i < n {
            list.len() - lists[i].len()
        } else {
            0
        },
    decreases n,
{
    if n > 0 {
        lemma_in_lists_update(lists, i, list, n - 1);
    }
}

proof fn lemma_in_lists_empty(lists: Seq<Seq<usize>>, n: int)
    requires
        0 <= n <= lists.len(),
        forall|i: int| 0 <= i < lists.len() ==> (#[trigger] lists[i]).len() == 0,
    ensures
        in_lists(lists, n).len() == 0,
    decreases n,
{
    if n > 0 {
        lemma_in_lists_empty(lists, n - 1);
    }
}

/// Sorting a list loses no arena: each is in a list or given up.
proof fn lemma_list_sorted_count(arenas: Seq<Arena>, r: Rehashed, list: Seq<usize>, k: int)
    requires
        0 <= k <= list.len(),
        forall|i: int| 0 <= i < list.len() ==> (#[trigger] list[i]) < arenas.len(),
        forall|i: int|
            0 <= i < arenas.len() ==> (#[trigger] arenas[i]).nfreepages <= arenas[i].totalpages
                && arenas[i].totalpages <= r.lists.len(),
    ensures
        ({
            let s = list_sorted(arenas, r, list, k);
            &&& s.lists.len() == r.lists.len()
            &&& in_lists(s.lists, s.lists.len() as int).len() + s.given_up.len() == in_lists(
                r.lists,
                r.lists.len() as int,
            ).len() + r.given_up.len() + k
        }),
    decreases k,
{
    if k > 0 {
        lemma_list_sorted_count(arenas, r, list, k - 1);
        let rest = list_sorted(arenas, r, list, k - 1);
        let id = list[list.len() - k];
        let a = arenas[id as int];
        if a.nfreepages != a.totalpages {
            lemma_in_lists_update(
                rest.lists,
                a.nfreepages as int,
                rest.lists[a.nfreepages as int].push(id),
                rest.lists.len() as int,
            );
        }
    }
}

/// Sorting the lists loses no arena either.
proof fn lemma_lists_sorted_count(arenas: Seq<Arena>, old_lists: Seq<Vec<usize>>, n: int)
    requires
        0 <= n <= old_lists.len(),
        forall|i: int, k: int|
            0 <= i < old_lists.len() && 0 <= k < old_lists[i]@.len() ==> (
            #[trigger] old_lists[i]@[k]) < arenas.len(),
        forall|i: int|
            0 <= i < arenas.len() ==> (#[trigger] arenas[i]).nfreepages <= arenas[i].totalpages
                && arenas[i].totalpages <= old_lists.len(),
    ensures
        ({
            let s = lists_sorted(arenas, old_lists, n);
            &&& s.lists.len() == old_lists.len()
            &&& in_lists(s.lists, s.lists.len() as int).len() + s.given_up.len() == in_lists(
                lists_view(old_lists),
                n,
            ).len()
        }),
    decreases n,
{
    if n <= 0 {
        lemma_in_lists_empty(
            lists_sorted(arenas, old_lists, 0).lists,
            old_lists.len() as int,
        );
    } else {
        lemma_lists_sorted_count(arenas, old_lists, n - 1);
        let list = old_lists[n - 1]@;
        assert forall|i: int| 0 <= i < list.len() implies (#[trigger] list[i])
            < arenas.len() by {
            assert(old_lists[n - 1]@[i] < arenas.len());
        }
        lemma_list_sorted_count(
            arenas,
            lists_sorted(arenas, old_lists, n - 1),
            list,
            list.len() as int,
        );
    }
}

pub open spec fn lists_view(lists: Seq<Vec<usize>>) -> Seq<Seq<usize>> {
    Seq::new(lists.len(), |i: int| lists[i]@)
}

/// Where the memory for a new page comes from.
#[derive(Clone, Copy, PartialEq, Eq, Debug, Structural)]
pub enum PageStep {
    /// The page, by its address.
    Got { page: usize },
    /// Memory for an arena is needed first.
    NeedsArena,
}

impl ArenaCollection {
    /// The lists name arenas, and there is one for every number of pages. What the tree
    /// holds is there, and every arena of the lists is counted.
    pub open spec fn wf(&self) -> bool {
        &&& self.page_size > 0
        &&& self.max_pages_per_arena > 0
        &&& self.arenas_lists@.len() == self.max_pages_per_arena
        &&& self.min_empty_nfreepages <= self.max_pages_per_arena
        &&& self.tree.wf()
        &&& forall|i: int, k: int|
            0 <= i < self.arenas_lists@.len() && 0 <= k < self.arenas_lists@[i]@.len() ==> (
            #[trigger] self.arenas_lists@[i]@[k]) < self.arenas@.len()
        &&& forall|i: int|
            0 <= i < self.arenas@.len() ==> (#[trigger] self.arenas@[i]).links@.len()
                == self.arenas@[i].nfreepages && self.arenas@[i].nfreepages
                <= self.arenas@[i].totalpages && self.arenas@[i].totalpages
                <= self.max_pages_per_arena
        &&& self.current_arena matches Some(c) ==> c < self.arenas@.len()
        &&& forall|m: BaseMemory| #[trigger] self.tree.has(m) ==> piece_ok(self.arenas@, m)
        &&& in_lists(lists_view(self.arenas_lists@), self.arenas_lists@.len() as int).len()
            + current_first(self.current_arena).len() <= self.arenas_count
    }

    /// A collection without arenas.
    pub fn new(
        arena_size: usize,
        page_size: usize,
        small_request_threshold: usize,
        footprint_limit: usize,
    ) -> (r: Self)
        requires
            page_size > 0,
            arena_size >= 2 * page_size,
            arena_size % page_size == 0,
            small_request_threshold <= page_size / 2,
        ensures
            r.wf(),
            r.arenas@.len() == 0,
            r.current_arena is None,
            r.arena_size == arena_size,
            r.page_size == page_size,
            r.small_request_threshold == small_request_threshold,
            r.arenas_count == 0,
            r.nblocks_for_size@.len() == small_request_threshold as int / 16 + 1,
            r.nblocks_for_size@[0] == 0,
            forall|i: int|
                1 <= i < r.nblocks_for_size@.len() ==> (#[trigger] r.nblocks_for_size@[i]) == (
                page_size - PAGE_HEADER) / (16 * i),
            r.max_pages_per_arena == arena_size / page_size,
            r.min_empty_nfreepages == r.max_pages_per_arena,
            forall|i: int|
                0 <= i < r.arenas_lists@.len() ==> (#[trigger] r.arenas_lists@[i])@.len() == 0,
            r.num_uninitialized_pages == 0,
            r.footprint_limit == footprint_limit,
            r.bytes_allocated_this_cycle == 0,
            r.tree.set@.len() == 0,
            r.sweep_color == CellState::White,
            r.large_objects@.len() == 0,
    {
        let length: usize = small_request_threshold / WORD + 1;
        let mut nblocks_for_size: Vec<usize> = Vec::new();
        nblocks_for_size.push(0);
        let mut i: usize = 1;
        while i < length
            invariant
                1 <= i <= length,
                length == small_request_threshold as int / 16 + 1,
                page_size > 0,
                small_request_threshold <= page_size as int / 2,
                nblocks_for_size@.len() == i,
                nblocks_for_size@[0] == 0,
                forall|k: int|
                    1 <= k < i ==> (#[trigger] nblocks_for_size@[k]) == (page_size - PAGE_HEADER)
                        / (16 * k),
            decreases length - i,
        {
            nblocks_for_size.push((page_size - PAGE_HEADER) / (WORD * i));
            i = i + 1;
        }
        let max_pages_per_arena: usize = arena_size / page_size;
        proof {
            vstd::arithmetic::div_mod::lemma_fundamental_div_mod(
                arena_size as int,
                page_size as int,
            );
            assert(max_pages_per_arena >= 2) by (nonlinear_arith)
                requires
                    arena_size == page_size * max_pages_per_arena + arena_size % page_size,
                    arena_size % page_size == 0,
                    arena_size >= 2 * page_size,
                    page_size > 0,
            ;
        }
        let mut arenas_lists: Vec<Vec<usize>> = Vec::new();
        let mut k: usize = 0;
        while k < max_pages_per_arena
            invariant
                k <= max_pages_per_arena,
                arenas_lists@.len() == k,
                forall|i: int| 0 <= i < k ==> (#[trigger] arenas_lists@[i])@.len() == 0,
            decreases max_pages_per_arena - k,
        {
            arenas_lists.push(Vec::new());
            k = k + 1;
        }
        proof {
            lemma_in_lists_empty(lists_view(arenas_lists@), arenas_lists@.len() as int);
        }
        ArenaCollection {
            arenas: Vec::new(),
            current_arena: None,
            arena_size,
            page_size,
            small_request_threshold,
            arenas_count: 0,
            nblocks_for_size,
            max_pages_per_arena,
            arenas_lists,
            min_empty_nfreepages: max_pages_per_arena,
            num_uninitialized_pages: 0,
            footprint_limit,
            bytes_allocated_this_cycle: 0,
            tree: ArenaTree::new(),
            sweep_color: CellState::White,
            large_objects: Vec::new(),
        }
    }

    pub fn flip_colors(&mut self)
        ensures
            *final(self) == (ArenaCollection {
                sweep_color: if old(self).sweep_color == CellState::White {
                    CellState::Black
                } else {
                    CellState::White
                },
                ..*old(self)
            }),
    {
        if self.sweep_color == CellState::White {
            self.sweep_color = CellState::Black;
        } else {
            self.sweep_color = CellState::White;
        }
    }

    pub fn footprint_limit(&self) -> (r: usize)
        ensures
            r == self.footprint_limit,
    {
        self.footprint_limit
    }

    pub fn set_footprint_limit(&mut self, limit: usize)
        ensures
            *final(self) == (ArenaCollection { footprint_limit: limit, ..*old(self) }),
    {
        self.footprint_limit = limit;
    }

    /// Whether an object is large, and the size that it is rounded up to if it is not.
    pub fn request_size(&self, size: usize) -> (r: Option<usize>)
        requires
            size + 15 <= usize::MAX,
        ensures
            r == if size > self.small_request_threshold {
                None
            } else {
                Some(((size + 15) / 16 * 16) as usize)
            },
    {
        if size > self.small_request_threshold {
            None
        } else {
            Some(align_usize(size, WORD))
        }
    }

    /// Whether a large object may be allocated.
    pub fn can_malloc_large(&self, size: usize) -> (r: bool)
        requires
            size + 32 + self.bytes_allocated_this_cycle <= usize::MAX,
        ensures
            r == (size + 32 + self.bytes_allocated_this_cycle <= self.footprint_limit),
    {
        LargeObject::allocation_size(size) + self.bytes_allocated_this_cycle
            <= self.footprint_limit
    }

    /// Takes over the memory of a large object, and returns the address of the object.
    pub fn malloc_large(&mut self, start: usize, size: usize) -> (r: usize)
        requires
            start + 32 <= usize::MAX,
            size + 32 + old(self).bytes_allocated_this_cycle <= usize::MAX,
        ensures
            r == start + 32,
            final(self).large_objects@ == old(self).large_objects@.push(
                LargeObject { start, payload_size: size },
            ),
            *final(self) == (ArenaCollection {
                large_objects: final(self).large_objects,
                bytes_allocated_this_cycle: (old(self).bytes_allocated_this_cycle
                    + size) as usize,
                ..*old(self)
            }),
    {
        let large = LargeObject { start, payload_size: size };
        self.bytes_allocated_this_cycle = self.bytes_allocated_this_cycle + size;
        self.large_objects.push(large);
        large.payload_start()
    }

    /// Frees large objects. `dead` says which ones. Those that are left count as allocated
    /// in this cycle. Returns the ones whose memory is to be given back.
    pub fn mass_free_large(&mut self, dead: &Vec<bool>) -> (r: Vec<LargeObject>)
        requires
            dead@.len() == old(self).large_objects@.len(),
            old(self).bytes_allocated_this_cycle + payload(
                old(self).large_objects@,
                dead@,
                false,
                dead@.len() as int,
            ) <= usize::MAX,
        ensures
            final(self).large_objects@ == chosen(
                old(self).large_objects@,
                dead@,
                false,
                dead@.len() as int,
            ),
            r@ == chosen(old(self).large_objects@, dead@, true, dead@.len() as int),
            *final(self) == (ArenaCollection {
                large_objects: final(self).large_objects,
                bytes_allocated_this_cycle: (old(self).bytes_allocated_this_cycle + payload(
                    old(self).large_objects@,
                    dead@,
                    false,
                    dead@.len() as int,
                )) as usize,
                ..*old(self)
            }),
    {
        let ghost all = self.large_objects@;
        let mut kept: Vec<LargeObject> = Vec::new();
        let mut freed: Vec<LargeObject> = Vec::new();
        let mut surviving: usize = 0;
        let mut i: usize = 0;
        while i < self.large_objects.len()
            invariant
                i <= all.len(),
                all == self.large_objects@,
                *self == *old(self),
                dead@.len() == all.len(),
                kept@ == chosen(all, dead@, false, i as int),
                freed@ == chosen(all, dead@, true, i as int),
                surviving == payload(all, dead@, false, i as int),
                payload(all, dead@, false, all.len() as int) <= usize::MAX,
            decreases all.len() - i,
        {
            let o: LargeObject = self.large_objects[i];
            proof {
                lemma_payload_grows(all, dead@, false, i + 1, all.len() as int);
            }
            if dead[i] {
                freed.push(o);
            } else {
                surviving = surviving + o.payload_size;
                kept.push(o);
            }
            i = i + 1;
        }
        self.large_objects = kept;
        self.bytes_allocated_this_cycle = self.bytes_allocated_this_cycle + surviving;
        freed
    }

    /// The object that an address points into: the start of what a large object holds, the
    /// last start of an object at or before the address in an arena, or zero.
    pub fn object_from_pointer(&self, maybe_middle_of_an_object: usize) -> (r: usize)
        requires
            self.wf(),
            forall|m: BaseMemory| #[trigger]
                self.tree.finds(m, maybe_middle_of_an_object) && m.typ == MemoryType::Arena
                    ==> self.arenas@[m.id as int].bmp.covers(maybe_middle_of_an_object as int),
        ensures
            self.tree.finds_none(maybe_middle_of_an_object) ==> r == 0,
            forall|m: BaseMemory| #[trigger]
                self.tree.finds(m, maybe_middle_of_an_object) ==> if m.typ == MemoryType::Large {
                    r == m.start + 32
                } else {
                    self.arenas@[m.id as int].bmp.last_start(
                        maybe_middle_of_an_object as int,
                        r as int,
                    )
                },
    {
        match self.tree.lookup(maybe_middle_of_an_object) {
            None => {
                assert forall|m: BaseMemory| #[trigger]
                    self.tree.finds(m, maybe_middle_of_an_object) implies false by {
                    assert(self.tree.has(m));
                }
                0
            },
            Some(found) => {
                proof {
                    assert(self.tree.has(found));
                    assert forall|m: BaseMemory| #[trigger]
                        self.tree.finds(m, maybe_middle_of_an_object) implies m == found by {
                        assert(self.tree.has(m));
                        lemma_same_start(self.tree.set@, m, found);
                    }
                }
                if found.typ == MemoryType::Large {
                    found.start + LargeObject::page_header_size()
                } else {
                    self.arenas[found.id].find_object_start(maybe_middle_of_an_object)
                }
            },
        }
    }

    /// Makes the arena with the fewest free pages, but at least the known minimum, the
    /// current one. Tells whether there is one.
    pub fn pick_next_arena(&mut self) -> (r: bool)
        requires
            old(self).wf(),
        ensures
            final(self).wf(),
            ({
                let at = picked(
                    lists_view(old(self).arenas_lists@),
                    old(self).min_empty_nfreepages as int,
                );
                &&& r == (at < old(self).max_pages_per_arena)
                &&& final(self).min_empty_nfreepages == at
                &&& r ==> {
                    &&& final(self).current_arena == Some(old(self).arenas_lists@[at]@.last())
                    &&& lists_view(final(self).arenas_lists@) == lists_view(
                        old(self).arenas_lists@,
                    ).update(at, old(self).arenas_lists@[at]@.drop_last())
                }
                &&& !r ==> final(self).current_arena == old(self).current_arena
                    && final(self).arenas_lists@ == old(self).arenas_lists@
                &&& *final(self) == (ArenaCollection {
                    current_arena: final(self).current_arena,
                    arenas_lists: final(self).arenas_lists,
                    min_empty_nfreepages: final(self).min_empty_nfreepages,
                    ..*old(self)
                })
            }),
    {
        let ghost lists = self.arenas_lists@;
        let ghost from = self.min_empty_nfreepages as int;
        let mut i: usize = self.min_empty_nfreepages;
        while i < self.max_pages_per_arena
            invariant
                self.wf(),
                old(self).wf(),
                lists == old(self).arenas_lists@,
                lists == self.arenas_lists@,
                from == old(self).min_empty_nfreepages,
                from <= i <= self.max_pages_per_arena,
                self.min_empty_nfreepages == i,
                picked(lists_view(lists), i as int) == picked(lists_view(lists), from),
                self.max_pages_per_arena == lists.len(),
                *self == (ArenaCollection { min_empty_nfreepages: i, ..*old(self) }),
            decreases self.max_pages_per_arena - i,
        {
            let n: usize = self.arenas_lists[i].len();
            if n > 0 {
                let arena: usize = self.arenas_lists[i][n - 1];
                let popped: Option<usize> = self.arenas_lists[i].pop();
                self.current_arena = Some(arena);
                proof {
                    assert(lists_view(self.arenas_lists@) =~= lists_view(lists).update(
                        i as int,
                        lists[i as int]@.drop_last(),
                    ));
                    lemma_in_lists_update(
                        lists_view(lists),
                        i as int,
                        lists[i as int]@.drop_last(),
                        lists.len() as int,
                    );
                    assert forall|a: int, k: int|
                        0 <= a < self.arenas_lists@.len() && 0 <= k
                            < self.arenas_lists@[a]@.len() implies (
                    #[trigger] self.arenas_lists@[a]@[k]) < self.arenas@.len() by {
                        assert(self.arenas_lists@[a]@[k] == lists[a]@[k]);
                    }
                }
                return true;
            }
            self.min_empty_nfreepages = i + 1;
            i = i + 1;
        }
        false
    }

    /// Sorts the arenas by their number of free pages, and gives those up whose pages are
    /// all free. Returns these. Their memory is to be given back.
    pub fn rehash_arena_lists(&mut self) -> (r: Vec<usize>)
        requires
            old(self).wf(),
        ensures
            final(self).wf(),
            ({
                let s = lists_sorted(
                    old(self).arenas@,
                    old(self).arenas_lists@,
                    old(self).arenas_lists@.len() as int,
                );
                &&& lists_view(final(self).arenas_lists@) == s.lists
                &&& r@ == s.given_up
                &&& final(self).arenas_count == old(self).arenas_count - s.given_up.len()
                &&& final(self).min_empty_nfreepages == 1
                &&& forall|x: BaseMemory| #[trigger]
                    final(self).tree.has(x) <==> old(self).tree.has(x) && !given_up_at(
                        old(self).arenas@,
                        s.given_up,
                        x.start,
                    )
                &&& *final(self) == (ArenaCollection {
                    arenas_lists: final(self).arenas_lists,
                    arenas_count: final(self).arenas_count,
                    min_empty_nfreepages: final(self).min_empty_nfreepages,
                    tree: final(self).tree,
                    ..*old(self)
                })
            }),
    {
        let ghost before = *self;
        let max: usize = self.max_pages_per_arena;
        let mut old_lists: Vec<Vec<usize>> = Vec::new();
        std::mem::swap(&mut old_lists, &mut self.arenas_lists);
        let mut lists: Vec<Vec<usize>> = Vec::new();
        let mut i: usize = 0;
        while i < max
            invariant
                i <= max,
                lists@.len() == i,
                forall|k: int| 0 <= k < i ==> (#[trigger] lists@[k])@ == Seq::<usize>::empty(),
            decreases max - i,
        {
            lists.push(Vec::new());
            i = i + 1;
        }
        let mut freed: Vec<usize> = Vec::new();
        let mut tree: ArenaTree = ArenaTree::new();
        std::mem::swap(&mut tree, &mut self.tree);
        proof {
            assert(lists_view(lists@) =~= lists_sorted(before.arenas@, old_lists@, 0).lists);
        }
        let mut j: usize = 0;
        while j < max
            invariant
                j <= max,
                before.wf(),
                max == before.max_pages_per_arena,
                old_lists@ == before.arenas_lists@,
                old_lists@.len() == max,
                lists@.len() == max,
                self.arenas == before.arenas,
                tree.wf(),
                ({
                    let s = lists_sorted(before.arenas@, old_lists@, j as int);
                    &&& lists_view(lists@) == s.lists
                    &&& freed@ == s.given_up
                    &&& forall|x: BaseMemory| #[trigger]
                        tree.has(x) <==> before.tree.has(x) && !given_up_at(
                            before.arenas@,
                            s.given_up,
                            x.start,
                        )
                }),
                forall|i: int, k: int|
                    0 <= i < lists@.len() && 0 <= k < lists@[i]@.len() ==> (#[trigger] lists@[i]@[k])
                        < before.arenas@.len(),
                *self == (ArenaCollection {
                    arenas_lists: self.arenas_lists,
                    tree: self.tree,
                    ..before
                }),
            decreases max - j,
        {
            let ghost s0 = lists_sorted(before.arenas@, old_lists@, j as int);
            let ghost list = old_lists@[j as int]@;
            let n: usize = old_lists[j].len();
            let mut k: usize = 0;
            while k < n
                invariant
                    k <= n,
                    j < max,
                    n == list.len(),
                    before.wf(),
                    max == before.max_pages_per_arena,
                    old_lists@ == before.arenas_lists@,
                    list == old_lists@[j as int]@,
                    old_lists@.len() == max,
                    lists@.len() == max,
                    self.arenas == before.arenas,
                    tree.wf(),
                    ({
                        let s = list_sorted(before.arenas@, s0, list, k as int);
                        &&& lists_view(lists@) == s.lists
                        &&& freed@ == s.given_up
                        &&& forall|x: BaseMemory| #[trigger]
                            tree.has(x) <==> before.tree.has(x) && !given_up_at(
                                before.arenas@,
                                s.given_up,
                                x.start,
                            )
                    }),
                    forall|i: int, k: int|
                        0 <= i < lists@.len() && 0 <= k < lists@[i]@.len() ==> (
                        #[trigger] lists@[i]@[k]) < before.arenas@.len(),
                decreases n - k,
            {
                let id: usize = old_lists[j][n - 1 - k];
                assert(old_lists@[j as int]@[n - 1 - k] < before.arenas@.len());
                let nfree: usize = self.arenas[id].nfreepages;
                let total: usize = self.arenas[id].totalpages;
                let ghost s = list_sorted(before.arenas@, s0, list, k as int);
                let ghost next = list_sorted(before.arenas@, s0, list, k + 1);
                let ghost l0 = lists@;
                if nfree == total {
                    let start: usize = self.arenas[id].base;
                    freed.push(id);
                    let ghost t0 = tree;
                    tree.remove(start);
                    proof {
                        assert(lists_view(lists@) =~= next.lists);
                        lemma_given_up(before.arenas@, s.given_up, id);
                        assert forall|x: BaseMemory| #[trigger] tree.has(x) <==> before.tree.has(x)
                            && !given_up_at(before.arenas@, next.given_up, x.start) by {
                            assert(t0.has(x) <==> before.tree.has(x) && !given_up_at(
                                before.arenas@,
                                s.given_up,
                                x.start,
                            ));
                        }
                    }
                } else {
                    lists[nfree].push(id);
                    proof {
                        assert(lists_view(lists@) =~= next.lists);
                        assert forall|a: int, b: int|
                            0 <= a < lists@.len() && 0 <= b < lists@[a]@.len() implies (
                        #[trigger] lists@[a]@[b]) < before.arenas@.len() by {
                            if a != nfree || b < l0[a]@.len() {
                                assert(lists@[a]@[b] == l0[a]@[b]);
                            }
                        }
                    }
                }
                k = k + 1;
            }
            j = j + 1;
        }
        proof {
            lemma_lists_sorted_count(before.arenas@, before.arenas_lists@, max as int);
        }
        self.arenas_lists = lists;
        self.tree = tree;
        self.arenas_count = self.arenas_count - freed.len();
        self.min_empty_nfreepages = 1;
        freed
    }

    /// The arenas: the current one, and those of each list in order.
    pub fn all_arenas(&self) -> (r: Vec<usize>)
        ensures
            r@ == current_first(self.current_arena) + in_lists(
                lists_view(self.arenas_lists@),
                self.arenas_lists@.len() as int,
            ),
    {
        let mut out: Vec<usize> = Vec::new();
        if let Some(arena) = self.current_arena {
            out.push(arena);
        }
        let ghost lists = lists_view(self.arenas_lists@);
        let ghost first = current_first(self.current_arena);
        assert(out@ =~= first + in_lists(lists, 0));
        let mut i: usize = 0;
        while i < self.arenas_lists.len()
            invariant
                i <= self.arenas_lists@.len(),
                lists == lists_view(self.arenas_lists@),
                out@ == first + in_lists(lists, i as int),
            decreases self.arenas_lists@.len() - i,
        {
            let ghost before = out@;
            let mut k: usize = 0;
            assert(before + lists[i as int].take(0) =~= before);
            while k < self.arenas_lists[i].len()
                invariant
                    i < self.arenas_lists@.len(),
                    lists == lists_view(self.arenas_lists@),
                    k <= lists[i as int].len(),
                    out@ == before + lists[i as int].take(k as int),
                decreases lists[i as int].len() - k,
            {
                out.push(self.arenas_lists[i][k]);
                k = k + 1;
                assert(out@ =~= before + lists[i as int].take(k as int));
            }
            i = i + 1;
            assert(lists[i - 1].take(k as int) =~= lists[i - 1]);
            assert(out@ =~= first + in_lists(lists, i as int));
        }
        out
    }

    /// Takes over the memory of a new arena, and makes it the current one.
    pub fn add_arena(&mut self, arena_base: usize)
        requires
            old(self).wf(),
            arena_base + old(self).page_size - 1 <= usize::MAX,
            old(self).arena_size + 127 <= usize::MAX,
            arena_base + old(self).arena_size <= usize::MAX,
            old(self).page_size <= old(self).arena_size,
            old(self).max_pages_per_arena == old(self).arena_size / old(self).page_size,
            old(self).arenas_count < usize::MAX,
            old(self).arena_size <= i64::MAX,
        ensures
            final(self).wf(),
            final(self).current_arena == Some(old(self).arenas@.len() as usize),
            final(self).arenas@.len() == old(self).arenas@.len() + 1,
            final(self).arenas@.drop_last() == old(self).arenas@,
            ({
                let a = final(self).arenas@.last();
                &&& a.base == arena_base
                &&& a.end == arena_base + old(self).arena_size
                &&& a.wf()
                &&& a.bmp.slots() == Set::<int>::empty()
                &&& a.nfreepages == 0
                &&& a.freepages == first_page(arena_base as int, old(self).page_size as int)
                &&& a.npages == (arena_base + old(self).arena_size - first_page(
                    arena_base as int,
                    old(self).page_size as int,
                )) / old(self).page_size as int
                &&& a.totalpages == a.npages
                &&& final(self).num_uninitialized_pages == a.npages
                &&& forall|x: BaseMemory| #[trigger]
                    final(self).tree.has(x) <==> x == (BaseMemory {
                        typ: MemoryType::Arena,
                        start: arena_base,
                        id: old(self).arenas@.len() as usize,
                    }) || (old(self).tree.has(x) && x.start != arena_base)
            }),
            final(self).arenas_count == old(self).arenas_count + 1,
            *final(self) == (ArenaCollection {
                arenas: final(self).arenas,
                current_arena: final(self).current_arena,
                num_uninitialized_pages: final(self).num_uninitialized_pages,
                arenas_count: final(self).arenas_count,
                tree: final(self).tree,
                ..*old(self)
            }),
    {
        let ghost before = *self;
        let arena: Arena = Arena::new(arena_base, self.arena_size, self.page_size);
        let id: usize = self.arenas.len();
        proof {
            let p = self.page_size as int;
            let a = self.arena_size as int;
            let first = first_page(arena_base as int, p);
            let m = arena_base + p - 1;
            vstd::arithmetic::div_mod::lemma_mod_bound(m, p);
            assert(arena_base <= first);
            vstd::arithmetic::div_mod::lemma_div_is_ordered(arena_base + a - first, a, p);
            assert(arena.npages <= a) by {
                vstd::arithmetic::div_mod::lemma_div_nonincreasing(a, p);
            }
        }
        self.num_uninitialized_pages = arena.npages as i64;
        self.current_arena = Some(id);
        self.arenas.push(arena);
        self.arenas_count = self.arenas_count + 1;
        self.tree.add(BaseMemory { typ: MemoryType::Arena, start: arena_base, id });
        proof {
            assert(self.arenas@.drop_last() =~= before.arenas@);
            assert forall|i: int| 0 <= i < self.arenas@.len() implies (
            #[trigger] self.arenas@[i]).links@.len() == self.arenas@[i].nfreepages
                && self.arenas@[i].nfreepages <= self.arenas@[i].totalpages
                && self.arenas@[i].totalpages <= self.max_pages_per_arena by {
                if i < before.arenas@.len() {
                    assert(self.arenas@[i] == before.arenas@[i]);
                }
            }
        }
    }

    /// Makes an arena with free pages the current one. If there is none in the lists as
    /// they are, the arenas are sorted first. Tells whether there is one, and which ones
    /// were given up. If there is none, memory for a new one is needed.
    pub fn allocate_new_arena(&mut self) -> (r: (bool, Vec<usize>))
        requires
            old(self).wf(),
        ensures
            final(self).wf(),
            ({
                let lists = lists_view(old(self).arenas_lists@);
                let at = picked(lists, old(self).min_empty_nfreepages as int);
                let s = lists_sorted(
                    old(self).arenas@,
                    old(self).arenas_lists@,
                    old(self).arenas_lists@.len() as int,
                );
                let next = picked(s.lists, 1);
                if at < old(self).max_pages_per_arena {
                    &&& r.0
                    &&& r.1@ == Seq::<usize>::empty()
                    &&& final(self).current_arena == Some(lists[at].last())
                    &&& lists_view(final(self).arenas_lists@) == lists.update(
                        at,
                        lists[at].drop_last(),
                    )
                    &&& final(self).min_empty_nfreepages == at
                    &&& final(self).arenas_count == old(self).arenas_count
                    &&& final(self).tree == old(self).tree
                } else {
                    &&& r.0 == (next < old(self).max_pages_per_arena)
                    &&& r.1@ == s.given_up
                    &&& final(self).current_arena == if r.0 {
                        Some(s.lists[next].last())
                    } else {
                        old(self).current_arena
                    }
                    &&& lists_view(final(self).arenas_lists@) == if r.0 {
                        s.lists.update(next, s.lists[next].drop_last())
                    } else {
                        s.lists
                    }
                    &&& final(self).min_empty_nfreepages == next
                    &&& final(self).arenas_count == old(self).arenas_count - s.given_up.len()
                    &&& forall|x: BaseMemory| #[trigger]
                        final(self).tree.has(x) <==> old(self).tree.has(x) && !given_up_at(
                            old(self).arenas@,
                            s.given_up,
                            x.start,
                        )
                }
            }),
            *final(self) == (ArenaCollection {
                current_arena: final(self).current_arena,
                arenas_lists: final(self).arenas_lists,
                min_empty_nfreepages: final(self).min_empty_nfreepages,
                arenas_count: final(self).arenas_count,
                tree: final(self).tree,
                ..*old(self)
            }),
    {
        if self.pick_next_arena() {
            return (true, Vec::new());
        }
        proof {
            assert(self.arenas_lists@ == old(self).arenas_lists@);
        }
        let given_up: Vec<usize> = self.rehash_arena_lists();
        let found: bool = self.pick_next_arena();
        (found, given_up)
    }

    /// Hands out a page of the current arena. An arena whose last page this was is put
    /// aside.
    pub fn allocate_new_page(&mut self) -> (r: PageStep)
        requires
            old(self).wf(),
            old(self).current_arena matches Some(c) ==> ({
                let a = old(self).arenas@[c as int];
                &&& a.nfreepages == 0 ==> old(self).num_uninitialized_pages > i64::MIN
                    && a.freepages + old(self).page_size <= usize::MAX
                &&& a.nfreepages > 0 && a.links@.last() == 0 ==> a.nfreepages == 1
            }),
        ensures
            final(self).wf(),
            old(self).current_arena is None ==> r == PageStep::NeedsArena && *final(self) == *old(self),
            old(self).current_arena matches Some(c) ==> ({
                let a = old(self).arenas@[c as int];
                let b = final(self).arenas@[c as int];
                let reused = a.nfreepages > 0;
                let left = old(self).num_uninitialized_pages - 1;
                &&& r == (PageStep::Got { page: a.freepages })
                &&& final(self).num_uninitialized_pages == if reused {
                    old(self).num_uninitialized_pages as int
                } else {
                    left
                }
                &&& b.freepages == if reused {
                    a.links@.last()
                } else if left > 0 {
                    (a.freepages + old(self).page_size) as usize
                } else {
                    0
                }
                &&& b.nfreepages == if reused {
                    a.nfreepages - 1
                } else {
                    0
                }
                &&& reused ==> b.links@ == a.links@.drop_last()
                &&& b == (Arena {
                    freepages: b.freepages,
                    nfreepages: b.nfreepages,
                    links: b.links,
                    ..a
                })
                &&& final(self).arenas@ == old(self).arenas@.update(c as int, b)
                &&& final(self).current_arena == if b.freepages == 0 {
                    None
                } else {
                    Some(c)
                }
                &&& lists_view(final(self).arenas_lists@) == if b.freepages == 0 {
                    lists_view(old(self).arenas_lists@).update(
                        0,
                        old(self).arenas_lists@[0]@.push(c),
                    )
                } else {
                    lists_view(old(self).arenas_lists@)
                }
                &&& *final(self) == (ArenaCollection {
                    arenas: final(self).arenas,
                    num_uninitialized_pages: final(self).num_uninitialized_pages,
                    current_arena: final(self).current_arena,
                    arenas_lists: final(self).arenas_lists,
                    ..*old(self)
                })
            }),
    {
        let ghost before = *self;
        match self.current_arena {
            None => PageStep::NeedsArena,
            Some(c) => {
                let result: usize = self.arenas[c].freepages;
                let freepages: usize;
                if self.arenas[c].nfreepages > 0 {
                    let n: usize = self.arenas[c].nfreepages;
                    self.arenas[c].nfreepages = n - 1;
                    let last: usize = self.arenas[c].links[n - 1];
                    let popped: Option<usize> = self.arenas[c].links.pop();
                    freepages = last;
                } else {
                    self.num_uninitialized_pages = self.num_uninitialized_pages - 1;
                    if self.num_uninitialized_pages > 0 {
                        freepages = result + self.page_size;
                    } else {
                        freepages = 0;
                    }
                }
                self.arenas[c].freepages = freepages;
                proof {
                    assert(self.arenas@ =~= before.arenas@.update(
                        c as int,
                        self.arenas@[c as int],
                    ));
                }
                if freepages == 0 {
                    let ghost l0 = self.arenas_lists@;
                    self.arenas_lists[0].push(c);
                    self.current_arena = None;
                    proof {
                        assert forall|a: int, b: int|
                            0 <= a < self.arenas_lists@.len() && 0 <= b
                                < self.arenas_lists@[a]@.len() implies (
                        #[trigger] self.arenas_lists@[a]@[b]) < self.arenas@.len() by {
                            if a != 0 || b < l0[a]@.len() {
                                assert(self.arenas_lists@[a]@[b] == l0[a]@[b]);
                            }
                        }
                        assert(lists_view(self.arenas_lists@) =~= lists_view(l0).update(
                            0,
                            l0[0]@.push(c),
                        ));
                        lemma_in_lists_update(
                            lists_view(l0),
                            0,
                            l0[0]@.push(c),
                            l0.len() as int,
                        );
                    }
                }
                proof {
                    assert forall|i: int| 0 <= i < self.arenas@.len() implies (
                    #[trigger] self.arenas@[i]).links@.len() == self.arenas@[i].nfreepages
                        && self.arenas@[i].nfreepages <= self.arenas@[i].totalpages
                        && self.arenas@[i].totalpages <= self.max_pages_per_arena by {
                        assert(before.arenas@[i].links@.len() == before.arenas@[i].nfreepages);
                    }
                    assert forall|m: BaseMemory| #[trigger] self.tree.has(m) implies piece_ok(
                        self.arenas@,
                        m,
                    ) by {
                        assert(piece_ok(before.arenas@, m));
                    }
                }
                PageStep::Got { page: result }
            },
        }
    }

    /// Takes a page back. It is the next one to be handed out.
    pub fn free_page(&mut self, arena: usize, page: usize)
        requires
            old(self).wf(),
            arena < old(self).arenas@.len(),
            old(self).arenas@[arena as int].nfreepages < old(self).arenas@[arena as int].totalpages,
        ensures
            final(self).wf(),
            ({
                let a = old(self).arenas@[arena as int];
                let b = final(self).arenas@[arena as int];
                &&& b.nfreepages == a.nfreepages + 1
                &&& b.freepages == page
                &&& b.links@ == a.links@.push(a.freepages)
                &&& b == (Arena {
                    nfreepages: b.nfreepages,
                    freepages: b.freepages,
                    links: b.links,
                    ..a
                })
                &&& final(self).arenas@ == old(self).arenas@.update(arena as int, b)
                &&& *final(self) == (ArenaCollection {
                    arenas: final(self).arenas,
                    ..*old(self)
                })
            }),
    {
        let ghost before = *self;
        let freepages: usize = self.arenas[arena].freepages;
        let n: usize = self.arenas[arena].nfreepages;
        self.arenas[arena].nfreepages = n + 1;
        self.arenas[arena].links.push(freepages);
        self.arenas[arena].freepages = page;
        proof {
            assert(self.arenas@ =~= before.arenas@.update(
                arena as int,
                self.arenas@[arena as int],
            ));
            assert forall|i: int| 0 <= i < self.arenas@.len() implies (
            #[trigger] self.arenas@[i]).links@.len() == self.arenas@[i].nfreepages
                && self.arenas@[i].nfreepages <= self.arenas@[i].totalpages
                && self.arenas@[i].totalpages <= self.max_pages_per_arena by {
                assert(before.arenas@[i].links@.len() == before.arenas@[i].nfreepages);
            }
        }
    }
}

/// Whether an arena that was given up starts at an address.
pub open spec fn given_up_at(arenas: Seq<Arena>, list: Seq<usize>, start: usize) -> bool {
    exists|k: int| 0 <= k < list.len() && arenas[(#[trigger] list[k]) as int].base == start
}

proof fn lemma_given_up(arenas: Seq<Arena>, list: Seq<usize>, id: usize)
    ensures
        forall|start: usize| #[trigger]
            given_up_at(arenas, list.push(id), start) <==> given_up_at(arenas, list, start)
                || arenas[id as int].base == start,
{
    let more = list.push(id);
    assert forall|start: usize| #[trigger]
        given_up_at(arenas, more, start) <==> given_up_at(arenas, list, start)
            || arenas[id as int].base == start by {
        if given_up_at(arenas, list, start) {
            let k = choose|k: int|
                0 <= k < list.len() && arenas[(#[trigger] list[k]) as int].base == start;
            assert(more[k] == list[k]);
        }
        if arenas[id as int].base == start {
            assert(more[list.len() as int] == id);
        }
        if given_up_at(arenas, more, start) && arenas[id as int].base != start {
            let k = choose|k: int|
                0 <= k < more.len() && arenas[(#[trigger] more[k]) as int].base == start;
            assert(list[k] == more[k]);
        }
    }
}

/// The large objects among the first `n` that are dead, or those that are not.
pub open spec fn chosen(all: Seq<LargeObject>, dead: Seq<bool>, which: bool, n: int) -> Seq<
    LargeObject,
>
    decreases n,
{
    if n <= 0 {
        Seq::empty()
    } else if dead[n - 1] == which {
        chosen(all, dead, which, n - 1).push(all[n - 1])
    } else {
        chosen(all, dead, which, n - 1)
    }
}

/// The bytes of these objects.
pub open spec fn payload(all: Seq<LargeObject>, dead: Seq<bool>, which: bool, n: int) -> int
    decreases n,
{
    if n <= 0 {
        0
    } else {
        payload(all, dead, which, n - 1) + if dead[n - 1] == which {
            all[n - 1].payload_size as int
        } else {
            0
        }
    }
}

proof fn lemma_payload_grows(all: Seq<LargeObject>, dead: Seq<bool>, which: bool, m: int, n: int)
    requires
        m <= n,
    ensures
        payload(all, dead, which, m) <= payload(all, dead, which, n),
    decreases n - m,
{
    if m < n {
        lemma_payload_grows(all, dead, which, m, n - 1);
    }
}

/// Allocates objects of one size.
pub struct LocalAllocator {
    pub free_list: FreeList,
    pub current_page: Option<usize>,
    /// The pages without free cells, the last one that was added at the end.
    pub full_pages: Vec<usize>,
    pub size_class: usize,
}

/// What an attempt to allocate comes to.
#[derive(Clone, Copy, PartialEq, Eq, Debug, Structural)]
pub enum LocalStep {
    /// The limit is reached: a collection is due.
    Collect,
    /// A new page is needed.
    NeedsPage,
}

impl LocalAllocator {
    pub fn new(size_class: usize) -> (r: Self)
        ensures
            r.free_list == (FreeList {
                scrambled_head: 0,
                secret: 0,
                payload_end: 0,
                remaining: 0,
                original_size: 0,
                cell_size: size_class,
            }),
            r.current_page is None,
            r.full_pages@.len() == 0,
            r.size_class == size_class,
    {
        LocalAllocator {
            free_list: FreeList::new(size_class),
            current_page: None,
            full_pages: Vec::new(),
            size_class,
        }
    }

    /// Puts the current page aside, for it has no free cells any more.
    pub fn did_consume_free_list(&mut self)
        ensures
            final(self).current_page is None,
            final(self).full_pages@ == match old(self).current_page {
                Some(p) => old(self).full_pages@.push(p),
                None => old(self).full_pages@,
            },
            final(self).free_list == (FreeList {
                scrambled_head: 0,
                remaining: 0,
                secret: 0,
                payload_end: 0,
                original_size: 0,
                ..old(self).free_list
            }),
            final(self).size_class == old(self).size_class,
    {
        match self.current_page {
            Some(p) => {
                self.full_pages.push(p);
            },
            None => {},
        }
        self.current_page = None;
        self.free_list.clear();
    }

    /// Counts the cells of the current page as allocated and puts the page aside. Tells
    /// whether a collection is due or a new page is needed.
    pub fn allocate_slowcase(&mut self, ac: &mut ArenaCollection) -> (r: LocalStep)
        requires
            old(ac).bytes_allocated_this_cycle + old(self).free_list.original_size <= usize::MAX,
        ensures
            final(self).current_page is None,
            final(self).full_pages@ == match old(self).current_page {
                Some(p) => old(self).full_pages@.push(p),
                None => old(self).full_pages@,
            },
            final(self).free_list == (FreeList {
                scrambled_head: 0,
                remaining: 0,
                secret: 0,
                payload_end: 0,
                original_size: 0,
                ..old(self).free_list
            }),
            final(self).free_list.spec_head() == 0,
            final(self).size_class == old(self).size_class,
            *final(ac) == (ArenaCollection {
                bytes_allocated_this_cycle: (old(ac).bytes_allocated_this_cycle
                    + old(self).free_list.original_size) as usize,
                ..*old(ac)
            }),
            r == if old(ac).bytes_allocated_this_cycle + old(self).free_list.original_size
                > old(ac).footprint_limit {
                LocalStep::Collect
            } else {
                LocalStep::NeedsPage
            },
    {
        ac.bytes_allocated_this_cycle = ac.bytes_allocated_this_cycle
            + self.free_list.original_size;
        self.did_consume_free_list();
        proof {
            FreeCell::lemma_round_trip(0, 0);
        }
        if ac.bytes_allocated_this_cycle > ac.footprint_limit {
            return LocalStep::Collect;
        }
        LocalStep::NeedsPage
    }

    /// Allocates in a page that has been swept, unless it has no free cells.
    pub fn try_allocate_in(&mut self, page: Page, cells: &Vec<FreeCell>, base: usize) -> (r: Option<
        usize,
    >)
        requires
            old(self).free_list.remaining > 0 ==> old(self).free_list.cell_size
                <= old(self).free_list.remaining <= old(self).free_list.payload_end,
            old(self).free_list.remaining == 0 && old(self).free_list.spec_head() != 0 ==> base
                <= old(self).free_list.spec_head() && cell_of(
                base as int,
                old(self).free_list.spec_head() as int,
            ) < cells@.len(),
        ensures
            ({
                let f = old(self).free_list;
                if f.spec_head() == 0 && f.remaining == 0 {
                    &&& r is None
                    &&& final(self).full_pages@ == old(self).full_pages@.push(page.start)
                    &&& final(self).current_page == old(self).current_page
                    &&& final(self).free_list == f
                    &&& final(self).size_class == old(self).size_class
                } else {
                    &&& r == Some(
                        if f.remaining > 0 {
                            (f.payload_end - f.remaining) as usize
                        } else {
                            f.spec_head()
                        },
                    )
                    &&& final(self).free_list == if f.remaining > 0 {
                        FreeList { remaining: (f.remaining - f.cell_size) as usize, ..f }
                    } else {
                        FreeList {
                            scrambled_head: cells@[cell_of(
                                base as int,
                                f.spec_head() as int,
                            )].scramble_next,
                            ..f
                        }
                    }
                    &&& final(self).full_pages@ == old(self).full_pages@
                    &&& final(self).current_page == Some(page.start)
                    &&& final(self).size_class == old(self).size_class
                }
            }),
    {
        if self.free_list.allocation_will_fail() {
            self.full_pages.push(page.payload_start());
            return None;
        }
        self.current_page = Some(page.payload_start());
        self.free_list.allocate(cells, base)
    }
}

/// The page that was taken back last is the next one to be handed out, and after that the
/// arena is as it was before.
pub proof fn lemma_free_then_allocate(a: Arena, b: Arena, page: usize)
    requires
        b.nfreepages == a.nfreepages + 1,
        b.freepages == page,
        b.links@ == a.links@.push(a.freepages),
    ensures
        b.freepages == page,
        b.nfreepages > 0,
        b.links@.last() == a.freepages,
        b.links@.drop_last() == a.links@,
{
    assert(b.links@.drop_last() =~= a.links@);
}

/// Whether an arena is in one of the first `n` lists.
pub open spec fn held_in(lists: Seq<Vec<usize>>, n: int, id: usize) -> bool {
    exists|i: int, k: int|
        0 <= i < n && 0 <= k < lists[i]@.len() && #[trigger] lists[i]@[k] == id
}

/// Whether an arena has no page in use.
pub open spec fn all_free(arenas: Seq<Arena>, id: usize) -> bool {
    arenas[id as int].nfreepages == arenas[id as int].totalpages
}

/// Whether the arenas that satisfy `held` have been sorted: those without a page in use are
/// given up, and each other one is in the list of its number of free pages.
pub open spec fn sorted_out(
    arenas: Seq<Arena>,
    r: Rehashed,
    held: spec_fn(usize) -> bool,
) -> bool {
    &&& forall|id: usize| #[trigger]
        r.given_up.contains(id) <==> held(id) && all_free(arenas, id)
    &&& forall|i: int, id: usize|
        0 <= i < r.lists.len() ==> (#[trigger] r.lists[i].contains(id) <==> held(id) && !all_free(
            arenas,
            id,
        ) && arenas[id as int].nfreepages == i)
}

proof fn lemma_list_sorted(
    arenas: Seq<Arena>,
    r: Rehashed,
    list: Seq<usize>,
    k: int,
    held: spec_fn(usize) -> bool,
)
    requires
        sorted_out(arenas, r, held),
        0 <= k <= list.len(),
        forall|j: int|
            0 <= j < list.len() ==> all_free(arenas, #[trigger] list[j])
                || arenas[list[j] as int].nfreepages < r.lists.len(),
    ensures
        list_sorted(arenas, r, list, k).lists.len() == r.lists.len(),
        sorted_out(
            arenas,
            list_sorted(arenas, r, list, k),
            |id: usize|
                held(id) || exists|j: int|
                    list.len() - k <= j < list.len() && #[trigger] list[j] == id,
        ),
    decreases k,
{
    let now = |id: usize|
        held(id) || exists|j: int| list.len() - k <= j < list.len() && #[trigger] list[j] == id;
    let out = list_sorted(arenas, r, list, k);
    if k <= 0 {
        assert forall|id: usize| #[trigger] now(id) <==> held(id) by {}
        assert(sorted_out(arenas, out, now));
    } else {
        let before = |id: usize|
            held(id) || exists|j: int|
                list.len() - (k - 1) <= j < list.len() && #[trigger] list[j] == id;
        lemma_list_sorted(arenas, r, list, k - 1, held);
        let rest = list_sorted(arenas, r, list, k - 1);
        let new = list[list.len() - k];
        assert(sorted_out(arenas, rest, before));
        assert forall|id: usize| #[trigger] now(id) <==> before(id) || id == new by {
            if id == new {
                assert(list[list.len() - k] == id);
            }
            if now(id) && !held(id) && id != new {
                let j = choose|j: int| list.len() - k <= j < list.len() && #[trigger] list[j] == id;
                assert(list.len() - (k - 1) <= j);
            }
            if before(id) && !held(id) {
                let j = choose|j: int|
                    list.len() - (k - 1) <= j < list.len() && #[trigger] list[j] == id;
                assert(list[j] == id);
            }
        }
        let n = arenas[new as int].nfreepages as int;
        if all_free(arenas, new) {
            assert forall|id: usize| #[trigger] out.given_up.contains(id) <==> now(id) && all_free(
                arenas,
                id,
            ) by {
                lemma_pushed(rest.given_up, new, id);
                assert(rest.given_up.contains(id) <==> before(id) && all_free(arenas, id));
            }
            assert forall|i: int, id: usize| 0 <= i < out.lists.len() implies (
            #[trigger] out.lists[i].contains(id) <==> now(id) && !all_free(arenas, id)
                && arenas[id as int].nfreepages == i) by {
                assert(rest.lists[i].contains(id) <==> before(id) && !all_free(arenas, id)
                    && arenas[id as int].nfreepages == i);
            }
        } else {
            assert forall|id: usize| #[trigger] out.given_up.contains(id) <==> now(id) && all_free(
                arenas,
                id,
            ) by {
                assert(rest.given_up.contains(id) <==> before(id) && all_free(arenas, id));
            }
            assert forall|i: int, id: usize| 0 <= i < out.lists.len() implies (
            #[trigger] out.lists[i].contains(id) <==> now(id) && !all_free(arenas, id)
                && arenas[id as int].nfreepages == i) by {
                lemma_pushed(rest.lists[i], new, id);
                assert(rest.lists[i].contains(id) <==> before(id) && !all_free(arenas, id)
                    && arenas[id as int].nfreepages == i);
                if i == n {
                    assert(out.lists[i] == rest.lists[i].push(new));
                } else {
                    assert(out.lists[i] == rest.lists[i]);
                }
            }
        }
        assert(sorted_out(arenas, out, now));
    }
}

proof fn lemma_pushed(s: Seq<usize>, new: usize, id: usize)
    ensures
        s.push(new).contains(id) <==> s.contains(id) || id == new,
{
    let t = s.push(new);
    if s.contains(id) {
        let k = choose|k: int| 0 <= k < s.len() && s[k] == id;
        assert(t[k] == id);
    }
    if id == new {
        assert(t[s.len() as int] == id);
    }
}

/// Sorting the arenas anew loses none and makes up none: those without a page in use are
/// given up, and each other one is in the list of its number of free pages, and in no other.
pub proof fn lemma_lists_sorted(arenas: Seq<Arena>, old_lists: Seq<Vec<usize>>, n: int)
    requires
        0 <= n <= old_lists.len(),
        forall|i: int, k: int|
            0 <= i < old_lists.len() && 0 <= k < old_lists[i]@.len() ==> all_free(
                arenas,
                #[trigger] old_lists[i]@[k],
            ) || arenas[old_lists[i]@[k] as int].nfreepages < old_lists.len(),
    ensures
        lists_sorted(arenas, old_lists, n).lists.len() == old_lists.len(),
        sorted_out(
            arenas,
            lists_sorted(arenas, old_lists, n),
            |id: usize| held_in(old_lists, n, id),
        ),
    decreases n,
{
    let now = |id: usize| held_in(old_lists, n, id);
    let out = lists_sorted(arenas, old_lists, n);
    if n <= 0 {
        assert(sorted_out(arenas, out, now));
    } else {
        let before = |id: usize| held_in(old_lists, n - 1, id);
        lemma_lists_sorted(arenas, old_lists, n - 1);
        let rest = lists_sorted(arenas, old_lists, n - 1);
        let list = old_lists[n - 1]@;
        assert forall|j: int| 0 <= j < list.len() implies all_free(arenas, #[trigger] list[j])
            || arenas[list[j] as int].nfreepages < rest.lists.len() by {
            assert(old_lists[n - 1]@[j] == list[j]);
        }
        lemma_list_sorted(arenas, rest, list, list.len() as int, before);
        let with = |id: usize|
            before(id) || exists|j: int|
                list.len() - list.len() <= j < list.len() && #[trigger] list[j] == id;
        assert(sorted_out(arenas, out, with));
        assert forall|id: usize| #[trigger] now(id) <==> with(id) by {
            if now(id) && !before(id) {
                let (i, k) = choose|i: int, k: int|
                    0 <= i < n && 0 <= k < old_lists[i]@.len() && #[trigger] old_lists[i]@[k] == id;
                assert(i == n - 1);
                assert(list[k] == id);
            }
            if with(id) && !before(id) {
                let j = choose|j: int|
                    list.len() - list.len() <= j < list.len() && #[trigger] list[j] == id;
                assert(old_lists[n - 1]@[j] == id);
            }
            if before(id) {
                let (i, k) = choose|i: int, k: int|
                    0 <= i < n - 1 && 0 <= k < old_lists[i]@.len() && #[trigger] old_lists[i]@[k]
                        == id;
                assert(old_lists[i]@[k] == id);
            }
        }
        assert forall|id: usize| #[trigger] out.given_up.contains(id) <==> now(id) && all_free(
            arenas,
            id,
        ) by {
            assert(now(id) <==> with(id));
        }
        assert forall|i: int, id: usize| 0 <= i < out.lists.len() implies (
        #[trigger] out.lists[i].contains(id) <==> now(id) && !all_free(arenas, id)
            && arenas[id as int].nfreepages == i) by {
            assert(now(id) <==> with(id));
        }
    }
}

/// The list that is picked is the first one with an arena, from `from` on.
pub proof fn lemma_picked(lists: Seq<Seq<usize>>, from: int)
    requires
        0 <= from <= lists.len(),
    ensures
        from <= picked(lists, from) <= lists.len(),
        picked(lists, from) < lists.len() ==> lists[picked(lists, from)].len() > 0,
        forall|i: int| from <= i < picked(lists, from) ==> (#[trigger] lists[i]).len() == 0,
    decreases lists.len() - from,
{
    if from < lists.len() && lists[from].len() == 0 {
        lemma_picked(lists, from + 1);
    }
}

/// Whether an object is one of the first `n` that are freed, or that stay.
pub open spec fn one_of(
    all: Seq<LargeObject>,
    dead: Seq<bool>,
    which: bool,
    n: int,
    x: LargeObject,
) -> bool {
    exists|i: int| 0 <= i < n && dead[i] == which && #[trigger] all[i] == x
}

/// The large objects are parted into those that are freed and those that stay: every one is
/// in exactly one of the two.
pub proof fn lemma_chosen(all: Seq<LargeObject>, dead: Seq<bool>, n: int)
    requires
        0 <= n <= all.len(),
        dead.len() == all.len(),
    ensures
        chosen(all, dead, true, n).len() + chosen(all, dead, false, n).len() == n,
        forall|i: int|
            0 <= i < n ==> chosen(all, dead, dead[i], n).contains(#[trigger] all[i]),
        forall|which: bool, k: int|
            0 <= k < chosen(all, dead, which, n).len() ==> one_of(
                all,
                dead,
                which,
                n,
                #[trigger] chosen(all, dead, which, n)[k],
            ),
    decreases n,
{
    if n > 0 {
        lemma_chosen(all, dead, n - 1);
        let w = dead[n - 1];
        let prev = chosen(all, dead, w, n - 1);
        let now = chosen(all, dead, w, n);
        assert(now == prev.push(all[n - 1]));
        assert(chosen(all, dead, !w, n) == chosen(all, dead, !w, n - 1));
        assert forall|i: int| 0 <= i < n implies chosen(all, dead, dead[i], n).contains(
            #[trigger] all[i],
        ) by {
            if i == n - 1 {
                assert(now[prev.len() as int] == all[i]);
            } else {
                let list = chosen(all, dead, dead[i], n - 1);
                assert(list.contains(all[i]));
                let k = choose|k: int| 0 <= k < list.len() && list[k] == all[i];
                assert(chosen(all, dead, dead[i], n)[k] == all[i]);
            }
        }
        assert forall|which: bool, k: int| 0 <= k < chosen(
            all,
            dead,
            which,
            n,
        ).len() implies one_of(all, dead, which, n, #[trigger] chosen(all, dead, which, n)[k]) by {
            let list = chosen(all, dead, which, n);
            let old_list = chosen(all, dead, which, n - 1);
            if which == w && k == prev.len() {
                assert(list[k] == all[n - 1]);
            } else {
                assert(list[k] == old_list[k]);
                assert(one_of(all, dead, which, n - 1, old_list[k]));
                let i = choose|i: int|
                    0 <= i < n - 1 && dead[i] == which && #[trigger] all[i] == old_list[k];
                assert(all[i] == list[k]);
            }
        }
    }
}

} // verus!
