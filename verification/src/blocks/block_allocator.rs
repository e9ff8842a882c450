//! Hands out blocks and runs of blocks. Free runs are kept in lists by the power of two
//! that is their length.

use vstd::arithmetic::power2::{
    lemma2_to64, lemma_pow2_pos, lemma_pow2_strictly_increases, lemma_pow2_unfold, pow2,
};
use vstd::prelude::*;

use crate::heap::free_list::apart;
use crate::heap::region::log2_floor_of;
use crate::heap::{lemma_log2_floor, lemma_shift_is_pow2, log2_floor};

verus! {

pub const SUPERBLOCK_LIST_SIZE: usize = 23;

/// What a block is used for.
#[derive(Clone, Copy, PartialEq, Eq, Debug, Structural)]
pub enum BlockFlag {
    Free,
    Simple,
    HumongousStart,
    HumongousContinuation,
}

/// The header of a block.
#[derive(Clone, Copy, PartialEq, Eq, Debug, Structural)]
pub struct BlockMeta {
    pub flag: BlockFlag,
    /// The number of blocks of the run that starts here.
    pub humongous_size: u32,
    /// The first free line, or none.
    pub first_free_line: Option<u8>,
}

/// Blocks that wait to be handed out, by number.
pub struct BlockAllocator {
    pub recycled_blocks: Vec<usize>,
    pub recycled_blocks_count: u32,
    /// The run that single blocks are taken from.
    pub smallest_humongous_block: (usize, usize),
    pub min_non_empty_index: usize,
    /// The number of lists that may have runs, from the first one on.
    pub non_empty_lists: usize,
    pub free_block_count: u32,
    /// The run that free blocks are added to as long as they follow each other.
    pub coalescing_humongous_block: Option<(usize, usize)>,
    pub free_humongous_blocks: Vec<Vec<usize>>,
}

/// What the contracts say of a block allocator.
#[verifier::ext_equal]
pub struct BlocksView {
    pub recycled: Seq<usize>,
    pub recycled_count: int,
    pub smallest: (int, int),
    pub min: int,
    pub top: int,
    pub free: int,
    pub coalescing: Option<(int, int)>,
    pub lists: Seq<Seq<usize>>,
    pub metas: Seq<BlockMeta>,
}

/// The exponent of the smallest power of two that is not below `n`.
pub open spec fn log2_ceil(n: int) -> int {
    if pow2(log2_floor(n)) == n {
        log2_floor(n) as int
    } else {
        log2_floor(n) as int + 1
    }
}

/// Whether a position is that of a run.
pub open spec fn has_run(lists: Seq<Seq<usize>>, i: int, k: int) -> bool {
    0 <= i < lists.len() && 0 <= k < lists[i].len()
}

/// Whether no run of the lists shares a block with the `n` blocks from `b` on.
pub open spec fn apart_from_lists(lists: Seq<Seq<usize>>, b: int, n: int) -> bool {
    forall|i: int, k: int|
        has_run(lists, i, k) ==> apart(
            (#[trigger] lists[i][k]) as int,
            pow2(i as nat) as int,
            b,
            n,
        )
}

/// Whether no two runs share a block.
pub open spec fn lists_apart(lists: Seq<Seq<usize>>) -> bool {
    forall|i: int, k: int, j: int, l: int|
        has_run(lists, i, k) && has_run(lists, j, l) && (i != j || k != l) ==> apart(
            (#[trigger] lists[i][k]) as int,
            pow2(i as nat) as int,
            (#[trigger] lists[j][l]) as int,
            pow2(j as nat) as int,
        )
}

/// Whether the runs of the lists are in order: they lie within the heap, their first
/// block holds their length, and no two share a block.
pub open spec fn lists_ok(lists: Seq<Seq<usize>>, metas: Seq<BlockMeta>) -> bool {
    &&& lists.len() == SUPERBLOCK_LIST_SIZE
    &&& lists_apart(lists)
    &&& forall|i: int, k: int|
        has_run(lists, i, k) ==> {
            &&& (#[trigger] lists[i][k]) + pow2(i as nat) <= metas.len()
            &&& metas[lists[i][k] as int].humongous_size == pow2(i as nat)
        }
}

/// The headers after the `n` blocks from `b` on have been given a flag.
pub open spec fn flagged(metas: Seq<BlockMeta>, b: int, n: int, flag: BlockFlag) -> Seq<BlockMeta> {
    Seq::new(
        metas.len(),
        |j: int|
            if b <= j < b + n {
                BlockMeta { flag, ..metas[j] }
            } else {
                metas[j]
            },
    )
}

/// The headers after the length of the run at `b` has been noted.
pub open spec fn sized(metas: Seq<BlockMeta>, b: int, n: int) -> Seq<BlockMeta> {
    metas.update(b, BlockMeta { humongous_size: n as u32, ..metas[b] })
}

/// The view after a free run of `2^i` blocks has been put in its list.
pub open spec fn run_added(v: BlocksView, b: int, i: int) -> BlocksView {
    let n = pow2(i as nat) as int;
    BlocksView {
        min: if i < v.min {
            i
        } else {
            v.min
        },
        top: if i + 1 > v.top {
            i + 1
        } else {
            v.top
        },
        metas: sized(flagged(v.metas, b, n, BlockFlag::Free), b, n),
        lists: v.lists.update(i, v.lists[i].push(b as usize)),
        ..v
    }
}

/// The view after `n` free blocks have been put in the lists: one run for every bit of
/// `n` from bit `i` on, the shortest first.
pub open spec fn runs_added(v: BlocksView, b: int, n: int, i: int) -> BlocksView
    decreases 64 - i,
{
    if n <= 0 || i >= 64 {
        v
    } else if (n / (pow2(i as nat) as int)) % 2 == 1 {
        runs_added(run_added(v, b, i), b + pow2(i as nat), n - pow2(i as nat), i + 1)
    } else {
        runs_added(v, b, n, i + 1)
    }
}

impl BlockAllocator {
    pub open spec fn view(&self, metas: Seq<BlockMeta>) -> BlocksView {
        BlocksView {
            recycled: self.recycled_blocks@,
            recycled_count: self.recycled_blocks_count as int,
            smallest: (
                self.smallest_humongous_block.0 as int,
                self.smallest_humongous_block.1 as int,
            ),
            min: self.min_non_empty_index as int,
            top: self.non_empty_lists as int,
            free: self.free_block_count as int,
            coalescing: match self.coalescing_humongous_block {
                Some((a, b)) => Some((a as int, b as int)),
                None => None,
            },
            lists: Seq::new(
                self.free_humongous_blocks@.len(),
                |i: int| self.free_humongous_blocks@[i]@,
            ),
            metas,
        }
    }
}

/// Whether an allocator is in order. What is in no list has no run there, and the run for
/// single blocks and the run that is being collected share no block with the lists or
/// with each other.
pub open spec fn blocks_ok(v: BlocksView) -> bool {
    &&& lists_ok(v.lists, v.metas)
    &&& v.metas.len() < 0x80_0000
    &&& 0 <= v.min <= SUPERBLOCK_LIST_SIZE
    &&& 0 <= v.top <= SUPERBLOCK_LIST_SIZE
    &&& forall|i: int| v.top <= i < SUPERBLOCK_LIST_SIZE ==> (#[trigger] v.lists[i]).len() == 0
    &&& v.smallest.0 < v.smallest.1 ==> {
        &&& 0 <= v.smallest.0
        &&& v.smallest.1 <= v.metas.len()
        &&& apart_from_lists(v.lists, v.smallest.0, v.smallest.1 - v.smallest.0)
    }
    &&& v.coalescing matches Some((a, b)) ==> {
        &&& 0 <= a < b <= v.metas.len()
        &&& apart_from_lists(v.lists, a, b - a)
        &&& v.smallest.0 < v.smallest.1 ==> apart(
            a,
            b - a,
            v.smallest.0,
            v.smallest.1 - v.smallest.0,
        )
    }
}

/// Putting a run in its list keeps the lists in order.
proof fn lemma_run_added(v: BlocksView, b: int, i: int)
    requires
        lists_ok(v.lists, v.metas),
        0 <= i < SUPERBLOCK_LIST_SIZE,
        0 <= b,
        b + pow2(i as nat) <= v.metas.len() < 0x80_0000,
        apart_from_lists(v.lists, b, pow2(i as nat) as int),
    ensures
        ({
            let w = run_added(v, b, i);
            &&& lists_ok(w.lists, w.metas)
            &&& w.metas.len() == v.metas.len()
            &&& forall|c: int, n: int| #[trigger]
                apart_from_lists(v.lists, c, n) && apart(b, pow2(i as nat) as int, c, n)
                    ==> apart_from_lists(w.lists, c, n)
            &&& forall|j: int|
                0 <= j < v.metas.len() && !(b <= j < b + pow2(i as nat)) ==> (
                #[trigger] w.metas[j]) == v.metas[j]
            &&& forall|j: int|
                b <= j < b + pow2(i as nat) ==> (#[trigger] w.metas[j]).flag == BlockFlag::Free
        }),
{
    let w = run_added(v, b, i);
    let n = pow2(i as nat) as int;
    lemma_pow2_pos(i as nat);
    lemma_small_pow2(i);
    assert forall|j: int, k: int| has_run(w.lists, j, k) implies (has_run(v.lists, j, k)
        && #[trigger] w.lists[j][k] == v.lists[j][k]) || (j == i && k == v.lists[i].len()
        && w.lists[j][k] == b) by {}
    assert forall|j: int, k: int| has_run(w.lists, j, k) implies {
        &&& (#[trigger] w.lists[j][k]) + pow2(j as nat) <= w.metas.len()
        &&& w.metas[w.lists[j][k] as int].humongous_size == pow2(j as nat)
    } by {
        if has_run(v.lists, j, k) && w.lists[j][k] == v.lists[j][k] {
            let c = v.lists[j][k] as int;
            lemma_pow2_pos(j as nat);
            assert(apart(c, pow2(j as nat) as int, b, n));
            assert(v.metas[c].humongous_size == pow2(j as nat));
        }
    }
    assert forall|j: int, k: int, l: int, m: int|
        has_run(w.lists, j, k) && has_run(w.lists, l, m) && (j != l || k != m) implies apart(
        (#[trigger] w.lists[j][k]) as int,
        pow2(j as nat) as int,
        (#[trigger] w.lists[l][m]) as int,
        pow2(l as nat) as int,
    ) by {
        if has_run(v.lists, j, k) && w.lists[j][k] == v.lists[j][k] {
            if has_run(v.lists, l, m) && w.lists[l][m] == v.lists[l][m] {
                assert(apart(
                    v.lists[j][k] as int,
                    pow2(j as nat) as int,
                    v.lists[l][m] as int,
                    pow2(l as nat) as int,
                ));
            } else {
                assert(apart(v.lists[j][k] as int, pow2(j as nat) as int, b, n));
            }
        } else {
            assert(has_run(v.lists, l, m));
            assert(apart(v.lists[l][m] as int, pow2(l as nat) as int, b, n));
        }
    }
    assert forall|c: int, m: int| #[trigger]
        apart_from_lists(v.lists, c, m) && apart(b, n, c, m) implies apart_from_lists(
        w.lists,
        c,
        m,
    ) by {
        assert forall|j: int, k: int| has_run(w.lists, j, k) implies apart(
            (#[trigger] w.lists[j][k]) as int,
            pow2(j as nat) as int,
            c,
            m,
        ) by {
            if has_run(v.lists, j, k) && w.lists[j][k] == v.lists[j][k] {
                assert(apart(v.lists[j][k] as int, pow2(j as nat) as int, c, m));
            }
        }
    }
}

proof fn lemma_small_pow2(i: int)
    requires
        0 <= i < SUPERBLOCK_LIST_SIZE,
    ensures
        pow2(i as nat) <= 0x40_0000,
        pow2(i as nat) > 0,
{
    lemma2_to64();
    lemma_pow2_pos(i as nat);
    if i < 22 {
        lemma_pow2_strictly_increases(i as nat, 22);
    }
}

/// Putting `n` blocks in the lists, bit by bit.
proof fn lemma_runs_added(v: BlocksView, b: int, n: int, i: int)
    requires
        lists_ok(v.lists, v.metas),
        0 <= i <= SUPERBLOCK_LIST_SIZE,
        0 <= b,
        0 <= n,
        b + n <= v.metas.len() < 0x80_0000,
        n % (pow2(i as nat) as int) == 0,
        apart_from_lists(v.lists, b, n),
    ensures
        ({
            let w = runs_added(v, b, n, i);
            &&& lists_ok(w.lists, w.metas)
            &&& w.metas.len() == v.metas.len()
            &&& forall|c: int, m: int| #[trigger]
                apart_from_lists(v.lists, c, m) && apart(b, n, c, m) ==> apart_from_lists(
                    w.lists,
                    c,
                    m,
                )
            &&& forall|j: int|
                0 <= j < v.metas.len() && !(b <= j < b + n) ==> (#[trigger] w.metas[j])
                    == v.metas[j]
            &&& forall|j: int| b <= j < b + n ==> (#[trigger] w.metas[j]).flag == BlockFlag::Free
            &&& w.recycled == v.recycled
            &&& w.recycled_count == v.recycled_count
            &&& w.smallest == v.smallest
            &&& w.free == v.free
            &&& w.coalescing == v.coalescing
            &&& 0 <= w.min <= v.min || v.min < 0
            &&& v.top <= w.top
            &&& v.top <= SUPERBLOCK_LIST_SIZE ==> w.top <= SUPERBLOCK_LIST_SIZE
            &&& (forall|k: int|
                v.top <= k < SUPERBLOCK_LIST_SIZE ==> (#[trigger] v.lists[k]).len() == 0)
                && v.top >= 0 ==> (forall|k: int|
                w.top <= k < SUPERBLOCK_LIST_SIZE ==> (#[trigger] w.lists[k]).len() == 0)
        }),
    decreases SUPERBLOCK_LIST_SIZE - i,
{
    if n > 0 {
        let p = pow2(i as nat) as int;
        lemma_pow2_pos(i as nat);
        lemma_pow2_unfold((i + 1) as nat);
        lemma2_to64();
        vstd::arithmetic::div_mod::lemma_fundamental_div_mod(n, p);
        let q = n / p;
        assert(q >= 1) by (nonlinear_arith)
            requires
                n > 0,
                n == p * q + 0,
                p > 0,
        ;
        assert(n >= p) by (nonlinear_arith)
            requires
                n == p * q + 0,
                q >= 1,
                p > 0,
        ;
        if i == SUPERBLOCK_LIST_SIZE {
            assert(p == 0x80_0000);
            assert(false);
        }
        if q % 2 == 1 {
            assert(apart_from_lists(v.lists, b, p)) by {
                assert forall|j: int, k: int| has_run(v.lists, j, k) implies apart(
                    (#[trigger] v.lists[j][k]) as int,
                    pow2(j as nat) as int,
                    b,
                    p,
                ) by {
                    assert(apart(v.lists[j][k] as int, pow2(j as nat) as int, b, n));
                }
            }
            lemma_run_added(v, b, i);
            let w = run_added(v, b, i);
            assert(apart_from_lists(v.lists, b + p, n - p)) by {
                assert forall|j: int, k: int| has_run(v.lists, j, k) implies apart(
                    (#[trigger] v.lists[j][k]) as int,
                    pow2(j as nat) as int,
                    b + p,
                    n - p,
                ) by {
                    assert(apart(v.lists[j][k] as int, pow2(j as nat) as int, b, n));
                }
            }
            assert((n - p) % (2 * p) == 0) by {
                let h = q / 2;
                assert(n - p == h * (2 * p)) by (nonlinear_arith)
                    requires
                        n == p * q + 0,
                        q == 2 * h + 1,
                ;
                vstd::arithmetic::div_mod::lemma_mod_multiples_basic(h, 2 * p);
            }
            lemma_runs_added(w, b + p, n - p, i + 1);
            let z = runs_added(v, b, n, i);
            assert forall|c: int, m: int| #[trigger]
                apart_from_lists(v.lists, c, m) && apart(b, n, c, m) implies apart_from_lists(
                z.lists,
                c,
                m,
            ) by {
                assert(apart(b, p, c, m));
                assert(apart_from_lists(w.lists, c, m));
                assert(apart(b + p, n - p, c, m));
            }
            assert forall|j: int| 0 <= j < v.metas.len() && !(b <= j < b + n) implies (
            #[trigger] z.metas[j]) == v.metas[j] by {
                assert(w.metas[j] == v.metas[j]);
            }
            assert forall|j: int| b <= j < b + n implies (#[trigger] z.metas[j]).flag
                == BlockFlag::Free by {
                if j < b + p {
                    assert(w.metas[j].flag == BlockFlag::Free);
                }
            }
        } else {
            assert(n % (2 * p) == 0) by {
                let h = q / 2;
                assert(n == h * (2 * p)) by (nonlinear_arith)
                    requires
                        n == p * q + 0,
                        q == 2 * h,
                ;
                vstd::arithmetic::div_mod::lemma_mod_multiples_basic(h, 2 * p);
            }
            lemma_runs_added(v, b, n, i + 1);
        }
    }
}

/// The view after the search for a run from list `i` on: the first list that has one
/// gives its first run. Lists that have none are passed over for good.
pub open spec fn polled(v: BlocksView, i: int) -> (BlocksView, Option<int>)
    decreases v.top - i,
{
    if i >= v.top {
        (v, None)
    } else if v.lists[i].len() > 0 {
        (
            BlocksView { lists: v.lists.update(i, v.lists[i].skip(1)), ..v },
            Some(v.lists[i][0] as int),
        )
    } else {
        polled(BlocksView { min: i + 1, ..v }, i + 1)
    }
}

/// The list that a search from list `i` on finds a run in.
pub open spec fn polled_list(v: BlocksView, i: int) -> int
    decreases v.top - i,
{
    if i >= v.top || v.lists[i].len() > 0 {
        i
    } else {
        polled_list(v, i + 1)
    }
}

proof fn lemma_polled(v: BlocksView, i: int)
    requires
        lists_ok(v.lists, v.metas),
        0 <= i,
        0 <= v.top <= SUPERBLOCK_LIST_SIZE,
        0 <= v.min <= SUPERBLOCK_LIST_SIZE,
    ensures
        ({
            let (w, r) = polled(v, i);
            let j = polled_list(v, i);
            &&& i <= j
            &&& w == (BlocksView { min: w.min, lists: w.lists, ..v })
            &&& 0 <= w.min <= SUPERBLOCK_LIST_SIZE
            &&& r is None <==> j >= v.top
            &&& r is None ==> w.lists == v.lists
            &&& r is Some ==> {
                &&& 0 <= j < SUPERBLOCK_LIST_SIZE
                &&& v.lists[j].len() > 0
                &&& r->0 == v.lists[j][0]
                &&& w.lists == v.lists.update(j, v.lists[j].skip(1))
            }
        }),
    decreases v.top - i,
{
    if i < v.top && v.lists[i].len() == 0 {
        let u = BlocksView { min: i + 1, ..v };
        lemma_polled(u, i + 1);
        lemma_polled_list(u, v, i + 1);
    }
}

proof fn lemma_polled_list(u: BlocksView, v: BlocksView, i: int)
    requires
        u.lists == v.lists,
        u.top == v.top,
    ensures
        polled_list(u, i) == polled_list(v, i),
    decreases v.top - i,
{
    if i < v.top && v.lists[i].len() == 0 {
        lemma_polled_list(u, v, i + 1);
    }
}

/// A run that has been taken out shares no block with those that are left.
proof fn lemma_run_removed(lists: Seq<Seq<usize>>, metas: Seq<BlockMeta>, j: int)
    requires
        lists_ok(lists, metas),
        0 <= j < SUPERBLOCK_LIST_SIZE,
        lists[j].len() > 0,
    ensures
        ({
            let left = lists.update(j, lists[j].skip(1));
            let b = lists[j][0] as int;
            &&& lists_ok(left, metas)
            &&& apart_from_lists(left, b, pow2(j as nat) as int)
            &&& b + pow2(j as nat) <= metas.len()
            &&& metas[b].humongous_size == pow2(j as nat)
            &&& forall|c: int, n: int| #[trigger]
                apart_from_lists(lists, c, n) ==> apart_from_lists(left, c, n) && apart(
                    b,
                    pow2(j as nat) as int,
                    c,
                    n,
                )
        }),
{
    let left = lists.update(j, lists[j].skip(1));
    let b = lists[j][0] as int;
    assert(has_run(lists, j, 0));
    assert forall|i: int, k: int| has_run(left, i, k) implies #[trigger] left[i][k] == (if i == j {
        lists[i][k + 1]
    } else {
        lists[i][k]
    }) by {}
    assert forall|i: int, k: int| has_run(left, i, k) implies {
        &&& (#[trigger] left[i][k]) + pow2(i as nat) <= metas.len()
        &&& metas[left[i][k] as int].humongous_size == pow2(i as nat)
        &&& apart(left[i][k] as int, pow2(i as nat) as int, b, pow2(j as nat) as int)
    } by {
        let at = if i == j {
            k + 1
        } else {
            k
        };
        assert(has_run(lists, i, at));
        assert(left[i][k] == lists[i][at]);
        assert(apart(
            lists[i][at] as int,
            pow2(i as nat) as int,
            lists[j][0] as int,
            pow2(j as nat) as int,
        ));
    }
    assert forall|i: int, k: int, l: int, m: int|
        has_run(left, i, k) && has_run(left, l, m) && (i != l || k != m) implies apart(
        (#[trigger] left[i][k]) as int,
        pow2(i as nat) as int,
        (#[trigger] left[l][m]) as int,
        pow2(l as nat) as int,
    ) by {
        let ka = if i == j {
            k + 1
        } else {
            k
        };
        let ma = if l == j {
            m + 1
        } else {
            m
        };
        assert(has_run(lists, i, ka) && has_run(lists, l, ma));
        assert(apart(
            lists[i][ka] as int,
            pow2(i as nat) as int,
            lists[l][ma] as int,
            pow2(l as nat) as int,
        ));
    }
    assert forall|c: int, n: int| #[trigger] apart_from_lists(lists, c, n)
        implies apart_from_lists(left, c, n) && apart(b, pow2(j as nat) as int, c, n) by {
        assert(apart(lists[j][0] as int, pow2(j as nat) as int, c, n));
        assert forall|i: int, k: int| has_run(left, i, k) implies apart(
            (#[trigger] left[i][k]) as int,
            pow2(i as nat) as int,
            c,
            n,
        ) by {
            let at = if i == j {
                k + 1
            } else {
                k
            };
            assert(has_run(lists, i, at));
            assert(apart(lists[i][at] as int, pow2(i as nat) as int, c, n));
        }
    }
}

/// Headers may change outside the runs of the lists.
pub proof fn lemma_metas_changed(
    lists: Seq<Seq<usize>>,
    metas: Seq<BlockMeta>,
    next: Seq<BlockMeta>,
    b: int,
    n: int,
)
    requires
        lists_ok(lists, metas),
        apart_from_lists(lists, b, n),
        next.len() == metas.len(),
        forall|j: int|
            0 <= j < metas.len() && !(b <= j < b + n) ==> (#[trigger] next[j]) == metas[j],
    ensures
        lists_ok(lists, next),
{
    assert forall|i: int, k: int| has_run(lists, i, k) implies {
        &&& (#[trigger] lists[i][k]) + pow2(i as nat) <= next.len()
        &&& next[lists[i][k] as int].humongous_size == pow2(i as nat)
    } by {
        lemma_pow2_pos(i as nat);
        assert(apart(lists[i][k] as int, pow2(i as nat) as int, b, n));
        assert(metas[lists[i][k] as int].humongous_size == pow2(i as nat));
    }
}

/// What is left of a run goes back to the lists, and the lists stay in order.
proof fn lemma_leftover_ok(w: BlocksView, b: int, n: int, m: int)
    requires
        blocks_ok(w),
        0 <= b,
        1 <= n < m,
        b + m <= w.metas.len(),
        apart_from_lists(w.lists, b, m),
        w.smallest.0 < w.smallest.1 ==> apart(b, m, w.smallest.0, w.smallest.1 - w.smallest.0),
        w.coalescing matches Some((f, t)) ==> apart(b, m, f, t - f),
    ensures
        blocks_ok(runs_added(w, b + n, m - n, 0)),
        apart_from_lists(runs_added(w, b + n, m - n, 0).lists, b, n),
{
    lemma2_to64();
    vstd::arithmetic::div_mod::lemma_mod_self_0(1);
    lemma_apart_part(w.lists, b, m, b + n, m - n);
    lemma_apart_part(w.lists, b, m, b, n);
    lemma_runs_added(w, b + n, m - n, 0);
}

/// Freeing blocks leaves others apart from the lists that were apart from them and from
/// the blocks that were being collected.
pub proof fn lemma_freed_apart(v: BlocksView, b: int, n: int, c: int, m: int)
    requires
        blocks_ok(v),
        apart_from_lists(v.lists, c, m),
        v.coalescing matches Some((f, t)) ==> apart(f, t - f, c, m),
    ensures
        apart_from_lists(blocks_freed(v, b, n).lists, c, m),
{
    if let Some((f, t)) = v.coalescing {
        if t != b {
            lemma2_to64();
            vstd::arithmetic::div_mod::lemma_mod_self_0(1);
            lemma_runs_added(v, f, t - f, 0);
        }
    }
}

/// What putting the blocks that were collected last in the lists does to the headers.
pub proof fn lemma_swept_parts(v: BlocksView)
    requires
        blocks_ok(v),
    ensures
        ({
            let w = all_swept(v);
            &&& w.coalescing is None
            &&& w.metas.len() == v.metas.len()
            &&& forall|j: int|
                0 <= j < v.metas.len() && !(v.coalescing is Some && (v.coalescing->0).0 <= j < (
                v.coalescing->0).1) ==> (#[trigger] w.metas[j]) == v.metas[j]
            &&& v.coalescing is Some ==> forall|j: int|
                (v.coalescing->0).0 <= j < (v.coalescing->0).1 ==> (#[trigger] w.metas[j]).flag
                    == BlockFlag::Free
        }),
{
    if let Some((f, t)) = v.coalescing {
        lemma2_to64();
        vstd::arithmetic::div_mod::lemma_mod_self_0(1);
        lemma_runs_added(v, f, t - f, 0);
    }
}

/// What freeing blocks leaves as it is.
pub proof fn lemma_freed_parts(v: BlocksView, b: int, n: int)
    requires
        blocks_ok(v),
    ensures
        ({
            let w = blocks_freed(v, b, n);
            &&& w.smallest == v.smallest
            &&& w.free == v.free + 1
            &&& w.recycled == v.recycled
            &&& w.recycled_count == v.recycled_count
            &&& w.metas.len() == v.metas.len()
            &&& w.coalescing is Some
            &&& (w.coalescing->0).1 == b + n
            &&& (w.coalescing->0).0 == b || (v.coalescing is Some && (v.coalescing->0).1 == b && (
            w.coalescing->0).0 == (v.coalescing->0).0)
            &&& forall|j: int|
                0 <= j < v.metas.len() && !(v.coalescing is Some && (v.coalescing->0).0 <= j < (
                v.coalescing->0).1) ==> (#[trigger] w.metas[j]) == v.metas[j]
            &&& v.coalescing is Some && (v.coalescing->0).1 != b ==> forall|j: int|
                (v.coalescing->0).0 <= j < (v.coalescing->0).1 ==> (#[trigger] w.metas[j]).flag
                    == BlockFlag::Free
            &&& v.coalescing is None || (v.coalescing->0).1 == b ==> w.metas == v.metas
        }),
{
    if let Some((f, t)) = v.coalescing {
        if t != b {
            lemma2_to64();
            vstd::arithmetic::div_mod::lemma_mod_self_0(1);
            lemma_runs_added(v, f, t - f, 0);
        }
    }
}

/// A part of blocks that are apart from the lists is apart from them too.
pub proof fn lemma_apart_part(lists: Seq<Seq<usize>>, b: int, n: int, c: int, m: int)
    requires
        apart_from_lists(lists, b, n),
        b <= c,
        c + m <= b + n,
    ensures
        apart_from_lists(lists, c, m),
{
    assert forall|i: int, k: int| has_run(lists, i, k) implies apart(
        (#[trigger] lists[i][k]) as int,
        pow2(i as nat) as int,
        c,
        m,
    ) by {
        assert(apart(lists[i][k] as int, pow2(i as nat) as int, b, n));
    }
}

/// The view after all free runs have been forgotten.
pub open spec fn cleared(v: BlocksView) -> BlocksView {
    BlocksView {
        lists: Seq::new(SUPERBLOCK_LIST_SIZE as nat, |i: int| Seq::<usize>::empty()),
        free: 0,
        smallest: (0, 0),
        coalescing: None,
        min: SUPERBLOCK_LIST_SIZE as int,
        top: 0,
        ..v
    }
}

/// The view after a free block has been taken, and the block.
pub open spec fn block_taken(v: BlocksView) -> (BlocksView, Option<int>) {
    if v.smallest.0 >= v.smallest.1 {
        let (w, r) = polled(v, v.min);
        match r {
            None => (w, None),
            Some(b) => (
                BlocksView {
                    smallest: (b + 1, b + w.metas[b].humongous_size),
                    metas: w.metas.update(
                        b,
                        BlockMeta {
                            humongous_size: 0,
                            flag: BlockFlag::Simple,
                            ..w.metas[b]
                        },
                    ),
                    ..w
                },
                Some(b),
            ),
        }
    } else {
        let b = v.smallest.0;
        (
            BlocksView {
                smallest: (b + 1, v.smallest.1),
                metas: v.metas.update(b, BlockMeta { flag: BlockFlag::Simple, ..v.metas[b] }),
                ..v
            },
            Some(b),
        )
    }
}

/// The headers after the `n` blocks from `b` on have become one object's.
pub open spec fn made_humongous(metas: Seq<BlockMeta>, b: int, n: int) -> Seq<BlockMeta> {
    let sized = metas.update(
        b,
        BlockMeta { humongous_size: n as u32, flag: BlockFlag::HumongousStart, ..metas[b] },
    );
    flagged(sized, b + 1, n - 1, BlockFlag::HumongousContinuation)
}

/// The view after a run of `n` blocks has been found, and its first block. What is left of
/// a longer run goes back to the lists.
pub open spec fn run_found(v: BlocksView, n: int) -> (BlocksView, Option<int>) {
    if v.smallest.1 - v.smallest.0 >= n {
        let b = v.smallest.0;
        (BlocksView { smallest: (b + n, v.smallest.1), ..v }, Some(b))
    } else {
        let first = if v.min > log2_ceil(n) {
            v.min
        } else {
            log2_ceil(n)
        };
        let (w, r) = polled(v, first);
        match r {
            None => (w, None),
            Some(b) => (
                if w.metas[b].humongous_size > n {
                    runs_added(w, b + n, w.metas[b].humongous_size - n, 0)
                } else {
                    w
                },
                Some(b),
            ),
        }
    }
}

/// The view after a run of `n` blocks has been taken, and its first block.
pub open spec fn run_taken(v: BlocksView, n: int) -> (BlocksView, Option<int>) {
    let (u, r) = run_found(v, n);
    match r {
        None => (u, None),
        Some(b) => (BlocksView { metas: made_humongous(u.metas, b, n), ..u }, Some(b)),
    }
}

/// The view after `n` blocks from `b` on have become free. Those that follow each other
/// are put in the lists together.
pub open spec fn blocks_freed(v: BlocksView, b: int, n: int) -> BlocksView {
    match v.coalescing {
        None => BlocksView { coalescing: Some((b, b + n)), free: v.free + 1, ..v },
        Some((from, to)) => if to == b {
            BlocksView { coalescing: Some((from, b + n)), free: v.free + 1, ..v }
        } else {
            BlocksView {
                coalescing: Some((b, b + n)),
                free: v.free + 1,
                ..runs_added(v, from, to - from, 0)
            }
        },
    }
}

/// The view after the blocks that were collected last have been put in the lists.
pub open spec fn all_swept(v: BlocksView) -> BlocksView {
    match v.coalescing {
        None => v,
        Some((from, to)) => BlocksView { coalescing: None, ..runs_added(v, from, to - from, 0) },
    }
}

impl BlockAllocator {
    /// An allocator whose `block_count` blocks can be taken one by one.
    pub fn new(metas: &Vec<BlockMeta>, block_count: usize) -> (r: Self)
        requires
            block_count <= metas@.len() < 0x80_0000,
        ensures
            blocks_ok(r.view(metas@)),
            r.view(metas@) == (BlocksView {
                recycled: Seq::empty(),
                recycled_count: 0,
                smallest: (0, block_count as int),
                min: SUPERBLOCK_LIST_SIZE as int,
                top: 0,
                free: 0,
                coalescing: None,
                lists: Seq::new(SUPERBLOCK_LIST_SIZE as nat, |i: int| Seq::<usize>::empty()),
                metas: metas@,
            }),
    {
        let mut lists: Vec<Vec<usize>> = Vec::new();
        let mut i: usize = 0;
        while i < SUPERBLOCK_LIST_SIZE
            invariant
                i <= SUPERBLOCK_LIST_SIZE,
                lists@.len() == i,
                forall|k: int| 0 <= k < i ==> (#[trigger] lists@[k])@ == Seq::<usize>::empty(),
            decreases SUPERBLOCK_LIST_SIZE - i,
        {
            lists.push(Vec::new());
            i = i + 1;
        }
        let r = BlockAllocator {
            recycled_blocks: Vec::new(),
            recycled_blocks_count: 0,
            smallest_humongous_block: (0, block_count),
            min_non_empty_index: SUPERBLOCK_LIST_SIZE,
            non_empty_lists: 0,
            free_block_count: 0,
            coalescing_humongous_block: None,
            free_humongous_blocks: lists,
        };
        assert(r.view(metas@).lists =~~= Seq::new(
            SUPERBLOCK_LIST_SIZE as nat,
            |i: int| Seq::<usize>::empty(),
        ));
        assert forall|i: int, k: int| !has_run(r.view(metas@).lists, i, k) by {}
        r
    }

    /// Puts a block with free lines in the list of such blocks.
    pub fn recycle(&mut self, block: usize)
        requires
            old(self).recycled_blocks_count < u32::MAX,
        ensures
            forall|metas: Seq<BlockMeta>|
                final(self).view(metas) == (BlocksView {
                    recycled: old(self).recycled_blocks@.push(block),
                    recycled_count: old(self).recycled_blocks_count + 1,
                    ..#[trigger] old(self).view(metas)
                }),
    {
        self.recycled_blocks.push(block);
        self.recycled_blocks_count = self.recycled_blocks_count + 1;
    }

    /// Takes a block with free lines.
    pub fn try_recycled(&mut self) -> (r: Option<usize>)
        ensures
            old(self).recycled_blocks_count == 0 ==> r is None && *final(self) == *old(self),
            old(self).recycled_blocks_count > 0 ==> {
                let list = old(self).recycled_blocks@;
                &&& list.len() == 0 ==> r is None
                &&& list.len() > 0 ==> r == Some(list[0])
                &&& forall|metas: Seq<BlockMeta>|
                    final(self).view(metas) == (BlocksView {
                        recycled: if list.len() == 0 {
                            list
                        } else {
                            list.skip(1)
                        },
                        recycled_count: old(self).recycled_blocks_count - 1,
                        ..#[trigger] old(self).view(metas)
                    })
            },
    {
        if self.recycled_blocks_count == 0 {
            return None;
        }
        self.recycled_blocks_count = self.recycled_blocks_count - 1;
        if self.recycled_blocks.len() == 0 {
            return None;
        }
        let ghost list = self.recycled_blocks@;
        let block: usize = self.recycled_blocks.remove(0);
        assert(self.recycled_blocks@ =~= list.skip(1));
        Some(block)
    }

    /// Forgets all free runs.
    pub fn clear(&mut self)
        requires
            old(self).free_humongous_blocks@.len() == SUPERBLOCK_LIST_SIZE,
        ensures
            forall|metas: Seq<BlockMeta>|
                final(self).view(metas) == cleared(#[trigger] old(self).view(metas)),
    {
        let ghost before = *self;
        let mut i: usize = 0;
        while i < SUPERBLOCK_LIST_SIZE
            invariant
                i <= SUPERBLOCK_LIST_SIZE,
                self.free_humongous_blocks@.len() == SUPERBLOCK_LIST_SIZE,
                *self == (BlockAllocator {
                    free_humongous_blocks: self.free_humongous_blocks,
                    ..before
                }),
                forall|k: int|
                    0 <= k < i ==> (#[trigger] self.free_humongous_blocks@[k])@ == Seq::<
                        usize,
                    >::empty(),
            decreases SUPERBLOCK_LIST_SIZE - i,
        {
            self.free_humongous_blocks[i].clear();
            i = i + 1;
        }
        self.free_block_count = 0;
        self.smallest_humongous_block = (0, 0);
        self.coalescing_humongous_block = None;
        self.min_non_empty_index = SUPERBLOCK_LIST_SIZE;
        self.non_empty_lists = 0;
        proof {
            assert forall|metas: Seq<BlockMeta>| self.view(metas) == cleared(
                #[trigger] before.view(metas),
            ) by {
                assert(self.view(metas).lists =~~= cleared(before.view(metas)).lists);
            }
        }
    }

    /// The list for runs of `size` blocks.
    pub fn size_to_linked_list_index(size: usize) -> (r: usize)
        requires
            size >= 1,
        ensures
            r == log2_floor(size as int),
    {
        log2_floor_of(size)
    }

    /// Takes the first run from list `first` on.
    pub fn poll_humongous(&mut self, metas: &Vec<BlockMeta>, first: usize) -> (r: Option<usize>)
        requires
            blocks_ok(old(self).view(metas@)),
        ensures
            final(self).view(metas@) == polled(old(self).view(metas@), first as int).0,
            match polled(old(self).view(metas@), first as int).1 {
                Some(b) => r == Some(b as usize) && 0 <= b < metas@.len(),
                None => r is None,
            },
    {
        let ghost v = self.view(metas@);
        let ghost goal = polled(v, first as int);
        proof {
            lemma_polled(v, first as int);
        }
        let mut i: usize = first;
        while i < self.non_empty_lists
            invariant
                first <= i,
                v.top <= SUPERBLOCK_LIST_SIZE,
                v.lists.len() == SUPERBLOCK_LIST_SIZE,
                v == old(self).view(metas@),
                lists_ok(v.lists, metas@),
                v.metas == metas@,
                self.view(metas@) == (BlocksView { min: self.view(metas@).min, ..v }),
                goal == polled(v, first as int),
                goal == polled(self.view(metas@), i as int),
                self.non_empty_lists == v.top,
                metas@.len() < 0x80_0000,
            decreases self.non_empty_lists - i,
        {
            assert(self.view(metas@).lists[i as int] == self.free_humongous_blocks@[i as int]@);
            if self.free_humongous_blocks[i].len() > 0 {
                let ghost before = *self;
                let b: usize = self.free_humongous_blocks[i].remove(0);
                proof {
                    assert(has_run(v.lists, i as int, 0));
                    lemma_pow2_pos(i as nat);
                    assert(v.lists[i as int][0] == b);
                    assert(self.view(metas@).lists =~= v.lists.update(
                        i as int,
                        v.lists[i as int].skip(1),
                    )) by {
                        assert(self.free_humongous_blocks@[i as int]@
                            =~= before.free_humongous_blocks@[i as int]@.skip(1));
                    }
                }
                return Some(b);
            } else {
                let ghost before = *self;
                self.min_non_empty_index = i + 1;
                assert(self.view(metas@) =~= (BlocksView { min: i + 1, ..before.view(metas@) }));
            }
            i = i + 1;
        }
        None
    }

    /// Takes a free block.
    pub fn get_free_block(&mut self, metas: &mut Vec<BlockMeta>) -> (r: Option<usize>)
        requires
            blocks_ok(old(self).view(old(metas)@)),
        ensures
            final(metas)@.len() == old(metas)@.len(),
            final(self).view(final(metas)@) == block_taken(old(self).view(old(metas)@)).0,
            blocks_ok(final(self).view(final(metas)@)),
            match block_taken(old(self).view(old(metas)@)).1 {
                Some(b) => r == Some(b as usize) && 0 <= b < old(metas)@.len() && apart_from_lists(
                    final(self).view(final(metas)@).lists,
                    b,
                    1,
                ),
                None => r is None,
            },
    {
        let ghost v = self.view(metas@);
        if self.smallest_humongous_block.0 >= self.smallest_humongous_block.1 {
            let first: usize = self.min_non_empty_index;
            let block: Option<usize> = self.poll_humongous(metas, first);
            proof {
                lemma_polled(v, first as int);
            }
            match block {
                None => None,
                Some(b) => {
                    let ghost w = self.view(metas@);
                    let size: usize = metas[b].humongous_size as usize;
                    proof {
                        let j = polled_list(v, first as int);
                        lemma_run_removed(v.lists, v.metas, j);
                        lemma_small_pow2(j);
                    }
                    self.smallest_humongous_block = (b + 1, b + size);
                    let meta: BlockMeta = metas[b];
                    metas.set(
                        b,
                        BlockMeta {
                            flag: BlockFlag::Simple,
                            humongous_size: 0,
                            first_free_line: meta.first_free_line,
                        },
                    );
                    proof {
                        let u = self.view(metas@);
                        assert(u =~= block_taken(v).0);
                        let j = polled_list(v, first as int);
                        lemma_apart_part(w.lists, b as int, pow2(j as nat) as int, b as int, 1);
                        lemma_apart_part(
                            w.lists,
                            b as int,
                            pow2(j as nat) as int,
                            b + 1,
                            pow2(j as nat) - 1,
                        );
                        lemma_metas_changed(w.lists, w.metas, metas@, b as int, 1);
                        assert(blocks_ok(u)) by {
                            assert forall|i: int| u.top <= i < SUPERBLOCK_LIST_SIZE implies (
                            #[trigger] u.lists[i]).len() == 0 by {
                                assert(v.lists[i].len() == 0);
                            }
                        }
                    }
                    Some(b)
                },
            }
        } else {
            let b: usize = self.smallest_humongous_block.0;
            self.smallest_humongous_block = (b + 1, self.smallest_humongous_block.1);
            let meta: BlockMeta = metas[b];
            metas.set(
                b,
                BlockMeta {
                    flag: BlockFlag::Simple,
                    humongous_size: meta.humongous_size,
                    first_free_line: meta.first_free_line,
                },
            );
            proof {
                let u = self.view(metas@);
                assert(u =~= block_taken(v).0);
                lemma_apart_part(
                    v.lists,
                    v.smallest.0,
                    v.smallest.1 - v.smallest.0,
                    b + 1,
                    v.smallest.1 - b - 1,
                );
                lemma_apart_part(
                    v.lists,
                    v.smallest.0,
                    v.smallest.1 - v.smallest.0,
                    b as int,
                    1,
                );
                lemma_metas_changed(v.lists, v.metas, metas@, b as int, 1);
            }
            Some(b)
        }
    }
}

impl BlockAllocator {
    /// Puts a free run of `2^i` blocks in its list.
    fn add_run(&mut self, metas: &mut Vec<BlockMeta>, block: usize, i: usize, count: usize)
        requires
            lists_ok(old(self).view(old(metas)@).lists, old(metas)@),
            i < SUPERBLOCK_LIST_SIZE,
            count == pow2(i as nat),
            block + count <= old(metas)@.len() < 0x80_0000,
        ensures
            final(metas)@.len() == old(metas)@.len(),
            final(self).view(final(metas)@) == run_added(
                old(self).view(old(metas)@),
                block as int,
                i as int,
            ),
    {
        let ghost v = self.view(metas@);
        proof {
            lemma_small_pow2(i as int);
        }
        if i < self.min_non_empty_index {
            self.min_non_empty_index = i;
        }
        if i + 1 > self.non_empty_lists {
            self.non_empty_lists = i + 1;
        }
        let mut current: usize = block;
        while current < block + count
            invariant
                block <= current <= block + count,
                block + count <= metas@.len() < 0x80_0000,
                metas@ == flagged(v.metas, block as int, current - block, BlockFlag::Free),
                v.metas.len() == metas@.len(),
            decreases block + count - current,
        {
            let meta: BlockMeta = metas[current];
            metas.set(
                current,
                BlockMeta {
                    flag: BlockFlag::Free,
                    humongous_size: meta.humongous_size,
                    first_free_line: meta.first_free_line,
                },
            );
            current = current + 1;
            assert(metas@ =~= flagged(v.metas, block as int, current - block, BlockFlag::Free));
        }
        let meta: BlockMeta = metas[block];
        metas.set(
            block,
            BlockMeta {
                flag: meta.flag,
                humongous_size: count as u32,
                first_free_line: meta.first_free_line,
            },
        );
        let ghost before = *self;
        self.free_humongous_blocks[i].push(block);
        proof {
            let next = run_added(v, block as int, i as int);
            assert(self.view(metas@).lists =~~= next.lists) by {
                assert(before.view(metas@).lists[i as int]
                    == before.free_humongous_blocks@[i as int]@);
            }
            assert(self.view(metas@).metas =~= next.metas);
        }
    }

    /// Puts `count` free blocks in the lists: one run for every bit of the number.
    fn add_free_blocks_internal(&mut self, metas: &mut Vec<BlockMeta>, block: usize, count: usize)
        requires
            lists_ok(old(self).view(old(metas)@).lists, old(metas)@),
            block + count <= old(metas)@.len() < 0x80_0000,
            apart_from_lists(old(self).view(old(metas)@).lists, block as int, count as int),
        ensures
            final(metas)@.len() == old(metas)@.len(),
            final(self).view(final(metas)@) == runs_added(
                old(self).view(old(metas)@),
                block as int,
                count as int,
                0,
            ),
    {
        let ghost goal = runs_added(self.view(metas@), block as int, count as int, 0);
        let mut remaining_count: usize = count;
        let mut power_of_two: usize = 1;
        let mut current: usize = block;
        let mut i: usize = 0;
        proof {
            lemma2_to64();
            vstd::arithmetic::div_mod::lemma_mod_self_0(1);
        }
        while remaining_count > 0
            invariant
                lists_ok(self.view(metas@).lists, metas@),
                current + remaining_count <= metas@.len() < 0x80_0000,
                metas@.len() == old(metas)@.len(),
                apart_from_lists(
                    self.view(metas@).lists,
                    current as int,
                    remaining_count as int,
                ),
                i <= SUPERBLOCK_LIST_SIZE,
                power_of_two == pow2(i as nat),
                remaining_count % power_of_two == 0,
                goal == runs_added(
                    self.view(metas@),
                    current as int,
                    remaining_count as int,
                    i as int,
                ),
            decreases SUPERBLOCK_LIST_SIZE - i,
        {
            let ghost v = self.view(metas@);
            let ghost n = remaining_count as int;
            let ghost p = power_of_two as int;
            proof {
                lemma2_to64();
                lemma_pow2_pos(i as nat);
                lemma_pow2_unfold((i + 1) as nat);
                vstd::arithmetic::div_mod::lemma_fundamental_div_mod(n, p);
                let q = n / p;
                assert(q >= 1 && n >= p) by (nonlinear_arith)
                    requires
                        n > 0,
                        n == p * q + 0,
                        p > 0,
                ;
                if i == SUPERBLOCK_LIST_SIZE {
                    assert(p == 0x80_0000);
                    assert(false);
                }
                lemma_small_pow2(i as int);
                let h = q / 2;
                assert(q % 2 == 1 ==> n - p == h * (2 * p)) by (nonlinear_arith)
                    requires
                        n == p * q + 0,
                        q == 2 * h + q % 2,
                ;
                assert(q % 2 == 0 ==> n == h * (2 * p)) by (nonlinear_arith)
                    requires
                        n == p * q + 0,
                        q == 2 * h + q % 2,
                ;
                vstd::arithmetic::div_mod::lemma_mod_multiples_basic(h, 2 * p);
            }
            if (remaining_count / power_of_two) % 2 == 1 {
                proof {
                    lemma_apart_part(v.lists, current as int, n, current as int, p);
                    lemma_apart_part(v.lists, current as int, n, current + p, n - p);
                    lemma_run_added(v, current as int, i as int);
                }
                self.add_run(metas, current, i, power_of_two);
                remaining_count = remaining_count - power_of_two;
                current = current + power_of_two;
            }
            power_of_two = power_of_two * 2;
            i = i + 1;
        }
    }

    /// Notes that `count` blocks from `block` on are free.
    pub fn add_free_blocks(&mut self, metas: &mut Vec<BlockMeta>, block: usize, count: usize)
        requires
            blocks_ok(old(self).view(old(metas)@)),
            count > 0,
            block + count <= old(metas)@.len(),
            old(self).free_block_count < u32::MAX,
            apart_from_lists(old(self).view(old(metas)@).lists, block as int, count as int),
            ({
                let v = old(self).view(old(metas)@);
                &&& v.smallest.0 < v.smallest.1 ==> apart(
                    block as int,
                    count as int,
                    v.smallest.0,
                    v.smallest.1 - v.smallest.0,
                )
                &&& v.coalescing matches Some((a, b)) ==> apart(a, b - a, block as int, count as int)
            }),
        ensures
            final(metas)@.len() == old(metas)@.len(),
            final(self).view(final(metas)@) == blocks_freed(
                old(self).view(old(metas)@),
                block as int,
                count as int,
            ),
            blocks_ok(final(self).view(final(metas)@)),
    {
        let ghost v = self.view(metas@);
        match self.coalescing_humongous_block {
            None => {
                self.coalescing_humongous_block = Some((block, block + count));
            },
            Some((from, to)) => {
                if to == block {
                    self.coalescing_humongous_block = Some((from, block + count));
                    proof {
                        assert forall|i: int, k: int| has_run(v.lists, i, k) implies apart(
                            (#[trigger] v.lists[i][k]) as int,
                            pow2(i as nat) as int,
                            from as int,
                            block + count - from,
                        ) by {
                            lemma_pow2_pos(i as nat);
                            assert(apart(
                                v.lists[i][k] as int,
                                pow2(i as nat) as int,
                                from as int,
                                to - from,
                            ));
                            assert(apart(
                                v.lists[i][k] as int,
                                pow2(i as nat) as int,
                                block as int,
                                count as int,
                            ));
                        }
                    }
                } else {
                    proof {
                        vstd::arithmetic::power2::lemma2_to64();
                        vstd::arithmetic::div_mod::lemma_mod_self_0(1);
                        lemma_runs_added(v, from as int, to - from, 0);
                    }
                    self.add_free_blocks_internal(metas, from, to - from);
                    self.coalescing_humongous_block = Some((block, block + count));
                }
            },
        }
        self.free_block_count = self.free_block_count + 1;
        proof {
            assert(self.view(metas@) =~= blocks_freed(v, block as int, count as int));
        }
    }

    /// Puts the blocks that were collected last in the lists.
    pub fn sweep_done(&mut self, metas: &mut Vec<BlockMeta>)
        requires
            blocks_ok(old(self).view(old(metas)@)),
        ensures
            final(metas)@.len() == old(metas)@.len(),
            final(self).view(final(metas)@) == all_swept(old(self).view(old(metas)@)),
            blocks_ok(final(self).view(final(metas)@)),
    {
        let ghost v = self.view(metas@);
        match self.coalescing_humongous_block {
            None => {},
            Some((from, to)) => {
                proof {
                    vstd::arithmetic::power2::lemma2_to64();
                    vstd::arithmetic::div_mod::lemma_mod_self_0(1);
                    lemma_runs_added(v, from as int, to - from, 0);
                }
                self.add_free_blocks_internal(metas, from, to - from);
                self.coalescing_humongous_block = None;
                assert(self.view(metas@) =~= all_swept(v));
            },
        }
    }

    /// Finds a run of `size` blocks and takes it out.
    #[verifier::rlimit(40)]
    fn find_run(&mut self, metas: &mut Vec<BlockMeta>, size: usize) -> (r: Option<usize>)
        requires
            blocks_ok(old(self).view(old(metas)@)),
            1 <= size,
        ensures
            final(metas)@.len() == old(metas)@.len(),
            final(self).view(final(metas)@) == run_found(
                old(self).view(old(metas)@),
                size as int,
            ).0,
            blocks_ok(final(self).view(final(metas)@)),
            match run_found(old(self).view(old(metas)@), size as int).1 {
                Some(b) => r == Some(b as usize) && 0 <= b && b + size <= old(metas)@.len()
                    && apart_from_lists(final(self).view(final(metas)@).lists, b, size as int),
                None => r is None,
            },
    {
        let ghost v = self.view(metas@);
        let ghost n = size as int;
        let (from, to): (usize, usize) = self.smallest_humongous_block;
        if to >= from && to - from >= size {
            self.smallest_humongous_block = (from + size, to);
            proof {
                lemma_apart_part(v.lists, v.smallest.0, v.smallest.1 - v.smallest.0, from as int, n);
                lemma_apart_part(
                    v.lists,
                    v.smallest.0,
                    v.smallest.1 - v.smallest.0,
                    from + n,
                    v.smallest.1 - from - n,
                );
                assert(self.view(metas@) =~= run_found(v, n).0);
            }
            return Some(from);
        }
        let mut target: usize = log2_floor_of(size);
        proof {
            lemma_log2_floor(n);
            lemma2_to64();
            if target > 63 {
                lemma_pow2_strictly_increases(63, target as nat);
                lemma_pow2_unfold(64);
                if target > 64 {
                    lemma_pow2_strictly_increases(64, target as nat);
                }
            }
            lemma_shift_is_pow2(target as u64);
            lemma_pow2_unfold((log2_floor(n) + 1) as nat);
        }
        if 1u64 << (target as u64) != size as u64 {
            target = target + 1;
        }
        assert(target == log2_ceil(n));
        assert(pow2(target as nat) >= n);
        let first: usize = if self.min_non_empty_index > target {
            self.min_non_empty_index
        } else {
            target
        };
        proof {
            lemma_polled(v, first as int);
        }
        match self.poll_humongous(metas, first) {
            None => None,
            Some(humongous) => {
                let ghost w = self.view(metas@);
                let found: usize = metas[humongous].humongous_size as usize;
                let ghost j = polled_list(v, first as int);
                let ghost m = pow2(j as nat) as int;
                let ghost b = humongous as int;
                proof {
                    lemma_run_removed(v.lists, v.metas, j);
                    lemma_small_pow2(j);
                    if j > target {
                        lemma_pow2_strictly_increases(target as nat, j as nat);
                    }
                    lemma_apart_part(w.lists, b, m, b, n);
                    lemma_apart_part(w.lists, b, m, b + n, m - n);
                    assert forall|i: int| w.top <= i < SUPERBLOCK_LIST_SIZE implies (
                    #[trigger] w.lists[i]).len() == 0 by {
                        assert(v.lists[i].len() == 0);
                    }
                    assert(blocks_ok(w));
                }
                if found > size {
                    proof {
                        vstd::arithmetic::div_mod::lemma_mod_self_0(1);
                        lemma_runs_added(w, b + n, m - n, 0);
                        lemma_leftover_ok(w, b, n, m);
                    }
                    self.add_free_blocks_internal(metas, humongous + size, found - size);
                }
                Some(humongous)
            },
        }
    }

    /// Takes a run of `size` blocks for one object.
    pub fn get_free_humongous_block(&mut self, metas: &mut Vec<BlockMeta>, size: usize) -> (r:
        Option<usize>)
        requires
            blocks_ok(old(self).view(old(metas)@)),
            1 <= size,
        ensures
            final(metas)@.len() == old(metas)@.len(),
            final(self).view(final(metas)@) == run_taken(
                old(self).view(old(metas)@),
                size as int,
            ).0,
            blocks_ok(final(self).view(final(metas)@)),
            match run_taken(old(self).view(old(metas)@), size as int).1 {
                Some(b) => r == Some(b as usize) && 0 <= b && b + size <= old(metas)@.len()
                    && apart_from_lists(final(self).view(final(metas)@).lists, b, size as int),
                None => r is None,
            },
    {
        let ghost v = self.view(metas@);
        let ghost n = size as int;
        let humongous: usize = match self.find_run(metas, size) {
            None => {
                return None;
            },
            Some(b) => b,
        };
        let ghost u = self.view(metas@);
        let meta: BlockMeta = metas[humongous];
        metas.set(
            humongous,
            BlockMeta {
                humongous_size: size as u32,
                flag: BlockFlag::HumongousStart,
                first_free_line: meta.first_free_line,
            },
        );
        let ghost first_set = metas@;
        let mut current: usize = humongous + 1;
        while current < humongous + size
            invariant
                humongous + 1 <= current <= humongous + size,
                humongous + size <= metas@.len(),
                metas@.len() < 0x80_0000,
                metas@.len() == first_set.len(),
                metas@ == flagged(
                    first_set,
                    humongous + 1,
                    current - humongous - 1,
                    BlockFlag::HumongousContinuation,
                ),
            decreases humongous + size - current,
        {
            let meta: BlockMeta = metas[current];
            metas.set(
                current,
                BlockMeta {
                    flag: BlockFlag::HumongousContinuation,
                    humongous_size: meta.humongous_size,
                    first_free_line: meta.first_free_line,
                },
            );
            current = current + 1;
            assert(metas@ =~= flagged(
                first_set,
                humongous + 1,
                current - humongous - 1,
                BlockFlag::HumongousContinuation,
            ));
        }
        proof {
            assert(metas@ =~= made_humongous(u.metas, humongous as int, n));
            lemma_metas_changed(u.lists, u.metas, metas@, humongous as int, n);
            assert(self.view(metas@) =~= run_taken(v, n).0);
        }
        Some(humongous)
    }
}

/// Whether a block is in a run of the lists.
pub open spec fn in_runs(lists: Seq<Seq<usize>>, c: int) -> bool {
    exists|i: int, k: int|
        has_run(lists, i, k) && (#[trigger] lists[i][k]) <= c < lists[i][k] + pow2(i as nat)
}

/// Whether a block is free: it is in the run for single blocks, in the lists, or among the
/// blocks that are being collected.
pub open spec fn free_block(v: BlocksView, c: int) -> bool {
    ||| v.smallest.0 <= c < v.smallest.1
    ||| in_runs(v.lists, c)
    ||| v.coalescing matches Some((a, b)) && a <= c < b
}

/// A run takes its blocks with it when it leaves its list.
proof fn lemma_runs_without(lists: Seq<Seq<usize>>, metas: Seq<BlockMeta>, j: int)
    requires
        lists_ok(lists, metas),
        0 <= j < SUPERBLOCK_LIST_SIZE,
        lists[j].len() > 0,
    ensures
        ({
            let left = lists.update(j, lists[j].skip(1));
            let b = lists[j][0] as int;
            forall|c: int| #[trigger]
                in_runs(left, c) <==> in_runs(lists, c) && !(b <= c < b + pow2(j as nat))
        }),
        forall|c: int|
            lists[j][0] <= c < lists[j][0] + pow2(j as nat) ==> #[trigger] in_runs(lists, c),
{
    let left = lists.update(j, lists[j].skip(1));
    let b = lists[j][0] as int;
    assert(has_run(lists, j, 0));
    assert forall|c: int|
        lists[j][0] <= c < lists[j][0] + pow2(j as nat) implies #[trigger] in_runs(lists, c) by {
        assert(has_run(lists, j, 0) && lists[j][0] <= c);
    }
    assert forall|c: int| #[trigger]
        in_runs(left, c) <==> in_runs(lists, c) && !(b <= c < b + pow2(j as nat)) by {
        if in_runs(left, c) {
            let (i, k) = choose|i: int, k: int|
                has_run(left, i, k) && (#[trigger] left[i][k]) <= c < left[i][k] + pow2(i as nat);
            let at = if i == j {
                k + 1
            } else {
                k
            };
            assert(has_run(lists, i, at) && lists[i][at] == left[i][k]);
            assert(apart(
                lists[i][at] as int,
                pow2(i as nat) as int,
                lists[j][0] as int,
                pow2(j as nat) as int,
            ));
        }
        if in_runs(lists, c) && !(b <= c < b + pow2(j as nat)) {
            let (i, k) = choose|i: int, k: int|
                has_run(lists, i, k) && (#[trigger] lists[i][k]) <= c < lists[i][k] + pow2(
                    i as nat,
                );
            let at = if i == j {
                k - 1
            } else {
                k
            };
            assert(has_run(left, i, at) && left[i][at] == lists[i][k]);
        }
    }
}

/// Blocks that are put in the lists are in them, all of them.
proof fn lemma_runs_with(v: BlocksView, b: int, n: int, i: int)
    requires
        lists_ok(v.lists, v.metas),
        0 <= i <= SUPERBLOCK_LIST_SIZE,
        0 <= b,
        0 <= n,
        b + n <= v.metas.len() < 0x80_0000,
        n % (pow2(i as nat) as int) == 0,
        apart_from_lists(v.lists, b, n),
    ensures
        forall|c: int| #[trigger]
            in_runs(runs_added(v, b, n, i).lists, c) <==> in_runs(v.lists, c) || b <= c < b + n,
    decreases SUPERBLOCK_LIST_SIZE - i,
{
    if n > 0 {
        let p = pow2(i as nat) as int;
        lemma_pow2_pos(i as nat);
        lemma_pow2_unfold((i + 1) as nat);
        lemma2_to64();
        vstd::arithmetic::div_mod::lemma_fundamental_div_mod(n, p);
        let q = n / p;
        assert(q >= 1) by (nonlinear_arith)
            requires
                n > 0,
                n == p * q + 0,
                p > 0,
        ;
        assert(n >= p) by (nonlinear_arith)
            requires
                n == p * q + 0,
                q >= 1,
                p > 0,
        ;
        if i == SUPERBLOCK_LIST_SIZE {
            assert(p == 0x80_0000);
            assert(false);
        }
        if q % 2 == 1 {
            lemma_apart_part(v.lists, b, n, b, p);
            lemma_apart_part(v.lists, b, n, b + p, n - p);
            lemma_run_added(v, b, i);
            let w = run_added(v, b, i);
            assert((n - p) % (2 * p) == 0) by {
                let h = q / 2;
                assert(n - p == h * (2 * p)) by (nonlinear_arith)
                    requires
                        n == p * q + 0,
                        q == 2 * h + 1,
                ;
                vstd::arithmetic::div_mod::lemma_mod_multiples_basic(h, 2 * p);
            }
            assert forall|c: int| #[trigger]
                in_runs(w.lists, c) <==> in_runs(v.lists, c) || b <= c < b + p by {
                if in_runs(w.lists, c) {
                    let (j, k) = choose|j: int, k: int|
                        has_run(w.lists, j, k) && (#[trigger] w.lists[j][k]) <= c < w.lists[j][k]
                            + pow2(j as nat);
                    if has_run(v.lists, j, k) {
                        assert(v.lists[j][k] == w.lists[j][k]);
                    }
                }
                if in_runs(v.lists, c) {
                    let (j, k) = choose|j: int, k: int|
                        has_run(v.lists, j, k) && (#[trigger] v.lists[j][k]) <= c < v.lists[j][k]
                            + pow2(j as nat);
                    assert(has_run(w.lists, j, k) && v.lists[j][k] == w.lists[j][k]);
                }
                if b <= c < b + p {
                    let k = v.lists[i].len() as int;
                    assert(has_run(w.lists, i, k) && w.lists[i][k] == b);
                }
            }
            lemma_runs_with(w, b + p, n - p, i + 1);
        } else {
            assert(n % (2 * p) == 0) by {
                let h = q / 2;
                assert(n == h * (2 * p)) by (nonlinear_arith)
                    requires
                        n == p * q + 0,
                        q == 2 * h,
                ;
                vstd::arithmetic::div_mod::lemma_mod_multiples_basic(h, 2 * p);
            }
            lemma_runs_with(v, b, n, i + 1);
        }
    }
}

/// Whether a search for a run from list `first` on can find none.
pub open spec fn none_from(v: BlocksView, first: int) -> bool {
    forall|i: int| first <= i < SUPERBLOCK_LIST_SIZE ==> (#[trigger] v.lists[i]).len() == 0
}

/// A search finds a run whenever there is one.
proof fn lemma_polled_none(v: BlocksView, i: int)
    requires
        blocks_ok(v),
        0 <= i,
    ensures
        polled(v, i).1 is None <==> none_from(v, i),
    decreases v.top - i,
{
    if i < v.top && v.lists[i].len() == 0 {
        let u = BlocksView { min: i + 1, ..v };
        lemma_polled_none(u, i + 1);
        assert(none_from(u, i + 1) <==> none_from(v, i)) by {
            if none_from(u, i + 1) {
                assert forall|k: int| i <= k < SUPERBLOCK_LIST_SIZE implies (
                #[trigger] v.lists[k]).len() == 0 by {
                    if k > i {
                        assert(u.lists[k].len() == 0);
                    }
                }
            }
            if none_from(v, i) {
                assert forall|k: int| i + 1 <= k < SUPERBLOCK_LIST_SIZE implies (
                #[trigger] u.lists[k]).len() == 0 by {
                    assert(v.lists[k].len() == 0);
                }
            }
        }
    } else if i < v.top {
        assert(v.lists[i].len() > 0);
    }
}

/// Taking a free block: it was free, no other block is lost or handed out with it, and there
/// is none only if the run for single blocks and the lists have none.
pub proof fn lemma_block_taken(v: BlocksView)
    requires
        blocks_ok(v),
    ensures
        ({
            let (w, r) = block_taken(v);
            &&& blocks_ok(w)
            &&& w.metas.len() == v.metas.len()
            &&& w.recycled == v.recycled
            &&& w.recycled_count == v.recycled_count
            &&& r is None <==> v.smallest.0 >= v.smallest.1 && none_from(v, v.min)
            &&& r is None ==> w.metas == v.metas
            &&& forall|c: int| #[trigger] free_block(w, c) <==> free_block(v, c) && r != Some(c)
            &&& r matches Some(b) ==> {
                &&& 0 <= b < v.metas.len()
                &&& free_block(v, b)
                &&& w.metas[b].flag == BlockFlag::Simple
                &&& w.metas[b].first_free_line == v.metas[b].first_free_line
                &&& forall|c: int|
                    0 <= c < v.metas.len() && c != b ==> #[trigger] w.metas[c] == v.metas[c]
            }
        }),
{
    let (w, r) = block_taken(v);
    if v.smallest.0 >= v.smallest.1 {
        lemma_polled(v, v.min);
        lemma_polled_none(v, v.min);
        if let Some(b) = r {
            let j = polled_list(v, v.min);
            lemma_run_removed(v.lists, v.metas, j);
            lemma_runs_without(v.lists, v.metas, j);
            lemma_small_pow2(j);
            let left = v.lists.update(j, v.lists[j].skip(1));
            let n = pow2(j as nat) as int;
            lemma_apart_part(left, b, n, b, 1);
            lemma_apart_part(left, b, n, b + 1, n - 1);
            lemma_metas_changed(left, v.metas, w.metas, b, 1);
            assert(blocks_ok(w)) by {
                assert forall|i: int| w.top <= i < SUPERBLOCK_LIST_SIZE implies (
                #[trigger] w.lists[i]).len() == 0 by {
                    assert(v.lists[i].len() == 0);
                }
            }
            assert(in_runs(v.lists, b));
            if let Some((f, t)) = v.coalescing {
                assert(apart_from_lists(v.lists, f, t - f));
            }
        }
    } else {
        let b = v.smallest.0;
        let n = v.smallest.1 - v.smallest.0;
        lemma_apart_part(v.lists, b, n, b + 1, n - 1);
        lemma_apart_part(v.lists, b, n, b, 1);
        lemma_metas_changed(v.lists, v.metas, w.metas, b, 1);
        lemma_not_in_runs(v.lists, b, n);
    }
}

/// Blocks that are apart from the lists are in no run of them.
proof fn lemma_not_in_runs(lists: Seq<Seq<usize>>, b: int, n: int)
    requires
        apart_from_lists(lists, b, n),
    ensures
        forall|c: int| b <= c < b + n ==> !#[trigger] in_runs(lists, c),
{
    assert forall|c: int| b <= c < b + n implies !#[trigger] in_runs(lists, c) by {
        if in_runs(lists, c) {
            let (i, k) = choose|i: int, k: int|
                has_run(lists, i, k) && (#[trigger] lists[i][k]) <= c < lists[i][k] + pow2(
                    i as nat,
                );
            assert(apart(lists[i][k] as int, pow2(i as nat) as int, b, n));
        }
    }
}

/// The lists from the exponent of `n` on are those with runs of at least `n` blocks.
proof fn lemma_long_enough(n: int, j: int)
    requires
        1 <= n,
        0 <= j,
    ensures
        n <= pow2(j as nat) <==> log2_ceil(n) <= j,
{
    lemma_log2_floor(n);
    let f = log2_floor(n) as int;
    lemma_pow2_unfold((f + 1) as nat);
    if log2_ceil(n) < j {
        lemma_pow2_strictly_increases(log2_ceil(n) as nat, j as nat);
    }
    if j < f {
        lemma_pow2_strictly_increases(j as nat, f as nat);
    }
}

/// Taking a run of `n` blocks: all of them were free, no other block is lost or handed out
/// with them, and they become one object's.
pub proof fn lemma_run_taken(v: BlocksView, n: int)
    requires
        blocks_ok(v),
        1 <= n,
    ensures
        ({
            let (w, r) = run_taken(v, n);
            &&& w.metas.len() == v.metas.len()
            &&& r is None <==> v.smallest.1 - v.smallest.0 < n && forall|i: int|
                v.min <= i < SUPERBLOCK_LIST_SIZE && n <= pow2(i as nat) ==> (
                #[trigger] v.lists[i]).len() == 0
            &&& r is None ==> w.metas == v.metas
            &&& r is None ==> forall|c: int| #[trigger] free_block(w, c) <==> free_block(v, c)
            &&& r matches Some(b) ==> {
                &&& 0 <= b
                &&& b + n <= v.metas.len()
                &&& forall|c: int| b <= c < b + n ==> #[trigger] free_block(v, c)
                &&& forall|c: int| #[trigger]
                    free_block(w, c) <==> free_block(v, c) && !(b <= c < b + n)
                &&& w.metas[b].flag == BlockFlag::HumongousStart
                &&& w.metas[b].humongous_size == n
                &&& forall|c: int|
                    b < c < b + n ==> (#[trigger] w.metas[c]).flag
                        == BlockFlag::HumongousContinuation
            }
        }),
{
    let (w, r) = run_taken(v, n);
    if v.smallest.1 - v.smallest.0 >= n {
        let b = v.smallest.0;
        lemma_apart_part(v.lists, b, v.smallest.1 - b, b, n);
        lemma_not_in_runs(v.lists, b, n);
    } else {
        let first = if v.min > log2_ceil(n) {
            v.min
        } else {
            log2_ceil(n)
        };
        lemma_log2_floor(n);
        lemma_polled(v, first);
        lemma_polled_none(v, first);
        assert forall|i: int| 0 <= i < SUPERBLOCK_LIST_SIZE implies (n <= pow2(i as nat)
            <==> log2_ceil(n) <= i) && #[trigger] v.lists[i].len() >= 0 by {
            lemma_long_enough(n, i);
        }
        if let Some(b) = r {
            let j = polled_list(v, first);
            let u = polled(v, first).0;
            let m = pow2(j as nat) as int;
            lemma_long_enough(n, j);
            lemma_run_removed(v.lists, v.metas, j);
            lemma_runs_without(v.lists, v.metas, j);
            lemma_small_pow2(j);
            lemma_apart_part(u.lists, b, m, b, n);
            if m > n {
                lemma_apart_part(u.lists, b, m, b + n, m - n);
                lemma2_to64();
                vstd::arithmetic::div_mod::lemma_mod_self_0(1);
                lemma_runs_added(u, b + n, m - n, 0);
                lemma_runs_with(u, b + n, m - n, 0);
            }
            lemma_not_in_runs(u.lists, b, n);
            if let Some((f, t)) = v.coalescing {
                assert(apart_from_lists(v.lists, f, t - f));
            }
            if v.smallest.0 < v.smallest.1 {
                assert(apart_from_lists(v.lists, v.smallest.0, v.smallest.1 - v.smallest.0));
            }
            assert forall|c: int| b <= c < b + n implies #[trigger] free_block(v, c) by {
                assert(in_runs(v.lists, c));
            }
        }
    }
}

/// Freeing blocks makes these free, and no others. All blocks that were free stay so.
pub proof fn lemma_blocks_freed(v: BlocksView, b: int, n: int)
    requires
        blocks_ok(v),
        0 < n,
    ensures
        forall|c: int| #[trigger]
            free_block(blocks_freed(v, b, n), c) <==> free_block(v, c) || b <= c < b + n,
{
    if let Some((f, t)) = v.coalescing {
        if t != b {
            lemma2_to64();
            vstd::arithmetic::div_mod::lemma_mod_self_0(1);
            lemma_runs_added(v, f, t - f, 0);
            lemma_runs_with(v, f, t - f, 0);
        }
    }
}

/// The end of a sweep puts the blocks that were being collected where they can be taken, and
/// changes nothing about which blocks are free.
pub proof fn lemma_all_swept(v: BlocksView)
    requires
        blocks_ok(v),
    ensures
        all_swept(v).coalescing is None,
        forall|c: int| #[trigger] free_block(all_swept(v), c) <==> free_block(v, c),
{
    if let Some((f, t)) = v.coalescing {
        lemma2_to64();
        vstd::arithmetic::div_mod::lemma_mod_self_0(1);
        lemma_runs_added(v, f, t - f, 0);
        lemma_runs_with(v, f, t - f, 0);
    }
}

} // verus!
