//! The set of regions that mutators may allocate from.

use vstd::prelude::*;

use super::free_list::{
    bucket_of, decisive_bucket, entries_apart, has_entry, lemma_empty_totals, Entry, FreeList,
    ENTRY_SIZE,
};
use super::region::{
    no_entries, HeapCounters, HeapOptions, HeapRegion, RegionState, RegionView, VmAction,
};
use super::{align_down, log2_floor, AllocRequest, AllocType, DynBitmap};
use crate::bits::is_power_of_two;

verus! {

/// Whether the regions are those of a heap with the given options: each is well
/// formed, has the common size and knows its place.
pub open spec fn regions_wf(regions: Seq<HeapRegion>, opts: HeapOptions) -> bool {
    &&& opts.wf()
    &&& forall|i: int|
        #![trigger regions[i]]
        0 <= i < regions.len() ==> {
            &&& regions[i].wf()
            &&& regions[i].spec_size() == opts.region_size_bytes
            &&& regions[i].index == i
        }
}

/// The bytes that a region has for allocations.
pub open spec fn capacity_of(v: RegionView, opts: HeapOptions) -> int {
    if v.typ == RegionState::Trash {
        opts.region_size_bytes as int
    } else {
        v.free()
    }
}

/// Whether mutators may allocate from a region.
pub open spec fn offers_memory(v: RegionView, opts: HeapOptions) -> bool {
    &&& (v.typ == RegionState::Regular || v.is_empty() || v.typ == RegionState::Trash)
    &&& capacity_of(v, opts) != 0
}

/// The bytes that the first `k` regions have for allocations.
pub open spec fn capacity_sum(regions: Seq<HeapRegion>, opts: HeapOptions, k: int) -> int
    decreases k,
{
    if k <= 0 {
        0
    } else {
        capacity_sum(regions, opts, k - 1) + (if offers_memory(regions[k - 1]@, opts) {
            capacity_of(regions[k - 1]@, opts)
        } else {
            0
        })
    }
}

/// What an attempt to allocate in a region comes to.
pub struct Attempt {
    /// The region afterwards.
    pub view: RegionView,
    /// The address that was handed out, or zero.
    pub addr: usize,
    /// The number of bytes that were asked of the region.
    pub size: int,
    /// Whether the region is taken out of the set.
    pub retired: bool,
    /// Whether the region was empty.
    pub fresh: bool,
    /// Whether the region had to be committed.
    pub commited: bool,
}

/// What a request asks for. An elastic request, for a local buffer, makes do
/// with fewer bytes, down to `min`.
pub struct Ask {
    pub elastic: bool,
    pub for_lab: bool,
    pub min: int,
    pub size: int,
}

/// What a request asks of a heap with the given options.
pub open spec fn ask_of(req: AllocRequest, opts: HeapOptions) -> Ask {
    Ask {
        elastic: opts.elastic_tlab && req.spec_type() == AllocType::ForLAB,
        for_lab: req.spec_type() == AllocType::ForLAB,
        min: req.spec_min_size() as int,
        size: req.spec_size() as int,
    }
}

/// The attempt to serve a request from a region. An elastic request makes do
/// with the free entry that the region would try first.
pub open spec fn attempt(v: RegionView, ask: Ask) -> Attempt {
    let ready = if v.typ == RegionState::Trash {
        v.recycled()
    } else {
        v
    };
    let hole = ready.peek_free() - ready.peek_free() % 16;
    let want = if ask.elastic && ask.size > hole {
        hole
    } else {
        ask.size
    };
    if ask.elastic && want < ask.min {
        Attempt {
            view: ready,
            addr: 0,
            size: want,
            retired: true,
            fresh: ready.is_empty(),
            commited: false,
        }
    } else {
        let addr = ready.served_at(want);
        Attempt {
            view: ready.served(want),
            addr,
            size: want,
            retired: if addr == 0 {
                !ask.elastic
            } else {
                ready.served(want).free() == 0
            },
            fresh: ready.is_empty(),
            commited: ready.typ == RegionState::EmptyUncommited,
        }
    }
}

/// What an attempt to serve a request from a region does: the bytes that it hands out were
/// free and are free no longer, they are as many as were asked for, or as an elastic request
/// makes do with, and the region has so many more in use. An attempt that fails leaves all
/// that was free as it was.
pub proof fn lemma_attempt(region: &HeapRegion, ask: Ask)
    requires
        region.wf(),
        region.typ != RegionState::Trash,
        entries_apart(region@.lists),
        0 <= ask.size,
    ensures
        ({
            let v = region@;
            let a = attempt(v, ask);
            &&& forall|x: int| #[trigger] a.view.has_free(x) ==> v.has_free(x)
            &&& a.addr != 0 ==> {
                &&& ask.elastic ==> ask.min <= a.size <= ask.size
                &&& ask.elastic && a.size < ask.size ==> a.size % 16 == 0
                &&& !ask.elastic ==> a.size == ask.size
                &&& a.view.used == v.used + a.size
                &&& forall|x: int| a.addr <= x < a.addr + a.size ==> #[trigger] v.has_free(x)
                &&& forall|x: int| a.addr <= x < a.addr + a.size ==> !#[trigger] a.view.has_free(x)
                &&& a.retired ==> a.view.free() == 0
                &&& a.commited == (region.typ == RegionState::EmptyUncommited)
            }
            &&& a.addr == 0 ==> {
                &&& a.view.used == v.used
                &&& forall|x: int| #[trigger] v.has_free(x) ==> a.view.has_free(x)
            }
            &&& a.fresh == region.spec_is_empty()
            &&& !ask.elastic && a.addr == 0 ==> a.retired
            &&& entries_apart(a.view.lists)
        }),
{
    let v = region@;
    let hole = v.peek_free() - v.peek_free() % 16;
    let want = if ask.elastic && ask.size > hole {
        hole
    } else {
        ask.size
    };
    assert(0 <= v.peek_free());
    region.lemma_served(want);
}

/// A search serves a request from the first region of the set that can, and fails only if
/// none can.
pub proof fn lemma_search(regions: Seq<HeapRegion>, ones: Set<int>, ask: Ask, lo: int, hi: int)
    requires
        lo <= hi,
    ensures
        ({
            let k = search_end(regions, ones, ask, lo, hi);
            let r = search_result(regions, ones, ask, lo, hi);
            &&& lo <= k <= hi
            &&& r != 0 ==> lo < k && ones.contains(k - 1) && r == attempt(
                regions[k - 1]@,
                ask,
            ).addr
            &&& r == 0 <==> forall|j: int| lo <= j < hi ==> !#[trigger] fit_at(regions, ones, ask, j)
            &&& forall|j: int| lo <= j < k - 1 ==> !#[trigger] fit_at(regions, ones, ask, j)
            &&& r == 0 ==> k == hi
        }),
    decreases hi - lo,
{
    if lo < hi && !fit_at(regions, ones, ask, lo) {
        lemma_search(regions, ones, ask, lo + 1, hi);
        let k = search_end(regions, ones, ask, lo + 1, hi);
        if search_result(regions, ones, ask, lo, hi) == 0 {
            assert forall|j: int| lo <= j < hi implies !#[trigger] fit_at(
                regions,
                ones,
                ask,
                j,
            ) by {
                if j > lo {
                    assert(search_result(regions, ones, ask, lo + 1, hi) == 0);
                }
            }
        }
    }
}

/// The bytes by which an attempt raises the used bytes of the set.
pub open spec fn attempt_used(a: Attempt) -> int {
    (if a.addr != 0 {
        a.size
    } else {
        0
    }) + attempt_waste(a)
}

/// The bytes that are given up when the region is taken out of the set.
pub open spec fn attempt_waste(a: Attempt) -> int {
    if a.retired {
        a.view.free()
    } else {
        0
    }
}

/// The request to the memory behind the heap that an attempt makes.
pub open spec fn attempt_actions(a: Attempt) -> Seq<VmAction> {
    if a.commited {
        seq![VmAction::Commit { start: a.view.begin, size: a.view.size() as usize }]
    } else {
        Seq::empty()
    }
}

/// What a search over the regions `lo..k` of the set adds up to.
pub struct Tally {
    pub used: int,
    pub waste: int,
    pub actions: Seq<VmAction>,
    pub fresh: bool,
}

/// The tally of the attempts in the regions `lo..k` that are in the set.
pub open spec fn search_tally(
    regions: Seq<HeapRegion>,
    ones: Set<int>,
    ask: Ask,
    fresh: bool,
    lo: int,
    k: int,
) -> Tally
    decreases k - lo,
{
    if k <= lo {
        Tally { used: 0, waste: 0, actions: Seq::empty(), fresh }
    } else {
        let t = search_tally(regions, ones, ask, fresh, lo, k - 1);
        if ones.contains(k - 1) {
            let a = attempt(regions[k - 1]@, ask);
            Tally {
                used: t.used + attempt_used(a),
                waste: t.waste + attempt_waste(a),
                actions: t.actions + attempt_actions(a),
                fresh: a.fresh,
            }
        } else {
            t
        }
    }
}

/// Whether region `k` is in the set and serves the request.
pub open spec fn fit_at(regions: Seq<HeapRegion>, ones: Set<int>, ask: Ask, k: int) -> bool {
    ones.contains(k) && attempt(regions[k]@, ask).addr != 0
}

/// The end of a search for a fit over `lo..hi`: just behind the first region
/// that serves the request, or `hi`.
pub open spec fn search_end(
    regions: Seq<HeapRegion>,
    ones: Set<int>,
    ask: Ask,
    lo: int,
    hi: int,
) -> int
    decreases hi - lo,
{
    if lo >= hi {
        lo
    } else if fit_at(regions, ones, ask, lo) {
        lo + 1
    } else {
        search_end(regions, ones, ask, lo + 1, hi)
    }
}

/// The address that a search over `lo..hi` comes to, or zero.
pub open spec fn search_result(
    regions: Seq<HeapRegion>,
    ones: Set<int>,
    ask: Ask,
    lo: int,
    hi: int,
) -> usize {
    let k = search_end(regions, ones, ask, lo, hi) - 1;
    if lo <= k && fit_at(regions, ones, ask, k) {
        attempt(regions[k]@, ask).addr
    } else {
        0
    }
}

/// The state of a free set, its regions and the counters after the regions
/// `lo..k` of the set have been tried.
pub open spec fn tried(
    set: RegionFreeSet,
    now_set: RegionFreeSet,
    regs: Seq<HeapRegion>,
    regions: Seq<HeapRegion>,
    start: HeapCounters,
    counters: HeapCounters,
    ask: Ask,
    fresh: bool,
    in_new_region: bool,
    rs: int,
    lo: int,
    k: int,
    now: u64,
) -> bool {
    let ones = set.ones();
    let t = search_tally(regs, ones, ask, fresh, lo, k);
    &&& regions.len() == regs.len()
    &&& in_new_region == t.fresh
    &&& now_set.used == set.used + t.used
    &&& now_set.max == set.max
    &&& now_set.capacity == set.capacity
    &&& now_set.free_list == set.free_list
    &&& counters.used == start.used
    &&& counters.bytes_allocated_since_gc_start == start.bytes_allocated_since_gc_start + t.waste
    &&& counters.actions@ == start.actions@ + t.actions
    &&& counters.commited == start.commited + t.actions.len() * rs
    &&& forall|j: int|
        #![trigger regions[j]]
        0 <= j < regs.len() ==> if lo <= j < k && ones.contains(j) {
            attempted(regs[j], regions[j], ask, now)
        } else {
            regions[j] == regs[j]
        }
    &&& forall|j: int| #[trigger]
        now_set.ones().contains(j) <==> ones.contains(j) && !(lo <= j < k && attempt(
            regs[j]@,
            ask,
        ).retired)
}

/// Whether a region is in the set and can become part of a humongous object.
pub open spec fn usable(regions: Seq<HeapRegion>, ones: Set<int>, i: int) -> bool {
    ones.contains(i) && (regions[i].spec_is_empty() || regions[i].typ == RegionState::Trash)
}

/// Whether `num` regions from `beg` on can become a humongous object.
pub open spec fn usable_run(regions: Seq<HeapRegion>, ones: Set<int>, beg: int, num: int) -> bool {
    forall|i: int| beg <= i < beg + num ==> #[trigger] usable(regions, ones, i)
}

/// The requests to the memory behind the heap that making the regions `lo..k`
/// humongous brings up.
pub open spec fn humongous_actions(regions: Seq<HeapRegion>, lo: int, k: int) -> Seq<VmAction>
    decreases k - lo,
{
    if k <= lo {
        Seq::empty()
    } else {
        let rest = humongous_actions(regions, lo, k - 1);
        if regions[k - 1].typ == RegionState::EmptyUncommited {
            rest.push(
                VmAction::Commit {
                    start: regions[k - 1].begin,
                    size: regions[k - 1].spec_size() as usize,
                },
            )
        } else {
            rest
        }
    }
}

/// The object starts of a region after an attempt that handed out `addr`. The
/// start is recorded unless the memory is for a local buffer.
pub open spec fn starts_after(region: HeapRegion, addr: usize, for_lab: bool) -> Set<int> {
    let base = if region.typ == RegionState::Trash {
        Set::empty()
    } else {
        region.object_start_bitmap.slots()
    };
    if addr != 0 && !for_lab {
        base.insert(region.object_start_bitmap.slot(addr as int))
    } else {
        base
    }
}

/// What no allocation changes of a region is unchanged, but that a region which was trash
/// became empty at a time, with all its bytes free.
pub open spec fn rest_kept(before: HeapRegion, after: HeapRegion, now: u64) -> bool {
    let trash = before.typ == RegionState::Trash;
    &&& after.visited == before.visited
    &&& after.last_sweep_free == before.last_sweep_free
    &&& after.to_sweep == before.to_sweep
    &&& after.largest_free_list_entry == (if trash {
        before.spec_size()
    } else {
        before.largest_free_list_entry as int
    })
    &&& after.empty_time == (if trash {
        now
    } else {
        before.empty_time
    })
}

/// Whether a region is what an attempt to serve a request made of it.
pub open spec fn attempted(before: HeapRegion, after: HeapRegion, ask: Ask, now: u64) -> bool {
    let a = attempt(before@, ask);
    &&& after.wf()
    &&& after@ == a.view
    &&& after.same_place(&before)
    &&& rest_kept(before, after, now)
    &&& after.object_start_bitmap.same_shape(&before.object_start_bitmap)
    &&& after.object_start_bitmap.slots() == starts_after(before, a.addr, ask.for_lab)
}

/// A survey of the set: the largest capacity of one region, runs of empty
/// regions, and sums over all regions.
#[derive(Clone, Copy, PartialEq, Eq, Debug, Structural)]
pub struct Survey {
    pub last_idx: usize,
    pub max: usize,
    pub max_contig: usize,
    pub empty_contig: usize,
    pub total_used: usize,
    pub total_free: usize,
    pub total_free_ext: usize,
}

/// The survey of the regions `lo..k`.
pub open spec fn survey_of(
    regions: Seq<HeapRegion>,
    ones: Set<int>,
    opts: HeapOptions,
    lo: int,
    k: int,
) -> (int, int, int, int, int, int, int)
    decreases k - lo,
{
    if k <= lo {
        (0, 0, 0, 0, 0, 0, 0)
    } else {
        let (last_idx, max, max_contig, empty_contig, total_used, total_free, total_free_ext) =
            survey_of(regions, ones, opts, lo, k - 1);
        if ones.contains(k - 1) {
            let r = regions[k - 1];
            let free = capacity_of(r@, opts);
            let contig = if !r.spec_is_empty() {
                0
            } else if last_idx + 1 == k - 1 {
                empty_contig + 1
            } else {
                1
            };
            (
                k - 1,
                if free > max {
                    free
                } else {
                    max
                },
                if contig > max_contig {
                    contig
                } else {
                    max_contig
                },
                contig,
                total_used + r.used,
                total_free + free,
                if r.spec_is_empty() {
                    total_free_ext + free
                } else {
                    total_free_ext
                },
            )
        } else {
            (last_idx, max, max_contig, empty_contig, total_used, total_free, total_free_ext)
        }
    }
}

/// Whether a region is in the set and empty.
pub open spec fn empty_member(regions: Seq<HeapRegion>, ones: Set<int>, i: int) -> bool {
    ones.contains(i) && regions[i].spec_is_empty()
}

/// The empty regions of the set among `lo..k`.
pub open spec fn empty_members(regions: Seq<HeapRegion>, ones: Set<int>, lo: int, k: int) -> Set<
    int,
> {
    Set::new(|i: int| lo <= i < k && empty_member(regions, ones, i))
}

/// Whether the `n` regions from `a` on are in the set and empty.
pub open spec fn empty_run(regions: Seq<HeapRegion>, ones: Set<int>, a: int, n: int) -> bool {
    forall|i: int| a <= i < a + n ==> #[trigger] empty_member(regions, ones, i)
}

/// Whether `n` is the length of the longest run of empty regions of the set among `lo..k`.
pub open spec fn longest_empty_run(
    regions: Seq<HeapRegion>,
    ones: Set<int>,
    lo: int,
    k: int,
    n: int,
) -> bool {
    &&& n >= 0
    &&& n > 0 ==> exists|a: int| #[trigger]
        empty_run(regions, ones, a, n) && lo <= a && a + n <= k
    &&& forall|a: int, m: int| #[trigger]
        empty_run(regions, ones, a, m) && lo <= a && a + m <= k ==> m <= n
}

/// Whether `max` is the most that a region of the set among `lo..k` has for allocations.
pub open spec fn largest_capacity(
    regions: Seq<HeapRegion>,
    ones: Set<int>,
    opts: HeapOptions,
    lo: int,
    k: int,
    max: int,
) -> bool {
    &&& max >= 0
    &&& max > 0 ==> exists|i: int| #[trigger]
        ones.contains(i) && lo <= i < k && max == capacity_of(regions[i]@, opts)
    &&& forall|i: int| #[trigger]
        ones.contains(i) && lo <= i < k ==> capacity_of(regions[i]@, opts) <= max
}

/// How far a survey has come: where the last region of the set was, and the length of the
/// run of empty regions that ends there.
spec fn survey_at(
    regions: Seq<HeapRegion>,
    ones: Set<int>,
    lo: int,
    k: int,
    last: int,
    contig: int,
) -> bool {
    &&& contig >= 0
    &&& contig > 0 ==> lo <= last + 1 - contig && empty_run(
        regions,
        ones,
        last + 1 - contig,
        contig,
    )
    &&& forall|i: int| #[trigger] ones.contains(i) && lo <= i < k ==> i <= last
    &&& (lo <= last < k && ones.contains(last)) || (last == 0 && contig == 0 && forall|i: int|
        #[trigger] ones.contains(i) ==> !(lo <= i < k))
    &&& forall|a: int, n: int| #[trigger]
        empty_run(regions, ones, a, n) && lo <= a && a + n == last + 1 && last < k ==> n <= contig
}

/// What a survey finds: the most that a region has for allocations, the length of the
/// longest run of empty regions, and the bytes of all empty regions, which are at least
/// those of that run.
pub proof fn lemma_survey(
    regions: Seq<HeapRegion>,
    ones: Set<int>,
    opts: HeapOptions,
    lo: int,
    k: int,
)
    requires
        0 <= lo,
        regions_wf(regions, opts),
        forall|i: int| #[trigger] ones.contains(i) ==> 0 <= i < regions.len(),
    ensures
        ({
            let s = survey_of(regions, ones, opts, lo, k);
            let empty = empty_members(regions, ones, lo, k);
            let rs = opts.region_size_bytes as int;
            &&& largest_capacity(regions, ones, opts, lo, k, s.1)
            &&& longest_empty_run(regions, ones, lo, k, s.2)
            &&& empty.finite()
            &&& s.6 == empty.len() * rs
            &&& s.2 <= empty.len()
            &&& s.2 * rs <= s.6
        }),
{
    lemma_survey_parts(regions, ones, opts, lo, k);
    let s = survey_of(regions, ones, opts, lo, k);
    let empty = empty_members(regions, ones, lo, k);
    let rs = opts.region_size_bytes as int;
    if s.2 > 0 {
        let a = choose|a: int| #[trigger]
            empty_run(regions, ones, a, s.2) && lo <= a && a + s.2 <= k;
        let run = vstd::set_lib::set_int_range(a, a + s.2);
        vstd::set_lib::lemma_int_range(a, a + s.2);
        assert forall|i: int| run.contains(i) implies empty.contains(i) by {
            assert(empty_member(regions, ones, i));
        }
        vstd::set_lib::lemma_len_subset(run, empty);
    }
    let m = s.2;
    let n = empty.len() as int;
    assert(m * rs <= n * rs) by (nonlinear_arith)
        requires
            m <= n,
            rs >= 0,
    ;
}

proof fn lemma_survey_parts(
    regions: Seq<HeapRegion>,
    ones: Set<int>,
    opts: HeapOptions,
    lo: int,
    k: int,
)
    requires
        0 <= lo,
        regions_wf(regions, opts),
        forall|i: int| #[trigger] ones.contains(i) ==> 0 <= i < regions.len(),
    ensures
        ({
            let s = survey_of(regions, ones, opts, lo, k);
            let empty = empty_members(regions, ones, lo, k);
            &&& largest_capacity(regions, ones, opts, lo, k, s.1)
            &&& longest_empty_run(regions, ones, lo, k, s.2)
            &&& survey_at(regions, ones, lo, k, s.0, s.3)
            &&& s.3 <= s.2
            &&& empty.finite()
            &&& s.6 == empty.len() * opts.region_size_bytes
        }),
    decreases k - lo,
{
    let rs = opts.region_size_bytes as int;
    let empty = empty_members(regions, ones, lo, k);
    let s = survey_of(regions, ones, opts, lo, k);
    if k <= lo {
        assert(empty =~= Set::empty());
        assert(0 * rs == 0) by (nonlinear_arith);
        assert forall|a: int, m: int| #[trigger]
            empty_run(regions, ones, a, m) && lo <= a && a + m <= k implies m <= 0 by {}
        assert forall|a: int, n: int| #[trigger]
            empty_run(regions, ones, a, n) && lo <= a && a + n == 1 && 0 < k implies n <= 0 by {}
    } else {
        lemma_survey_parts(regions, ones, opts, lo, k - 1);
        let p = survey_of(regions, ones, opts, lo, k - 1);
        let before = empty_members(regions, ones, lo, k - 1);
        let i = k - 1;
        if ones.contains(i) {
            assert(regions[i].wf());
            if regions[i].spec_is_empty() {
                assert(empty_member(regions, ones, i));
                assert(empty =~= before.insert(i));
                let n = before.len() as int;
                assert((n + 1) * rs == n * rs + rs) by (nonlinear_arith);
                assert(empty_run(regions, ones, k - s.3, s.3)) by {
                    assert forall|j: int| k - s.3 <= j < k implies #[trigger] empty_member(
                        regions,
                        ones,
                        j,
                    ) by {}
                }
            } else {
                assert(!empty_member(regions, ones, i));
                assert(empty =~= before);
            }
            assert forall|a: int, n: int| #[trigger]
                empty_run(regions, ones, a, n) && lo <= a && a + n == k implies n <= s.3 by {
                if n > 0 {
                    assert(empty_member(regions, ones, i));
                }
                if n > 1 {
                    assert(empty_member(regions, ones, i - 1));
                    assert(empty_run(regions, ones, a, n - 1));
                }
            }
            assert forall|a: int, m: int| #[trigger]
                empty_run(regions, ones, a, m) && lo <= a && a + m <= k implies m <= s.2 by {
                if a + m < k {
                    assert(m <= p.2);
                }
            }
            if s.2 > 0 && s.2 == p.2 {
                let a = choose|a: int| #[trigger]
                    empty_run(regions, ones, a, s.2) && lo <= a && a + s.2 <= k - 1;
                assert(empty_run(regions, ones, a, s.2));
            }
            if s.1 > 0 && s.1 == p.1 {
                let j = choose|j: int| #[trigger]
                    ones.contains(j) && lo <= j < k - 1 && s.1 == capacity_of(regions[j]@, opts);
                assert(ones.contains(j));
            }
        } else {
            assert(!empty_member(regions, ones, i));
            assert(empty =~= before);
            assert forall|a: int, m: int| #[trigger]
                empty_run(regions, ones, a, m) && lo <= a && a + m <= k implies m <= s.2 by {
                if a + m == k && m > 0 {
                    assert(empty_member(regions, ones, i));
                }
            }
            assert forall|a: int, n: int| #[trigger]
                empty_run(regions, ones, a, n) && lo <= a && a + n == s.0 + 1 && s.0 < k implies n
                <= s.3 by {
                if s.0 == k - 1 && n > 0 {
                    assert(empty_member(regions, ones, i));
                }
            }
        }
    }
}

/// The set of regions that mutators may allocate from.
pub struct RegionFreeSet {
    pub mutator_free_bitmap: DynBitmap,
    pub mutator_leftmost: usize,
    pub mutator_rightmost: usize,
    pub max: usize,
    pub capacity: usize,
    pub used: usize,
    pub free_list: FreeList,
}

impl RegionFreeSet {
    /// The regions in the set.
    #[verifier::inline]
    pub open spec fn ones(&self) -> Set<int> {
        self.mutator_free_bitmap.ones()
    }

    /// The bitmap has a bit for every region, and the bounds enclose all regions
    /// of the set.
    pub open spec fn wf(&self) -> bool {
        &&& self.mutator_free_bitmap.wf()
        &&& self.mutator_free_bitmap.bits() == self.max
        &&& self.mutator_free_bitmap.bytes().len() == (self.max + 7) / 8
        &&& self.max + 7 <= usize::MAX
        &&& self.mutator_leftmost <= self.max
        &&& self.mutator_rightmost < self.max || self.mutator_rightmost == 0
        &&& forall|i: int|
            #![trigger self.ones().contains(i)]
            self.ones().contains(i) ==> 0 <= i < self.max && self.mutator_leftmost <= i
                <= self.mutator_rightmost
    }

    /// Every region of the set offers memory and is not about to be swept.
    pub open spec fn fits(&self, regions: Seq<HeapRegion>, opts: HeapOptions) -> bool {
        &&& self.wf()
        &&& regions_wf(regions, opts)
        &&& regions.len() == self.max
        &&& forall|i: int|
            #![trigger self.ones().contains(i)]
            self.ones().contains(i) ==> !regions[i].to_sweep && offers_memory(regions[i]@, opts)
    }

    pub fn used(&self) -> (r: usize)
        ensures
            r == self.used,
    {
        self.used
    }

    /// Takes over the number of regions of a heap, none of them in the set.
    pub fn set_heap(&mut self, region_count: usize)
        requires
            region_count + 7 <= usize::MAX,
        ensures
            final(self).max == region_count,
            final(self).mutator_free_bitmap.wf(),
            final(self).mutator_free_bitmap.bits() == region_count,
            final(self).mutator_free_bitmap.bytes().len() == (region_count + 7) / 8,
            final(self).ones() == Set::<int>::empty(),
            final(self).mutator_leftmost == old(self).mutator_leftmost,
            final(self).mutator_rightmost == old(self).mutator_rightmost,
            final(self).capacity == old(self).capacity,
            final(self).used == old(self).used,
            final(self).free_list == old(self).free_list,
    {
        self.mutator_free_bitmap = DynBitmap::contained(region_count);
        self.max = region_count;
    }

    pub fn increase_used(&mut self, count: usize)
        requires
            old(self).used + count <= usize::MAX,
        ensures
            *final(self) == (RegionFreeSet {
                used: (old(self).used + count) as usize,
                ..*old(self)
            }),
    {
        self.used = self.used + count;
    }

    pub fn decrease_used(&mut self, count: usize)
        requires
            count <= old(self).used,
        ensures
            *final(self) == (RegionFreeSet {
                used: (old(self).used - count) as usize,
                ..*old(self)
            }),
    {
        self.used = self.used - count;
    }

    pub fn capacity(&self) -> (r: usize)
        ensures
            r == self.capacity,
    {
        self.capacity
    }

    /// A set for no regions.
    pub fn new(opts: &HeapOptions) -> (r: Self)
        requires
            opts.region_size_log2 < 64,
        ensures
            r.wf(),
            r.max == 0,
            r.ones() == Set::<int>::empty(),
            r.mutator_leftmost == 0,
            r.mutator_rightmost == 0,
            r.capacity == 0,
            r.used == 0,
            r.free_list.wf(),
            no_entries(r.free_list.lists()),
            r.free_list.lists().len() == opts.region_size_log2 + 1,
    {
        RegionFreeSet {
            mutator_free_bitmap: DynBitmap::contained(0),
            mutator_leftmost: 0,
            mutator_rightmost: 0,
            max: 0,
            capacity: 0,
            used: 0,
            free_list: FreeList::new(opts),
        }
    }

    /// Takes all regions out of the set.
    pub fn clear(&mut self)
        ensures
            final(self).mutator_free_bitmap.bits() == old(self).mutator_free_bitmap.bits(),
            final(self).mutator_free_bitmap.bytes().len() == old(
                self,
            ).mutator_free_bitmap.bytes().len(),
            final(self).ones() == Set::<int>::empty(),
            final(self).mutator_leftmost == old(self).max,
            final(self).mutator_rightmost == 0,
            final(self).max == old(self).max,
            final(self).capacity == 0,
            final(self).used == 0,
            final(self).free_list == old(self).free_list,
    {
        self.mutator_free_bitmap.clear();
        self.mutator_leftmost = self.max;
        self.mutator_rightmost = 0;
        self.capacity = 0;
        self.used = 0;
    }

    /// Fills the set with all regions that offer memory.
    pub fn rebuild(&mut self, regions: &Vec<HeapRegion>, opts: &HeapOptions)
        requires
            regions_wf(regions@, *opts),
            old(self).mutator_free_bitmap.wf(),
            old(self).mutator_free_bitmap.bits() == old(self).max,
            old(self).mutator_free_bitmap.bytes().len() == (old(self).max + 7) / 8,
            old(self).max == regions@.len(),
            0 < regions@.len(),
            regions@.len() + 7 <= usize::MAX,
            regions@.len() * opts.region_size_bytes <= usize::MAX,
        ensures
            final(self).wf(),
            final(self).max == old(self).max,
            final(self).free_list == old(self).free_list,
            forall|i: int| #[trigger]
                final(self).ones().contains(i) <==> 0 <= i < regions@.len() && offers_memory(
                    regions@[i]@,
                    *opts,
                ),
            final(self).capacity == capacity_sum(regions@, *opts, regions@.len() as int),
            final(self).used == 0,
            final(self).tight(),
    {
        self.clear();
        let mut i: usize = 0;
        while i < regions.len()
            invariant
                i <= regions@.len(),
                regions_wf(regions@, *opts),
                regions@.len() * opts.region_size_bytes <= usize::MAX,
                self.max == regions@.len(),
                self.max == old(self).max,
                self.used == 0,
                self.free_list == old(self).free_list,
                self.mutator_free_bitmap.wf(),
                self.mutator_free_bitmap.bits() == self.max,
                self.mutator_free_bitmap.bytes().len() == (self.max + 7) / 8,
                self.capacity == capacity_sum(regions@, *opts, i as int),
                self.capacity <= i * opts.region_size_bytes,
                forall|j: int| #[trigger]
                    self.ones().contains(j) <==> 0 <= j < i && offers_memory(regions@[j]@, *opts),
            decreases regions@.len() - i,
        {
            let region: &HeapRegion = &regions[i];
            assert(regions@[i as int].wf());
            proof {
                let n = regions@.len();
                let s = opts.region_size_bytes;
                assert((i + 1) * s <= n * s && (i + 1) * s == i * s + s) by (nonlinear_arith)
                    requires
                        i + 1 <= n,
                        s >= 0,
                ;
            }
            if region.is_alloc_allowed() || region.is_trash() {
                let free: usize = Self::alloc_capacity(region, opts);
                if free != 0 {
                    self.capacity = self.capacity + free;
                    self.mutator_free_bitmap.set(i, true);
                }
            }
            i = i + 1;
        }
        self.recompute_bounds();
    }

    /// The bytes that are not used.
    pub fn available(&self) -> (r: usize)
        requires
            self.used <= self.capacity,
        ensures
            r == self.capacity - self.used,
    {
        self.capacity - self.used
    }

    /// Whether a region is in the set.
    pub fn is_mutator_free(&self, ix: usize) -> (r: bool)
        requires
            ix < 8 * self.mutator_free_bitmap.bytes().len(),
        ensures
            r == self.ones().contains(ix as int),
    {
        self.mutator_free_bitmap.get(ix)
    }

    /// The bounds are those of the first and the last region in the set; without
    /// any, the end and zero.
    pub open spec fn tight(&self) -> bool {
        &&& self.mutator_leftmost < self.max ==> self.ones().contains(self.mutator_leftmost as int)
        &&& self.mutator_rightmost > 0 ==> self.ones().contains(self.mutator_rightmost as int)
    }

    /// The bounds have moved inwards only, and are those of the first and the last region
    /// in the set if they were before.
    pub open spec fn bounds_follow(&self, before: &Self) -> bool {
        &&& before.mutator_leftmost <= self.mutator_leftmost
        &&& self.mutator_rightmost <= before.mutator_rightmost
        &&& before.tight() ==> self.tight()
    }

    /// Computes the bounds anew.
    pub fn recompute_bounds(&mut self)
        requires
            old(self).max > 0,
            old(self).max + 7 <= usize::MAX,
            old(self).mutator_free_bitmap.wf(),
            old(self).mutator_free_bitmap.bits() == old(self).max,
            old(self).mutator_free_bitmap.bytes().len() == (old(self).max + 7) / 8,
            forall|i: int| #[trigger]
                old(self).ones().contains(i) ==> 0 <= i < old(self).max,
        ensures
            final(self).wf(),
            final(self).tight(),
            final(self).mutator_free_bitmap == old(self).mutator_free_bitmap,
            final(self).max == old(self).max,
            final(self).capacity == old(self).capacity,
            final(self).used == old(self).used,
            final(self).free_list == old(self).free_list,
    {
        self.mutator_rightmost = self.max - 1;
        self.mutator_leftmost = 0;
        self.adjust_bounds();
    }

    /// Moves the bounds inwards to the next regions in the set.
    pub fn adjust_bounds(&mut self)
        requires
            old(self).wf(),
        ensures
            final(self).wf(),
            final(self).tight(),
            final(self).mutator_leftmost >= old(self).mutator_leftmost,
            final(self).mutator_rightmost <= old(self).mutator_rightmost,
            final(self).mutator_free_bitmap == old(self).mutator_free_bitmap,
            final(self).max == old(self).max,
            final(self).capacity == old(self).capacity,
            final(self).used == old(self).used,
            final(self).free_list == old(self).free_list,
    {
        while self.mutator_leftmost < self.max && !self.is_mutator_free(self.mutator_leftmost)
            invariant
                self.wf(),
                self.mutator_leftmost >= old(self).mutator_leftmost,
                self.mutator_rightmost == old(self).mutator_rightmost,
                self.mutator_free_bitmap == old(self).mutator_free_bitmap,
                self.max == old(self).max,
                self.capacity == old(self).capacity,
                self.used == old(self).used,
                self.free_list == old(self).free_list,
            decreases self.max - self.mutator_leftmost,
        {
            self.mutator_leftmost = self.mutator_leftmost + 1;
        }
        while self.mutator_rightmost > 0 && !self.is_mutator_free(self.mutator_rightmost)
            invariant
                self.wf(),
                self.mutator_leftmost < self.max ==> self.ones().contains(
                    self.mutator_leftmost as int,
                ),
                self.mutator_leftmost >= old(self).mutator_leftmost,
                self.mutator_rightmost <= old(self).mutator_rightmost,
                self.mutator_free_bitmap == old(self).mutator_free_bitmap,
                self.max == old(self).max,
                self.capacity == old(self).capacity,
                self.used == old(self).used,
                self.free_list == old(self).free_list,
            decreases self.mutator_rightmost,
        {
            self.mutator_rightmost = self.mutator_rightmost - 1;
        }
    }

    /// The number of regions in the set.
    pub fn mutator_count(&self) -> (r: usize)
        requires
            8 * self.mutator_free_bitmap.bytes().len() <= usize::MAX,
        ensures
            r == self.ones().len(),
            self.ones().finite(),
    {
        self.mutator_free_bitmap.count_ones()
    }

    /// Recycles a region if it is trash.
    pub fn try_recycle_trashed(r: &mut HeapRegion, now: u64)
        requires
            old(r).wf(),
        ensures
            final(r).wf(),
            final(r).same_place(old(r)),
            rest_kept(*old(r), *final(r), now),
            old(r).typ != RegionState::Trash ==> *final(r) == *old(r),
            old(r).typ == RegionState::Trash ==> {
                &&& final(r)@ == old(r)@.recycled()
                &&& final(r).object_start_bitmap.same_shape(&old(r).object_start_bitmap)
                &&& final(r).object_start_bitmap.slots() == Set::<int>::empty()
            },
    {
        if r.is_trash() {
            r.recycle(now);
        }
    }

    /// Adds a free piece of memory that belongs to no region.
    pub fn free_single(&mut self, addr: usize, size: usize)
        requires
            old(self).free_list.wf(),
            addr != 0,
            size != 0,
            addr + size <= usize::MAX,
            addr + ENTRY_SIZE <= usize::MAX,
            size >= ENTRY_SIZE ==> {
                &&& size as u32 != 0
                &&& bucket_of(size) < old(self).free_list.lists().len()
                &&& old(self).free_list.free_total() + size <= usize::MAX
                &&& old(self).free_list.entries() < usize::MAX
            },
        ensures
            final(self).free_list.wf(),
            final(self).free_list.lists() == super::free_list::lists_with(
                old(self).free_list.lists(),
                addr,
                size,
            ),
            final(self).mutator_free_bitmap == old(self).mutator_free_bitmap,
            final(self).mutator_leftmost == old(self).mutator_leftmost,
            final(self).mutator_rightmost == old(self).mutator_rightmost,
            final(self).max == old(self).max,
            final(self).capacity == old(self).capacity,
            final(self).used == old(self).used,
    {
        self.free_list.add(addr, size);
    }

    /// Whether a region can become part of a humongous object.
    pub fn can_allocate_from(r: &HeapRegion) -> (b: bool)
        ensures
            b == (r.spec_is_empty() || r.typ == RegionState::Trash),
    {
        r.is_empty() || r.is_trash()
    }

    /// The bytes that a region has for allocations.
    pub fn alloc_capacity(r: &HeapRegion, opts: &HeapOptions) -> (n: usize)
        requires
            r.wf(),
        ensures
            n == capacity_of(r@, *opts),
            n <= opts.region_size_bytes || n <= r.spec_size(),
    {
        if r.is_trash() {
            opts.region_size_bytes
        } else {
            r.free()
        }
    }

    /// Whether a region is at one of the bounds.
    pub fn touches_bounds(&self, num: usize) -> (r: bool)
        ensures
            r == (num == self.mutator_leftmost || num == self.mutator_rightmost),
    {
        num == self.mutator_leftmost || num == self.mutator_rightmost
    }

    /// Tries to serve a request from a region of the set. A region that cannot
    /// afford this or future allocations is taken out of the set: while this
    /// seems a bit harsh, especially in the case when this large allocation does
    /// not fit, but the next small one would, we are risking to inflate scan
    /// times when lots of almost-full regions precede the fully-empty region
    /// where we want allocate the entire TLAB.
    #[verifier::rlimit(50)]
    pub fn try_allocate_in(
        &mut self,
        region: &mut HeapRegion,
        opts: &HeapOptions,
        counters: &mut HeapCounters,
        req: &mut AllocRequest,
        in_new_region: &mut bool,
        now: u64,
    ) -> (r: usize)
        requires
            old(self).wf(),
            old(region).wf(),
            old(region).spec_size() == opts.region_size_bytes,
            old(region).index < old(self).max,
            !old(region).to_sweep,
            capacity_of(old(region)@, *opts) != 0,
            old(self).used + opts.region_size_bytes <= usize::MAX,
            old(counters).commited + opts.region_size_bytes <= usize::MAX,
            old(counters).bytes_allocated_since_gc_start + opts.region_size_bytes <= usize::MAX,
            old(region).used + old(req).spec_size() <= usize::MAX,
        ensures
            ({
                let a = attempt(old(region)@, ask_of(*old(req), *opts));
                &&& r == a.addr
                &&& *final(in_new_region) == a.fresh
                &&& attempted(*old(region), *final(region), ask_of(*old(req), *opts), now)
                &&& !a.retired ==> offers_memory(final(region)@, *opts)
                &&& final(req).spec_size() == old(req).spec_size()
                &&& final(req).spec_min_size() == old(req).spec_min_size()
                &&& final(req).spec_type() == old(req).spec_type()
                &&& final(req).spec_actual_size() == (if a.addr != 0 {
                    a.size
                } else {
                    old(req).spec_actual_size() as int
                })
                &&& final(self).wf()
                &&& final(self).ones() == (if a.retired {
                    old(self).ones().remove(old(region).index as int)
                } else {
                    old(self).ones()
                })
                &&& final(self).bounds_follow(old(self))
                &&& if a.retired && (old(region).index == old(self).mutator_leftmost || old(
                    region,
                ).index == old(self).mutator_rightmost) {
                    final(self).tight()
                } else {
                    &&& final(self).mutator_leftmost == old(self).mutator_leftmost
                    &&& final(self).mutator_rightmost == old(self).mutator_rightmost
                }
                &&& final(self).used == old(self).used + attempt_used(a)
                &&& 0 <= attempt_used(a) <= opts.region_size_bytes
                &&& 0 <= attempt_waste(a) <= opts.region_size_bytes
                &&& final(self).max == old(self).max
                &&& final(self).capacity == old(self).capacity
                &&& final(self).free_list == old(self).free_list
                &&& final(counters).used == old(counters).used
                &&& final(counters).bytes_allocated_since_gc_start == old(
                    counters,
                ).bytes_allocated_since_gc_start + attempt_waste(a)
                &&& final(counters).commited == old(counters).commited + attempt_actions(a).len()
                    * opts.region_size_bytes
                &&& final(counters).actions@ == old(counters).actions@ + attempt_actions(a)
            }),
    {
        let ghost before = *region;
        let elastic: bool = opts.elastic_tlab && req.for_lab();
        let ghost a = attempt(before@, ask_of(*req, *opts));
        Self::try_recycle_trashed(region, now);
        let ghost ready = *region;
        *in_new_region = region.is_empty();
        let mut size: usize = req.size();
        let result: usize;
        if elastic {
            proof {
                assert(is_power_of_two(16)) by {
                    vstd::arithmetic::power2::lemma2_to64();
                    assert(vstd::arithmetic::power2::pow2(4) == 16);
                }
            }
            let free: usize = align_down(region.peek_free(), 16);
            if size > free {
                size = free;
            }
            proof {
                lemma_hole_serves(region, size as int);
            }
            if size >= req.min_size() {
                result = region.allocate(size, counters);
                if result == 0 {
                    return 0;
                }
            } else {
                result = 0;
            }
        } else {
            result = region.allocate(size, counters);
        }
        assert(counters.actions@ =~= old(counters).actions@ + attempt_actions(a));
        if result != 0 {
            self.increase_used(size);
            req.set_actual_size(size);
            if !req.for_lab() {
                proof {
                    lemma_region_covers(region, result as int);
                }
                region.object_start_bitmap.set_bit(result);
            }
        }
        if result == 0 || Self::alloc_capacity(region, opts) == 0 {
            let waste: usize = region.free();
            if waste > 0 {
                self.increase_used(waste);
                counters.bytes_allocated_since_gc_start =
                counters.bytes_allocated_since_gc_start + waste;
            }
            let num: usize = region.index();
            self.mutator_free_bitmap.set(num, false);
            if self.touches_bounds(num) {
                self.adjust_bounds();
            }
        }
        result
    }

    /// Serves a request from the first region of the set that can. The leftmost
    /// and rightmost bounds provide enough caching to walk the bitmap
    /// efficiently: normally, the region to allocate at is found right away.
    #[verifier::rlimit(50)]
    pub fn allocate_single(
        &mut self,
        regions: &mut Vec<HeapRegion>,
        opts: &HeapOptions,
        counters: &mut HeapCounters,
        req: &mut AllocRequest,
        in_new_region: &mut bool,
        now: u64,
    ) -> (r: usize)
        requires
            old(self).fits(old(regions)@, *opts),
            old(self).max > 0,
            old(self).used + old(regions)@.len() * opts.region_size_bytes <= usize::MAX,
            old(counters).commited + old(regions)@.len() * opts.region_size_bytes <= usize::MAX,
            old(counters).bytes_allocated_since_gc_start + old(regions)@.len()
                * opts.region_size_bytes <= usize::MAX,
            forall|i: int|
                0 <= i < old(regions)@.len() ==> (#[trigger] old(regions)@[i]).used + old(
                    req,
                ).spec_size() <= usize::MAX,
        ensures
            final(self).fits(final(regions)@, *opts),
            final(self).bounds_follow(old(self)),
            final(req).spec_size() == old(req).spec_size(),
            final(req).spec_min_size() == old(req).spec_min_size(),
            final(req).spec_type() == old(req).spec_type(),
            ({
                let ask = ask_of(*old(req), *opts);
                let lo = old(self).mutator_leftmost as int;
                let hi = old(self).mutator_rightmost + 1;
                let k = search_end(old(regions)@, old(self).ones(), ask, lo, hi);
                &&& r == search_result(old(regions)@, old(self).ones(), ask, lo, hi)
                &&& final(req).spec_actual_size() == (if r != 0 {
                    attempt(old(regions)@[k - 1]@, ask).size
                } else {
                    old(req).spec_actual_size() as int
                })
                &&& tried(
                    *old(self),
                    *final(self),
                    old(regions)@,
                    final(regions)@,
                    *old(counters),
                    *final(counters),
                    ask,
                    *old(in_new_region),
                    *final(in_new_region),
                    opts.region_size_bytes as int,
                    lo,
                    k,
                    now,
                )
            }),
    {
        let ghost set = *self;
        let ghost ones = self.ones();
        let ghost regs = regions@;
        let ghost ask = ask_of(*req, *opts);
        let ghost fresh = *in_new_region;
        let ghost start = *counters;
        let ghost rs = opts.region_size_bytes as int;
        let lo: usize = self.mutator_leftmost;
        let last: usize = self.mutator_rightmost;
        let mut idx: usize = lo;
        let ghost k = search_end(regs, ones, ask, lo as int, last + 1);
        assert(counters.actions@ =~= start.actions@ + Seq::<VmAction>::empty());
        assert(0 * rs == 0) by (nonlinear_arith);
        while idx <= last
            invariant
                lo <= idx,
                idx <= last + 1 || idx == lo,
                last < set.max,
                rs == opts.region_size_bytes as int,
                set.fits(regs, *opts),
                set == *old(self),
                ones == set.ones(),
                regs == old(regions)@,
                self.wf(),
                self.bounds_follow(&set),
                lo == set.mutator_leftmost,
                last == set.mutator_rightmost,
                start == *old(counters),
                fresh == *old(in_new_region),
                ask == ask_of(*old(req), *opts),
                k == search_end(regs, ones, ask, lo as int, last + 1),
                k == search_end(regs, ones, ask, idx as int, last + 1),
                search_result(regs, ones, ask, lo as int, last + 1) == search_result(
                    regs,
                    ones,
                    ask,
                    idx as int,
                    last + 1,
                ),
                req.spec_type() == old(req).spec_type(),
                req.spec_size() == old(req).spec_size(),
                req.spec_min_size() == old(req).spec_min_size(),
                req.spec_actual_size() == old(req).spec_actual_size(),
                set.used + regs.len() * rs <= usize::MAX,
                start.commited + regs.len() * rs <= usize::MAX,
                start.bytes_allocated_since_gc_start + regs.len() * rs <= usize::MAX,
                forall|i: int|
                    0 <= i < regs.len() ==> (#[trigger] regs[i]).used + ask.size <= usize::MAX,
                tried(
                    set,
                    *self,
                    regs,
                    regions@,
                    start,
                    *counters,
                    ask,
                    fresh,
                    *in_new_region,
                    rs,
                    lo as int,
                    idx as int,
                    now,
                ),
                tally_bounded(
                    search_tally(regs, ones, ask, fresh, lo as int, idx as int),
                    rs,
                    idx - lo,
                ),
            decreases last + 1 - idx,
        {
            proof {
                assert(self.ones().contains(idx as int) <==> ones.contains(idx as int));
                lemma_bounded_step(rs, idx - lo, regs.len() as int);
                lemma_search_result_step(regs, ones, ask, idx as int, last + 1);
            }
            if self.is_mutator_free(idx) {
                let ghost before_set = *self;
                let ghost before_regions = regions@;
                proof {
                    assert(regions@[idx as int] == regs[idx as int]);
                    assert(set.ones().contains(idx as int));
                    assert(regs[idx as int].wf());
                }
                let result: usize = self.try_allocate_in(
                    &mut regions[idx],
                    opts,
                    counters,
                    req,
                    in_new_region,
                    now,
                );
                proof {
                    lemma_tried_step(
                        set,
                        before_set,
                        *self,
                        regs,
                        before_regions,
                        regions@,
                        ask,
                        lo as int,
                        idx as int,
                        now,
                    );
                    let t = search_tally(regs, ones, ask, fresh, lo as int, idx as int);
                    let a = attempt(regs[idx as int]@, ask);
                    assert(counters.actions@ =~= start.actions@ + (t.actions + attempt_actions(a)));
                    let m = t.actions.len();
                    let n = attempt_actions(a).len();
                    assert((m + n) * rs == m * rs + n * rs) by (nonlinear_arith);
                    lemma_bounded_add(t, a, rs, idx - lo);
                }
                if result != 0 {
                    proof {
                        lemma_tried_fits(
                            set,
                            *self,
                            regs,
                            regions@,
                            start,
                            *counters,
                            ask,
                            fresh,
                            *in_new_region,
                            rs,
                            lo as int,
                            idx + 1,
                            *opts,
                            now,
                        );
                    }
                    return result;
                }
            } else {
                proof {
                    lemma_tally_skip(
                        search_tally(regs, ones, ask, fresh, lo as int, idx as int),
                        rs,
                        idx - lo,
                    );
                }
            }
            idx = idx + 1;
        }
        proof {
            lemma_tried_fits(
                set,
                *self,
                regs,
                regions@,
                start,
                *counters,
                ask,
                fresh,
                *in_new_region,
                rs,
                lo as int,
                idx as int,
                *opts,
                now,
            );
        }
        0
    }
}

/// The sums of a tally over `n` regions are within their size.
pub open spec fn tally_bounded(t: Tally, rs: int, n: int) -> bool {
    &&& 0 <= t.used <= n * rs
    &&& 0 <= t.waste <= n * rs
    &&& t.actions.len() * rs <= n * rs
}

proof fn lemma_bounded_step(rs: int, i: int, n: int)
    requires
        rs >= 0,
        0 <= i < n,
    ensures
        i * rs + rs <= n * rs,
{
    assert(i * rs + rs <= n * rs) by (nonlinear_arith)
        requires
            rs >= 0,
            i + 1 <= n,
    ;
}

proof fn lemma_bounded_add(t: Tally, a: Attempt, rs: int, n: int)
    requires
        tally_bounded(t, rs, n),
        rs >= 0,
        0 <= attempt_used(a) <= rs,
        0 <= attempt_waste(a) <= rs,
    ensures
        tally_bounded(
            Tally {
                used: t.used + attempt_used(a),
                waste: t.waste + attempt_waste(a),
                actions: t.actions + attempt_actions(a),
                fresh: a.fresh,
            },
            rs,
            n + 1,
        ),
{
    let m = t.actions.len();
    let k = attempt_actions(a).len();
    assert((n + 1) * rs == n * rs + rs) by (nonlinear_arith);
    assert((m + k) * rs <= m * rs + rs) by (nonlinear_arith)
        requires
            k <= 1,
            rs >= 0,
    ;
}

proof fn lemma_tally_skip(t: Tally, rs: int, n: int)
    requires
        tally_bounded(t, rs, n),
        rs >= 0,
    ensures
        tally_bounded(t, rs, n + 1),
{
    assert((n + 1) * rs == n * rs + rs) by (nonlinear_arith);
}

proof fn lemma_search_result_step(
    regions: Seq<HeapRegion>,
    ones: Set<int>,
    ask: Ask,
    lo: int,
    hi: int,
)
    requires
        lo < hi,
    ensures
        search_end(regions, ones, ask, lo, hi) >= lo + 1,
        !fit_at(regions, ones, ask, lo) ==> search_end(regions, ones, ask, lo, hi) == search_end(
            regions,
            ones,
            ask,
            lo + 1,
            hi,
        ) && search_result(regions, ones, ask, lo, hi) == search_result(
            regions,
            ones,
            ask,
            lo + 1,
            hi,
        ),
    decreases hi - lo,
{
    lemma_search_end_bounds(regions, ones, ask, lo + 1, hi);
}

proof fn lemma_search_end_bounds(
    regions: Seq<HeapRegion>,
    ones: Set<int>,
    ask: Ask,
    lo: int,
    hi: int,
)
    ensures
        lo <= search_end(regions, ones, ask, lo, hi),
        lo <= hi ==> search_end(regions, ones, ask, lo, hi) <= hi,
    decreases hi - lo,
{
    if lo < hi {
        lemma_search_end_bounds(regions, ones, ask, lo + 1, hi);
    }
}

proof fn lemma_tried_step(
    set: RegionFreeSet,
    before_set: RegionFreeSet,
    now_set: RegionFreeSet,
    regs: Seq<HeapRegion>,
    before_regions: Seq<HeapRegion>,
    regions: Seq<HeapRegion>,
    ask: Ask,
    lo: int,
    idx: int,
    now: u64,
)
    requires
        lo <= idx < regs.len(),
        0 <= lo,
        set.ones().contains(idx),
        before_regions.len() == regs.len(),
        regions == before_regions.update(idx, regions[idx]),
        attempted(regs[idx], regions[idx], ask, now),
        forall|j: int|
            #![trigger before_regions[j]]
            0 <= j < regs.len() ==> if lo <= j < idx && set.ones().contains(j) {
                attempted(regs[j], before_regions[j], ask, now)
            } else {
                before_regions[j] == regs[j]
            },
        forall|j: int| #[trigger]
            before_set.ones().contains(j) <==> set.ones().contains(j) && !(lo <= j < idx
                && attempt(regs[j]@, ask).retired),
        now_set.ones() == (if attempt(regs[idx]@, ask).retired {
            before_set.ones().remove(idx)
        } else {
            before_set.ones()
        }),
    ensures
        forall|j: int|
            #![trigger regions[j]]
            0 <= j < regs.len() ==> if lo <= j < idx + 1 && set.ones().contains(j) {
                attempted(regs[j], regions[j], ask, now)
            } else {
                regions[j] == regs[j]
            },
        forall|j: int| #[trigger]
            now_set.ones().contains(j) <==> set.ones().contains(j) && !(lo <= j < idx + 1
                && attempt(regs[j]@, ask).retired),
{
    assert forall|j: int| #![trigger regions[j]] 0 <= j < regs.len() implies if lo <= j < idx + 1
        && set.ones().contains(j) {
        attempted(regs[j], regions[j], ask, now)
    } else {
        regions[j] == regs[j]
    } by {
        if j != idx {
            assert(regions[j] == before_regions[j]);
        }
    }
    assert forall|j: int| #[trigger]
        now_set.ones().contains(j) <==> set.ones().contains(j) && !(lo <= j < idx + 1 && attempt(
            regs[j]@,
            ask,
        ).retired) by {
        assert(before_set.ones().contains(j) <==> set.ones().contains(j) && !(lo <= j < idx
            && attempt(regs[j]@, ask).retired));
    }
}

proof fn lemma_tried_fits(
    set: RegionFreeSet,
    now_set: RegionFreeSet,
    regs: Seq<HeapRegion>,
    regions: Seq<HeapRegion>,
    start: HeapCounters,
    counters: HeapCounters,
    ask: Ask,
    fresh: bool,
    in_new_region: bool,
    rs: int,
    lo: int,
    k: int,
    opts: HeapOptions,
    now: u64,
)
    requires
        tried(
            set,
            now_set,
            regs,
            regions,
            start,
            counters,
            ask,
            fresh,
            in_new_region,
            rs,
            lo,
            k,
            now,
        ),
        set.fits(regs, opts),
        now_set.wf(),
        ask.size >= 0,
    ensures
        now_set.fits(regions, opts),
{
    assert forall|i: int| #![trigger regions[i]] 0 <= i < regions.len() implies {
        &&& regions[i].wf()
        &&& regions[i].spec_size() == opts.region_size_bytes
        &&& regions[i].index == i
    } by {
        assert(regs[i].wf());
    }
    assert forall|i: int| #![trigger now_set.ones().contains(i)] now_set.ones().contains(i) implies !regions[i].to_sweep
        && offers_memory(regions[i]@, opts) by {
        assert(set.ones().contains(i));
        assert(regs[i].wf());
        if lo <= i < k {
            assert(regions[i].wf());
            lemma_unretired_offers(&regs[i], ask, opts);
        } else {
            assert(regions[i] == regs[i]);
        }
    }
}

/// A region with free bytes can serve whatever fits in the entry that it would
/// try first.
proof fn lemma_hole_serves(region: &HeapRegion, size: int)
    requires
        region.wf(),
        region@.free() != 0,
        0 <= size <= region@.peek_free(),
    ensures
        region@.can_serve(size),
{
    let v = region@.regular();
    if size > 0 {
        assert(!region.spec_is_empty());
        assert(decisive_bucket(v.lists, size, v.biggest) == v.biggest);
    } else if region.spec_is_empty() {
        let n = region.spec_size() as usize;
        crate::bits::lemma_low32(n);
        assert(log2_floor(n as int) > 0);
        let b = bucket_of(n);
        assert(v.lists[b].len() > 0);
        assert(v.biggest == b);
        assert(decisive_bucket(v.lists, size, v.biggest) == b);
    } else {
        if forall|i: int| 0 <= i < v.lists.len() ==> #[trigger] v.lists[i] == Seq::<Entry>::empty() {
            lemma_empty_totals(v.lists);
        }
        let i = choose|i: int|
            0 <= i < v.lists.len() && #[trigger] v.lists[i] != Seq::<Entry>::empty();
        if v.lists[i].len() == 0 {
            assert(v.lists[i] =~= Seq::<Entry>::empty());
        }
        let e = v.lists[i][0];
        assert(has_entry(v.lists, i, 0));
        let n = e.size;
        crate::bits::lemma_low32(n);
        assert(log2_floor(n as int) > 0);
        lemma_nonempty_decides(v.lists, v.biggest, i);
    }
}

/// A region that stays in the set after an attempt still offers memory.
proof fn lemma_unretired_offers(region: &HeapRegion, ask: Ask, opts: HeapOptions)
    requires
        region.wf(),
        region.spec_size() == opts.region_size_bytes,
        offers_memory(region@, opts),
        ask.size >= 0,
        !attempt(region@, ask).retired,
    ensures
        offers_memory(attempt(region@, ask).view, opts),
{
    let v = region@;
    let ready = if v.typ == RegionState::Trash {
        v.recycled()
    } else {
        v
    };
    let hole = ready.peek_free() - ready.peek_free() % 16;
    let want = if ask.elastic && ask.size > hole {
        hole
    } else {
        ask.size
    };
    if ask.elastic && ready.served_at(want) == 0 {
        lemma_hole_serves_view(region, want);
    }
}

/// The view of a trashed region once it is recycled serves what fits in the
/// entry it would try first; so does that of any other region with free bytes.
proof fn lemma_hole_serves_view(region: &HeapRegion, want: int)
    requires
        region.wf(),
        region@.typ == RegionState::Trash || region@.free() != 0,
        ({
            let ready = if region@.typ == RegionState::Trash {
                region@.recycled()
            } else {
                region@
            };
            0 <= want <= ready.peek_free()
        }),
    ensures
        ({
            let ready = if region@.typ == RegionState::Trash {
                region@.recycled()
            } else {
                region@
            };
            ready.served_at(want) != 0
        }),
{
    let v = region@;
    if v.typ == RegionState::Trash {
        let ready = v.recycled();
        let r = ready.regular();
        let n = region.spec_size() as usize;
        crate::bits::lemma_low32(n);
        assert(log2_floor(n as int) > 0);
        let b = bucket_of(n);
        assert(r.lists[b].len() == 1);
        assert(r.biggest == b);
        vstd::arithmetic::power2::lemma_pow2_pos(b as nat);
        assert(decisive_bucket(r.lists, want, b) == b);
        assert(r.lists[b].last() == (Entry { addr: region.begin, size: n }));
    } else {
        lemma_hole_serves(region, want);
        let r = v.regular();
        let d = v.serving_bucket(want);
        super::free_list::lemma_decisive_bucket(r.lists, want, r.biggest);
        if region.spec_is_empty() {
            let n = region.spec_size() as usize;
            crate::bits::lemma_low32(n);
            assert(v.lists[d] == Seq::<Entry>::empty());
        } else {
            assert(has_entry(r.lists, d, r.lists[d].len() - 1));
            assert(region.free_list.lists()[d][r.lists[d].len() - 1] == r.lists[d].last());
        }
    }
}

/// A search for nothing stops at a bucket with an entry, if there is one on its
/// way.
proof fn lemma_nonempty_decides(lists: Seq<Seq<Entry>>, biggest: int, i: int)
    requires
        0 < i <= biggest < lists.len(),
        lists[i].len() > 0,
    ensures
        ({
            let d = decisive_bucket(lists, 0, biggest);
            d >= i && lists[d].len() > 0
        }),
    decreases biggest,
{
    vstd::arithmetic::power2::lemma_pow2_pos(biggest as nat);
    if lists[biggest].len() == 0 {
        lemma_nonempty_decides(lists, biggest - 1, i);
    }
}

/// Every address of a region has a bit in its object start bitmap.
pub proof fn lemma_region_covers(region: &HeapRegion, addr: int)
    requires
        region.wf(),
        region.begin <= addr < region.end,
    ensures
        region.object_start_bitmap.covers(addr),
{
    region.object_start_bitmap.lemma_covers_range(addr);
}

/// Whether a region has become part of a humongous object that starts at region
/// `beg`.
pub open spec fn made_humongous(before: HeapRegion, after: HeapRegion, beg: int, rs: int, now: u64) -> bool {
    &&& after.wf()
    &&& after.same_place(&before)
    &&& after.typ == (if before.index == beg {
        RegionState::HumongousStart
    } else {
        RegionState::HumongousCont
    })
    &&& after.used == rs
    &&& rest_kept(before, after, now)
    &&& no_entries(after.free_list.lists())
    &&& after.object_start_bitmap.same_shape(&before.object_start_bitmap)
    &&& after.object_start_bitmap.slots() == (if before.typ == RegionState::Trash {
        Set::empty()
    } else {
        before.object_start_bitmap.slots()
    })
}

/// Where `num` adjacent usable regions begin, if they do at or after `lo`.
pub open spec fn first_run(
    regions: Seq<HeapRegion>,
    ones: Set<int>,
    num: int,
    lo: int,
    max: int,
    beg: int,
) -> bool {
    &&& lo <= beg
    &&& beg + num <= max
    &&& usable_run(regions, ones, beg, num)
    &&& forall|b: int| lo <= b < beg ==> !#[trigger] usable_run(regions, ones, b, num)
}

/// Whether no `num` adjacent usable regions begin at or after `lo`.
pub open spec fn no_run(
    regions: Seq<HeapRegion>,
    ones: Set<int>,
    num: int,
    lo: int,
    max: int,
) -> bool {
    forall|b: int| lo <= b && b + num <= max ==> !#[trigger] usable_run(regions, ones, b, num)
}

/// What an allocation of `size` bytes in the adjacent regions from `beg` on makes
/// of the set, the regions and the counters.
pub open spec fn contiguous(
    set: RegionFreeSet,
    now_set: RegionFreeSet,
    regs: Seq<HeapRegion>,
    regions: Seq<HeapRegion>,
    start: HeapCounters,
    counters: HeapCounters,
    opts: HeapOptions,
    size: int,
    beg: int,
    now: u64,
) -> bool {
    let rs = opts.region_size_bytes as int;
    let num = (size + rs - 1) / rs;
    let acts = humongous_actions(regs, beg, beg + num);
    &&& first_run(regs, set.ones(), num, set.mutator_leftmost as int, set.max as int, beg)
    &&& now_set.used == set.used + opts.region_payload_size_bytes * num
    &&& now_set.max == set.max
    &&& now_set.capacity == set.capacity
    &&& now_set.free_list == set.free_list
    &&& regions.len() == regs.len()
    &&& forall|j: int|
        #![trigger regions[j]]
        0 <= j < regs.len() ==> if beg <= j < beg + num {
            made_humongous(regs[j], regions[j], beg, rs, now)
        } else {
            regions[j] == regs[j]
        }
    &&& forall|j: int| #[trigger]
        now_set.ones().contains(j) <==> set.ones().contains(j) && !(beg <= j < beg + num)
    &&& counters.actions@ == start.actions@ + acts
    &&& counters.commited == start.commited + acts.len() * rs
    &&& counters.used == start.used
    &&& counters.bytes_allocated_since_gc_start == start.bytes_allocated_since_gc_start + (if size
        % rs == 0 {
        0
    } else {
        rs - size % rs
    })
}

/// Whether a set has too few regions for `size` bytes, or none that are adjacent.
pub open spec fn too_few(
    set: RegionFreeSet,
    regs: Seq<HeapRegion>,
    opts: HeapOptions,
    size: int,
) -> bool {
    let rs = opts.region_size_bytes as int;
    let num = (size + rs - 1) / rs;
    num > set.ones().len() || no_run(
        regs,
        set.ones(),
        num,
        set.mutator_leftmost as int,
        set.max as int,
    )
}

impl RegionFreeSet {
    /// The start of the first `num` adjacent regions that can become a humongous
    /// object. Contiguous allocations are biased to the beginning.
    fn find_run(&self, regions: &Vec<HeapRegion>, num: usize) -> (r: Option<usize>)
        requires
            self.wf(),
            regions@.len() == self.max,
            num > 0,
        ensures
            match r {
                Some(beg) => first_run(
                    regions@,
                    self.ones(),
                    num as int,
                    self.mutator_leftmost as int,
                    self.max as int,
                    beg as int,
                ),
                None => no_run(
                    regions@,
                    self.ones(),
                    num as int,
                    self.mutator_leftmost as int,
                    self.max as int,
                ),
            },
    {
        let ghost ones = self.ones();
        let ghost lo = self.mutator_leftmost as int;
        let mut beg: usize = self.mutator_leftmost;
        let mut end: usize = beg;
        loop
            invariant
                self.wf(),
                ones == self.ones(),
                lo == self.mutator_leftmost,
                regions@.len() == self.max,
                num > 0,
                lo <= beg <= end <= self.max,
                end - beg < num,
                forall|i: int| beg <= i < end ==> #[trigger] usable(regions@, ones, i),
                forall|b: int|
                    lo <= b < beg ==> !#[trigger] usable_run(regions@, ones, b, num as int),
            decreases self.max - end,
        {
            if end >= self.max {
                proof {
                    assert forall|b: int| lo <= b && b + num <= self.max implies !#[trigger] usable_run(
                        regions@,
                        ones,
                        b,
                        num as int,
                    ) by {}
                }
                return None;
            }
            if !self.is_mutator_free(end) || !Self::can_allocate_from(&regions[end]) {
                assert(!usable(regions@, ones, end as int));
                proof {
                    assert forall|b: int| lo <= b < end + 1 implies !#[trigger] usable_run(
                        regions@,
                        ones,
                        b,
                        num as int,
                    ) by {
                        if b >= beg {
                            assert(b <= end < b + num);
                        }
                    }
                }
                end = end + 1;
                beg = end;
                continue;
            }
            assert(usable(regions@, ones, end as int));
            if end - beg + 1 == num {
                assert(usable_run(regions@, ones, beg as int, num as int));
                return Some(beg);
            }
            end = end + 1;
        }
    }

    /// Makes the regions `beg..beg + num` one humongous object and takes them out
    /// of the set.
    fn make_humongous(
        &mut self,
        regions: &mut Vec<HeapRegion>,
        opts: &HeapOptions,
        counters: &mut HeapCounters,
        beg: usize,
        num: usize,
        now: u64,
    )
        requires
            old(self).fits(old(regions)@, *opts),
            num > 0,
            beg + num <= old(self).max,
            usable_run(old(regions)@, old(self).ones(), beg as int, num as int),
            old(counters).commited + num * opts.region_size_bytes <= usize::MAX,
        ensures
            final(self).wf(),
            final(self).max == old(self).max,
            final(self).capacity == old(self).capacity,
            final(self).used == old(self).used,
            final(self).free_list == old(self).free_list,
            final(self).mutator_leftmost == old(self).mutator_leftmost,
            final(self).mutator_rightmost == old(self).mutator_rightmost,
            final(regions)@.len() == old(regions)@.len(),
            forall|j: int|
                #![trigger final(regions)@[j]]
                0 <= j < old(regions)@.len() ==> if beg <= j < beg + num {
                    made_humongous(
                        old(regions)@[j],
                        final(regions)@[j],
                        beg as int,
                        opts.region_size_bytes as int,
                        now,
                    )
                } else {
                    final(regions)@[j] == old(regions)@[j]
                },
            forall|j: int| #[trigger]
                final(self).ones().contains(j) <==> old(self).ones().contains(j) && !(beg <= j < beg
                    + num),
            final(counters).actions@ == old(counters).actions@ + humongous_actions(
                old(regions)@,
                beg as int,
                beg + num,
            ),
            final(counters).commited == old(counters).commited + humongous_actions(
                old(regions)@,
                beg as int,
                beg + num,
            ).len() * opts.region_size_bytes,
            final(counters).used == old(counters).used,
            final(counters).bytes_allocated_since_gc_start == old(
                counters,
            ).bytes_allocated_since_gc_start,
    {
        let ghost regs = regions@;
        let ghost set = *self;
        let ghost start = *counters;
        let ghost rs = opts.region_size_bytes as int;
        let mut i: usize = beg;
        assert(counters.actions@ =~= start.actions@ + humongous_actions(
            regs,
            beg as int,
            beg as int,
        ));
        while i < beg + num
            invariant
                beg <= i <= beg + num <= set.max,
                rs == opts.region_size_bytes,
                regions@.len() == regs.len(),
                set.fits(regs, *opts),
                usable_run(regs, set.ones(), beg as int, num as int),
                self.wf(),
                self.max == set.max,
                self.capacity == set.capacity,
                self.used == set.used,
                self.free_list == set.free_list,
                self.mutator_leftmost == set.mutator_leftmost,
                self.mutator_rightmost == set.mutator_rightmost,
                start.commited + num * rs <= usize::MAX,
                counters.actions@ == start.actions@ + humongous_actions(
                    regs,
                    beg as int,
                    i as int,
                ),
                humongous_actions(regs, beg as int, i as int).len() * rs <= (i - beg) * rs,
                counters.commited == start.commited + humongous_actions(
                    regs,
                    beg as int,
                    i as int,
                ).len() * rs,
                counters.used == start.used,
                counters.bytes_allocated_since_gc_start == start.bytes_allocated_since_gc_start,
                forall|j: int|
                    #![trigger regions@[j]]
                    0 <= j < regs.len() ==> if beg <= j < i {
                        made_humongous(regs[j], regions@[j], beg as int, rs, now)
                    } else {
                        regions@[j] == regs[j]
                    },
                forall|j: int| #[trigger]
                    self.ones().contains(j) <==> set.ones().contains(j) && !(beg <= j < i),
            decreases beg + num - i,
        {
            let ghost acts = humongous_actions(regs, beg as int, i as int);
            let ghost before_regions = regions@;
            let ghost before_counters = *counters;
            proof {
                assert(regs[i as int].wf());
                assert(usable(regs, set.ones(), i as int));
                lemma_bounded_step(rs, i - beg, num as int);
                let m = acts.len();
                let d = i - beg;
                assert((m + 1) * rs == m * rs + rs && (d + 1) * rs == d * rs + rs)
                    by (nonlinear_arith);
            }
            Self::try_recycle_trashed(&mut regions[i], now);
            if i == beg {
                regions[i].make_humonogous_start(counters);
            } else {
                regions[i].make_humonogous_cont(counters);
            }
            regions[i].set_used(opts.region_size_bytes);
            self.mutator_free_bitmap.set(i, false);
            proof {
                assert(counters.actions@ =~= start.actions@ + humongous_actions(
                    regs,
                    beg as int,
                    i + 1,
                ));
                assert forall|j: int| #![trigger regions@[j]] 0 <= j < regs.len() implies if beg
                    <= j < i + 1 {
                    made_humongous(regs[j], regions@[j], beg as int, rs, now)
                } else {
                    regions@[j] == regs[j]
                } by {
                    if j != i {
                        assert(regions@[j] == before_regions[j]);
                    }
                }
            }
            i = i + 1;
        }
    }

    /// Serves a request for a humongous object from adjacent empty regions.
    pub fn allocate_contiguous(
        &mut self,
        regions: &mut Vec<HeapRegion>,
        opts: &HeapOptions,
        counters: &mut HeapCounters,
        req: &mut AllocRequest,
        now: u64,
    ) -> (r: usize)
        requires
            old(self).fits(old(regions)@, *opts),
            0 < old(req).spec_size(),
            old(req).spec_size() + opts.region_size_bytes <= usize::MAX,
            old(counters).commited + old(regions)@.len() * opts.region_size_bytes <= usize::MAX,
            old(counters).bytes_allocated_since_gc_start + opts.region_size_bytes <= usize::MAX,
            old(self).used + old(regions)@.len() * opts.region_payload_size_bytes <= usize::MAX,
        ensures
            final(self).fits(final(regions)@, *opts),
            final(self).bounds_follow(old(self)),
            final(req).spec_size() == old(req).spec_size(),
            final(req).spec_min_size() == old(req).spec_min_size(),
            final(req).spec_type() == old(req).spec_type(),
            too_few(*old(self), old(regions)@, *opts, old(req).spec_size() as int) ==> {
                &&& r == 0
                &&& *final(self) == *old(self)
                &&& final(regions)@ == old(regions)@
                &&& *final(counters) == *old(counters)
                &&& *final(req) == *old(req)
            },
            !too_few(*old(self), old(regions)@, *opts, old(req).spec_size() as int) ==> {
                &&& r != 0
                &&& final(req).spec_actual_size() == old(req).spec_size()
                &&& exists|beg: int|
                    r == old(regions)@[beg].begin && #[trigger] contiguous(
                        *old(self),
                        *final(self),
                        old(regions)@,
                        final(regions)@,
                        *old(counters),
                        *final(counters),
                        *opts,
                        old(req).spec_size() as int,
                        beg,
                        now,
                    )
            },
    {
        let size: usize = req.size();
        let num: usize = opts.required_regions(size);
        let ghost rs = opts.region_size_bytes as int;
        let ghost regs = regions@;
        let ghost set = *self;
        proof {
            vstd::arithmetic::power2::lemma_pow2_pos(opts.region_size_bytes_shift as nat);
            lemma_num_positive(size as int, rs);
        }
        if num > self.mutator_count() {
            return 0;
        }
        let found: Option<usize> = self.find_run(regions, num);
        let beg: usize = match found {
            None => {
                return 0;
            },
            Some(beg) => beg,
        };
        proof {
            assert(is_power_of_two(opts.region_size_bytes as int));
            crate::bits::lemma_align_mask(size, opts.region_size_bytes);
            let n = regs.len();
            let p = opts.region_payload_size_bytes;
            assert(num * rs <= n * rs && num * p <= n * p && p * num == num * p)
                by (nonlinear_arith)
                requires
                    num <= n,
                    rs >= 0,
                    p >= 0,
            ;
        }
        let remainder: usize = size & opts.region_size_bytes_mask;
        self.make_humongous(regions, opts, counters, beg, num, now);
        let end: usize = beg + (num - 1);
        proof {
            assert(usable(regs, set.ones(), beg as int));
            assert(usable(regs, set.ones(), end as int));
            assert(set.ones().contains(end as int));
        }
        if beg == self.mutator_leftmost || end == self.mutator_rightmost {
            self.adjust_bounds();
        }
        self.used = self.used + opts.region_payload_size_bytes * num;
        req.set_actual_size(size);
        if remainder != 0 {
            counters.bytes_allocated_since_gc_start =
            counters.bytes_allocated_since_gc_start + (opts.region_size_bytes - remainder);
        }
        proof {
            assert(regions@[beg as int].begin == regs[beg as int].begin);
            assert forall|i: int| #![trigger regions@[i]] 0 <= i < regions@.len() implies {
                &&& regions@[i].wf()
                &&& regions@[i].spec_size() == opts.region_size_bytes
                &&& regions@[i].index == i
            } by {
                assert(regs[i].wf());
            }
            assert forall|i: int| #![trigger self.ones().contains(i)] self.ones().contains(i) implies !regions@[i].to_sweep
                && offers_memory(regions@[i]@, *opts) by {
                assert(set.ones().contains(i));
                assert(regions@[i] == regs[i]);
            }
            assert(contiguous(
                set,
                *self,
                regs,
                regions@,
                *old(counters),
                *counters,
                *opts,
                size as int,
                beg as int,
                now,
            ));
            assert(regs[beg as int].wf());
        }
        regions[beg].bottom()
    }

    /// Serves a request: from adjacent regions if it is for a humongous object,
    /// else from the first region that can. Returns the address, or zero.
    pub fn allocate(
        &mut self,
        regions: &mut Vec<HeapRegion>,
        opts: &HeapOptions,
        counters: &mut HeapCounters,
        req: &mut AllocRequest,
        in_new_region: &mut bool,
        now: u64,
    ) -> (r: usize)
        requires
            old(self).fits(old(regions)@, *opts),
            old(self).max > 0,
            old(req).spec_size() + opts.region_size_bytes <= usize::MAX,
            old(self).used + old(regions)@.len() * opts.region_size_bytes <= usize::MAX,
            old(self).used + old(regions)@.len() * opts.region_payload_size_bytes <= usize::MAX,
            old(counters).commited + old(regions)@.len() * opts.region_size_bytes <= usize::MAX,
            old(counters).bytes_allocated_since_gc_start + old(regions)@.len()
                * opts.region_size_bytes <= usize::MAX,
            forall|i: int|
                0 <= i < old(regions)@.len() ==> (#[trigger] old(regions)@[i]).used + old(
                    req,
                ).spec_size() <= usize::MAX,
        ensures
            final(self).fits(final(regions)@, *opts),
            final(self).bounds_follow(old(self)),
            final(self).max == old(self).max,
            final(req).spec_size() == old(req).spec_size(),
            final(req).spec_min_size() == old(req).spec_min_size(),
            final(req).spec_type() == old(req).spec_type(),
            old(req).spec_size() > opts.humongous_threshold_bytes ==> {
                let size = old(req).spec_size() as int;
                &&& *final(in_new_region)
                &&& too_few(*old(self), old(regions)@, *opts, size) ==> {
                    &&& r == 0
                    &&& *final(self) == *old(self)
                    &&& final(regions)@ == old(regions)@
                    &&& *final(counters) == *old(counters)
                    &&& *final(req) == *old(req)
                }
                &&& !too_few(*old(self), old(regions)@, *opts, size) ==> {
                    &&& r != 0
                    &&& final(req).spec_actual_size() == size
                    &&& exists|beg: int|
                        r == old(regions)@[beg].begin && #[trigger] contiguous(
                            *old(self),
                            *final(self),
                            old(regions)@,
                            final(regions)@,
                            *old(counters),
                            *final(counters),
                            *opts,
                            size,
                            beg,
                            now,
                        )
                }
            },
            old(req).spec_size() <= opts.humongous_threshold_bytes ==> {
                let ask = ask_of(*old(req), *opts);
                let lo = old(self).mutator_leftmost as int;
                let hi = old(self).mutator_rightmost + 1;
                let k = search_end(old(regions)@, old(self).ones(), ask, lo, hi);
                &&& r == search_result(old(regions)@, old(self).ones(), ask, lo, hi)
                &&& final(req).spec_actual_size() == (if r != 0 {
                    attempt(old(regions)@[k - 1]@, ask).size
                } else {
                    old(req).spec_actual_size() as int
                })
                &&& tried(
                    *old(self),
                    *final(self),
                    old(regions)@,
                    final(regions)@,
                    *old(counters),
                    *final(counters),
                    ask,
                    *old(in_new_region),
                    *final(in_new_region),
                    opts.region_size_bytes as int,
                    lo,
                    k,
                    now,
                )
            },
    {
        if req.size() > opts.humongous_threshold_bytes {
            *in_new_region = true;
            proof {
                let n = regions@.len();
                let rs = opts.region_size_bytes;
                assert(rs <= n * rs) by (nonlinear_arith)
                    requires
                        n >= 1,
                        rs >= 0,
                ;
            }
            self.allocate_contiguous(regions, opts, counters, req, now)
        } else {
            self.allocate_single(regions, opts, counters, req, in_new_region, now)
        }
    }

    /// Whether a region is in the set and its free bytes reach the minimal tlab size.
    pub open spec fn offers_tlab(
        &self,
        regions: Seq<HeapRegion>,
        opts: HeapOptions,
        i: int,
    ) -> bool {
        self.ones().contains(i) && regions[i]@.peek_free() >= opts.min_tlab_size
    }

    /// Whether `free` is the largest number of free bytes among the regions that reach the
    /// minimal tlab size, or zero if there is none.
    pub open spec fn largest_offer(
        &self,
        regions: Seq<HeapRegion>,
        opts: HeapOptions,
        free: int,
    ) -> bool {
        &&& forall|j: int| #[trigger]
            self.offers_tlab(regions, opts, j) ==> regions[j]@.peek_free() <= free
        &&& {
            ||| free == 0 && forall|j: int| !#[trigger] self.offers_tlab(regions, opts, j)
            ||| exists|i: int| #[trigger]
                self.offers_tlab(regions, opts, i) && free == regions[i]@.peek_free()
        }
    }

    /// Look at bitmap and return largest free bytes that are larger than minimal
    /// tlab size.
    ///
    /// # Notes
    ///
    /// Does not take into account fragmentation of a region.
    pub fn unsafe_peek_free(&self, regions: &Vec<HeapRegion>, opts: &HeapOptions) -> (r: usize)
        requires
            self.fits(regions@, *opts),
        ensures
            self.largest_offer(regions@, *opts, r as int),
    {
        let last: usize = self.mutator_rightmost;
        let mut index: usize = self.mutator_leftmost;
        let mut largest: usize = 0;
        let mut found: bool = false;
        while index <= last && index < self.max
            invariant
                self.fits(regions@, *opts),
                last == self.mutator_rightmost,
                self.mutator_leftmost <= index,
                forall|j: int|
                    self.mutator_leftmost <= j < index && #[trigger] self.offers_tlab(
                        regions@,
                        *opts,
                        j,
                    ) ==> found && regions@[j]@.peek_free() <= largest,
                !found ==> largest == 0,
                found ==> exists|i: int| #[trigger]
                    self.offers_tlab(regions@, *opts, i) && largest == regions@[i]@.peek_free(),
            decreases self.max - index,
        {
            if self.is_mutator_free(index) {
                assert(regions@[index as int].wf());
                let free: usize = regions[index].peek_free();
                if free >= opts.min_tlab_size {
                    assert(self.offers_tlab(regions@, *opts, index as int));
                    if !found || free > largest {
                        largest = free;
                    }
                    found = true;
                }
            }
            index = index + 1;
        }
        proof {
            assert forall|j: int| #[trigger] self.offers_tlab(regions@, *opts, j) implies found
                && regions@[j]@.peek_free() <= largest by {
                assert(self.ones().contains(j));
                assert(self.mutator_leftmost <= j < index);
            }
        }
        largest
    }

    /// Recycles all trash regions.
    pub fn recycle_trash(regions: &mut Vec<HeapRegion>, now: u64)
        requires
            forall|i: int| 0 <= i < old(regions)@.len() ==> (#[trigger] old(regions)@[i]).wf(),
        ensures
            final(regions)@.len() == old(regions)@.len(),
            forall|i: int|
                #![trigger final(regions)@[i]]
                0 <= i < old(regions)@.len() ==> {
                    &&& final(regions)@[i].wf()
                    &&& final(regions)@[i].same_place(&old(regions)@[i])
                    &&& old(regions)@[i].typ != RegionState::Trash ==> final(regions)@[i] == old(
                        regions,
                    )@[i]
                    &&& old(regions)@[i].typ == RegionState::Trash ==> {
                        &&& final(regions)@[i]@ == old(regions)@[i]@.recycled()
                        &&& rest_kept(old(regions)@[i], final(regions)@[i], now)
                        &&& final(regions)@[i].object_start_bitmap.slots() == Set::<int>::empty()
                    }
                },
    {
        let ghost regs = regions@;
        let mut i: usize = 0;
        while i < regions.len()
            invariant
                i <= regions@.len(),
                regions@.len() == regs.len(),
                forall|j: int| 0 <= j < regs.len() ==> (#[trigger] regs[j]).wf(),
                forall|j: int|
                    #![trigger regions@[j]]
                    i <= j < regs.len() ==> regions@[j] == regs[j],
                forall|j: int|
                    #![trigger regions@[j]]
                    0 <= j < i ==> {
                        &&& regions@[j].wf()
                        &&& regions@[j].same_place(&regs[j])
                        &&& regs[j].typ != RegionState::Trash ==> regions@[j] == regs[j]
                        &&& regs[j].typ == RegionState::Trash ==> {
                            &&& regions@[j]@ == regs[j]@.recycled()
                            &&& rest_kept(regs[j], regions@[j], now)
                            &&& regions@[j].object_start_bitmap.slots() == Set::<int>::empty()
                        }
                    },
            decreases regions@.len() - i,
        {
            let ghost before = regions@;
            assert(regs[i as int].wf());
            Self::try_recycle_trashed(&mut regions[i], now);
            proof {
                assert forall|j: int| #![trigger regions@[j]] 0 <= j < regs.len() && j != i implies regions@[j]
                    == before[j] by {}
            }
            i = i + 1;
        }
    }

    /// Surveys the regions of the set.
    pub fn survey(&self, regions: &Vec<HeapRegion>, opts: &HeapOptions) -> (r: Survey)
        requires
            self.fits(regions@, *opts),
            regions@.len() * opts.region_size_bytes <= usize::MAX,
            forall|i: int|
                0 <= i < regions@.len() ==> (#[trigger] regions@[i]).used
                    <= opts.region_size_bytes,
        ensures
            (
                r.last_idx as int,
                r.max as int,
                r.max_contig as int,
                r.empty_contig as int,
                r.total_used as int,
                r.total_free as int,
                r.total_free_ext as int,
            ) == survey_of(
                regions@,
                self.ones(),
                *opts,
                self.mutator_leftmost as int,
                self.mutator_rightmost + 1,
            ),
            r.max_contig <= self.max,
            ({
                let lo = self.mutator_leftmost as int;
                let hi = self.mutator_rightmost + 1;
                let empty = empty_members(regions@, self.ones(), lo, hi);
                &&& largest_capacity(regions@, self.ones(), *opts, lo, hi, r.max as int)
                &&& longest_empty_run(regions@, self.ones(), lo, hi, r.max_contig as int)
                &&& r.total_free_ext == empty.len() * opts.region_size_bytes
            }),
    {
        let lo: usize = self.mutator_leftmost;
        let last: usize = self.mutator_rightmost;
        let ghost rs = opts.region_size_bytes as int;
        let mut s = Survey {
            last_idx: 0,
            max: 0,
            max_contig: 0,
            empty_contig: 0,
            total_used: 0,
            total_free: 0,
            total_free_ext: 0,
        };
        let mut idx: usize = lo;
        while idx <= last && idx < self.max
            invariant
                lo <= idx,
                lo == self.mutator_leftmost,
                last == self.mutator_rightmost,
                idx <= last + 1 || idx == lo,
                idx <= self.max || idx == lo,
                rs == opts.region_size_bytes,
                self.fits(regions@, *opts),
                regions@.len() * rs <= usize::MAX,
                forall|i: int| 0 <= i < regions@.len() ==> (#[trigger] regions@[i]).used <= rs,
                (
                    s.last_idx as int,
                    s.max as int,
                    s.max_contig as int,
                    s.empty_contig as int,
                    s.total_used as int,
                    s.total_free as int,
                    s.total_free_ext as int,
                ) == survey_of(regions@, self.ones(), *opts, lo as int, idx as int),
                s.last_idx <= idx,
                s.last_idx < self.max || s.last_idx == 0,
                s.max_contig <= idx - lo,
                s.empty_contig <= idx - lo,
                s.total_used <= (idx - lo) * rs,
                s.total_free <= (idx - lo) * rs,
                s.total_free_ext <= (idx - lo) * rs,
            decreases self.max - idx,
        {
            proof {
                lemma_bounded_step(rs, idx - lo, regions@.len() as int);
                let d = idx - lo;
                assert((d + 1) * rs == d * rs + rs) by (nonlinear_arith);
            }
            if self.is_mutator_free(idx) {
                let r: &HeapRegion = &regions[idx];
                assert(regions@[idx as int].wf());
                let free: usize = Self::alloc_capacity(r, opts);
                if free > s.max {
                    s.max = free;
                }
                if r.is_empty() {
                    s.total_free_ext = s.total_free_ext + free;
                    if s.last_idx + 1 == idx {
                        s.empty_contig = s.empty_contig + 1;
                    } else {
                        s.empty_contig = 1;
                    }
                } else {
                    s.empty_contig = 0;
                }
                s.total_used = s.total_used + r.used();
                s.total_free = s.total_free + free;
                if s.empty_contig > s.max_contig {
                    s.max_contig = s.empty_contig;
                }
                s.last_idx = idx;
            }
            idx = idx + 1;
        }
        proof {
            let hi = last + 1;
            lemma_survey(regions@, self.ones(), *opts, lo as int, hi);
            if idx < hi {
                assert forall|j: int| idx <= j < hi implies !self.ones().contains(j) by {}
                lemma_survey_gap(regions@, self.ones(), *opts, lo as int, idx as int, hi);
            } else if lo > hi {
                assert(survey_of(regions@, self.ones(), *opts, lo as int, hi) == survey_of(
                    regions@,
                    self.ones(),
                    *opts,
                    lo as int,
                    idx as int,
                ));
            }
        }
        s
    }

    /// The size of the largest run of empty regions and the bytes of all empty
    /// regions of the set. External fragmentation is one less their quotient: it
    /// describes how fragmented the heap is.
    pub fn external_fragmentation(&self, regions: &Vec<HeapRegion>, opts: &HeapOptions) -> (r: (
        usize,
        usize,
    ))
        requires
            self.fits(regions@, *opts),
            regions@.len() * opts.region_size_bytes <= usize::MAX,
            forall|i: int|
                0 <= i < regions@.len() ==> (#[trigger] regions@[i]).used
                    <= opts.region_size_bytes,
        ensures
            ({
                let s = survey_of(
                    regions@,
                    self.ones(),
                    *opts,
                    self.mutator_leftmost as int,
                    self.mutator_rightmost + 1,
                );
                r.0 == s.2 * opts.region_size_bytes && r.1 == s.6
            }),
    {
        let s: Survey = self.survey(regions, opts);
        proof {
            let n = regions@.len();
            let rs = opts.region_size_bytes;
            let m = s.max_contig;
            assert(m * rs <= n * rs) by (nonlinear_arith)
                requires
                    m <= n,
                    rs >= 0,
            ;
        }
        (s.max_contig * opts.region_size_bytes, s.total_free_ext)
    }

    /// The percentages that describe fragmentation: external, of empty regions,
    /// and internal, the used share of a region on average.
    pub fn log_status(&self, regions: &Vec<HeapRegion>, opts: &HeapOptions) -> (r: (usize, usize))
        requires
            self.fits(regions@, *opts),
            100 * regions@.len() * opts.region_size_bytes <= usize::MAX,
            forall|i: int|
                0 <= i < regions@.len() ==> (#[trigger] regions@[i]).used
                    <= opts.region_size_bytes,
        ensures
            ({
                let s = survey_of(
                    regions@,
                    self.ones(),
                    *opts,
                    self.mutator_leftmost as int,
                    self.mutator_rightmost + 1,
                );
                let count = self.ones().len() as int;
                let rs = opts.region_size_bytes as int;
                &&& r.0 == (if s.6 > 0 {
                    100 - 100 * (s.2 * rs) / s.6
                } else {
                    0
                })
                &&& r.1 == (if count > 0 {
                    100 * (s.4 / count) / rs
                } else {
                    0
                })
            }),
    {
        let ghost n = regions@.len() as int;
        let ghost rs = opts.region_size_bytes as int;
        proof {
            vstd::arithmetic::power2::lemma_pow2_pos(opts.region_size_bytes_shift as nat);
        }
        assert(n * rs <= 100 * n * rs) by (nonlinear_arith)
            requires
                n >= 0,
                rs >= 0,
        ;
        let s: Survey = self.survey(regions, opts);
        proof {
            let m = s.max_contig as int;
            assert(m * rs <= n * rs && 100 * (n * rs) == 100 * n * rs) by (nonlinear_arith)
                requires
                    m <= n,
                    rs >= 0,
            ;
            let lo = self.mutator_leftmost as int;
            let hi = self.mutator_rightmost + 1;
            lemma_survey_used(regions@, self.ones(), *opts, lo, hi, rs, n);
            lemma_survey(regions@, self.ones(), *opts, lo, hi);
        }
        let max_humongous: usize = s.max_contig * opts.region_size_bytes;
        let frag_ext: usize = if s.total_free_ext > 0 {
            proof {
                let t = s.total_free_ext as int;
                let h = max_humongous as int;
                assert(100 * h / t <= 100) by {
                    vstd::arithmetic::div_mod::lemma_div_is_ordered(100 * h, 100 * t, t);
                    vstd::arithmetic::div_mod::lemma_div_multiples_vanish(100, t);
                    assert(100 * t == t * 100) by (nonlinear_arith);
                }
            }
            100 - (100 * max_humongous / s.total_free_ext)
        } else {
            0
        };
        let count: usize = self.mutator_count();
        let frag_int: usize = if count > 0 {
            proof {
                let u = s.total_used as int;
                let c = count as int;
                assert(u / c <= u && u / c >= 0) by {
                    vstd::arithmetic::div_mod::lemma_div_nonincreasing(u, c);
                    vstd::arithmetic::div_mod::lemma_div_pos_is_pos(u, c);
                }
            }
            100 * (s.total_used / count) / opts.region_size_bytes
        } else {
            0
        };
        (frag_ext, frag_int)
    }
}

proof fn lemma_survey_gap(
    regions: Seq<HeapRegion>,
    ones: Set<int>,
    opts: HeapOptions,
    lo: int,
    k: int,
    hi: int,
)
    requires
        lo <= k <= hi,
        forall|j: int| k <= j < hi ==> !ones.contains(j),
    ensures
        survey_of(regions, ones, opts, lo, hi) == survey_of(regions, ones, opts, lo, k),
    decreases hi - k,
{
    if k < hi {
        lemma_survey_gap(regions, ones, opts, lo, k, hi - 1);
    }
}

proof fn lemma_survey_used(
    regions: Seq<HeapRegion>,
    ones: Set<int>,
    opts: HeapOptions,
    lo: int,
    k: int,
    rs: int,
    n: int,
)
    requires
        0 <= lo,
        n == regions.len(),
        forall|i: int| 0 <= i < regions.len() ==> (#[trigger] regions[i]).used <= rs,
        forall|i: int| #[trigger] ones.contains(i) ==> 0 <= i < n,
        rs >= 0,
    ensures
        0 <= survey_of(regions, ones, opts, lo, k).4,
        k <= n ==> survey_of(regions, ones, opts, lo, k).4 <= (if k > lo {
            (k - lo) * rs
        } else {
            0
        }),
        survey_of(regions, ones, opts, lo, k).4 <= n * rs,
    decreases k - lo,
{
    if k > lo {
        lemma_survey_used(regions, ones, opts, lo, k - 1, rs, n);
        let d = k - 1 - lo;
        assert((d + 1) * rs == d * rs + rs && (d >= 0 ==> d * rs >= 0)) by (nonlinear_arith)
            requires
                rs >= 0,
        ;
        if k <= n {
            assert((k - lo) * rs <= n * rs) by (nonlinear_arith)
                requires
                    k - lo <= n,
                    rs >= 0,
            ;
        }
    } else {
        assert(0 <= n * rs) by (nonlinear_arith)
            requires
                n >= 0,
                rs >= 0,
        ;
    }
}

proof fn lemma_num_positive(size: int, rs: int)
    requires
        size > 0,
        rs > 0,
    ensures
        (size + rs - 1) / rs > 0,
{
    vstd::arithmetic::div_mod::lemma_div_is_ordered(rs, size + rs - 1, rs);
    vstd::arithmetic::div_mod::lemma_div_by_self(rs);
}

} // verus!
