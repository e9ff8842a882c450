//! Marking of the objects of a heap of blocks.

use vstd::prelude::*;

use super::large_allocator::{Bytemap, ObjectMeta};

verus! {

/// The objects that have been marked and whose references are still to be followed.
pub struct Marker {
    pub stack: Vec<usize>,
}

/// The place of an address of the heap.
pub open spec fn place_of(heap_start: int, addr: int) -> int {
    (addr - heap_start) / 16
}

/// The places after an object has been visited: it is marked if it was not.
pub open spec fn visited(
    places: Seq<ObjectMeta>,
    stack: Seq<usize>,
    start: int,
    end: int,
    addr: usize,
) -> (Seq<ObjectMeta>, Seq<usize>) {
    if start <= addr < end && places[place_of(start, addr as int)] == ObjectMeta::Allocated {
        (
            places.update(place_of(start, addr as int), ObjectMeta::Marked),
            stack.push(addr),
        )
    } else {
        (places, stack)
    }
}

/// The places after objects have been visited in order.
pub open spec fn all_visited(
    places: Seq<ObjectMeta>,
    stack: Seq<usize>,
    start: int,
    end: int,
    refs: Seq<usize>,
) -> (Seq<ObjectMeta>, Seq<usize>)
    decreases refs.len(),
{
    if refs.len() == 0 {
        (places, stack)
    } else {
        let (p, s) = all_visited(places, stack, start, end, refs.drop_last());
        visited(p, s, start, end, refs.last())
    }
}

/// Whether no reference leads to an object that is not marked.
pub open spec fn followed(places: Seq<ObjectMeta>, start: int, end: int, refs: Seq<usize>) -> bool {
    forall|k: int|
        0 <= k < refs.len() && start <= (#[trigger] refs[k]) < end ==> places[place_of(
            start,
            refs[k] as int,
        )] != ObjectMeta::Allocated
}

/// Whether the references of every marked object have been followed, or the object is on
/// the stack.
pub open spec fn marked_followed(
    places: Seq<ObjectMeta>,
    stack: Seq<usize>,
    start: int,
    end: int,
    refs: Seq<Vec<usize>>,
) -> bool {
    forall|p: int|
        0 <= p < places.len() && (#[trigger] places[p]) == ObjectMeta::Marked ==> followed(
            places,
            start,
            end,
            refs[p]@,
        ) || on_stack(stack, start, p)
}

/// Whether an object at a place is on the stack.
pub open spec fn on_stack(stack: Seq<usize>, start: int, p: int) -> bool {
    exists|k: int| 0 <= k < stack.len() && place_of(start, (#[trigger] stack[k]) as int) == p
}

/// Whether the addresses of a heap have places.
pub open spec fn covered(start: int, end: int, places: Seq<ObjectMeta>) -> bool {
    0 <= start <= end && (end - start) <= 16 * places.len()
}

proof fn lemma_visit_one(
    places: Seq<ObjectMeta>,
    stack: Seq<usize>,
    start: int,
    end: int,
    refs: Seq<Vec<usize>>,
    addr: usize,
)
    requires
        covered(start, end, places),
        refs.len() == places.len(),
    ensures
        ({
            let (p, s) = visited(places, stack, start, end, addr);
            &&& p.len() == places.len()
            &&& marked_followed(places, stack, start, end, refs) ==> marked_followed(
                p,
                s,
                start,
                end,
                refs,
            )
            &&& forall|r: Seq<usize>| #[trigger]
                followed(places, start, end, r) ==> followed(p, start, end, r)
            &&& start <= addr < end ==> p[place_of(start, addr as int)] != ObjectMeta::Allocated
            &&& forall|i: int|
                0 <= i < places.len() && places[i] != ObjectMeta::Allocated ==> (#[trigger] p[i])
                    == places[i]
        }),
{
    let (p, s) = visited(places, stack, start, end, addr);
    let at = place_of(start, addr as int);
    assert forall|r: Seq<usize>| #[trigger] followed(places, start, end, r) implies followed(
        p,
        start,
        end,
        r,
    ) by {
        assert forall|k: int| 0 <= k < r.len() && start <= (#[trigger] r[k]) < end
            implies p[place_of(start, r[k] as int)] != ObjectMeta::Allocated by {}
    }
    if marked_followed(places, stack, start, end, refs) {
        assert forall|q: int| 0 <= q < p.len() && (#[trigger] p[q]) == ObjectMeta::Marked
            implies followed(p, start, end, refs[q]@) || on_stack(s, start, q) by {
            if places[q] == ObjectMeta::Marked {
                if !followed(places, start, end, refs[q]@) {
                    let k = choose|k: int|
                        0 <= k < stack.len() && place_of(start, (#[trigger] stack[k]) as int) == q;
                    assert(s[k] == stack[k]);
                }
            } else {
                assert(s.last() == addr);
                assert(place_of(start, s[s.len() - 1] as int) == q);
            }
        }
    }
}

/// Whether what the objects at the places of a set refer to lies in the set. References to
/// places that hold no object do not count.
pub open spec fn closed_under(
    places: Seq<ObjectMeta>,
    refs: Seq<Vec<usize>>,
    start: int,
    end: int,
    s: Set<int>,
) -> bool {
    forall|p: int, k: int|
        s.contains(p) && 0 <= p < refs.len() && 0 <= k < refs[p]@.len() && start <= (
        #[trigger] refs[p]@[k]) < end && places[place_of(start, refs[p]@[k] as int)]
            == ObjectMeta::Allocated ==> s.contains(place_of(start, refs[p]@[k] as int))
}

/// Whether the objects that references lead to lie in a set.
pub open spec fn refs_in(
    places: Seq<ObjectMeta>,
    start: int,
    end: int,
    refs: Seq<usize>,
    s: Set<int>,
) -> bool {
    forall|k: int|
        0 <= k < refs.len() && start <= (#[trigger] refs[k]) < end && places[place_of(
            start,
            refs[k] as int,
        )] == ObjectMeta::Allocated ==> s.contains(place_of(start, refs[k] as int))
}

/// Whether all marked places and all places on the stack lie in a set.
pub open spec fn within(
    places: Seq<ObjectMeta>,
    stack: Seq<usize>,
    start: int,
    s: Set<int>,
) -> bool {
    &&& forall|p: int|
        0 <= p < places.len() && (#[trigger] places[p]) == ObjectMeta::Marked ==> s.contains(p)
    &&& forall|k: int|
        0 <= k < stack.len() ==> s.contains(place_of(start, (#[trigger] stack[k]) as int))
}

/// Whether the object at one place refers to another place.
pub open spec fn points(refs: Seq<Vec<usize>>, start: int, end: int, p: int, q: int) -> bool {
    exists|k: int|
        0 <= k < refs[p]@.len() && start <= (#[trigger] refs[p]@[k]) < end && place_of(
            start,
            refs[p]@[k] as int,
        ) == q
}

/// Whether one of the roots is at a place.
pub open spec fn is_root(roots: Seq<usize>, start: int, end: int, p: int) -> bool {
    exists|k: int|
        0 <= k < roots.len() && start <= (#[trigger] roots[k]) < end && place_of(
            start,
            roots[k] as int,
        ) == p
}

/// Whether places are a way from a root along references, from object to object.
pub open spec fn is_way(
    places: Seq<ObjectMeta>,
    refs: Seq<Vec<usize>>,
    start: int,
    end: int,
    roots: Seq<usize>,
    way: Seq<int>,
) -> bool {
    &&& way.len() > 0
    &&& forall|k: int|
        0 <= k < way.len() ==> 0 <= (#[trigger] way[k]) < places.len() && places[way[k]]
            == ObjectMeta::Allocated
    &&& is_root(roots, start, end, way[0])
    &&& forall|k: int| 1 <= k < way.len() ==> points(refs, start, end, way[k - 1], #[trigger] way[k])
}

/// Whether roots lead to the object at a place.
#[verifier::opaque]
pub open spec fn led_to(
    places: Seq<ObjectMeta>,
    refs: Seq<Vec<usize>>,
    start: int,
    end: int,
    roots: Seq<usize>,
    p: int,
) -> bool {
    exists|way: Seq<int>| #[trigger]
        is_way(places, refs, start, end, roots, way) && way.last() == p
}

/// The objects that the words of the first `n` stacks point into.
pub open spec fn stack_roots(
    stacks: Seq<Vec<usize>>,
    starts: Seq<Vec<Option<usize>>>,
    start: int,
    end: int,
    n: int,
) -> Seq<usize>
    decreases n,
{
    if n <= 0 {
        Seq::empty()
    } else {
        stack_roots(stacks, starts, start, end, n - 1) + conservative(
            stacks[n - 1]@,
            starts[n - 1]@,
            start,
            end,
            stacks[n - 1]@.len() as int,
        )
    }
}

/// Whether only objects that were not marked have been marked, and nothing else changed.
pub open spec fn only_marked(before: Seq<ObjectMeta>, after: Seq<ObjectMeta>) -> bool {
    &&& after.len() == before.len()
    &&& forall|i: int|
        0 <= i < before.len() && before[i] != ObjectMeta::Allocated ==> (#[trigger] after[i])
            == before[i]
    &&& forall|i: int|
        0 <= i < before.len() && before[i] == ObjectMeta::Allocated ==> (#[trigger] after[i])
            == ObjectMeta::Allocated || after[i] == ObjectMeta::Marked
}

/// Visiting an object of a set marks nothing outside of it.
proof fn lemma_visit_within(
    first: Seq<ObjectMeta>,
    places: Seq<ObjectMeta>,
    stack: Seq<usize>,
    start: int,
    end: int,
    addr: usize,
    s: Set<int>,
)
    requires
        covered(start, end, places),
        only_marked(first, places),
        within(places, stack, start, s),
        start <= addr < end && first[place_of(start, addr as int)] == ObjectMeta::Allocated
            ==> s.contains(place_of(start, addr as int)),
    ensures
        ({
            let (p, t) = visited(places, stack, start, end, addr);
            within(p, t, start, s)
        }),
{
    let (p, t) = visited(places, stack, start, end, addr);
    let at = place_of(start, addr as int);
    if start <= addr < end && places[at] == ObjectMeta::Allocated {
        assert(0 <= at < places.len());
        assert(first[at] == ObjectMeta::Allocated);
        assert forall|q: int| 0 <= q < p.len() && (#[trigger] p[q]) == ObjectMeta::Marked implies
            s.contains(q) by {
            if q != at {
                assert(places[q] == ObjectMeta::Marked);
            }
        }
        assert forall|k: int| 0 <= k < t.len() implies s.contains(
            place_of(start, (#[trigger] t[k]) as int),
        ) by {
            if k < stack.len() {
                assert(t[k] == stack[k]);
            }
        }
    }
}

/// What visiting objects in order does.
proof fn lemma_all_visited(
    places: Seq<ObjectMeta>,
    stack: Seq<usize>,
    start: int,
    end: int,
    list: Seq<usize>,
    refs: Seq<Vec<usize>>,
)
    requires
        covered(start, end, places),
        refs.len() == places.len(),
        forall|k: int| 0 <= k < stack.len() ==> start <= (#[trigger] stack[k]) < end,
    ensures
        ({
            let (p, t) = all_visited(places, stack, start, end, list);
            &&& only_marked(places, p)
            &&& forall|k: int| 0 <= k < t.len() ==> start <= (#[trigger] t[k]) < end
            &&& marked_followed(places, stack, start, end, refs) ==> marked_followed(
                p,
                t,
                start,
                end,
                refs,
            )
            &&& forall|r: Seq<usize>| #[trigger]
                followed(places, start, end, r) ==> followed(p, start, end, r)
            &&& followed(p, start, end, list)
            &&& forall|first: Seq<ObjectMeta>, s: Set<int>|
                only_marked(first, places) && within(places, stack, start, s) && #[trigger] refs_in(
                    first,
                    start,
                    end,
                    list,
                    s,
                ) ==> within(p, t, start, s)
        }),
    decreases list.len(),
{
    if list.len() > 0 {
        let less = list.drop_last();
        lemma_all_visited(places, stack, start, end, less, refs);
        let (p0, t0) = all_visited(places, stack, start, end, less);
        let (p, t) = all_visited(places, stack, start, end, list);
        lemma_visit_one(p0, t0, start, end, refs, list.last());
        assert(followed(p, start, end, less));
        assert forall|k: int| 0 <= k < list.len() && start <= (#[trigger] list[k]) < end implies
            p[place_of(start, list[k] as int)] != ObjectMeta::Allocated by {
            if k < less.len() {
                assert(less[k] == list[k]);
            }
        }
        assert forall|i: int| 0 <= i < places.len() implies (places[i] != ObjectMeta::Allocated
            ==> (#[trigger] p[i]) == places[i]) && (places[i] == ObjectMeta::Allocated ==> p[i]
            == ObjectMeta::Allocated || p[i] == ObjectMeta::Marked) by {
            assert(p0[i] == p0[i]);
        }
        assert forall|first: Seq<ObjectMeta>, s: Set<int>|
            only_marked(first, places) && within(places, stack, start, s) && #[trigger] refs_in(
                first,
                start,
                end,
                list,
                s,
            ) implies within(p, t, start, s) by {
            assert forall|k: int|
                0 <= k < less.len() && start <= (#[trigger] less[k]) < end && first[place_of(
                    start,
                    less[k] as int,
                )] == ObjectMeta::Allocated implies s.contains(
                place_of(start, less[k] as int),
            ) by {
                assert(less[k] == list[k]);
            }
            assert(refs_in(first, start, end, less, s));
            lemma_only_marked_trans(first, places, p0);
            assert(list.last() == list[list.len() - 1]);
            lemma_visit_within(first, p0, t0, start, end, list.last(), s);
        }
    }
}

proof fn lemma_only_marked_trans(a: Seq<ObjectMeta>, b: Seq<ObjectMeta>, c: Seq<ObjectMeta>)
    requires
        only_marked(a, b),
        only_marked(b, c),
    ensures
        only_marked(a, c),
{
    assert forall|i: int| 0 <= i < a.len() implies (a[i] != ObjectMeta::Allocated ==> (
    #[trigger] c[i]) == a[i]) && (a[i] == ObjectMeta::Allocated ==> c[i] == ObjectMeta::Allocated
        || c[i] == ObjectMeta::Marked) by {
        assert(b[i] == b[i]);
    }
}

/// The places that roots lead to are closed, and hold the roots.
proof fn lemma_led_closed(
    places: Seq<ObjectMeta>,
    refs: Seq<Vec<usize>>,
    start: int,
    end: int,
    roots: Seq<usize>,
    s: Set<int>,
)
    requires
        covered(start, end, places),
        refs.len() == places.len(),
        s == Set::new(|p: int| led_to(places, refs, start, end, roots, p)),
    ensures
        closed_under(places, refs, start, end, s),
        refs_in(places, start, end, roots, s),
{
    reveal(led_to);
    assert forall|p: int, k: int|
        s.contains(p) && 0 <= p < refs.len() && 0 <= k < refs[p]@.len() && start <= (
        #[trigger] refs[p]@[k]) < end && places[place_of(start, refs[p]@[k] as int)]
            == ObjectMeta::Allocated implies s.contains(place_of(start, refs[p]@[k] as int)) by {
        let q = place_of(start, refs[p]@[k] as int);
        let way = choose|way: Seq<int>| #[trigger]
            is_way(places, refs, start, end, roots, way) && way.last() == p;
        let more = way.push(q);
        assert(points(refs, start, end, p, q));
        assert forall|j: int| 1 <= j < more.len() implies points(
            refs,
            start,
            end,
            more[j - 1],
            #[trigger] more[j],
        ) by {
            if j < way.len() {
                assert(points(refs, start, end, way[j - 1], way[j]));
            }
        }
        assert(more[0] == way[0]);
        assert(is_way(places, refs, start, end, roots, more));
        assert(more.last() == q);
    }
    assert forall|k: int|
        0 <= k < roots.len() && start <= (#[trigger] roots[k]) < end && places[place_of(
            start,
            roots[k] as int,
        )] == ObjectMeta::Allocated implies s.contains(place_of(start, roots[k] as int)) by {
        let q = place_of(start, roots[k] as int);
        assert(is_root(roots, start, end, q));
        assert(is_way(places, refs, start, end, roots, seq![q]));
        assert(seq![q].last() == q);
    }
}

/// The objects on a way from the roots are marked once all has been followed.
proof fn lemma_way_marked(
    before: Seq<ObjectMeta>,
    places: Seq<ObjectMeta>,
    refs: Seq<Vec<usize>>,
    start: int,
    end: int,
    roots: Seq<usize>,
    way: Seq<int>,
    n: int,
)
    requires
        covered(start, end, places),
        refs.len() == places.len(),
        only_marked(before, places),
        followed(places, start, end, roots),
        marked_followed(places, Seq::empty(), start, end, refs),
        is_way(before, refs, start, end, roots, way),
        0 <= n < way.len(),
    ensures
        places[way[n]] == ObjectMeta::Marked,
    decreases n,
{
    let q = way[n];
    assert(before[q] == ObjectMeta::Allocated);
    if n == 0 {
        let k = choose|k: int|
            0 <= k < roots.len() && start <= (#[trigger] roots[k]) < end && place_of(
                start,
                roots[k] as int,
            ) == q;
        assert(places[place_of(start, roots[k] as int)] != ObjectMeta::Allocated);
    } else {
        lemma_way_marked(before, places, refs, start, end, roots, way, n - 1);
        let p = way[n - 1];
        assert(points(refs, start, end, way[n - 1], way[n]));
        assert(followed(places, start, end, refs[p]@));
        let k = choose|k: int|
            0 <= k < refs[p]@.len() && start <= (#[trigger] refs[p]@[k]) < end && place_of(
                start,
                refs[p]@[k] as int,
            ) == q;
        assert(places[place_of(start, refs[p]@[k] as int)] != ObjectMeta::Allocated);
    }
}

/// Marking that started without marks from some roots, followed everything, and stayed
/// within each closed set that holds the roots has marked exactly the objects that the
/// roots lead to.
pub proof fn lemma_marked_exact(
    before: Seq<ObjectMeta>,
    after: Seq<ObjectMeta>,
    refs: Seq<Vec<usize>>,
    start: int,
    end: int,
    roots: Seq<usize>,
    p: int,
)
    requires
        covered(start, end, before),
        refs.len() == before.len(),
        forall|i: int| 0 <= i < before.len() ==> (#[trigger] before[i]) != ObjectMeta::Marked,
        only_marked(before, after),
        followed(after, start, end, roots),
        marked_followed(after, Seq::empty(), start, end, refs),
        forall|s: Set<int>| #[trigger]
            closed_under(before, refs, start, end, s) && refs_in(before, start, end, roots, s)
                ==> within(after, Seq::empty(), start, s),
        0 <= p < before.len(),
    ensures
        after[p] == ObjectMeta::Marked <==> led_to(before, refs, start, end, roots, p),
{
    let s = Set::new(|p: int| led_to(before, refs, start, end, roots, p));
    lemma_led_closed(before, refs, start, end, roots, s);
    assert(within(after, Seq::empty(), start, s));
    if led_to(before, refs, start, end, roots, p) {
        reveal(led_to);
        let way = choose|way: Seq<int>| #[trigger]
            is_way(before, refs, start, end, roots, way) && way.last() == p;
        lemma_way_marked(before, after, refs, start, end, roots, way, way.len() - 1);
    }
}

impl Marker {
    pub fn new() -> (r: Self)
        ensures
            r.stack@ == Seq::<usize>::empty(),
    {
        Marker { stack: Vec::with_capacity(128) }
    }

    /// Visits an object.
    pub fn visit(&mut self, bytemap: &mut Bytemap, start: usize, end: usize, object: usize)
        requires
            covered(start as int, end as int, old(bytemap).data@),
        ensures
            (final(bytemap).data@, final(self).stack@) == visited(
                old(bytemap).data@,
                old(self).stack@,
                start as int,
                end as int,
                object,
            ),
    {
        if object >= start && object < end {
            let place: usize = (object - start) / 16;
            if bytemap.data[place] == ObjectMeta::Allocated {
                bytemap.data.set(place, ObjectMeta::Marked);
                self.stack.push(object);
            }
        }
    }

    /// Visits the objects that words of a range point into. `starts` holds the start of the
    /// object for every word, if the word points into one that is not marked.
    pub fn visit_range_conservatively(
        &mut self,
        bytemap: &mut Bytemap,
        start: usize,
        end: usize,
        words: &Vec<usize>,
        starts: &Vec<Option<usize>>,
    )
        requires
            covered(start as int, end as int, old(bytemap).data@),
            starts@.len() == words@.len(),
        ensures
            (final(bytemap).data@, final(self).stack@) == all_visited(
                old(bytemap).data@,
                old(self).stack@,
                start as int,
                end as int,
                conservative(words@, starts@, start as int, end as int, words@.len() as int),
            ),
            final(bytemap).data@.len() == old(bytemap).data@.len(),
    {
        let ghost places = bytemap.data@;
        let ghost stack = self.stack@;
        let mut i: usize = 0;
        while i < words.len()
            invariant
                i <= words@.len(),
                starts@.len() == words@.len(),
                covered(start as int, end as int, bytemap.data@),
                bytemap.data@.len() == places.len(),
                (bytemap.data@, self.stack@) == all_visited(
                    places,
                    stack,
                    start as int,
                    end as int,
                    conservative(words@, starts@, start as int, end as int, i as int),
                ),
            decreases words@.len() - i,
        {
            let word: usize = words[i];
            if word != 0 && word >= start && word < end {
                match starts[i] {
                    Some(object) => {
                        proof {
                            let so_far = conservative(
                                words@,
                                starts@,
                                start as int,
                                end as int,
                                i as int,
                            );
                            assert(so_far.push(object).drop_last() =~= so_far);
                        }
                        self.visit(bytemap, start, end, object);
                    },
                    None => {},
                }
            }
            i = i + 1;
        }
    }

    /// Follows the references of all objects on the stack, and of those that they lead to.
    /// `refs` holds the references of the object at every place.
    pub fn mark(&mut self, bytemap: &mut Bytemap, start: usize, end: usize, refs: &Vec<Vec<usize>>)
        requires
            covered(start as int, end as int, old(bytemap).data@),
            refs@.len() == old(bytemap).data@.len(),
            forall|k: int|
                0 <= k < old(self).stack@.len() ==> start <= (#[trigger] old(self).stack@[k])
                    < end,
            marked_followed(
                old(bytemap).data@,
                old(self).stack@,
                start as int,
                end as int,
                refs@,
            ),
        ensures
            final(self).stack@ == Seq::<usize>::empty(),
            final(bytemap).data@.len() == old(bytemap).data@.len(),
            marked_followed(
                final(bytemap).data@,
                final(self).stack@,
                start as int,
                end as int,
                refs@,
            ),
            only_marked(old(bytemap).data@, final(bytemap).data@),
            forall|s: Set<int>| #[trigger]
                closed_under(old(bytemap).data@, refs@, start as int, end as int, s) && within(
                    old(bytemap).data@,
                    old(self).stack@,
                    start as int,
                    s,
                ) ==> within(final(bytemap).data@, Seq::empty(), start as int, s),
    {
        let ghost stack0 = self.stack@;
        let ghost before = bytemap.data@;
        let ghost n = before.len() as int;
        let ghost universe = vstd::set_lib::set_int_range(0, n);
        let ghost mut found: Set<int> = Set::empty();
        proof {
            vstd::set_lib::lemma_int_range(0, n);
        }
        while self.stack.len() > 0
            invariant
                n == before.len(),
                bytemap.data@.len() == n,
                refs@.len() == n,
                covered(start as int, end as int, bytemap.data@),
                forall|k: int|
                    0 <= k < self.stack@.len() ==> start <= (#[trigger] self.stack@[k]) < end,
                marked_followed(bytemap.data@, self.stack@, start as int, end as int, refs@),
                universe == vstd::set_lib::set_int_range(0, n),
                universe.finite(),
                found.finite(),
                found.subset_of(universe),
                found.len() <= universe.len(),
                forall|i: int| #[trigger]
                    found.contains(i) ==> bytemap.data@[i] != ObjectMeta::Allocated,
                only_marked(before, bytemap.data@),
                forall|s: Set<int>| #[trigger]
                    closed_under(before, refs@, start as int, end as int, s) && within(
                        before,
                        stack0,
                        start as int,
                        s,
                    ) ==> within(bytemap.data@, self.stack@, start as int, s),
            decreases universe.len() - found.len(), self.stack@.len(),
        {
            let ghost top = self.stack@;
            let ghost found0 = found;
            let count: usize = self.stack.len();
            let object: usize = self.stack[count - 1];
            let popped: Option<usize> = self.stack.pop();
            let place: usize = (object - start) / 16;
            let len: usize = refs[place].len();
            proof {
                assert forall|s: Set<int>| #[trigger]
                    closed_under(before, refs@, start as int, end as int, s) && within(
                        before,
                        stack0,
                        start as int,
                        s,
                    ) implies s.contains(place as int) && within(
                    bytemap.data@,
                    self.stack@,
                    start as int,
                    s,
                ) by {
                    assert(within(bytemap.data@, top, start as int, s));
                    assert(place_of(start as int, top[count - 1] as int) == place);
                    assert forall|k: int| 0 <= k < self.stack@.len() implies s.contains(
                        place_of(start as int, (#[trigger] self.stack@[k]) as int),
                    ) by {
                        assert(self.stack@[k] == top[k]);
                    }
                }
                assert forall|q: int|
                    0 <= q < n && (#[trigger] bytemap.data@[q]) == ObjectMeta::Marked && q != place
                        implies followed(bytemap.data@, start as int, end as int, refs@[q]@)
                    || on_stack(self.stack@, start as int, q) by {
                    if !followed(bytemap.data@, start as int, end as int, refs@[q]@) {
                        let k = choose|k: int|
                            0 <= k < top.len() && place_of(start as int, (#[trigger] top[k]) as int)
                                == q;
                        assert(k < top.len() - 1);
                        assert(self.stack@[k] == top[k]);
                    }
                }
            }
            let mut i: usize = 0;
            while i < len
                invariant
                    i <= len,
                    len == refs@[place as int]@.len(),
                    place < n,
                    n == before.len(),
                    bytemap.data@.len() == n,
                    refs@.len() == n,
                    covered(start as int, end as int, bytemap.data@),
                    forall|k: int|
                        0 <= k < self.stack@.len() ==> start <= (#[trigger] self.stack@[k]) < end,
                    forall|q: int|
                        0 <= q < n && (#[trigger] bytemap.data@[q]) == ObjectMeta::Marked && q
                            != place ==> followed(
                            bytemap.data@,
                            start as int,
                            end as int,
                            refs@[q]@,
                        ) || on_stack(self.stack@, start as int, q),
                    followed(
                        bytemap.data@,
                        start as int,
                        end as int,
                        refs@[place as int]@.take(i as int),
                    ),
                    universe == vstd::set_lib::set_int_range(0, n),
                    universe.finite(),
                    found.finite(),
                    found.subset_of(universe),
                    found.len() <= universe.len(),
                    found.len() > found0.len() || (found == found0 && self.stack@.len()
                        < top.len()),
                    forall|i: int| #[trigger]
                        found.contains(i) ==> bytemap.data@[i] != ObjectMeta::Allocated,
                    only_marked(before, bytemap.data@),
                    forall|s: Set<int>| #[trigger]
                        closed_under(before, refs@, start as int, end as int, s) && within(
                            before,
                            stack0,
                            start as int,
                            s,
                        ) ==> s.contains(place as int) && within(
                            bytemap.data@,
                            self.stack@,
                            start as int,
                            s,
                        ),
                decreases len - i,
            {
                let r: usize = refs[place][i];
                let ghost prev = bytemap.data@;
                let ghost prev_stack = self.stack@;
                proof {
                    lemma_visit_one(prev, prev_stack, start as int, end as int, refs@, r);
                }
                self.visit(bytemap, start, end, r);
                proof {
                    let at = place_of(start as int, r as int);
                    assert(only_marked(prev, bytemap.data@));
                    lemma_only_marked_trans(before, prev, bytemap.data@);
                    assert forall|s: Set<int>| #[trigger]
                        closed_under(before, refs@, start as int, end as int, s) && within(
                            before,
                            stack0,
                            start as int,
                            s,
                        ) implies within(bytemap.data@, self.stack@, start as int, s) by {
                        assert(refs@[place as int]@[i as int] == r);
                        lemma_visit_within(
                            before,
                            prev,
                            prev_stack,
                            start as int,
                            end as int,
                            r,
                            s,
                        );
                    }
                    let more = refs@[place as int]@.take(i + 1);
                    let less = refs@[place as int]@.take(i as int);
                    assert(followed(bytemap.data@, start as int, end as int, less));
                    assert forall|k: int|
                        0 <= k < more.len() && start <= (#[trigger] more[k]) < end
                            implies bytemap.data@[place_of(start as int, more[k] as int)]
                        != ObjectMeta::Allocated by {
                        if k < i {
                            assert(less[k] == more[k]);
                        }
                    }
                    assert forall|q: int|
                        0 <= q < n && (#[trigger] bytemap.data@[q]) == ObjectMeta::Marked && q
                            != place implies followed(
                        bytemap.data@,
                        start as int,
                        end as int,
                        refs@[q]@,
                    ) || on_stack(self.stack@, start as int, q) by {
                        if prev[q] == ObjectMeta::Marked {
                            if !followed(prev, start as int, end as int, refs@[q]@) {
                                let k = choose|k: int|
                                    0 <= k < prev_stack.len() && place_of(
                                        start as int,
                                        (#[trigger] prev_stack[k]) as int,
                                    ) == q;
                                assert(self.stack@[k] == prev_stack[k]);
                            }
                        } else {
                            assert(place_of(start as int, self.stack@[self.stack@.len() - 1] as int)
                                == q);
                        }
                    }
                    if start <= r < end && prev[at] == ObjectMeta::Allocated {
                        let bigger = found.insert(at);
                        assert(!found.contains(at));
                        assert(universe.contains(at));
                        vstd::set_lib::lemma_len_subset(bigger, universe);
                        found = bigger;
                    }
                }
                i = i + 1;
            }
            proof {
                assert(refs@[place as int]@.take(len as int) =~= refs@[place as int]@);
            }
        }
        assert(self.stack@ =~= Seq::<usize>::empty());
    }

    /// Visits what the words of the stacks of all threads, and of their registers, point
    /// into, and marks all that these objects lead to. If nothing was marked before, exactly
    /// what the words lead to is marked.
    pub fn mark_roots(
        &mut self,
        bytemap: &mut Bytemap,
        start: usize,
        end: usize,
        stacks: &Vec<Vec<usize>>,
        starts: &Vec<Vec<Option<usize>>>,
        refs: &Vec<Vec<usize>>,
    )
        requires
            covered(start as int, end as int, old(bytemap).data@),
            refs@.len() == old(bytemap).data@.len(),
            forall|k: int|
                0 <= k < old(self).stack@.len() ==> start <= (#[trigger] old(self).stack@[k])
                    < end,
            marked_followed(
                old(bytemap).data@,
                old(self).stack@,
                start as int,
                end as int,
                refs@,
            ),
            starts@.len() == stacks@.len(),
            forall|i: int|
                0 <= i < stacks@.len() ==> (#[trigger] starts@[i])@.len() == stacks@[i]@.len(),
        ensures
            final(self).stack@ == Seq::<usize>::empty(),
            only_marked(old(bytemap).data@, final(bytemap).data@),
            marked_followed(
                final(bytemap).data@,
                Seq::empty(),
                start as int,
                end as int,
                refs@,
            ),
            ({
                let roots = stack_roots(
                    stacks@,
                    starts@,
                    start as int,
                    end as int,
                    stacks@.len() as int,
                );
                &&& followed(final(bytemap).data@, start as int, end as int, roots)
                &&& forall|s: Set<int>| #[trigger]
                    closed_under(old(bytemap).data@, refs@, start as int, end as int, s) && within(
                        old(bytemap).data@,
                        old(self).stack@,
                        start as int,
                        s,
                    ) && refs_in(old(bytemap).data@, start as int, end as int, roots, s) ==> within(
                        final(bytemap).data@,
                        Seq::empty(),
                        start as int,
                        s,
                    )
                &&& old(self).stack@.len() == 0 && (forall|i: int|
                    0 <= i < old(bytemap).data@.len() ==> (#[trigger] old(bytemap).data@[i])
                        != ObjectMeta::Marked) ==> forall|p: int|
                    0 <= p < old(bytemap).data@.len() ==> (#[trigger] final(bytemap).data@[p]
                        == ObjectMeta::Marked <==> led_to(
                        old(bytemap).data@,
                        refs@,
                        start as int,
                        end as int,
                        roots,
                        p,
                    ))
            }),
    {
        let ghost first = bytemap.data@;
        let ghost stack0 = self.stack@;
        let ghost st = start as int;
        let ghost en = end as int;
        let mut i: usize = 0;
        while i < stacks.len()
            invariant
                i <= stacks@.len(),
                st == start,
                en == end,
                covered(st, en, bytemap.data@),
                covered(st, en, first),
                refs@.len() == first.len(),
                starts@.len() == stacks@.len(),
                forall|i: int|
                    0 <= i < stacks@.len() ==> (#[trigger] starts@[i])@.len() == stacks@[i]@.len(),
                only_marked(first, bytemap.data@),
                forall|k: int| 0 <= k < self.stack@.len() ==> st <= (#[trigger] self.stack@[k]) < en,
                marked_followed(bytemap.data@, self.stack@, st, en, refs@),
                followed(bytemap.data@, st, en, stack_roots(stacks@, starts@, st, en, i as int)),
                forall|s: Set<int>|
                    within(first, stack0, st, s) && #[trigger] refs_in(
                        first,
                        st,
                        en,
                        stack_roots(stacks@, starts@, st, en, i as int),
                        s,
                    ) ==> within(bytemap.data@, self.stack@, st, s),
            decreases stacks@.len() - i,
        {
            let ghost prev = bytemap.data@;
            let ghost prev_stack = self.stack@;
            let ghost less = stack_roots(stacks@, starts@, st, en, i as int);
            let ghost more = stack_roots(stacks@, starts@, st, en, i + 1);
            let ghost list = conservative(
                stacks@[i as int]@,
                starts@[i as int]@,
                st,
                en,
                stacks@[i as int]@.len() as int,
            );
            assert(starts@[i as int]@.len() == stacks@[i as int]@.len());
            self.visit_range_conservatively(bytemap, start, end, &stacks[i], &starts[i]);
            proof {
                lemma_all_visited(prev, prev_stack, st, en, list, refs@);
                lemma_only_marked_trans(first, prev, bytemap.data@);
                assert(more == less + list);
                assert(followed(bytemap.data@, st, en, less));
                assert forall|k: int| 0 <= k < more.len() && st <= (#[trigger] more[k]) < en implies
                    bytemap.data@[place_of(st, more[k] as int)] != ObjectMeta::Allocated by {
                    if k < less.len() {
                        assert(less[k] == more[k]);
                    } else {
                        assert(list[k - less.len()] == more[k]);
                    }
                }
                assert forall|s: Set<int>|
                    within(first, stack0, st, s) && #[trigger] refs_in(
                        first,
                        st,
                        en,
                        more,
                        s,
                    ) implies within(bytemap.data@, self.stack@, st, s) by {
                    assert forall|k: int|
                        0 <= k < less.len() && st <= (#[trigger] less[k]) < en && first[place_of(
                            st,
                            less[k] as int,
                        )] == ObjectMeta::Allocated implies s.contains(
                        place_of(st, less[k] as int),
                    ) by {
                        assert(more[k] == less[k]);
                    }
                    assert(refs_in(first, st, en, less, s));
                    assert forall|k: int|
                        0 <= k < list.len() && st <= (#[trigger] list[k]) < en && first[place_of(
                            st,
                            list[k] as int,
                        )] == ObjectMeta::Allocated implies s.contains(
                        place_of(st, list[k] as int),
                    ) by {
                        assert(more[less.len() + k] == list[k]);
                    }
                    assert(refs_in(first, st, en, list, s));
                }
            }
            i = i + 1;
        }
        let ghost mid = bytemap.data@;
        let ghost mid_stack = self.stack@;
        self.mark(bytemap, start, end, refs);
        proof {
            let roots = stack_roots(stacks@, starts@, st, en, stacks@.len() as int);
            lemma_only_marked_trans(first, mid, bytemap.data@);
            assert(followed(mid, st, en, roots));
            assert forall|k: int| 0 <= k < roots.len() && st <= (#[trigger] roots[k]) < en implies
                bytemap.data@[place_of(st, roots[k] as int)] != ObjectMeta::Allocated by {
                let at = place_of(st, roots[k] as int);
                assert(mid[at] != ObjectMeta::Allocated);
                assert(bytemap.data@[at] == mid[at]);
            }
            assert forall|s: Set<int>| #[trigger]
                closed_under(first, refs@, st, en, s) && within(first, stack0, st, s) && refs_in(
                    first,
                    st,
                    en,
                    roots,
                    s,
                ) implies within(bytemap.data@, Seq::empty(), st, s) by {
                assert(within(mid, mid_stack, st, s));
                assert(closed_under(mid, refs@, st, en, s)) by {
                    assert forall|p: int, k: int|
                        s.contains(p) && 0 <= p < refs@.len() && 0 <= k < refs@[p]@.len() && st <= (
                        #[trigger] refs@[p]@[k]) < en && mid[place_of(st, refs@[p]@[k] as int)]
                            == ObjectMeta::Allocated implies s.contains(
                        place_of(st, refs@[p]@[k] as int),
                    ) by {
                        let at = place_of(st, refs@[p]@[k] as int);
                        assert(0 <= at < first.len());
                        assert(mid[at] == ObjectMeta::Allocated);
                    }
                }
            }
            if stack0.len() == 0 && (forall|i: int|
                0 <= i < first.len() ==> (#[trigger] first[i]) != ObjectMeta::Marked) {
                assert forall|s: Set<int>| within(first, stack0, st, s) by {}
                assert forall|p: int| 0 <= p < first.len() implies (#[trigger] bytemap.data@[p]
                    == ObjectMeta::Marked <==> led_to(first, refs@, st, en, roots, p)) by {
                    lemma_marked_exact(first, bytemap.data@, refs@, st, en, roots, p);
                }
            }
        }
    }
}

/// The objects that the first `n` words point into.
pub open spec fn conservative(
    words: Seq<usize>,
    starts: Seq<Option<usize>>,
    start: int,
    end: int,
    n: int,
) -> Seq<usize>
    decreases n,
{
    if n <= 0 {
        Seq::empty()
    } else {
        let rest = conservative(words, starts, start, end, n - 1);
        if words[n - 1] != 0 && start <= words[n - 1] < end && starts[n - 1] is Some {
            rest.push(starts[n - 1]->0)
        } else {
            rest
        }
    }
}

} // verus!
