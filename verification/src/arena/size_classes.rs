//! The sizes that objects are rounded up to.

use vstd::prelude::*;

use super::collection::ArenaCollection;
use super::{align_usize, PAGE_HEADER, WORD};

verus! {

/// What a proposed size leads to.
#[derive(Clone, Copy, PartialEq, Eq, Debug, Structural)]
pub enum ClassStep {
    /// The size is a class.
    Take { size: usize },
    /// The class is there already.
    Skip,
    /// There are no more classes.
    Stop,
}

/// The size below which every multiple of the grain is a class.
pub const PRECISE_CUTOFF: usize = 80;

/// The class that is always there.
pub const COMMON_CLASS: usize = 256;

/// `n` rounded up to the grain.
pub open spec fn grained(n: int) -> int {
    (n + 15) / 16 * 16
}

/// The class for a proposed size: the size itself, rounded up, or all of a page if that
/// wastes no more of it.
pub open spec fn better_class(size: int, page_size: int) -> int {
    let room = page_size - PAGE_HEADER;
    let class = grained(size);
    let blocks = room / class;
    let whole = room - room % 16;
    let wastage = room - blocks * class;
    let new_wastage = (whole - class) * blocks;
    if new_wastage > wastage {
        class
    } else {
        whole
    }
}

/// Whether there is a class for a proposed size: a page has room for it, and the wastage can
/// be counted.
pub open spec fn class_possible(size: int, page_size: int) -> bool {
    let room = page_size - PAGE_HEADER;
    let class = grained(size);
    let whole = room - room % 16;
    &&& 0 < size
    &&& PAGE_HEADER <= page_size
    &&& class <= whole
    &&& (whole - class) * (room / class) <= usize::MAX
}

/// What a proposed size leads to. `last` is the last class, if there is one.
pub open spec fn class_step(
    size: int,
    threshold: int,
    page_size: int,
    last: Option<usize>,
) -> ClassStep {
    if size > threshold {
        ClassStep::Stop
    } else {
        let class = better_class(size, page_size);
        if Some(class as usize) == last || (last is None && class == usize::MAX) {
            ClassStep::Skip
        } else if class > threshold {
            ClassStep::Stop
        } else {
            ClassStep::Take { size: class as usize }
        }
    }
}

/// What a proposed size leads to. `last` is the last class, if there is one.
pub fn size_class_step(size: usize, threshold: usize, page_size: usize, last: Option<usize>) -> (r:
    ClassStep)
    requires
        size <= threshold ==> class_possible(size as int, page_size as int),
    ensures
        r == class_step(size as int, threshold as int, page_size as int, last),
{
    if size > threshold {
        return ClassStep::Stop;
    }
    let class: usize = align_usize(size, WORD);
    let room: usize = page_size - PAGE_HEADER;
    let whole: usize = room - room % WORD;
    let blocks: usize = room / class;
    proof {
        vstd::arithmetic::div_mod::lemma_fundamental_div_mod(room as int, class as int);
        assert(blocks * class == class * blocks) by (nonlinear_arith);
        assert(class <= whole);
    }
    let wastage: usize = room - blocks * class;
    let new_wastage: usize = (whole - class) * blocks;
    let better: usize = if new_wastage > wastage {
        class
    } else {
        whole
    };
    let known: usize = match last {
        Some(l) => l,
        None => usize::MAX,
    };
    if better == known {
        return ClassStep::Skip;
    }
    if better > threshold {
        return ClassStep::Stop;
    }
    ClassStep::Take { size: better }
}

/// Whether numbers ascend, each one occurring once.
pub open spec fn ascends(s: Seq<usize>) -> bool {
    forall|i: int, j: int| 0 <= i < j < s.len() ==> s[i] < s[j]
}

/// Puts a class where it belongs, unless it is there.
fn insert_class(classes: &mut Vec<usize>, size: usize)
    requires
        ascends(old(classes)@),
    ensures
        ascends(final(classes)@),
        forall|x: usize| #[trigger]
            final(classes)@.contains(x) <==> old(classes)@.contains(x) || x == size,
{
    let ghost before = classes@;
    let mut i: usize = 0;
    while i < classes.len() && classes[i] < size
        invariant
            i <= classes@.len(),
            classes@ == before,
            forall|k: int| 0 <= k < i ==> before[k] < size,
        decreases classes@.len() - i,
    {
        i = i + 1;
    }
    if i < classes.len() && classes[i] == size {
        assert(before[i as int] == size);
        return;
    }
    classes.insert(i, size);
    proof {
        assert(classes@ =~= before.insert(i as int, size));
        assert forall|a: int, b: int| 0 <= a < b < classes@.len() implies classes@[a]
            < classes@[b] by {
            if a < i && b > i {
                assert(before[a] < before[b - 1]);
            }
        }
        assert forall|x: usize| #[trigger] classes@.contains(x) <==> before.contains(x) || x
            == size by {
            if before.contains(x) {
                let k = choose|k: int| 0 <= k < before.len() && before[k] == x;
                if k < i {
                    assert(classes@[k] == x);
                } else {
                    assert(classes@[k + 1] == x);
                }
            }
            assert(classes@[i as int] == size);
            if classes@.contains(x) && x != size {
                let k = choose|k: int| 0 <= k < classes@.len() && classes@[k] == x;
                if k < i {
                    assert(before[k] == x);
                } else {
                    assert(before[k - 1] == x);
                }
            }
        }
    }
}

/// The classes out of those that were chosen: the multiples of the grain below the cutoff,
/// the chosen ones, and the common one, in order.
pub fn size_classes(chosen: &Vec<usize>) -> (r: Vec<usize>)
    ensures
        ascends(r@),
        forall|x: usize| #[trigger]
            r@.contains(x) <==> (x % 16 == 0 && 16 <= x < 80) || chosen@.contains(x) || x == 256,
{
    let mut r: Vec<usize> = Vec::new();
    let mut size: usize = WORD;
    while size < PRECISE_CUTOFF
        invariant
            16 <= size <= 80,
            size % 16 == 0,
            ascends(r@),
            forall|x: usize| #[trigger] r@.contains(x) <==> x % 16 == 0 && 16 <= x < size,
        decreases 80 - size,
    {
        insert_class(&mut r, size);
        size = size + WORD;
    }
    let mut i: usize = 0;
    while i < chosen.len()
        invariant
            i <= chosen@.len(),
            ascends(r@),
            forall|x: usize| #[trigger]
                r@.contains(x) <==> (x % 16 == 0 && 16 <= x < 80) || chosen@.take(
                    i as int,
                ).contains(x),
        decreases chosen@.len() - i,
    {
        let ghost before = r@;
        insert_class(&mut r, chosen[i]);
        proof {
            let less = chosen@.take(i as int);
            let more = chosen@.take(i + 1);
            assert forall|x: usize| more.contains(x) <==> less.contains(x) || x
                == chosen@[i as int] by {
                if less.contains(x) {
                    let k = choose|k: int| 0 <= k < less.len() && less[k] == x;
                    assert(more[k] == x);
                }
                assert(more[i as int] == chosen@[i as int]);
                if more.contains(x) && x != chosen@[i as int] {
                    let k = choose|k: int| 0 <= k < more.len() && more[k] == x;
                    assert(less[k] == x);
                }
            }
            assert forall|x: usize| #[trigger] r@.contains(x) <==> (x % 16 == 0 && 16 <= x < 80)
                || more.contains(x) by {
                assert(before.contains(x) <==> (x % 16 == 0 && 16 <= x < 80) || less.contains(x));
            }
        }
        i = i + 1;
    }
    assert(chosen@.take(i as int) =~= chosen@);
    let ghost before = r@;
    insert_class(&mut r, COMMON_CLASS);
    r
}

/// The classes that are chosen from proposed sizes, in order, up to the first that ends the
/// choice. `last` is the last class.
pub open spec fn chosen_from(
    proposed: Seq<usize>,
    threshold: int,
    page_size: int,
    last: usize,
) -> Seq<usize>
    decreases proposed.len(),
{
    if proposed.len() == 0 {
        Seq::empty()
    } else {
        match class_step(proposed[0] as int, threshold, page_size, Some(last)) {
            ClassStep::Stop => Seq::empty(),
            ClassStep::Skip => chosen_from(proposed.skip(1), threshold, page_size, last),
            ClassStep::Take { size } => seq![size] + chosen_from(
                proposed.skip(1),
                threshold,
                page_size,
                size,
            ),
        }
    }
}

/// The classes for proposed sizes: besides those that are always there, those that the
/// proposed sizes lead to, in order.
pub fn size_classes_from(proposed: &Vec<usize>, threshold: usize, page_size: usize) -> (r: Vec<
    usize,
>)
    requires
        forall|i: int|
            0 <= i < proposed@.len() && (#[trigger] proposed@[i]) <= threshold ==> class_possible(
                proposed@[i] as int,
                page_size as int,
            ),
    ensures
        ascends(r@),
        forall|x: usize| #[trigger]
            r@.contains(x) <==> (x % 16 == 0 && 16 <= x < 80) || chosen_from(
                proposed@,
                threshold as int,
                page_size as int,
                64,
            ).contains(x) || x == 256,
{
    let mut chosen: Vec<usize> = Vec::new();
    let mut last: usize = PRECISE_CUTOFF - WORD;
    let ghost goal = chosen_from(proposed@, threshold as int, page_size as int, 64);
    let mut i: usize = 0;
    let mut more: bool = true;
    proof {
        assert(proposed@.skip(0) =~= proposed@);
        assert(chosen@ + goal =~= goal);
    }
    while more && i < proposed.len()
        invariant
            i <= proposed@.len(),
            forall|i: int|
                0 <= i < proposed@.len() && (#[trigger] proposed@[i]) <= threshold
                    ==> class_possible(proposed@[i] as int, page_size as int),
            goal == chosen_from(proposed@, threshold as int, page_size as int, 64),
            !more ==> chosen@ == goal,
            more ==> chosen@ + chosen_from(
                proposed@.skip(i as int),
                threshold as int,
                page_size as int,
                last,
            ) == goal,
        decreases proposed@.len() - i, (if more { 1int } else { 0int }),
    {
        let ghost rest = proposed@.skip(i as int);
        let ghost before = chosen@;
        assert(rest[0] == proposed@[i as int]);
        assert(rest.skip(1) =~= proposed@.skip(i + 1));
        match size_class_step(proposed[i], threshold, page_size, Some(last)) {
            ClassStep::Stop => {
                more = false;
                assert(chosen@ + Seq::<usize>::empty() =~= chosen@);
            },
            ClassStep::Skip => {
                i = i + 1;
            },
            ClassStep::Take { size } => {
                chosen.push(size);
                last = size;
                i = i + 1;
                proof {
                    let tail = chosen_from(
                        proposed@.skip(i as int),
                        threshold as int,
                        page_size as int,
                        last,
                    );
                    assert(before + (seq![size] + tail) =~= chosen@ + tail);
                }
            },
        }
    }
    proof {
        if more {
            assert(proposed@.skip(i as int).len() == 0);
            assert(chosen@ + Seq::<usize>::empty() =~= chosen@);
        }
    }
    size_classes(&chosen)
}

/// The class for every index, after some classes have been entered, and the first index
/// that has none.
pub open spec fn entered(table: Seq<usize>, classes: Seq<usize>, n: int) -> (Seq<usize>, int)
    decreases n,
{
    if n <= 0 {
        (table, 0)
    } else {
        let (t, next) = entered(table, classes, n - 1);
        let index = (classes[n - 1] + 15) / 16;
        (
            Seq::new(
                t.len(),
                |i: int|
                    if next <= i <= index {
                        classes[n - 1]
                    } else {
                        t[i]
                    },
            ),
            index + 1,
        )
    }
}

/// The class for every index. Indices above the last class are classes of their own.
pub open spec fn class_table(table: Seq<usize>, classes: Seq<usize>, count: int) -> Seq<usize> {
    let (t, next) = entered(table, classes, classes.len() as int);
    Seq::new(
        t.len(),
        |i: int|
            if next <= i < count {
                (i * 16) as usize
            } else {
                t[i]
            },
    )
}

impl ArenaCollection {
    pub fn index_to_size_class(index: usize) -> (r: usize)
        requires
            index * 16 <= usize::MAX,
        ensures
            r == index * 16,
    {
        index * WORD
    }

    pub fn size_class_to_index(size: usize) -> (r: usize)
        requires
            size + 15 <= usize::MAX,
        ensures
            r == (size + 15) / 16,
    {
        (size + (WORD - 1)) / WORD
    }

    pub fn num_size_classes(small_request_threshold: usize) -> (r: usize)
        ensures
            r == small_request_threshold as int / 16 + 1,
    {
        small_request_threshold / WORD + 1
    }

    /// Enters the class for every index in a table.
    pub fn build_size_class_table(
        table: &mut Vec<usize>,
        size_classes: &Vec<usize>,
        small_request_threshold: usize,
    )
        requires
            forall|i: int|
                0 <= i < size_classes@.len() ==> (#[trigger] size_classes@[i]) + 15 <= usize::MAX && (
                size_classes@[i] + 15) / 16 < old(table)@.len(),
            small_request_threshold as int / 16 + 1 <= old(table)@.len(),
        ensures
            final(table)@ == class_table(
                old(table)@,
                size_classes@,
                small_request_threshold as int / 16 + 1,
            ),
    {
        let ghost before = table@;
        let ghost len = table@.len();
        assert(len == table.len());
        let mut next_index: usize = 0;
        let mut k: usize = 0;
        while k < size_classes.len()
            invariant
                k <= size_classes@.len(),
                table@.len() == len <= usize::MAX,
                next_index <= len,
                forall|i: int|
                    0 <= i < size_classes@.len() ==> (#[trigger] size_classes@[i]) + 15 <= usize::MAX
                        && (size_classes@[i] + 15) / 16 < len,
                (table@, next_index as int) == entered(before, size_classes@, k as int),
            decreases size_classes@.len() - k,
        {
            let size_class: usize = size_classes[k];
            let index: usize = Self::size_class_to_index(size_class);
            let ghost t = table@;
            let mut i: usize = next_index;
            while i <= index
                invariant
                    next_index <= i,
                    index < len <= usize::MAX,
                    i <= index + 1 || i == next_index,
                    table@.len() == len,
                    t.len() == len,
                    forall|j: int|
                        0 <= j < len ==> (#[trigger] table@[j]) == if next_index <= j < i {
                            size_class
                        } else {
                            t[j]
                        },
                decreases index + 1 - i,
            {
                table.set(i, size_class);
                i = i + 1;
            }
            next_index = index + 1;
            k = k + 1;
            assert(table@ =~= entered(before, size_classes@, k as int).0);
        }
        let ghost t = table@;
        let count: usize = Self::num_size_classes(small_request_threshold);
        let ghost next = next_index;
        let mut i: usize = next_index;
        while i < count
            invariant
                next <= i,
                count <= len,
                count == small_request_threshold as int / 16 + 1,
                table@.len() == len,
                t.len() == len,
                forall|j: int|
                    0 <= j < len ==> (#[trigger] table@[j]) == if next <= j < i && j < count {
                        (j * 16) as usize
                    } else {
                        t[j]
                    },
            decreases count - i,
        {
            table.set(i, Self::index_to_size_class(i));
            i = i + 1;
        }
        assert(table@ =~= class_table(before, size_classes@, count as int));
    }
}

/// In a table of ascending classes, the class for an index has room for all sizes of the
/// index, and it is the smallest one that has. It is one of the classes, or the index's own
/// size if none of them is large enough.
pub proof fn lemma_class_table(table: Seq<usize>, classes: Seq<usize>, count: int, i: int)
    requires
        ascends(classes),
        forall|k: int|
            0 <= k < classes.len() ==> (#[trigger] classes[k]) % 16 == 0 && classes[k] > 0 && (
            classes[k] + 15) / 16 < table.len(),
        0 <= i < count <= table.len(),
        count * 16 <= usize::MAX,
    ensures
        ({
            let t = class_table(table, classes, count);
            &&& t[i] >= i * 16
            &&& forall|k: int|
                0 <= k < classes.len() && (#[trigger] classes[k]) >= i * 16 ==> t[i] <= classes[k]
                    && classes.contains(t[i])
            &&& (forall|k: int| 0 <= k < classes.len() ==> (#[trigger] classes[k]) < i * 16)
                ==> t[i] == i * 16
        }),
{
    let n = classes.len() as int;
    lemma_entered(table, classes, n);
    let t = class_table(table, classes, count);
    assert forall|k: int| 0 <= k < n && (#[trigger] classes[k]) >= i * 16 implies t[i]
        <= classes[k] && classes.contains(t[i]) by {
        assert(classes[k] <= classes[n - 1]);
    }
    if n > 0 {
        assert(classes[n - 1] % 16 == 0);
    }
}

proof fn lemma_entered(table: Seq<usize>, classes: Seq<usize>, n: int)
    requires
        ascends(classes),
        0 <= n <= classes.len(),
        forall|k: int|
            0 <= k < classes.len() ==> (#[trigger] classes[k]) % 16 == 0 && classes[k] > 0 && (
            classes[k] + 15) / 16 < table.len(),
    ensures
        ({
            let (t, next) = entered(table, classes, n);
            &&& t.len() == table.len()
            &&& next == if n == 0 {
                0
            } else {
                classes[n - 1] as int / 16 + 1
            }
            &&& forall|i: int|
                0 <= i < next ==> (#[trigger] t[i]) >= i * 16 && classes.contains(t[i])
            &&& forall|i: int, k: int|
                0 <= i < next && 0 <= k < n && (#[trigger] classes[k]) >= i * 16 ==> (
                #[trigger] t[i]) <= classes[k]
        }),
    decreases n,
{
    if n > 0 {
        lemma_entered(table, classes, n - 1);
        let (t0, next0) = entered(table, classes, n - 1);
        let (t, next) = entered(table, classes, n);
        let c = classes[n - 1];
        if n > 1 {
            assert(classes[n - 2] < c);
        }
        assert forall|i: int, k: int|
            0 <= i < next && 0 <= k < n && (#[trigger] classes[k]) >= i * 16 implies (
        #[trigger] t[i]) <= classes[k] by {
            if i < next0 {
                assert(t[i] == t0[i]);
                if k == n - 1 && n > 1 {
                    assert(classes[n - 2] >= i * 16);
                }
            } else if k < n - 1 {
                assert(classes[k] <= classes[n - 2]);
            }
        }
        assert forall|i: int| 0 <= i < next implies (#[trigger] t[i]) >= i * 16
            && classes.contains(t[i]) by {
            if i < next0 {
                assert(t[i] == t0[i]);
            } else {
                assert(t[i] == classes[n - 1]);
            }
        }
    }
}

} // verus!
