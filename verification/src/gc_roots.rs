//! The ranges of memory that roots are looked for in.

use vstd::prelude::*;

verus! {

/// A range of addresses.
#[derive(Clone, Copy, PartialEq, Eq, Debug, Structural)]
pub struct AddressRange {
    pub address_low: usize,
    pub address_high: usize,
}

impl AddressRange {
    pub open spec fn spec_contains(&self, range: &AddressRange) -> bool {
        self.address_low <= range.address_low && self.address_high >= range.address_high
    }

    /// Whether an address is in the range.
    pub open spec fn holds(&self, addr: int) -> bool {
        self.address_low <= addr < self.address_high
    }

    pub fn contains(&self, range: &AddressRange) -> (r: bool)
        ensures
            r == self.spec_contains(range),
    {
        self.address_low <= range.address_low && self.address_high >= range.address_high
    }
}

/// The ranges, the one that was added last at the end.
pub struct GCRoots {
    pub ranges: Vec<AddressRange>,
}

/// What is left of a range without another: a piece below, and a piece above.
pub open spec fn except_pieces(range: AddressRange, except: AddressRange) -> Seq<AddressRange> {
    let below = if range.address_low < except.address_low {
        seq![
            AddressRange { address_low: range.address_low, address_high: except.address_low },
        ]
    } else {
        Seq::empty()
    };
    let above = if range.address_high > except.address_high {
        seq![
            AddressRange { address_low: except.address_high, address_high: range.address_high },
        ]
    } else {
        Seq::empty()
    };
    below + above
}

/// The ranges that another one does not contain.
pub open spec fn not_contained(ranges: Seq<AddressRange>, range: AddressRange, n: int) -> Seq<
    AddressRange,
>
    decreases n,
{
    if n <= 0 {
        Seq::empty()
    } else if range.spec_contains(&ranges[n - 1]) {
        not_contained(ranges, range, n - 1)
    } else {
        not_contained(ranges, range, n - 1).push(ranges[n - 1])
    }
}

impl GCRoots {
    pub fn new() -> (r: Self)
        ensures
            r.ranges@.len() == 0,
    {
        GCRoots { ranges: Vec::new() }
    }

    pub fn gc_roots_add(&mut self, range: AddressRange)
        ensures
            final(self).ranges@ == old(self).ranges@.push(range),
    {
        self.ranges.push(range);
    }

    /// Adds what is left of a range without another.
    pub fn gc_roots_add_except(&mut self, range: AddressRange, except: AddressRange)
        ensures
            final(self).ranges@ == old(self).ranges@ + except_pieces(range, except),
    {
        let ghost before = self.ranges@;
        if range.address_low < except.address_low {
            self.gc_roots_add(
                AddressRange {
                    address_low: range.address_low,
                    address_high: except.address_low,
                },
            );
        }
        if range.address_high > except.address_high {
            self.gc_roots_add(
                AddressRange {
                    address_low: except.address_high,
                    address_high: range.address_high,
                },
            );
        }
        assert(self.ranges@ =~= before + except_pieces(range, except));
    }

    /// Removes all ranges that lie within another. The others stay as they are.
    pub fn gc_roots_remove_by_range(&mut self, range: AddressRange)
        ensures
            final(self).ranges@ == not_contained(
                old(self).ranges@,
                range,
                old(self).ranges@.len() as int,
            ),
    {
        let ghost before = self.ranges@;
        let mut kept: Vec<AddressRange> = Vec::new();
        let mut i: usize = 0;
        while i < self.ranges.len()
            invariant
                i <= self.ranges@.len(),
                self.ranges@ == before,
                kept@ == not_contained(before, range, i as int),
            decreases self.ranges@.len() - i,
        {
            let r: AddressRange = self.ranges[i];
            if !range.contains(&r) {
                kept.push(r);
            }
            i = i + 1;
        }
        self.ranges = kept;
    }
}

/// Whether some range holds an address.
pub open spec fn covered(ranges: Seq<AddressRange>, addr: int) -> bool {
    exists|k: int| 0 <= k < ranges.len() && (#[trigger] ranges[k]).holds(addr)
}

/// Adding a range without another makes exactly the addresses of the range that are not in
/// the other one roots, besides those that were.
pub proof fn lemma_except(
    ranges: Seq<AddressRange>,
    range: AddressRange,
    except: AddressRange,
    addr: int,
)
    requires
        range.address_low <= except.address_low <= except.address_high <= range.address_high,
    ensures
        covered(ranges + except_pieces(range, except), addr) <==> covered(ranges, addr) || (
        range.holds(addr) && !except.holds(addr)),
{
    let pieces = except_pieces(range, except);
    let all = ranges + pieces;
    if covered(ranges, addr) {
        let k = choose|k: int| 0 <= k < ranges.len() && (#[trigger] ranges[k]).holds(addr);
        assert(all[k].holds(addr));
    }
    if range.holds(addr) && !except.holds(addr) {
        if addr < except.address_low {
            assert(pieces[0].holds(addr));
            assert(all[ranges.len() as int].holds(addr));
        } else {
            let last = pieces.len() - 1;
            assert(pieces[last].holds(addr));
            assert(all[ranges.len() + last].holds(addr));
        }
    }
    if covered(all, addr) {
        let k = choose|k: int| 0 <= k < all.len() && (#[trigger] all[k]).holds(addr);
        if k < ranges.len() {
            assert(ranges[k].holds(addr));
        } else {
            assert(pieces[k - ranges.len()].holds(addr));
        }
    }
}

/// After a range has been removed, none that lies within it is left.
pub proof fn lemma_removed(ranges: Seq<AddressRange>, range: AddressRange, n: int, k: int)
    requires
        0 <= n <= ranges.len(),
        0 <= k < not_contained(ranges, range, n).len(),
    ensures
        !range.spec_contains(&not_contained(ranges, range, n)[k]),
    decreases n,
{
    if n > 0 {
        let rest = not_contained(ranges, range, n - 1);
        if k < rest.len() {
            lemma_removed(ranges, range, n - 1, k);
        }
    }
}

} // verus!
