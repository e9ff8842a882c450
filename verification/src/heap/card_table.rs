//! Simple two-level card table implementation.
//!
//! Every card of `CARD_SIZE` heap bytes has one byte in the table. The table is
//! addressed through a biased begin, so that a heap address shifted right by
//! `CARD_SHIFT` and added to it gives the address of the card's byte.

use vstd::prelude::*;

use super::bitmap::HeapBitmap;
use crate::bits::{ascending, lemma_ascending, lemma_ascending_gap};

verus! {

/// The number of bytes of a machine word of the table.
pub const CARD_WORD: usize = 8;

proof fn lemma_card_shift(x: usize)
    by (bit_vector)
    ensures
        x >> 10usize == x / 1024,
        x & 0xff == x % 256,
{
}

proof fn lemma_card_unshift(x: usize)
    requires
        x * 1024 <= usize::MAX,
    ensures
        x << 10usize == x * 1024,
{
    vstd::arithmetic::power2::lemma2_to64();
    vstd::bits::lemma_usize_shl_is_mul(x, 10);
}

/// `x` rounded up to a multiple of the word size.
pub open spec fn word_up(x: int) -> int {
    x + (8 - x % 8) % 8
}

/// `x` rounded down to a multiple of the word size.
pub open spec fn word_down(x: int) -> int {
    x - x % 8
}

/// Whether the word of cards that starts at `w` has a card that is not clean.
pub open spec fn word_used(cards: Seq<u8>, w: int) -> bool {
    exists|j: int| w <= j < w + 8 && #[trigger] cards[j] != 0
}

/// Whether a scan of the cards `b..e` looks at card `k`. Outside whole words
/// that is a card of the minimum age. In a whole word it is also every card
/// with a later card in the word that is not clean.
pub open spec fn card_selected(cards: Seq<u8>, b: int, e: int, minimum_age: u8, k: int) -> bool {
    if word_up(b) <= k < word_down(e) {
        &&& word_used(cards, word_down(k))
        &&& {
            ||| cards[k] >= minimum_age
            ||| exists|j: int| k < j < word_down(k) + 8 && #[trigger] cards[j] != 0
        }
    } else {
        cards[k] >= minimum_age
    }
}

/// The cards that a scan of `b..e` looks at.
pub open spec fn selected_cards(cards: Seq<u8>, b: int, e: int, minimum_age: u8) -> Set<int> {
    Set::new(|k: int| b <= k < e && card_selected(cards, b, e, minimum_age, k))
}

/// The changes from one state of the cards `lo..hi` to the next: the address of
/// each card that differs, with its value before and after, in order.
pub open spec fn card_changes(
    map_begin: int,
    before: Seq<u8>,
    after: Seq<u8>,
    lo: int,
    hi: int,
) -> Seq<(usize, u8, u8)>
    decreases hi - lo,
{
    if lo >= hi {
        Seq::empty()
    } else {
        let rest = card_changes(map_begin, before, after, lo, hi - 1);
        if before[hi - 1] != after[hi - 1] {
            rest.push(((map_begin + hi - 1) as usize, before[hi - 1], after[hi - 1]))
        } else {
            rest
        }
    }
}

proof fn lemma_changes_agree(
    map_begin: int,
    b1: Seq<u8>,
    b2: Seq<u8>,
    a1: Seq<u8>,
    a2: Seq<u8>,
    lo: int,
    hi: int,
)
    requires
        forall|k: int| lo <= k < hi ==> a1[k] == a2[k] && b1[k] == b2[k],
    ensures
        card_changes(map_begin, b1, a1, lo, hi) == card_changes(map_begin, b2, a2, lo, hi),
    decreases hi - lo,
{
    if lo < hi {
        lemma_changes_agree(map_begin, b1, b2, a1, a2, lo, hi - 1);
    }
}

proof fn lemma_changes_split(map_begin: int, before: Seq<u8>, after: Seq<u8>, lo: int, mid: int, hi: int)
    requires
        lo <= mid <= hi,
    ensures
        card_changes(map_begin, before, after, lo, hi) == card_changes(
            map_begin,
            before,
            after,
            lo,
            mid,
        ) + card_changes(map_begin, before, after, mid, hi),
    decreases hi - mid,
{
    let left = card_changes(map_begin, before, after, lo, mid);
    if mid < hi {
        lemma_changes_split(map_begin, before, after, lo, mid, hi - 1);
        let right = card_changes(map_begin, before, after, mid, hi - 1);
        if before[hi - 1] != after[hi - 1] {
            let x = ((map_begin + hi - 1) as usize, before[hi - 1], after[hi - 1]);
            assert(left + right.push(x) =~= (left + right).push(x));
        }
    } else {
        assert(left + card_changes(map_begin, before, after, mid, hi) =~= left);
    }
}

proof fn lemma_changes_none(map_begin: int, before: Seq<u8>, after: Seq<u8>, lo: int, hi: int)
    requires
        lo <= hi,
        forall|k: int| lo <= k < hi ==> before[k] == after[k],
    ensures
        card_changes(map_begin, before, after, lo, hi) == Seq::<(usize, u8, u8)>::empty(),
    decreases hi - lo,
{
    if lo < hi {
        lemma_changes_none(map_begin, before, after, lo, hi - 1);
    }
}

/// A card table: the bytes of its memory map, the address at which the map
/// begins, and the biased begin.
pub struct CardTable {
    map_begin: usize,
    cards: Vec<u8>,
    biased_begin: usize,
    offset: usize,
}

impl CardTable {
    pub const CARD_SHIFT: usize = 10;

    pub const CARD_SIZE: usize = 1024;

    pub const CARD_CLEAN: u8 = 0;

    pub const CARD_DIRTY: u8 = 0x70;

    pub const CARD_AGED: u8 = 0x6f;

    /// The address of the first card byte.
    pub closed spec fn begin(&self) -> int {
        self.map_begin as int
    }

    /// The value that leads from a shifted heap address to its card.
    pub closed spec fn bias(&self) -> int {
        self.biased_begin as int
    }

    /// The card bytes.
    pub closed spec fn view(&self) -> Seq<u8> {
        self.cards@
    }

    /// The map lies in the address space, on a word boundary.
    pub open spec fn wf(&self) -> bool {
        &&& self.begin() + self@.len() <= usize::MAX
        &&& self.begin() % 8 == 0
    }

    /// The position, in the map, of the card of a heap address.
    pub open spec fn card(&self, addr: int) -> int {
        self.bias() + addr / 1024 - self.begin()
    }

    /// The heap address at which a card begins.
    pub open spec fn card_start(&self, k: int) -> int {
        (self.begin() + k - self.bias()) * 1024
    }

    /// Only the cards differ.
    pub open spec fn same_map(&self, other: &Self) -> bool {
        &&& self.begin() == other.begin()
        &&& self.bias() == other.bias()
        &&& self@.len() == other@.len()
    }

    /// Whether all cards of `start..end` lie in the map.
    pub open spec fn in_map(&self, start: int, end: int) -> bool {
        &&& self.wf()
        &&& 0 <= self.card(start) <= self.card(end) <= self@.len()
    }

    /// The marked objects that a scan meets on the selected cards before `k`.
    pub open spec fn scan_list(
        &self,
        bitmap: &HeapBitmap<16>,
        b: int,
        e: int,
        minimum_age: u8,
        k: int,
    ) -> Seq<usize>
        decreases k - b,
    {
        if k <= b {
            Seq::empty()
        } else {
            let rest = self.scan_list(bitmap, b, e, minimum_age, k - 1);
            if card_selected(self@, b, e, minimum_age, k - 1) {
                rest + bitmap.addresses(
                    ascending(
                        bitmap.slots(),
                        bitmap.slot(self.card_start(k - 1)),
                        bitmap.slot(self.card_start(k - 1) + 1024),
                    ),
                )
            } else {
                rest
            }
        }
    }

    /// A scan meets every marked object on a card that is old enough, and no address that is
    /// not that of a marked object on one of the cards.
    pub proof fn lemma_scan_meets(
        &self,
        bitmap: &HeapBitmap<16>,
        b: int,
        e: int,
        minimum_age: u8,
        k: int,
    )
        requires
            0 < minimum_age,
            b <= k <= e,
            bitmap.addressable(),
        ensures
            forall|c: int, n: int|
                #![trigger self@[c], bitmap.slots().contains(n)]
                b <= c < k && self@[c] >= minimum_age && bitmap.slots().contains(n) && bitmap.slot(
                    self.card_start(c),
                ) <= n < bitmap.slot(self.card_start(c) + 1024) ==> self.scan_list(
                    bitmap,
                    b,
                    e,
                    minimum_age,
                    k,
                ).contains((bitmap.start() + n * 16) as usize),
            forall|i: int|
                0 <= i < self.scan_list(bitmap, b, e, minimum_age, k).len() ==> self.met_on(
                    bitmap,
                    b,
                    k,
                    #[trigger] self.scan_list(bitmap, b, e, minimum_age, k)[i],
                ),
        decreases k - b,
    {
        if b < k {
            self.lemma_scan_meets(bitmap, b, e, minimum_age, k - 1);
            let rest = self.scan_list(bitmap, b, e, minimum_age, k - 1);
            let all = self.scan_list(bitmap, b, e, minimum_age, k);
            let lo = bitmap.slot(self.card_start(k - 1));
            let hi = bitmap.slot(self.card_start(k - 1) + 1024);
            let slots = ascending(bitmap.slots(), lo, hi);
            let more = bitmap.addresses(slots);
            lemma_ascending(bitmap.slots(), lo, hi);
            let chosen = card_selected(self@, b, e, minimum_age, k - 1);
            assert(self@[k - 1] >= minimum_age ==> chosen) by {
                if self@[k - 1] >= minimum_age {
                    let w = word_down(k - 1);
                    assert(w <= k - 1 < w + 8 && self@[k - 1] != 0);
                }
            }
            assert forall|c: int, n: int|
                #![trigger self@[c], bitmap.slots().contains(n)]
                b <= c < k && self@[c] >= minimum_age && bitmap.slots().contains(n) && bitmap.slot(
                    self.card_start(c),
                ) <= n < bitmap.slot(self.card_start(c) + 1024) implies all.contains(
                (bitmap.start() + n * 16) as usize,
            ) by {
                let x = (bitmap.start() + n * 16) as usize;
                if c == k - 1 {
                    assert(slots.contains(n));
                    let j = choose|j: int| 0 <= j < slots.len() && slots[j] == n;
                    assert(more[j] == x);
                    assert(all[rest.len() + j] == x);
                } else {
                    assert(rest.contains(x));
                    let j = choose|j: int| 0 <= j < rest.len() && rest[j] == x;
                    assert(all[j] == x);
                }
            }
            assert forall|i: int| 0 <= i < all.len() implies self.met_on(
                bitmap,
                b,
                k,
                #[trigger] all[i],
            ) by {
                if i < rest.len() {
                    assert(all[i] == rest[i]);
                    assert(self.met_on(bitmap, b, k - 1, rest[i]));
                    let (c, n) = choose|c: int, n: int|
                        b <= c < k - 1 && #[trigger] self.on_card(bitmap, c, n) && rest[i] == (
                        bitmap.start() + n * 16) as usize;
                    assert(self.on_card(bitmap, c, n));
                } else {
                    let n = slots[i - rest.len()];
                    assert(slots.contains(n));
                    assert(self.on_card(bitmap, k - 1, n));
                }
            }
        }
    }

    /// Whether slot `n` is that of a marked object on card `c`.
    pub open spec fn on_card(&self, bitmap: &HeapBitmap<16>, c: int, n: int) -> bool {
        bitmap.slots().contains(n) && bitmap.slot(self.card_start(c)) <= n < bitmap.slot(
            self.card_start(c) + 1024,
        )
    }

    /// Whether an address is that of a marked object on one of the cards `b..k`.
    pub open spec fn met_on(&self, bitmap: &HeapBitmap<16>, b: int, k: int, x: usize) -> bool {
        exists|c: int, n: int|
            b <= c < k && #[trigger] self.on_card(bitmap, c, n) && x == (bitmap.start() + n
                * 16) as usize
    }

    /// A card table for the heap of `heap_capacity` bytes at `heap_begin`, in
    /// the memory map of `size` bytes at `map_begin`. The biased begin is moved
    /// up until its low byte is the value of a dirty card.
    pub fn new(heap_begin: usize, heap_capacity: usize, map_begin: usize, size: usize) -> (r: Self)
        requires
            heap_begin / 1024 <= map_begin,
            map_begin + 256 <= usize::MAX,
            map_begin + size <= usize::MAX,
            map_begin % 8 == 0,
            heap_capacity / 1024 + 256 <= size,
        ensures
            r.wf(),
            r.begin() == map_begin,
            r@.len() == size,
            forall|k: int| 0 <= k < size ==> r@[k] == CardTable::CARD_CLEAN,
            r.bias() % 256 == CardTable::CARD_DIRTY,
            0 <= r.bias() - (map_begin - heap_begin as int / 1024) < 256,
    {
        proof {
            lemma_card_shift(heap_begin);
        }
        let mut biased_begin: usize = map_begin - (heap_begin >> CardTable::CARD_SHIFT);
        let mut offset: usize = 0;
        proof {
            lemma_card_shift(biased_begin);
        }
        let biased_byte: usize = biased_begin & 0xff;
        if biased_byte != CardTable::CARD_DIRTY as usize {
            offset = if biased_byte <= CardTable::CARD_DIRTY as usize {
                CardTable::CARD_DIRTY as usize - biased_byte
            } else {
                CardTable::CARD_DIRTY as usize + 0x100 - biased_byte
            };
            biased_begin = biased_begin + offset;
        }
        let cards: Vec<u8> = vec![0u8; size];
        CardTable { map_begin, cards, biased_begin, offset }
    }

    /// Returns a value that when added to a heap address >> CardTable::CARD_SHIFT will
    /// address the appropriate card table byte. For convenience this value is
    /// cached in every mutator thread.
    pub fn get_biased_begin(&self) -> (r: usize)
        ensures
            r == self.bias(),
    {
        self.biased_begin
    }

    pub fn mem_map_begin(&self) -> (r: usize)
        ensures
            r == self.begin(),
    {
        self.map_begin
    }

    pub fn mem_map_end(&self) -> (r: usize)
        requires
            self.wf(),
        ensures
            r == self.begin() + self@.len(),
    {
        self.map_begin + self.cards.len()
    }

    /// The address of the card of a heap address.
    pub fn card_from_addr(&self, addr: usize) -> (r: usize)
        requires
            self.bias() + addr as int / 1024 <= usize::MAX,
        ensures
            r == self.bias() + addr as int / 1024,
    {
        proof {
            lemma_card_shift(addr);
        }
        self.biased_begin + (addr >> CardTable::CARD_SHIFT)
    }

    /// Whether an address is that of a card of this table.
    pub fn is_valid_card(&self, card: usize) -> (r: bool)
        requires
            self.wf(),
        ensures
            r == (self.begin() <= card < self.begin() + self@.len()),
    {
        card >= self.mem_map_begin() && card < self.mem_map_end()
    }

    /// The heap address at which the card at address `card` begins.
    pub fn addr_from_card(&self, card: usize) -> (r: usize)
        requires
            self.begin() <= card < self.begin() + self@.len(),
            self.bias() <= card,
        ensures
            r == ((card - self.bias()) as usize) << 10usize,
            (card - self.bias()) * 1024 <= usize::MAX ==> r == self.card_start(card - self.begin()),
    {
        let n: usize = card - self.biased_begin;
        proof {
            if n * 1024 <= usize::MAX {
                lemma_card_unshift(n);
            }
        }
        n << CardTable::CARD_SHIFT
    }

    /// Whether the card at an address is dirty.
    pub fn is_dirty(&self, card: usize) -> (r: bool)
        requires
            self.begin() <= card < self.begin() + self@.len(),
        ensures
            r == (self@[card - self.begin()] == CardTable::CARD_DIRTY),
    {
        self.cards[card - self.map_begin] == CardTable::CARD_DIRTY
    }

    /// Whether the card at an address is clean.
    pub fn is_clean(&self, card: usize) -> (r: bool)
        requires
            self.begin() <= card < self.begin() + self@.len(),
        ensures
            r == (self@[card - self.begin()] == CardTable::CARD_CLEAN),
    {
        self.cards[card - self.map_begin] == CardTable::CARD_CLEAN
    }

    /// The card of a heap address.
    pub fn get_card(&self, addr: usize) -> (r: u8)
        requires
            self.wf(),
            0 <= self.card(addr as int) < self@.len(),
        ensures
            r == self@[self.card(addr as int)],
    {
        self.cards[self.card_from_addr(addr) - self.map_begin]
    }

    /// Makes the card of a heap address dirty.
    pub fn mark_card(&mut self, addr: usize)
        requires
            old(self).wf(),
            0 <= old(self).card(addr as int) < old(self)@.len(),
        ensures
            final(self).same_map(old(self)),
            final(self)@ == old(self)@.update(old(self).card(addr as int), CardTable::CARD_DIRTY),
    {
        let k: usize = self.card_from_addr(addr) - self.map_begin;
        self.cards.set(k, CardTable::CARD_DIRTY);
    }

    /// Cleans the dirty cards of `start..end` and returns their addresses, in
    /// ascending order.
    pub fn visit_clear(&mut self, start: usize, end: usize) -> (r: Vec<usize>)
        requires
            old(self).in_map(start as int, end as int),
        ensures
            final(self).same_map(old(self)),
            forall|k: int|
                0 <= k < old(self)@.len() ==> #[trigger] final(self)@[k] == (if old(self).card(
                    start as int,
                ) <= k < old(self).card(end as int) && old(self)@[k] == CardTable::CARD_DIRTY {
                    CardTable::CARD_CLEAN
                } else {
                    old(self)@[k]
                }),
            r@ == ascending(
                Set::new(|k: int| old(self)@[k] == CardTable::CARD_DIRTY),
                old(self).card(start as int),
                old(self).card(end as int),
            ).map_values(|k: int| (old(self).begin() + k) as usize),
    {
        let mut k: usize = self.card_from_addr(start) - self.map_begin;
        let e: usize = self.card_from_addr(end) - self.map_begin;
        let mut out: Vec<usize> = Vec::new();
        let ghost before = *self;
        let ghost b = k as int;
        let ghost dirty = Set::new(|k: int| before@[k] == CardTable::CARD_DIRTY);
        let ghost addr = |k: int| (before.begin() + k) as usize;
        assert(out@ =~= ascending(dirty, b, b).map_values(addr));
        while k != e
            invariant
                0 <= b <= k <= e <= self.cards@.len(),
                before.wf(),
                self.same_map(&before),
                dirty == Set::new(|k: int| before@[k] == CardTable::CARD_DIRTY),
                addr == (|k: int| (before.begin() + k) as usize),
                out@ == ascending(dirty, b, k as int).map_values(addr),
                forall|j: int|
                    0 <= j < before@.len() ==> #[trigger] self@[j] == (if b <= j < k && before@[j]
                        == CardTable::CARD_DIRTY {
                        CardTable::CARD_CLEAN
                    } else {
                        before@[j]
                    }),
            decreases e - k,
        {
            if self.cards[k] == CardTable::CARD_DIRTY {
                self.cards.set(k, CardTable::CARD_CLEAN);
                out.push(self.map_begin + k);
                assert(out@ =~= ascending(dirty, b, k + 1).map_values(addr));
            }
            k = k + 1;
        }
        out
    }

    /// Visits the marked objects of one card.
    fn scan_card(&self, bitmap: &HeapBitmap<16>, k: usize, out: &mut Vec<usize>)
        requires
            self.wf(),
            k < self@.len(),
            self.bias() <= self.begin() + k,
            self.card_start(k as int) + 1024 <= usize::MAX,
            bitmap.addressable(),
            bitmap.start() <= self.card_start(k as int),
            bitmap.slot(self.card_start(k as int) + 1024) <= bitmap.capacity(),
        ensures
            final(out)@ == old(out)@ + bitmap.addresses(
                ascending(
                    bitmap.slots(),
                    bitmap.slot(self.card_start(k as int)),
                    bitmap.slot(self.card_start(k as int) + 1024),
                ),
            ),
    {
        let start: usize = self.addr_from_card(self.map_begin + k);
        let mut visited: Vec<usize> = bitmap.visit_marked_range(start, start + CardTable::CARD_SIZE);
        out.append(&mut visited);
    }

    /// Visits the marked objects on the cards of `scan_begin..scan_end` that have
    /// at least the minimum age, and cleans the cards if asked to. Returns the
    /// number of cards that were looked at and the objects, in ascending order.
    pub fn scan<const CLEAR_CARD: bool>(
        &mut self,
        bitmap: &HeapBitmap<16>,
        scan_begin: usize,
        scan_end: usize,
        minimum_age: u8,
    ) -> (r: (usize, Vec<usize>))
        requires
            old(self).in_map(scan_begin as int, scan_end as int),
            bitmap.addressable(),
            scan_begin < scan_end ==> {
                &&& bitmap.start() <= scan_begin as int / 1024 * 1024
                &&& bitmap.slot(scan_end as int / 1024 * 1024) <= bitmap.capacity()
            },
        ensures
            final(self).same_map(old(self)),
            ({
                let b = old(self).card(scan_begin as int);
                let e = old(self).card(scan_end as int);
                &&& r.0 == ascending(selected_cards(old(self)@, b, e, minimum_age), b, e).len()
                &&& r.1@ == old(self).scan_list(bitmap, b, e, minimum_age, e)
                &&& CLEAR_CARD ==> forall|k: int|
                    0 <= k < old(self)@.len() ==> #[trigger] final(self)@[k] == (if b <= k < e {
                        CardTable::CARD_CLEAN
                    } else {
                        old(self)@[k]
                    })
                &&& !CLEAR_CARD ==> final(self)@ == old(self)@
            }),
    {
        let b: usize = self.card_from_addr(scan_begin) - self.map_begin;
        let e: usize = self.card_from_addr(scan_end) - self.map_begin;
        proof {
            let first = scan_begin as int / 1024;
            let last = scan_end as int / 1024;
            assert(self.card_start(b as int) == first * 1024);
            assert(self.card_start(e as int) == last * 1024);
            if b < e {
                assert(first < last);
                assert(scan_begin < scan_end);
            }
        }
        let (cards_scanned, out): (usize, Vec<usize>) = self.scan_cards(
            bitmap,
            b,
            e,
            minimum_age,
        );
        if CLEAR_CARD {
            self.clear_card_range(scan_begin, scan_end);
        }
        (cards_scanned, out)
    }

    /// Scans the cards `b..e`.
    #[verifier::spinoff_prover]
    #[verifier::rlimit(100)]
    fn scan_cards(&self, bitmap: &HeapBitmap<16>, b: usize, e: usize, minimum_age: u8) -> (r: (
        usize,
        Vec<usize>,
    ))
        requires
            self.scan_ready(bitmap, b as int, e as int),
            b <= e <= self@.len(),
        ensures
            self.scanned(
                bitmap,
                b as int,
                e as int,
                minimum_age,
                e as int,
                r.0,
                r.1@,
            ),
    {
        let mut out: Vec<usize> = Vec::new();
        let mut cards_scanned: usize = 0;
        let into_word: usize = (self.map_begin + b) % CARD_WORD;
        let head: usize = if into_word == 0 {
            0
        } else {
            CARD_WORD - into_word
        };
        if head >= e - b {
            self.scan_edge(bitmap, b, e, minimum_age, b, e, &mut cards_scanned, &mut out);
        } else {
            let first_word: usize = b + head;
            self.scan_edge(bitmap, b, e, minimum_age, b, first_word, &mut cards_scanned, &mut out);
            let word_end: usize = e - (self.map_begin + e) % CARD_WORD;
            let mut k: usize = first_word;
            while k < word_end
                invariant
                    b <= k <= word_end <= e,
                    word_up(b as int) <= k,
                    k % 8 == 0,
                    word_end == word_down(e as int),
                    self.scan_ready(bitmap, b as int, e as int),
                    self.scanned(
                        bitmap,
                        b as int,
                        e as int,
                        minimum_age,
                        k as int,
                        cards_scanned,
                        out@,
                    ),
                decreases word_end - k,
            {
                self.scan_word(bitmap, b, e, minimum_age, k, &mut cards_scanned, &mut out);
                k = k + CARD_WORD;
            }
            self.scan_edge(bitmap, b, e, minimum_age, word_end, e, &mut cards_scanned, &mut out);
        }
        (cards_scanned, out)
    }

    /// The state of a scan of `b..e` that has come to card `k`.
    pub open spec fn scanned(
        &self,
        bitmap: &HeapBitmap<16>,
        b: int,
        e: int,
        minimum_age: u8,
        k: int,
        count: usize,
        out: Seq<usize>,
    ) -> bool {
        &&& count == ascending(selected_cards(self@, b, e, minimum_age), b, k).len()
        &&& count <= k - b
        &&& out == self.scan_list(bitmap, b, e, minimum_age, k)
    }

    /// Scans the cards `from..to` one by one.
    fn scan_edge(
        &self,
        bitmap: &HeapBitmap<16>,
        b: usize,
        e: usize,
        minimum_age: u8,
        from: usize,
        to: usize,
        count: &mut usize,
        out: &mut Vec<usize>,
    )
        requires
            self.scan_ready(bitmap, b as int, e as int),
            b <= from <= to <= e <= self@.len(),
            to <= word_up(b as int) || word_down(e as int) <= from || word_down(e as int)
                <= word_up(b as int),
            self.scanned(
                bitmap,
                b as int,
                e as int,
                minimum_age,
                from as int,
                *old(count),
                old(out)@,
            ),
        ensures
            self.scanned(
                bitmap,
                b as int,
                e as int,
                minimum_age,
                to as int,
                *final(count),
                final(out)@,
            ),
    {
        let mut k: usize = from;
        let ghost sel = selected_cards(self@, b as int, e as int, minimum_age);
        while k < to
            invariant
                b <= from <= k <= to <= e <= self.cards@.len(),
                to <= word_up(b as int) || word_down(e as int) <= from || word_down(e as int)
                <= word_up(b as int),
                self.scan_ready(bitmap, b as int, e as int),
                sel == selected_cards(self@, b as int, e as int, minimum_age),
                self.scanned(
                    bitmap,
                    b as int,
                    e as int,
                    minimum_age,
                    k as int,
                    *count,
                    out@,
                ),
            decreases to - k,
        {
            if self.cards[k] >= minimum_age {
                proof {
                    self.lemma_scan_ready(bitmap, b as int, e as int, k as int);
                    assert(sel.contains(k as int));
                }
                self.scan_card(bitmap, k, out);
                *count = *count + 1;
            } else {
                assert(!sel.contains(k as int));
            }
            k = k + 1;
        }
    }

    /// Scans the cards of the word at `k`.
    fn scan_word(
        &self,
        bitmap: &HeapBitmap<16>,
        b: usize,
        e: usize,
        minimum_age: u8,
        k: usize,
        count: &mut usize,
        out: &mut Vec<usize>,
    )
        requires
            self.scan_ready(bitmap, b as int, e as int),
            b <= k,
            word_up(b as int) <= k,
            k % 8 == 0,
            k < word_down(e as int),
            self.scanned(
                bitmap,
                b as int,
                e as int,
                minimum_age,
                k as int,
                *old(count),
                old(out)@,
            ),
        ensures
            self.scanned(
                bitmap,
                b as int,
                e as int,
                minimum_age,
                k + 8,
                *final(count),
                final(out)@,
            ),
    {
        let ghost sel = selected_cards(self@, b as int, e as int, minimum_age);
        let used: Option<usize> = self.last_used(k);
        match used {
            None => {
                proof {
                    assert(!word_used(self@, k as int));
                    assert forall|j: int| k <= j < k + 8 implies !sel.contains(j)
                        && !card_selected(self@, b as int, e as int, minimum_age, j) by {
                        assert(word_down(j) == k);
                    }
                    lemma_ascending_gap(sel, b as int, k as int, k + 8);
                    self.lemma_scan_gap(
                        bitmap,
                        b as int,
                        e as int,
                        minimum_age,
                        k as int,
                        k + 8,
                    );
                }
            },
            Some(last) => {
                let mut i: usize = 0;
                while i < CARD_WORD
                    invariant
                        i <= 8,
                        b <= k,
                        k + 8 <= word_down(e as int) <= e <= self.cards@.len(),
                        word_up(b as int) <= k,
                        k % 8 == 0,
                        k <= last < k + 8,
                        self@[last as int] != 0,
                        forall|j: int| last < j < k + 8 ==> self@[j] == 0,
                        self.scan_ready(bitmap, b as int, e as int),
                        sel == selected_cards(self@, b as int, e as int, minimum_age),
                        self.scanned(
                            bitmap,
                            b as int,
                            e as int,
                            minimum_age,
                            k + i,
                            *count,
                            out@,
                        ),
                    decreases 8 - i,
                {
                    let ghost c = k + i;
                    proof {
                        assert(word_down(c) == k);
                        assert(word_used(self@, k as int));
                        if c < last {
                            assert(exists|j: int| c < j < k + 8 && #[trigger] self@[j] != 0);
                        }
                    }
                    if k + i < last || self.cards[k + i] >= minimum_age {
                        proof {
                            self.lemma_scan_ready(bitmap, b as int, e as int, c);
                            assert(sel.contains(c));
                        }
                        self.scan_card(bitmap, k + i, out);
                        *count = *count + 1;
                    } else {
                        assert(!sel.contains(c));
                    }
                    i = i + 1;
                }
            },
        }
    }

    /// What a scan of the cards `b..e` needs of the table and the bitmap.
    pub open spec fn scan_ready(&self, bitmap: &HeapBitmap<16>, b: int, e: int) -> bool {
        &&& self.wf()
        &&& bitmap.addressable()
        &&& 0 <= b
        &&& b < e ==> {
            &&& self.bias() <= self.begin() + b
            &&& e <= self@.len()
            &&& self.card_start(e) <= usize::MAX
            &&& bitmap.start() <= self.card_start(b)
            &&& bitmap.slot(self.card_start(e)) <= bitmap.capacity()
        }
    }

    proof fn lemma_scan_ready(&self, bitmap: &HeapBitmap<16>, b: int, e: int, k: int)
        requires
            self.scan_ready(bitmap, b, e),
            b <= k < e,
        ensures
            self.bias() <= self.begin() + k,
            self.card_start(k) + 1024 <= usize::MAX,
            bitmap.start() <= self.card_start(k),
            bitmap.slot(self.card_start(k) + 1024) <= bitmap.capacity(),
    {
        assert(self.card_start(k) + 1024 == self.card_start(k + 1));
    }

    proof fn lemma_scan_gap(
        &self,
        bitmap: &HeapBitmap<16>,
        b: int,
        e: int,
        minimum_age: u8,
        lo: int,
        hi: int,
    )
        requires
            b <= lo <= hi,
            forall|k: int| lo <= k < hi ==> !card_selected(self@, b, e, minimum_age, k),
        ensures
            self.scan_list(bitmap, b, e, minimum_age, hi) == self.scan_list(
                bitmap,
                b,
                e,
                minimum_age,
                lo,
            ),
        decreases hi - lo,
    {
        if lo < hi {
            self.lemma_scan_gap(bitmap, b, e, minimum_age, lo, hi - 1);
        }
    }

    /// The last card of the word at `w` that is not clean.
    fn last_used(&self, w: usize) -> (r: Option<usize>)
        requires
            w + 8 <= self@.len(),
        ensures
            match r {
                None => forall|j: int| w <= j < w + 8 ==> self@[j] == 0,
                Some(k) => {
                    &&& w <= k < w + 8
                    &&& self@[k as int] != 0
                    &&& forall|j: int| k < j < w + 8 ==> self@[j] == 0
                },
            },
    {
        let mut i: usize = CARD_WORD;
        while i > 0
            invariant
                i <= 8,
                w + 8 <= self.cards.len(),
                forall|j: int| w + i <= j < w + 8 ==> self@[j] == 0,
            decreases i,
        {
            i = i - 1;
            if self.cards[w + i] != 0 {
                return Some(w + i);
            }
        }
        None
    }

    /// Cleans the cards of `start..end`.
    pub fn clear_card_range(&mut self, start: usize, end: usize)
        requires
            old(self).in_map(start as int, end as int),
        ensures
            final(self).same_map(old(self)),
            forall|k: int|
                0 <= k < old(self)@.len() ==> #[trigger] final(self)@[k] == (if old(self).card(
                    start as int,
                ) <= k < old(self).card(end as int) {
                    CardTable::CARD_CLEAN
                } else {
                    old(self)@[k]
                }),
    {
        let b: usize = self.card_from_addr(start) - self.map_begin;
        let e: usize = self.card_from_addr(end) - self.map_begin;
        let ghost before = *self;
        let mut k: usize = b;
        while k < e
            invariant
                b <= k <= e <= self.cards@.len(),
                self.same_map(&before),
                forall|j: int|
                    0 <= j < before@.len() ==> #[trigger] self@[j] == (if b <= j < k {
                        CardTable::CARD_CLEAN
                    } else {
                        before@[j]
                    }),
            decreases e - k,
        {
            self.cards.set(k, CardTable::CARD_CLEAN);
            k = k + 1;
        }
    }

    /// Replaces the cards of the word at `k` by what `visitor` makes of them,
    /// unless all are clean, and appends the changes.
    fn modify_word<F: Fn(u8) -> u8>(
        &mut self,
        k: usize,
        visitor: &F,
        out: &mut Vec<(usize, u8, u8)>,
    )
        requires
            old(self).wf(),
            k + 8 <= old(self)@.len(),
            forall|c: u8| visitor.requires((c,)),
        ensures
            final(self).same_map(old(self)),
            forall|j: int|
                0 <= j < old(self)@.len() && !(k <= j < k + 8) ==> #[trigger] final(self)@[j]
                    == old(self)@[j],
            !word_used(old(self)@, k as int) ==> final(self)@ == old(self)@,
            word_used(old(self)@, k as int) ==> forall|j: int|
                k <= j < k + 8 ==> visitor.ensures((old(self)@[j],), #[trigger] final(self)@[j]),
            final(out)@ == old(out)@ + card_changes(
                old(self).begin(),
                old(self)@,
                final(self)@,
                k as int,
                k + 8,
            ),
    {
        let ghost before = *self;
        let ghost out_before = out@;
        let used: Option<usize> = self.last_used(k);
        match used {
            None => {
                proof {
                    assert(!word_used(before@, k as int));
                    lemma_changes_none(before.begin(), before@, self@, k as int, k + 8);
                    assert(out@ =~= out_before + Seq::<(usize, u8, u8)>::empty());
                }
            },
            Some(last_card) => {
                assert(word_used(before@, k as int)) by {
                    assert(before@[last_card as int] != 0);
                }
                let mut i: usize = 0;
                assert(out@ =~= out_before + card_changes(
                    before.begin(),
                    before@,
                    self@,
                    k as int,
                    k + i,
                ));
                while i < CARD_WORD
                    invariant
                        i <= 8,
                        k + 8 <= self.cards@.len(),
                        before.wf(),
                        self.same_map(&before),
                        forall|c: u8| visitor.requires((c,)),
                        forall|j: int|
                            0 <= j < before@.len() && !(k <= j < k + i) ==> #[trigger] self@[j]
                                == before@[j],
                        forall|j: int|
                            k <= j < k + i ==> visitor.ensures((before@[j],), #[trigger] self@[j]),
                        out@ == out_before + card_changes(
                            before.begin(),
                            before@,
                            self@,
                            k as int,
                            k + i,
                        ),
                    decreases 8 - i,
                {
                    let ghost prev = self@;
                    let expected: u8 = self.cards[k + i];
                    let new_value: u8 = visitor(expected);
                    self.cards.set(k + i, new_value);
                    proof {
                        assert(self@ =~= prev.update(k + i, new_value));
                        lemma_changes_agree(
                            before.begin(),
                            before@,
                            before@,
                            prev,
                            self@,
                            k as int,
                            k + i,
                        );
                    }
                    if expected != new_value {
                        let ghost mid = out@;
                        out.push((self.map_begin + (k + i), expected, new_value));
                        assert(out@ =~= out_before + card_changes(
                            before.begin(),
                            before@,
                            self@,
                            k as int,
                            k + i + 1,
                        ));
                    }
                    i = i + 1;
                }
            },
        }
    }

    /// Replaces the cards of `scan_begin..scan_end` by what `visitor` makes of
    /// them and returns the changes, in ascending order: address, value before
    /// and value after. The cards before the first word boundary are visited one
    /// by one and must be such that `visitor` leaves them alone. From there on
    /// whole words are visited, the last of which may reach past the end; words
    /// of clean cards are left alone.
    #[verifier::spinoff_prover]
    #[verifier::rlimit(100)]
    pub fn modify_cards_atomic<F: Fn(u8) -> u8>(
        &mut self,
        scan_begin: usize,
        scan_end: usize,
        visitor: F,
    ) -> (r: Vec<(usize, u8, u8)>)
        requires
            old(self).in_map(scan_begin as int, scan_end as int),
            word_up(old(self).card(scan_begin as int)) < old(self).card(scan_end as int)
                ==> word_up(old(self).card(scan_end as int)) <= old(self)@.len(),
            forall|c: u8| visitor.requires((c,)),
            forall|k: int, n: u8|
                old(self).card(scan_begin as int) <= k < word_up(
                    old(self).card(scan_begin as int),
                ) && k < old(self).card(scan_end as int) && #[trigger] visitor.ensures(
                    (old(self)@[k],),
                    n,
                ) ==> n == old(self)@[k],
        ensures
            final(self).same_map(old(self)),
            ({
                let b = old(self).card(scan_begin as int);
                let e = old(self).card(scan_end as int);
                let last = if word_up(b) < e {
                    word_up(e)
                } else {
                    word_up(b)
                };
                &&& forall|k: int|
                    0 <= k < old(self)@.len() && !(word_up(b) <= k < last && word_used(
                        old(self)@,
                        word_down(k),
                    )) ==> #[trigger] final(self)@[k] == old(self)@[k]
                &&& forall|k: int|
                    word_up(b) <= k < last && word_used(old(self)@, word_down(k))
                        ==> visitor.ensures((old(self)@[k],), #[trigger] final(self)@[k])
                &&& r@ == card_changes(
                    old(self).begin(),
                    old(self)@,
                    final(self)@,
                    word_up(b),
                    last,
                )
            }),
    {
        let b: usize = self.card_from_addr(scan_begin) - self.map_begin;
        let e: usize = self.card_from_addr(scan_end) - self.map_begin;
        let mut k: usize = b;
        let ghost before = *self;
        let mut out: Vec<(usize, u8, u8)> = Vec::new();
        while (self.map_begin + k) % CARD_WORD != 0 && k < e
            invariant
                b <= k <= e <= self.cards@.len(),
                k <= word_up(b as int),
                *self == before,
                before.wf(),
                b == before.card(scan_begin as int),
                e == before.card(scan_end as int),
                forall|c: u8| visitor.requires((c,)),
                forall|k: int, n: u8|
                    before.card(scan_begin as int) <= k < word_up(before.card(scan_begin as int))
                        && k < before.card(scan_end as int) && #[trigger] visitor.ensures(
                        (before@[k],),
                        n,
                    ) ==> n == before@[k],
            decreases e - k,
        {
            let expected: u8 = self.cards[k];
            let new_value: u8 = visitor(expected);
            assert(expected == before@[k as int]);
            assert(new_value == expected);
            k = k + 1;
        }
        let ghost first = word_up(b as int);
        let ghost last = if first < e {
            word_up(e as int)
        } else {
            first
        };
        while k < e
            invariant
                b <= k,
                first == word_up(b as int),
                k < e ==> first <= k && k % 8 == 0 && word_up(e as int) <= self.cards@.len(),
                last == (if first < e {
                    word_up(e as int)
                } else {
                    first
                }),
                k >= e ==> (if first < e {
                    k == last
                } else {
                    k == e && k <= first
                }),
                before.wf(),
                self.same_map(&before),
                e <= self.cards@.len(),
                forall|c: u8| visitor.requires((c,)),
                forall|j: int|
                    0 <= j < before@.len() && !(first <= j < k && word_used(before@, word_down(j)))
                        ==> #[trigger] self@[j] == before@[j],
                forall|j: int|
                    first <= j < k && word_used(before@, word_down(j)) ==> visitor.ensures(
                        (before@[j],),
                        #[trigger] self@[j],
                    ),
                out@ == card_changes(before.begin(), before@, self@, first, k as int),
            decreases last - k,
        {
            let ghost mid = *self;
            let ghost out_mid = out@;
            proof {
                assert forall|j: int| k <= j < k + 8 implies word_down(j) == k && mid@[j]
                    == before@[j] by {}
            }
            self.modify_word(k, &visitor, &mut out);
            proof {
                assert(word_used(mid@, k as int) <==> word_used(before@, k as int)) by {
                    if word_used(mid@, k as int) {
                        let j = choose|j: int| k <= j < k + 8 && #[trigger] mid@[j] != 0;
                        assert(before@[j] != 0);
                    }
                    if word_used(before@, k as int) {
                        let j = choose|j: int| k <= j < k + 8 && #[trigger] before@[j] != 0;
                        assert(mid@[j] != 0);
                    }
                }
                lemma_changes_agree(
                    before.begin(),
                    before@,
                    before@,
                    mid@,
                    self@,
                    first,
                    k as int,
                );
                lemma_changes_agree(
                    before.begin(),
                    mid@,
                    before@,
                    self@,
                    self@,
                    k as int,
                    k + 8,
                );
                lemma_changes_split(before.begin(), before@, self@, first, k as int, k + 8);
            }
            k = k + CARD_WORD;
        }
        proof {
            if first >= e {
                assert(out@ =~= card_changes(before.begin(), before@, self@, first, last));
            }
        }
        out
    }

    /// Every card of the heap lies in the map of a table that was made for it.
    pub proof fn lemma_heap_cards_in_map(&self, heap_begin: int, heap_capacity: int, addr: int)
        requires
            self@.len() >= heap_capacity / 1024 + 256,
            0 <= self.bias() - (self.begin() - heap_begin / 1024) < 256,
            heap_begin % 1024 == 0 || self.bias() - (self.begin() - heap_begin / 1024) < 255,
            0 <= heap_begin <= addr < heap_begin + heap_capacity,
        ensures
            0 <= self.card(addr) < self@.len(),
    {
    }

    /// Going from an address to its card and back leads to the start of the card.
    pub proof fn lemma_card_round_trip(&self, addr: int)
        requires
            0 <= addr,
        ensures
            self.card_start(self.card(addr)) == addr - addr % 1024,
            self.card_start(self.card(addr)) <= addr < self.card_start(self.card(addr)) + 1024,
    {
    }
}

/// The age of a card after a collection: dirty cards become aged, all others
/// clean.
pub fn age_card_visitor(card: u8) -> (r: u8)
    ensures
        r == (if card == CardTable::CARD_DIRTY {
            CardTable::CARD_AGED
        } else {
            CardTable::CARD_CLEAN
        }),
{
    if card == CardTable::CARD_DIRTY {
        card - 1
    } else {
        0
    }
}

} // verus!
