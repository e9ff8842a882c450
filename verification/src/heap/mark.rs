//! Marking phase of the GC.
//!
//! Implements simple marking algorithm that uses a work stealing queue to
//! distribute marking work between worker threads. Marking tasks can be terminated
//! if GC is cancelled which allows us to start STW GC as soon as possible.

use vstd::arithmetic::power2::{lemma_pow2_pos, lemma_pow2_strictly_increases, lemma_pow2_unfold, pow2};
use vstd::prelude::*;

use crossbeam_deque::{Injector, Worker};

use super::deque::{
    injector_new, injector_push, injector_steal, injector_tasks, random_below, worker_new,
    worker_pop, worker_private, worker_push, worker_steal, worker_tasks, Taken,
};
use super::region::log2_floor_of;
use super::{lemma_log2_floor, lemma_shift_is_pow2, log2_floor};

verus! {

/// What a worker that is out of work does next.
#[derive(Clone, Copy, PartialEq, Eq, Debug, Structural)]
pub enum TerminateStep {
    /// All workers are out of work.
    Done,
    /// Wait a moment, then see whether there is work again.
    Sleep,
}

/// Counts the workers that still have work.
pub struct Terminator {
    const_nworkers: usize,
    nworkers: usize,
}

impl Terminator {
    /// The number of workers.
    pub closed spec fn total(&self) -> int {
        self.const_nworkers as int
    }

    /// The number of workers that have work.
    pub closed spec fn active(&self) -> int {
        self.nworkers as int
    }

    pub fn new(number_workers: usize) -> (r: Terminator)
        ensures
            r.total() == number_workers,
            r.active() == number_workers,
    {
        Terminator { const_nworkers: number_workers, nworkers: number_workers }
    }

    /// A worker is out of work: a sole worker is done at once, the last of several
    /// too, any other sleeps.
    pub fn try_terminate(&mut self) -> (r: TerminateStep)
        requires
            old(self).total() == 1 || old(self).active() > 0,
        ensures
            final(self).total() == old(self).total(),
            final(self).active() == (if old(self).total() == 1 {
                old(self).active()
            } else {
                old(self).active() - 1
            }),
            r == (if old(self).total() == 1 || old(self).active() == 1 {
                TerminateStep::Done
            } else {
                TerminateStep::Sleep
            }),
    {
        if self.const_nworkers == 1 {
            return TerminateStep::Done;
        }
        if self.decrease_workers() {
            // reached 0, no need to wait
            return TerminateStep::Done;
        }
        TerminateStep::Sleep
    }

    fn decrease_workers(&mut self) -> (r: bool)
        requires
            old(self).active() > 0,
        ensures
            final(self).total() == old(self).total(),
            final(self).active() == old(self).active() - 1,
            r == (old(self).active() == 1),
    {
        let was: usize = self.nworkers;
        self.nworkers = was - 1;
        was == 1
    }

    /// After a sleep: whether all workers are out of work. If not, the worker
    /// counts as one with work again.
    pub fn zero_or_increase_workers(&mut self) -> (r: bool)
        requires
            old(self).active() < usize::MAX,
        ensures
            final(self).total() == old(self).total(),
            r == (old(self).active() == 0),
            final(self).active() == (if r {
                0
            } else {
                old(self).active() + 1
            }),
    {
        if self.nworkers == 0 {
            return true;
        }
        self.nworkers = self.nworkers + 1;
        false
    }
}

/// MarkTask
///
/// Encodes both regular oops, and the array oops plus chunking data for parallel
/// array processing. The design goal is to make the regular obj ops very fast,
/// because that would be the prevailing case. On the other hand, it should not
/// block parallel array processing from efficiently dividing the array work.
///
/// The idea is to steal the bits from the 64-bit obj to encode array data, if
/// needed. For the proper divide-and-conquer strategies, we want to encode the
/// "blocking" data. It turns out, the most efficient way to do this is to encode
/// the array block as (chunk * 2^pow), where it is assumed that the block has the
/// size of 2^pow. This requires for pow to have only 5 bits (2^32) to encode all
/// possible arrays.
///
///    |xx-------obj---------|-pow-|--chunk---|
///    0                    49     54        64
///
/// By definition, chunk == 0 means "no chunk", i.e. chunking starts from 1.
///
/// Lower bits of obj are reserved to handle "skip_live" and "strong" properties.
/// Since this encoding stores uncompressed oops, those bits are always available.
/// These bits default to zero for "skip_live" and "weak". This aligns with their
/// frequent values: strong/counted-live references.
///
/// Encoding limitations caused by current bitscales mean:
///    10 bits for chunk: max 1024 blocks per array
///     5 bits for power: max 2^32 array
///    49 bits for   obj: max 512 TB of addressable space
#[derive(Clone, Copy, PartialEq, Eq, Debug, Structural)]
pub struct MarkTask {
    /// Everything is encoded into this field...
    obj: u64,
}

/// Everything that goes into the word of a task comes out again.
proof fn lemma_task_word(obj: u64, skip_live: bool, weak: bool, chunk: u64, pow: u64)
    by (bit_vector)
    requires
        obj < 0x2_0000_0000_0000u64,
        obj & 3u64 == 0u64,
        chunk < 1024u64,
        pow < 32u64,
    ensures
        ({
            let s: u64 = if skip_live {
                1u64
            } else {
                0u64
            };
            let w: u64 = if weak {
                2u64
            } else {
                0u64
            };
            let word: u64 = (obj | s | w) | (chunk << 54u64) | (pow << 49u64);
            &&& word & 0x1_ffff_ffff_fffcu64 == obj
            &&& (word >> 54u64) & 1023u64 == chunk
            &&& (word >> 49u64) & 31u64 == pow
            &&& (word & 2u64 != 0u64) == weak
            &&& (word & 1u64 == 0u64) == !skip_live
            &&& (word & 0xfffe_0000_0000_0000u64 == 0u64) == (chunk == 0u64 && pow == 0u64)
        }),
{
}

/// Setting a flag of a task that is not set is the same as adding it; flags that
/// are not wanted change nothing.
proof fn lemma_task_zero(x: u64)
    by (bit_vector)
    ensures
        x | 0u64 == x,
        0u64 << 54u64 == 0u64,
        0u64 << 49u64 == 0u64,
{
}

impl MarkTask {
    pub const CHUNK_BITS: u64 = 10;

    pub const POW_BITS: u64 = 5;

    pub const OOP_BITS: u64 = 49;

    pub const OOP_SHIFT: u64 = 0;

    pub const POW_SHIFT: u64 = 49;

    pub const CHUNK_SHIFT: u64 = 54;

    pub const OOP_EXTRACT_MASK: u64 = 0x1_ffff_ffff_fffc;

    pub const SKIP_LIVE_EXTRACT_MASK: u64 = 1;

    pub const WEAK_EXTRACT_MASK: u64 = 2;

    pub const CHUNK_POW_EXTRACT_MASK: u64 = 0xfffe_0000_0000_0000;

    pub const CHUNK_RANGE_MASK: u64 = 1023;

    pub const POW_RANGE_MASK: u64 = 31;

    /// The word of the task.
    pub closed spec fn word(self) -> u64 {
        self.obj
    }

    pub open spec fn spec_oop(val: u64) -> u64 {
        val & 0x1_ffff_ffff_fffcu64
    }

    pub open spec fn spec_chunk(val: u64) -> u64 {
        (val >> 54u64) & 1023u64
    }

    pub open spec fn spec_pow(val: u64) -> u64 {
        (val >> 49u64) & 31u64
    }

    /// The word for an object and its flags.
    pub open spec fn oop_word(obj: u64, skip_live: bool, weak: bool) -> u64 {
        let flagged = if skip_live {
            obj | 1u64
        } else {
            obj
        };
        if weak {
            flagged | 2u64
        } else {
            flagged
        }
    }

    /// The word for a chunk of an array.
    pub open spec fn chunk_word(obj: u64, skip_live: bool, weak: bool, chunk: u64, pow: u64) -> u64 {
        Self::oop_word(obj, skip_live, weak) | (chunk << 54u64) | (pow << 49u64)
    }

    pub fn decode_oop(val: u64) -> (r: u64)
        ensures
            r == Self::spec_oop(val),
    {
        val & Self::OOP_EXTRACT_MASK
    }

    pub fn decode_not_chunked(val: u64) -> (r: bool)
        ensures
            r == (val & 0xfffe_0000_0000_0000u64 == 0),
    {
        (val & Self::CHUNK_POW_EXTRACT_MASK) == 0
    }

    pub fn decode_chunk(val: u64) -> (r: u64)
        ensures
            r == Self::spec_chunk(val),
    {
        (val >> Self::CHUNK_SHIFT) & Self::CHUNK_RANGE_MASK
    }

    pub fn decode_pow(val: u64) -> (r: u64)
        ensures
            r == Self::spec_pow(val),
    {
        (val >> Self::POW_SHIFT) & Self::POW_RANGE_MASK
    }

    pub fn decode_weak(val: u64) -> (r: bool)
        ensures
            r == (val & 2u64 != 0),
    {
        (val & Self::WEAK_EXTRACT_MASK) != 0
    }

    pub fn decode_cnt_live(val: u64) -> (r: bool)
        ensures
            r == (val & 1u64 == 0),
    {
        (val & Self::SKIP_LIVE_EXTRACT_MASK) == 0
    }

    pub fn encode_oop(obj: u64, skip_live: bool, weak: bool) -> (r: u64)
        ensures
            r == Self::oop_word(obj, skip_live, weak),
    {
        let mut encoded: u64 = obj;
        if skip_live {
            encoded = encoded | Self::SKIP_LIVE_EXTRACT_MASK;
        }
        if weak {
            encoded = encoded | Self::WEAK_EXTRACT_MASK;
        }
        encoded
    }

    pub fn encode_chunk(chunk: u64) -> (r: u64)
        ensures
            r == chunk << 54u64,
    {
        chunk << Self::CHUNK_SHIFT
    }

    pub fn encode_pow(pow: u64) -> (r: u64)
        ensures
            r == pow << 49u64,
    {
        pow << Self::POW_SHIFT
    }

    /// A task for an object as a whole.
    pub fn new(obj: u64, skip_live: bool, weak: bool) -> (r: Self)
        ensures
            r.word() == Self::oop_word(obj, skip_live, weak),
    {
        MarkTask { obj: Self::encode_oop(obj, skip_live, weak) }
    }

    /// A task for a chunk of an array.
    pub fn new2(obj: u64, skip_live: bool, weak: bool, chunk: u64, pow: u64) -> (r: Self)
        ensures
            r.word() == Self::chunk_word(obj, skip_live, weak, chunk, pow),
    {
        let enc_oop: u64 = Self::encode_oop(obj, skip_live, weak);
        let enc_chunk: u64 = Self::encode_chunk(chunk);
        let enc_pow: u64 = Self::encode_pow(pow);
        MarkTask { obj: enc_oop | enc_chunk | enc_pow }
    }

    /// The task with the given word.
    pub fn from_word(word: u64) -> (r: Self)
        ensures
            r.word() == word,
    {
        MarkTask { obj: word }
    }

    /// The word of the task.
    pub fn to_word(self) -> (r: u64)
        ensures
            r == self.word(),
    {
        self.obj
    }

    pub fn obj(self) -> (r: u64)
        ensures
            r == Self::spec_oop(self.word()),
    {
        Self::decode_oop(self.obj)
    }

    pub fn chunk(self) -> (r: u64)
        ensures
            r == Self::spec_chunk(self.word()),
    {
        Self::decode_chunk(self.obj)
    }

    pub fn pow(self) -> (r: u64)
        ensures
            r == Self::spec_pow(self.word()),
    {
        Self::decode_pow(self.obj)
    }

    pub fn is_not_chunked(self) -> (r: bool)
        ensures
            r == (self.word() & 0xfffe_0000_0000_0000u64 == 0),
    {
        Self::decode_not_chunked(self.obj)
    }

    pub fn is_weak(self) -> (r: bool)
        ensures
            r == (self.word() & 2u64 != 0),
    {
        Self::decode_weak(self.obj)
    }

    pub fn count_liveness(self) -> (r: bool)
        ensures
            r == (self.word() & 1u64 == 0),
    {
        Self::decode_cnt_live(self.obj)
    }

    pub fn max_addressable() -> (r: u64)
        ensures
            r == 0x2_0000_0000_0000u64,
    {
        0x2_0000_0000_0000
    }

    pub fn chunk_size() -> (r: u64)
        ensures
            r == 1024,
    {
        1024
    }

    /// A task gives back all that it was made of: an aligned object below the
    /// addressable limit, its flags, and a chunk and power within their bits. It
    /// is not chunked exactly if both are zero.
    pub proof fn lemma_round_trip(obj: u64, skip_live: bool, weak: bool, chunk: u64, pow: u64)
        requires
            obj < 0x2_0000_0000_0000u64,
            obj % 4 == 0,
            chunk < 1024,
            pow < 32,
        ensures
            ({
                let word = Self::chunk_word(obj, skip_live, weak, chunk, pow);
                &&& Self::spec_oop(word) == obj
                &&& Self::spec_chunk(word) == chunk
                &&& Self::spec_pow(word) == pow
                &&& (word & 2u64 != 0) == weak
                &&& (word & 1u64 == 0) == !skip_live
                &&& (word & 0xfffe_0000_0000_0000u64 == 0) == (chunk == 0 && pow == 0)
            }),
            Self::chunk_word(obj, skip_live, weak, 0, 0) == Self::oop_word(obj, skip_live, weak),
    {
        assert(obj & 3u64 == obj % 4u64) by (bit_vector);
        lemma_task_word(obj, skip_live, weak, chunk, pow);
        lemma_task_zero(obj);
        lemma_task_zero(obj | 1u64);
        lemma_task_zero(Self::oop_word(obj, skip_live, weak));
    }
}

/// A part of an array: chunk `chunk` of size `2^pow`. Chunks count from one.
#[derive(Clone, Copy, PartialEq, Eq, Debug, Structural)]
pub struct Chunk {
    pub chunk: u64,
    pub pow: u64,
}

impl Chunk {
    /// The first index of the chunk.
    pub open spec fn start(self) -> int {
        (self.chunk - 1) * pow2(self.pow as nat)
    }

    /// The index behind the chunk.
    pub open spec fn end(self) -> int {
        self.chunk * pow2(self.pow as nat)
    }
}

/// How an array is divided: chunks for the queue, and a range of indices that is
/// processed at once.
pub struct ChunkPlan {
    pub chunks: Vec<Chunk>,
    pub from: u64,
    pub to: u64,
}

/// Whether chunks lie side by side, in order, from `from` to `to`.
pub open spec fn tiles(chunks: Seq<Chunk>, from: int, to: int) -> bool {
    &&& chunks.len() == 0 ==> from == to
    &&& chunks.len() > 0 ==> chunks[0].start() == from && chunks.last().end() == to
    &&& forall|i: int| 0 <= i < chunks.len() - 1 ==> (#[trigger] chunks[i]).end() == chunks[i + 1].start()
}

/// Adding a chunk where the others end.
proof fn lemma_tiles_push(chunks: Seq<Chunk>, from: int, mid: int, c: Chunk)
    requires
        tiles(chunks, from, mid),
        c.start() == mid,
    ensures
        tiles(chunks.push(c), from, c.end()),
{
    let next = chunks.push(c);
    assert forall|i: int| 0 <= i < next.len() - 1 implies (#[trigger] next[i]).end() == next[i + 1].start() by {
        if i < chunks.len() - 1 {
            assert(chunks[i].end() == chunks[i + 1].start());
        }
    }
}

/// A chunk can be split in two halves that cover the same indices.
pub proof fn lemma_split(chunk: u64, pow: u64)
    requires
        1 <= chunk,
        2 * chunk <= u64::MAX,
        1 <= pow,
    ensures
        ({
            let whole = Chunk { chunk, pow };
            let left = Chunk { chunk: (2 * chunk - 1) as u64, pow: (pow - 1) as u64 };
            let right = Chunk { chunk: (2 * chunk) as u64, pow: (pow - 1) as u64 };
            &&& left.start() == whole.start()
            &&& left.end() == right.start()
            &&& right.end() == whole.end()
        }),
{
    lemma_pow2_unfold(pow as nat);
    let p = pow2((pow - 1) as nat) as int;
    assert((2 * chunk - 2) * p == (chunk - 1) * (2 * p) && 2 * chunk * p == chunk * (2 * p))
        by (nonlinear_arith);
}

/// Whether a chunk is still large enough to be split, and its halves would still
/// have numbers.
pub open spec fn splittable(chunk: int, pow: int) -> bool {
    pow2(pow as nat) > 2048 && chunk * 2 < 1024
}

/// The chunks that splitting chunk `chunk` puts on the queue: always the left
/// half, going on with the right one.
pub open spec fn right_splits(chunk: int, pow: int) -> Seq<Chunk>
    decreases pow,
{
    if pow <= 0 || !splittable(chunk, pow) {
        Seq::empty()
    } else {
        seq![Chunk { chunk: (2 * chunk - 1) as u64, pow: (pow - 1) as u64 }] + right_splits(
            2 * chunk,
            pow - 1,
        )
    }
}

/// The chunk that is left at the end.
pub open spec fn right_rest(chunk: int, pow: int) -> (int, int)
    decreases pow,
{
    if pow <= 0 || !splittable(chunk, pow) {
        (chunk, pow)
    } else {
        right_rest(2 * chunk, pow - 1)
    }
}

/// Divides a chunk of an array: the left halves go on the queue, the last right
/// half is processed.
pub fn do_chunked_array(chunk: u64, pow: u64) -> (r: ChunkPlan)
    requires
        1 <= chunk < 1024,
        pow <= 30,
        chunk * pow2(pow as nat) <= 0x8000_0000,
    ensures
        r.chunks@ == right_splits(chunk as int, pow as int),
        ({
            let (c, p) = right_rest(chunk as int, pow as int);
            r.from == (c - 1) * pow2(p as nat) && r.to == c * pow2(p as nat)
        }),
        tiles(r.chunks@, (Chunk { chunk, pow }).start(), r.from as int),
        r.from < r.to,
        r.to == (Chunk { chunk, pow }).end(),
{
    let ghost whole = Chunk { chunk, pow };
    let mut chunks: Vec<Chunk> = Vec::new();
    let mut c: u64 = chunk;
    let mut p: u64 = pow;
    proof {
        lemma_pow2_pos(pow as nat);
        lemma_shift_is_pow2(p);
        assert(chunks@ + right_splits(c as int, p as int) =~= right_splits(c as int, p as int));
        assert(tiles(chunks@, whole.start(), whole.start()));
    }
    while (1u64 << p) > 2048 && c * 2 < MarkTask::chunk_size()
        invariant
            1 <= c < 1024,
            p <= 30,
            1u64 << p == pow2(p as nat),
            whole.end() == (Chunk { chunk: c, pow: p }).end(),
            whole.end() <= 0x8000_0000,
            tiles(chunks@, whole.start(), (Chunk { chunk: c, pow: p }).start()),
            chunks@ + right_splits(c as int, p as int) == right_splits(chunk as int, pow as int),
            right_rest(c as int, p as int) == right_rest(chunk as int, pow as int),
        decreases p,
    {
        proof {
            vstd::arithmetic::power2::lemma2_to64();
            assert(p > 0);
            lemma_split(c, p);
            lemma_shift_is_pow2((p - 1) as u64);
        }
        let ghost before = chunks@;
        let ghost (c0, p0) = (c as int, p as int);
        p = p - 1;
        c = c * 2;
        let left = Chunk { chunk: c - 1, pow: p };
        chunks.push(left);
        proof {
            lemma_tiles_push(before, whole.start(), left.start(), left);
            assert(chunks@ + right_splits(c as int, p as int) =~= before + right_splits(c0, p0));
        }
    }
    let chunk_size: u64 = 1u64 << p;
    proof {
        assert(right_splits(c as int, p as int) =~= Seq::<Chunk>::empty());
        assert(chunks@ =~= right_splits(chunk as int, pow as int));
        lemma_pow2_pos(p as nat);
        assert(0 <= (c - 1) * chunk_size < c * chunk_size) by (nonlinear_arith)
            requires
                c >= 1,
                chunk_size > 0,
        ;
    }
    ChunkPlan { chunks, from: (c - 1) * chunk_size, to: c * chunk_size }
}

/// The state of the first division of an array: the chunk that is left and the
/// index up to which chunks have been cut.
pub struct Cut {
    pub chunks: Seq<Chunk>,
    pub last: int,
}

/// The chunks that are cut from the left of chunk `chunk` of an array of `len`
/// elements, as long as they are full.
pub open spec fn prefix_cut(chunk: int, pow: int, len: int, last: int) -> Cut
    decreases pow,
{
    if pow <= 0 || !splittable(chunk, pow) {
        Cut { chunks: Seq::empty(), last }
    } else {
        let left = 2 * chunk - 1;
        let left_end = left * pow2((pow - 1) as nat);
        if left_end < len {
            let rest = prefix_cut(2 * chunk, pow - 1, len, left_end);
            Cut {
                chunks: seq![Chunk { chunk: left as u64, pow: (pow - 1) as u64 }] + rest.chunks,
                last: rest.last,
            }
        } else {
            prefix_cut(left, pow - 1, len, last)
        }
    }
}

/// The exponent of the smallest power of two that is not below `len`.
pub open spec fn log2_ceil(len: int) -> int {
    if pow2(log2_floor(len)) == len {
        log2_floor(len) as int
    } else {
        log2_floor(len) as int + 1
    }
}

/// The first division of an array of `len` elements.
pub open spec fn first_cut(len: int) -> Cut {
    if len <= 4096 {
        Cut { chunks: Seq::empty(), last: 0 }
    } else if log2_ceil(len) >= 31 {
        let rest = prefix_cut(2, 30, len, pow2(30) as int);
        Cut { chunks: seq![Chunk { chunk: 1, pow: 30 }] + rest.chunks, last: rest.last }
    } else {
        prefix_cut(1, log2_ceil(len), len, 0)
    }
}

/// Divides an array for the first time. A few slices only are processed directly.
/// Of a larger array the prefix is cut in full-sized chunks for the queue; the
/// irregular tail is processed at once.
pub fn do_chunked_array_start(len: u64) -> (r: ChunkPlan)
    requires
        len <= 0x8000_0000,
        len <= usize::MAX,
    ensures
        r.chunks@ == first_cut(len as int).chunks,
        r.from == first_cut(len as int).last,
        r.to == len,
        r.from <= r.to,
        tiles(r.chunks@, 0, r.from as int),
{
    if len <= 2048 * 2 {
        // a few slices only, process directly
        let chunks: Vec<Chunk> = Vec::new();
        assert(chunks@ =~= Seq::<Chunk>::empty());
        return ChunkPlan { chunks, from: 0, to: len };
    }
    let mut bits: u64 = log2_floor_of(len as usize) as u64;
    proof {
        lemma_log2_floor(len as int);
        vstd::arithmetic::power2::lemma2_to64();
        if bits > 31 {
            lemma_pow2_strictly_increases(31, bits as nat);
        }
        lemma_shift_is_pow2(bits);
    }
    // Compensate for non-power-of-two arrays, cover the array in excess:
    if len != 1u64 << bits {
        bits = bits + 1;
    }
    proof {
        if bits > 31 {
            assert(bits == 32 && log2_floor(len as int) == 31);
        }
        if bits < 31 && len > 0x4000_0000 {
            if bits < 30 {
                lemma_pow2_strictly_increases(bits as nat, 30);
            }
        }
        if bits == 31 && len <= 0x4000_0000 {
            assert(log2_floor(len as int) >= 30);
        }
    }
    let mut chunks: Vec<Chunk> = Vec::new();
    let mut last_idx: u64 = 0;
    let mut chunk: u64 = 1;
    let mut pow: u64 = bits;
    let ghost first: Seq<Chunk> = Seq::empty();
    // Handle overflow: the first half is a chunk of its own
    if pow >= 31 {
        pow = pow - 1;
        chunk = 2;
        proof {
            lemma_shift_is_pow2(pow);
            let half = Chunk { chunk: 1, pow };
            assert(half.start() == 0 && half.end() == pow2(pow as nat)) by (nonlinear_arith)
                requires
                    half.start() == (1 - 1) * pow2(pow as nat),
                    half.end() == 1 * pow2(pow as nat),
            ;
        }
        last_idx = 1u64 << pow;
        chunks.push(Chunk { chunk: 1, pow });
    }
    let ghost start_chunks = chunks@;
    let ghost goal = prefix_cut(chunk as int, pow as int, len as int, last_idx as int);
    proof {
        lemma_shift_is_pow2(pow);
        let w = pow2(pow as nat) as int;
        assert(0 * w == 0 && 1 * w == w && 2 * w == w + w) by (nonlinear_arith);
        assert(start_chunks + goal.chunks =~= first_cut(len as int).chunks);
        assert(chunks@ + prefix_cut(
            chunk as int,
            pow as int,
            len as int,
            last_idx as int,
        ).chunks =~= first_cut(len as int).chunks);
    }
    // Split out tasks. Record the last successful right boundary to figure out the
    // irregular tail.
    while (1u64 << pow) > 2048 && chunk * 2 < MarkTask::chunk_size()
        invariant
            1 <= chunk < 1024,
            pow <= 30,
            1u64 << pow == pow2(pow as nat),
            4096 < len <= 0x8000_0000,
            last_idx <= len,
            last_idx == (Chunk { chunk, pow }).start(),
            (Chunk { chunk, pow }).end() <= 0x8000_0000,
            tiles(chunks@, 0, last_idx as int),
            chunks@ + prefix_cut(chunk as int, pow as int, len as int, last_idx as int).chunks
                == first_cut(len as int).chunks,
            prefix_cut(chunk as int, pow as int, len as int, last_idx as int).last == first_cut(
                len as int,
            ).last,
        decreases pow,
    {
        proof {
            vstd::arithmetic::power2::lemma2_to64();
            assert(pow > 0);
            lemma_split(chunk, pow);
            lemma_shift_is_pow2((pow - 1) as u64);
            lemma_pow2_pos((pow - 1) as nat);
        }
        let ghost before = chunks@;
        let ghost cut = prefix_cut(chunk as int, pow as int, len as int, last_idx as int);
        pow = pow - 1;
        let left_chunk: u64 = chunk * 2 - 1;
        let right_chunk: u64 = chunk * 2;
        let ghost left = Chunk { chunk: left_chunk, pow };
        proof {
            let w = pow2(pow as nat) as int;
            assert(left_chunk * w < right_chunk * w && left_chunk * w >= 0) by (nonlinear_arith)
                requires
                    left_chunk + 1 == right_chunk,
                    left_chunk >= 0,
                    w > 0,
            ;
        }
        let left_chunk_end: u64 = left_chunk * (1u64 << pow);
        if left_chunk_end < len {
            chunks.push(Chunk { chunk: left_chunk, pow });
            proof {
                lemma_tiles_push(before, 0, last_idx as int, left);
                assert(chunks@ + prefix_cut(
                    right_chunk as int,
                    pow as int,
                    len as int,
                    left_chunk_end as int,
                ).chunks =~= before + cut.chunks);
            }
            chunk = right_chunk;
            last_idx = left_chunk_end;
        } else {
            chunk = left_chunk;
        }
    }
    proof {
        let rest = prefix_cut(chunk as int, pow as int, len as int, last_idx as int);
        assert(rest.chunks =~= Seq::<Chunk>::empty());
        assert(chunks@ =~= first_cut(len as int).chunks);
    }
    // Process the irregular tail, if present
    ChunkPlan { chunks, from: last_idx, to: len }
}

/// The number of tasks that a visitor keeps to itself.
pub const SEGMENT_SIZE: usize = 64;

/// A small stack of tasks.
pub struct Segment {
    data: Vec<u64>,
}

impl Segment {
    /// The words of the tasks, the last one is popped first.
    pub closed spec fn view(&self) -> Seq<u64> {
        self.data@
    }

    pub fn new() -> (r: Segment)
        ensures
            r@ == Seq::<u64>::empty(),
    {
        Segment { data: Vec::with_capacity(SEGMENT_SIZE) }
    }

    pub fn empty() -> (r: Segment)
        ensures
            r@ == Seq::<u64>::empty(),
    {
        Segment { data: Vec::new() }
    }

    pub fn with(addr: MarkTask) -> (r: Segment)
        ensures
            r@ == seq![addr.word()],
    {
        let mut segment = Segment::new();
        segment.data.push(addr.to_word());
        assert(segment@ =~= seq![addr.word()]);
        segment
    }

    pub fn has_capacity(&self) -> (r: bool)
        ensures
            r == (self@.len() < SEGMENT_SIZE),
    {
        self.data.len() < SEGMENT_SIZE
    }

    pub fn is_empty(&self) -> (r: bool)
        ensures
            r == (self@.len() == 0),
    {
        self.data.len() == 0
    }

    pub fn push(&mut self, addr: MarkTask)
        ensures
            final(self)@ == old(self)@.push(addr.word()),
    {
        self.data.push(addr.to_word());
    }

    pub fn pop(&mut self) -> (r: Option<MarkTask>)
        ensures
            old(self)@.len() == 0 ==> r is None && final(self)@ == old(self)@,
            old(self)@.len() > 0 ==> {
                &&& r is Some
                &&& r->0.word() == old(self)@.last()
                &&& final(self)@ == old(self)@.drop_last()
            },
    {
        match self.data.pop() {
            Some(word) => Some(MarkTask::from_word(word)),
            None => None,
        }
    }

    pub fn len(&self) -> (r: usize)
        ensures
            r == self@.len(),
    {
        self.data.len()
    }
}

/// The work of one marking thread: a segment of its own, a queue that others may
/// steal from, and counters.
pub struct SlotVisitor {
    task_id: usize,
    local: Segment,
    marked: usize,
    visit_count: usize,
    worker: Worker<u64>,
}

/// What a visitor holds.
#[verifier::ext_equal]
pub struct VisitorView {
    pub task_id: int,
    pub local: Seq<u64>,
    pub worker: Seq<u64>,
    pub marked: int,
    pub visits: int,
}

/// All tasks of a visitor, as often as they occur.
pub open spec fn visitor_tasks(v: VisitorView) -> vstd::multiset::Multiset<u64> {
    v.local.to_multiset().add(v.worker.to_multiset())
}

/// The tasks from the top of a stack down to `keep` of them, in the order in which
/// they are popped.
pub open spec fn top_down(local: Seq<u64>, keep: int) -> Seq<u64> {
    local.skip(keep).reverse()
}

/// Whether a visitor that has pushed a task hands some of its own tasks out.
pub open spec fn hands_out(v: VisitorView) -> bool {
    v.marked + 1 > 256 && v.local.len() > 4
}

/// A visitor after it has counted a task. Every now and then it keeps only half of
/// its own tasks.
pub open spec fn counted(v: VisitorView) -> VisitorView {
    VisitorView {
        local: if hands_out(v) {
            v.local.take(v.local.len() as int / 2)
        } else {
            v.local
        },
        marked: if v.marked + 1 > 256 {
            0
        } else {
            v.marked + 1
        },
        ..v
    }
}

/// The tasks that a visitor hands out when it counts a task.
pub open spec fn handed_out(v: VisitorView) -> Seq<u64> {
    if hands_out(v) {
        top_down(v.local, v.local.len() as int / 2)
    } else {
        Seq::empty()
    }
}

/// The number behind `n` for a counter that starts again at zero.
pub open spec fn next_count(n: int) -> int {
    if n == usize::MAX {
        0
    } else {
        n + 1
    }
}

/// A visitor after a task has been pushed: on its own segment, as long as that has
/// room, else on its queue.
pub open spec fn pushed(v: VisitorView, word: u64) -> VisitorView {
    if v.local.len() < SEGMENT_SIZE {
        counted(VisitorView { local: v.local.push(word), visits: next_count(v.visits), ..v })
    } else {
        VisitorView { worker: v.worker.push(word), visits: next_count(v.visits), ..v }
    }
}

/// The tasks that pushing a task hands out.
pub open spec fn pushed_out(v: VisitorView, word: u64) -> Seq<u64> {
    if v.local.len() < SEGMENT_SIZE {
        handed_out(VisitorView { local: v.local.push(word), visits: next_count(v.visits), ..v })
    } else {
        Seq::empty()
    }
}

/// What popping gives: a task of the visitor's own segment `v.local`, else one of its
/// queue, else one of the queue `q` that all share, from which more tasks may be
/// moved over. `w` and `q2` are what is left.
pub open spec fn popped(
    v: VisitorView,
    q: Seq<u64>,
    w: VisitorView,
    q2: Seq<u64>,
    r: Taken,
) -> bool {
    if v.local.len() > 0 {
        &&& r == Taken::Task(v.local.last())
        &&& w == (VisitorView { local: v.local.drop_last(), ..v })
        &&& q2 == q
    } else if v.worker.len() > 0 {
        &&& r == Taken::Task(v.worker.last())
        &&& w == (VisitorView { worker: v.worker.drop_last(), ..v })
        &&& q2 == q
    } else {
        &&& r == Taken::Empty <==> q.len() == 0
        &&& !(r is Task) ==> w == v && q2 == q
        &&& r matches Taken::Task(task) ==> {
            &&& task == q[0]
            &&& exists|n: int|
                #![trigger q.skip(n)]
                {
                    &&& 1 <= n <= q.len()
                    &&& q2 == q.skip(n)
                    &&& w == (VisitorView { worker: q.subrange(1, n).reverse(), ..v })
                }
        }
    }
}

impl SlotVisitor {
    pub closed spec fn view(&self) -> VisitorView {
        VisitorView {
            task_id: self.task_id as int,
            local: self.local@,
            worker: worker_tasks(self.worker),
            marked: self.marked as int,
            visits: self.visit_count as int,
        }
    }

    /// Nobody else has access to the queue, and the counter starts again in time.
    pub closed spec fn wf(&self) -> bool {
        worker_private(self.worker) && self.marked <= 256
    }

    pub fn new(task_id: usize) -> (r: Self)
        ensures
            r.wf(),
            r@ == (VisitorView {
                task_id: task_id as int,
                local: Seq::empty(),
                worker: Seq::empty(),
                marked: 0,
                visits: 0,
            }),
    {
        SlotVisitor {
            task_id,
            visit_count: 0,
            worker: worker_new(),
            local: Segment::new(),
            marked: 0,
        }
    }

    pub fn visit_count(&self) -> (r: usize)
        ensures
            r == self@.visits,
    {
        self.visit_count
    }

    /// Takes a task: of its own segment, else of its own queue, else a batch of
    /// the injector.
    pub fn pop(&mut self, injector: &mut Injector<u64>) -> (r: Taken)
        requires
            old(self).wf(),
        ensures
            final(self).wf(),
            popped(
                old(self)@,
                injector_tasks(*old(injector)),
                final(self)@,
                injector_tasks(*final(injector)),
                r,
            ),
    {
        match self.pop_local() {
            Some(task) => {
                return Taken::Task(task.to_word());
            },
            None => {},
        }
        match self.pop_worker() {
            Some(task) => {
                return Taken::Task(task.to_word());
            },
            None => {},
        }
        let ghost before = *self;
        let ghost tasks = injector_tasks(*injector);
        let r: Taken = self.pop_global(injector);
        proof {
            if r is Task {
                let n = choose|n: int|
                    #![trigger tasks.skip(n)]
                    {
                        &&& 1 <= n <= tasks.len()
                        &&& injector_tasks(*injector) == tasks.skip(n)
                        &&& self@.worker == before@.worker + tasks.subrange(1, n).reverse()
                    };
                assert(before@.worker + tasks.subrange(1, n).reverse() =~= tasks.subrange(
                    1,
                    n,
                ).reverse());
                assert(self@ == (VisitorView {
                    worker: tasks.subrange(1, n).reverse(),
                    ..before@
                }));
            }
        }
        r
    }

    fn pop_global(&mut self, injector: &mut Injector<u64>) -> (r: Taken)
        requires
            old(self).wf(),
        ensures
            final(self).wf(),
            final(self)@.task_id == old(self)@.task_id,
            final(self)@.local == old(self)@.local,
            final(self)@.marked == old(self)@.marked,
            final(self)@.visits == old(self)@.visits,
            r == Taken::Empty <==> injector_tasks(*old(injector)).len() == 0,
            !(r is Task) ==> final(self)@ == old(self)@ && injector_tasks(*final(injector))
                == injector_tasks(*old(injector)),
            r matches Taken::Task(task) ==> {
                &&& task == injector_tasks(*old(injector))[0]
                &&& exists|n: int|
                    #![trigger injector_tasks(*old(injector)).skip(n)]
                    {
                        &&& 1 <= n <= injector_tasks(*old(injector)).len()
                        &&& injector_tasks(*final(injector)) == injector_tasks(
                            *old(injector),
                        ).skip(n)
                        &&& final(self)@.worker == old(self)@.worker + injector_tasks(
                            *old(injector),
                        ).subrange(1, n).reverse()
                    }
            },
    {
        injector_steal(injector, &mut self.worker)
    }

    fn pop_local(&mut self) -> (r: Option<MarkTask>)
        requires
            old(self).wf(),
        ensures
            final(self).wf(),
            old(self)@.local.len() == 0 ==> r is None && *final(self) == *old(self),
            old(self)@.local.len() > 0 ==> {
                &&& r is Some
                &&& r->0.word() == old(self)@.local.last()
                &&& final(self)@ == (VisitorView {
                    local: old(self)@.local.drop_last(),
                    ..old(self)@
                })
            },
    {
        if self.local.is_empty() {
            return None;
        }
        self.local.pop()
    }

    fn pop_worker(&mut self) -> (r: Option<MarkTask>)
        requires
            old(self).wf(),
        ensures
            final(self).wf(),
            old(self)@.worker.len() == 0 ==> r is None && final(self)@ == old(self)@,
            old(self)@.worker.len() > 0 ==> {
                &&& r is Some
                &&& r->0.word() == old(self)@.worker.last()
                &&& final(self)@ == (VisitorView {
                    worker: old(self)@.worker.drop_last(),
                    ..old(self)@
                })
            },
    {
        match worker_pop(&mut self.worker) {
            Some(word) => Some(MarkTask::from_word(word)),
            None => None,
        }
    }

    /// Counts a task, and every now and then hands half of its own tasks out so
    /// that other threads find work.
    fn defensive_push(&mut self, injector: &mut Injector<u64>)
        requires
            old(self).wf(),
        ensures
            final(self).wf(),
            final(self)@ == counted(old(self)@),
            injector_tasks(*final(injector)) == injector_tasks(*old(injector)) + handed_out(
                old(self)@,
            ),
    {
        let ghost before = self@;
        let ghost tasks = injector_tasks(*injector);
        self.marked = self.marked + 1;
        if self.marked > 256 {
            if self.local.len() > 4 {
                let target_len: usize = self.local.len() / 2;
                assert(injector_tasks(*injector) =~= tasks + top_down(
                    before.local,
                    before.local.len() as int,
                ));
                while self.local.len() > target_len
                    invariant
                        worker_private(self.worker),
                        target_len == before.local.len() as int / 2,
                        target_len <= self.local@.len() <= before.local.len(),
                        self.local@ == before.local.take(self.local@.len() as int),
                        injector_tasks(*injector) == tasks + top_down(
                            before.local,
                            self.local@.len() as int,
                        ),
                        self@ == (VisitorView {
                            local: self.local@,
                            marked: before.marked + 1,
                            ..before
                        }),
                    decreases self.local@.len(),
                {
                    let ghost n = self.local@.len() as int;
                    match self.local.pop() {
                        Some(val) => {
                            injector_push(injector, val.to_word());
                            proof {
                                assert(val.word() == before.local[n - 1]);
                                assert(top_down(before.local, n).push(before.local[n - 1])
                                    =~= top_down(before.local, n - 1)) by {
                                    assert(before.local.skip(n - 1).len() == before.local.len() - n
                                        + 1);
                                }
                                assert(injector_tasks(*injector) =~= tasks + top_down(
                                    before.local,
                                    n - 1,
                                ));
                                assert(self.local@ =~= before.local.take(n - 1));
                            }
                        },
                        None => {},
                    }
                }
            } else {
                assert(injector_tasks(*injector) =~= tasks + Seq::<u64>::empty());
            }
            self.marked = 0;
        } else {
            assert(injector_tasks(*injector) =~= tasks + Seq::<u64>::empty());
        }
    }

    /// Adds a task.
    pub fn push(&mut self, injector: &mut Injector<u64>, obj: MarkTask)
        requires
            old(self).wf(),
        ensures
            final(self).wf(),
            final(self)@ == pushed(old(self)@, obj.word()),
            injector_tasks(*final(injector)) == injector_tasks(*old(injector)) + pushed_out(
                old(self)@,
                obj.word(),
            ),
    {
        let ghost before = self@;
        self.visit_count = self.visit_count.wrapping_add(1);
        if self.local.has_capacity() {
            self.local.push(obj);
            self.defensive_push(injector);
        } else {
            worker_push(&mut self.worker, obj.to_word());
            assert(injector_tasks(*injector) =~= injector_tasks(*injector) + Seq::<u64>::empty());
        }
    }

    /// Steals tasks of another visitor: some are moved to the queue of this one,
    /// the one behind them is returned.
    pub fn steal_from(&mut self, victim: &mut SlotVisitor) -> (r: Taken)
        requires
            old(self).wf(),
            old(victim).wf(),
        ensures
            final(self).wf(),
            final(victim).wf(),
            r == Taken::Empty <==> old(victim)@.worker.len() == 0,
            r != Taken::Retry,
            !(r is Task) ==> final(self)@ == old(self)@ && final(victim)@ == old(victim)@,
            r matches Taken::Task(task) ==> exists|n: int|
                #![trigger old(victim)@.worker[n]]
                {
                    &&& 0 <= n < old(victim)@.worker.len()
                    &&& task == old(victim)@.worker[n]
                    &&& final(victim)@ == (VisitorView {
                        worker: old(victim)@.worker.skip(n + 1),
                        ..old(victim)@
                    })
                    &&& final(self)@ == (VisitorView {
                        worker: old(self)@.worker + old(victim)@.worker.take(n),
                        ..old(self)@
                    })
                },
    {
        let ghost from = victim@;
        let ghost to = self@;
        let r: Taken = worker_steal(&mut victim.worker, &mut self.worker);
        proof {
            if r is Task {
                let n = choose|n: int|
                    #![trigger from.worker[n]]
                    {
                        &&& 0 <= n < from.worker.len()
                        &&& r == Taken::Task(from.worker[n])
                        &&& worker_tasks(victim.worker) == from.worker.skip(n + 1)
                        &&& worker_tasks(self.worker) == to.worker + from.worker.take(n)
                    };
                assert(victim@ == (VisitorView { worker: from.worker.skip(n + 1), ..from }));
                assert(self@ == (VisitorView { worker: to.worker + from.worker.take(n), ..to }));
            }
        }
        r
    }
}

/// Pushing a task loses none: those of the visitor and of the injector are the ones
/// from before and the new one.
pub proof fn lemma_push_keeps_tasks(v: VisitorView, injector: Seq<u64>, word: u64)
    ensures
        visitor_tasks(pushed(v, word)).add((injector + pushed_out(v, word)).to_multiset())
            == visitor_tasks(v).add(injector.to_multiset()).insert(word),
{
    broadcast use vstd::seq_lib::group_to_multiset_ensures;

    let out = pushed_out(v, word);
    vstd::seq_lib::lemma_multiset_commutative(injector, out);
    if v.local.len() < SEGMENT_SIZE {
        let w = VisitorView { local: v.local.push(word), visits: next_count(v.visits), ..v };
        assert(w.local.to_multiset() =~= v.local.to_multiset().insert(word));
        if hands_out(w) {
            let k = w.local.len() as int / 2;
            assert(w.local =~= w.local.take(k) + w.local.skip(k));
            vstd::seq_lib::lemma_multiset_commutative(w.local.take(k), w.local.skip(k));
            lemma_reverse_multiset(w.local.skip(k));
            assert(counted(w).local.to_multiset().add(out.to_multiset())
                =~= w.local.to_multiset());
        } else {
            assert(counted(w).local.to_multiset().add(out.to_multiset())
                =~= w.local.to_multiset());
        }
    }
    let p = pushed(v, word);
    let l = v.local.to_multiset();
    let w = v.worker.to_multiset();
    assert(p.local.to_multiset().add(out.to_multiset()).add(p.worker.to_multiset()) =~= l.add(
        w,
    ).insert(word)) by {
        if v.local.len() >= SEGMENT_SIZE {
            assert(out.to_multiset() =~= vstd::multiset::Multiset::<u64>::empty());
        }
    }
    assert forall|x: u64|
        visitor_tasks(p).add((injector + out).to_multiset()).count(x) == visitor_tasks(v).add(
            injector.to_multiset(),
        ).insert(word).count(x) by {
        assert(p.local.to_multiset().add(out.to_multiset()).add(p.worker.to_multiset()).count(x)
            == l.add(w).insert(word).count(x));
    }
    assert(visitor_tasks(pushed(v, word)).add((injector + out).to_multiset()) =~= visitor_tasks(
        v,
    ).add(injector.to_multiset()).insert(word));
}

proof fn lemma_reverse_multiset(s: Seq<u64>)
    ensures
        s.reverse().to_multiset() == s.to_multiset(),
    decreases s.len(),
{
    broadcast use vstd::seq_lib::group_to_multiset_ensures;

    if s.len() > 0 {
        let t = s.drop_last();
        lemma_reverse_multiset(t);
        assert(s =~= t.push(s.last()));
        assert(s.reverse() =~= seq![s.last()] + t.reverse());
        vstd::seq_lib::lemma_multiset_commutative(seq![s.last()], t.reverse());
        assert(seq![s.last()] =~= Seq::<u64>::empty().push(s.last()));
        assert(s.reverse().to_multiset() =~= s.to_multiset());
    } else {
        assert(s.reverse() =~= s);
    }
}

/// All tasks of the given visitors.
pub open spec fn tasks_of(views: Seq<VisitorView>) -> vstd::multiset::Multiset<u64>
    decreases views.len(),
{
    if views.len() == 0 {
        vstd::multiset::Multiset::empty()
    } else {
        tasks_of(views.drop_last()).add(visitor_tasks(views.last()))
    }
}

proof fn lemma_tasks_update(views: Seq<VisitorView>, i: int, w: VisitorView)
    requires
        0 <= i < views.len(),
    ensures
        tasks_of(views.update(i, w)).add(visitor_tasks(views[i])) == tasks_of(views).add(
            visitor_tasks(w),
        ),
    decreases views.len(),
{
    let rest = views.drop_last();
    if i == views.len() - 1 {
        assert(views.update(i, w).drop_last() =~= rest);
    } else {
        lemma_tasks_update(rest, i, w);
        assert(views.update(i, w).drop_last() =~= rest.update(i, w));
    }
    assert(views.update(i, w).last() == if i == views.len() - 1 {
        w
    } else {
        views.last()
    });
    assert forall|x: u64|
        tasks_of(views.update(i, w)).add(visitor_tasks(views[i])).count(x) == tasks_of(views).add(
            visitor_tasks(w),
        ).count(x) by {
        if i < views.len() - 1 {
            assert(tasks_of(rest.update(i, w)).add(visitor_tasks(rest[i])).count(x) == tasks_of(
                rest,
            ).add(visitor_tasks(w)).count(x));
        }
    }
    assert(tasks_of(views.update(i, w)).add(visitor_tasks(views[i])) =~= tasks_of(views).add(
        visitor_tasks(w),
    ));
}

proof fn lemma_no_tasks(views: Seq<VisitorView>)
    requires
        forall|i: int|
            0 <= i < views.len() ==> (#[trigger] views[i]).local == Seq::<u64>::empty()
                && views[i].worker == Seq::<u64>::empty(),
    ensures
        tasks_of(views) == vstd::multiset::Multiset::<u64>::empty(),
    decreases views.len(),
{
    broadcast use vstd::seq_lib::group_to_multiset_ensures;

    if views.len() > 0 {
        lemma_no_tasks(views.drop_last());
        assert(visitor_tasks(views.last()) =~= vstd::multiset::Multiset::<u64>::empty());
        assert(tasks_of(views) =~= vstd::multiset::Multiset::<u64>::empty());
    }
}

/// A visitor whose tasks are among none has none.
proof fn lemma_tasks_part(views: Seq<VisitorView>, i: int, word: u64)
    requires
        0 <= i < views.len(),
    ensures
        visitor_tasks(views[i]).count(word) <= tasks_of(views).count(word),
    decreases views.len(),
{
    if i < views.len() - 1 {
        lemma_tasks_part(views.drop_last(), i, word);
    }
}

/// Splitting a queue in front of `n`.
proof fn lemma_split_multiset(q: Seq<u64>, n: int)
    requires
        0 <= n <= q.len(),
    ensures
        q.to_multiset() == q.take(n).to_multiset().add(q.skip(n).to_multiset()),
{
    assert(q =~= q.take(n) + q.skip(n));
    vstd::seq_lib::lemma_multiset_commutative(q.take(n), q.skip(n));
}

/// Popping takes the returned task and loses no other.
pub proof fn lemma_pop_keeps_tasks(
    v: VisitorView,
    q: Seq<u64>,
    w: VisitorView,
    q2: Seq<u64>,
    r: Taken,
)
    requires
        popped(v, q, w, q2, r),
    ensures
        !(r is Task) ==> visitor_tasks(w).add(q2.to_multiset()) == visitor_tasks(v).add(
            q.to_multiset(),
        ),
        r matches Taken::Task(task) ==> visitor_tasks(w).add(q2.to_multiset()).insert(task)
            == visitor_tasks(v).add(q.to_multiset()),
{
    broadcast use vstd::seq_lib::group_to_multiset_ensures;

    if v.local.len() > 0 {
        assert(v.local =~= w.local.push(v.local.last()));
        assert(visitor_tasks(w).add(q2.to_multiset()).insert(v.local.last()) =~= visitor_tasks(
            v,
        ).add(q.to_multiset()));
    } else if v.worker.len() > 0 {
        assert(v.worker =~= w.worker.push(v.worker.last()));
        assert(visitor_tasks(w).add(q2.to_multiset()).insert(v.worker.last()) =~= visitor_tasks(
            v,
        ).add(q.to_multiset()));
    } else if r is Task {
        let n = choose|n: int|
            #![trigger q.skip(n)]
            {
                &&& 1 <= n <= q.len()
                &&& q2 == q.skip(n)
                &&& w == (VisitorView { worker: q.subrange(1, n).reverse(), ..v })
            };
        lemma_split_multiset(q, n);
        lemma_reverse_multiset(q.subrange(1, n));
        assert(q.take(n) =~= seq![q[0]] + q.subrange(1, n));
        vstd::seq_lib::lemma_multiset_commutative(seq![q[0]], q.subrange(1, n));
        assert(seq![q[0]] =~= Seq::<u64>::empty().push(q[0]));
        assert(v.worker =~= Seq::<u64>::empty());
        assert(visitor_tasks(w).add(q2.to_multiset()).insert(q[0]) =~= visitor_tasks(v).add(
            q.to_multiset(),
        ));
    }
}

/// What stealing from one visitor gives: nothing if it has no task in its queue;
/// otherwise some tasks move to the thief and the one behind them is returned.
pub open spec fn stolen_from(
    views: Seq<VisitorView>,
    thief: int,
    victim: int,
    after: Seq<VisitorView>,
    r: Taken,
) -> bool {
    let from = views[victim].worker;
    match r {
        Taken::Empty => from.len() == 0 && after == views,
        Taken::Retry => false,
        Taken::Task(task) => exists|n: int|
            #![trigger from[n]]
            {
                &&& 0 <= n < from.len()
                &&& task == from[n]
                &&& after == views.update(
                    victim,
                    VisitorView { worker: from.skip(n + 1), ..views[victim] },
                ).update(
                    thief,
                    VisitorView {
                        worker: views[thief].worker + from.take(n),
                        ..views[thief]
                    },
                )
            },
    }
}

/// What stealing gives: the outcome of stealing from one of the others, if there are any.
pub open spec fn stolen(
    views: Seq<VisitorView>,
    thief: int,
    after: Seq<VisitorView>,
    r: Taken,
) -> bool {
    if views.len() == 1 {
        r == Taken::Empty && after == views
    } else {
        exists|i: int|
            0 <= i < views.len() && i != thief && #[trigger] stolen_from(views, thief, i, after, r)
    }
}

/// What taking a task gives: one of the visitor's own, else one of those that all share,
/// else one that is stolen.
pub open spec fn took(
    views: Seq<VisitorView>,
    shared: Seq<u64>,
    after: Seq<VisitorView>,
    shared_after: Seq<u64>,
    id: int,
    r: Taken,
) -> bool {
    let v = views[id];
    if v.local.len() > 0 || v.worker.len() > 0 || shared.len() > 0 {
        &&& popped(v, shared, after[id], shared_after, r)
        &&& after == views.update(id, after[id])
    } else {
        &&& stolen(views, id, after, r)
        &&& shared_after == shared
    }
}

/// Whether taking a task can have a given outcome.
pub open spec fn takes(views: Seq<VisitorView>, shared: Seq<u64>, id: int, r: Taken) -> bool {
    exists|after: Seq<VisitorView>, shared_after: Seq<u64>| #[trigger]
        took(views, shared, after, shared_after, id, r)
}

/// The visitor that a draw among all but the thief stands for.
pub open spec fn victim_of(draw: int, thief: int) -> int {
    if draw < thief {
        draw
    } else {
        draw + 1
    }
}

/// The visitors of all marking threads and the queue that they share.
pub struct MarkQueueSet {
    visitors: Vec<SlotVisitor>,
    injector: Injector<u64>,
}

impl MarkQueueSet {
    /// The visitors.
    pub closed spec fn views(&self) -> Seq<VisitorView> {
        Seq::new(self.visitors@.len(), |i: int| self.visitors@[i]@)
    }

    /// The tasks in the queue that the visitors share.
    pub closed spec fn shared(&self) -> Seq<u64> {
        injector_tasks(self.injector)
    }

    pub closed spec fn wf(&self) -> bool {
        forall|i: int| 0 <= i < self.visitors@.len() ==> (#[trigger] self.visitors@[i]).wf()
    }

    /// All tasks, as often as they occur.
    pub open spec fn tasks(&self) -> vstd::multiset::Multiset<u64> {
        tasks_of(self.views()).add(self.shared().to_multiset())
    }

    /// A set of `nworkers` visitors without tasks.
    pub fn new(nworkers: usize) -> (r: MarkQueueSet)
        ensures
            r.wf(),
            r.views().len() == nworkers,
            forall|i: int|
                0 <= i < nworkers ==> #[trigger] r.views()[i] == (VisitorView {
                    task_id: i,
                    local: Seq::empty(),
                    worker: Seq::empty(),
                    marked: 0,
                    visits: 0,
                }),
            r.shared() == Seq::<u64>::empty(),
            r.tasks() == vstd::multiset::Multiset::<u64>::empty(),
    {
        broadcast use vstd::seq_lib::group_to_multiset_ensures;

        let mut visitors: Vec<SlotVisitor> = Vec::new();
        let mut i: usize = 0;
        while i < nworkers
            invariant
                i <= nworkers,
                visitors@.len() == i,
                forall|k: int|
                    0 <= k < i ==> (#[trigger] visitors@[k]).wf() && visitors@[k]@ == (
                    VisitorView {
                        task_id: k,
                        local: Seq::empty(),
                        worker: Seq::empty(),
                        marked: 0,
                        visits: 0,
                    }),
            decreases nworkers - i,
        {
            visitors.push(SlotVisitor::new(i));
            i = i + 1;
        }
        let r = MarkQueueSet { injector: injector_new(), visitors };
        proof {
            lemma_no_tasks(r.views());
            assert(r.tasks() =~= vstd::multiset::Multiset::<u64>::empty());
        }
        r
    }

    pub fn nworkers(&self) -> (r: usize)
        ensures
            r == self.views().len(),
    {
        self.visitors.len()
    }

    /// Adds a task to the queue that the visitors share.
    pub fn inject(&mut self, task: MarkTask)
        requires
            old(self).wf(),
        ensures
            final(self).wf(),
            final(self).views() == old(self).views(),
            final(self).shared() == old(self).shared().push(task.word()),
            final(self).tasks() == old(self).tasks().insert(task.word()),
    {
        broadcast use vstd::seq_lib::group_to_multiset_ensures;

        let ghost before = *self;
        injector_push(&mut self.injector, task.to_word());
        assert(self.views() =~= before.views());
        assert(self.tasks() =~= before.tasks().insert(task.word()));
    }

    /// Adds a task to a visitor.
    pub fn push(&mut self, id: usize, task: MarkTask)
        requires
            old(self).wf(),
            id < old(self).views().len(),
        ensures
            final(self).wf(),
            final(self).views() == old(self).views().update(
                id as int,
                pushed(old(self).views()[id as int], task.word()),
            ),
            final(self).shared() == old(self).shared() + pushed_out(
                old(self).views()[id as int],
                task.word(),
            ),
            final(self).tasks() == old(self).tasks().insert(task.word()),
    {
        let ghost before = *self;
        let ghost v = self.views()[id as int];
        let ghost w = pushed(v, task.word());
        self.visitors[id].push(&mut self.injector, task);
        proof {
            assert(self.views() =~= before.views().update(id as int, w));
            lemma_tasks_update(before.views(), id as int, w);
            lemma_push_keeps_tasks(v, before.shared(), task.word());
            let a = tasks_of(self.views());
            let b = tasks_of(before.views());
            let vt = visitor_tasks(v);
            let wt = visitor_tasks(w);
            let q = before.shared().to_multiset();
            let q2 = self.shared().to_multiset();
            assert(a.add(vt) == b.add(wt));
            assert(wt.add(q2) == vt.add(q).insert(task.word()));
            assert forall|x: u64| a.add(q2).count(x) == b.add(q).insert(task.word()).count(x) by {
                assert(a.add(vt).count(x) == b.add(wt).count(x));
                assert(wt.add(q2).count(x) == vt.add(q).insert(task.word()).count(x));
            }
            assert(self.tasks() =~= before.tasks().insert(task.word()));
        }
    }

    /// The number of visits of a visitor.
    pub fn visit_count(&self, id: usize) -> (r: usize)
        requires
            id < self.views().len(),
        ensures
            r == self.views()[id as int].visits,
    {
        self.visitors[id].visit_count()
    }

    /// Takes a task of a visitor or, if it has none, of the injector.
    pub fn pop(&mut self, id: usize) -> (r: Taken)
        requires
            old(self).wf(),
            id < old(self).views().len(),
        ensures
            final(self).wf(),
            final(self).views() == old(self).views().update(
                id as int,
                final(self).views()[id as int],
            ),
            popped(
                old(self).views()[id as int],
                old(self).shared(),
                final(self).views()[id as int],
                final(self).shared(),
                r,
            ),
            r matches Taken::Task(task) ==> old(self).tasks().contains(task)
                && final(self).tasks() == old(self).tasks().remove(task),
            !(r is Task) ==> final(self).tasks() == old(self).tasks(),
    {
        let ghost before = *self;
        let r: Taken = self.visitors[id].pop(&mut self.injector);
        proof {
            assert(self.views() =~= before.views().update(id as int, self.views()[id as int]));
            let v = before.views()[id as int];
            let w = self.views()[id as int];
            lemma_tasks_update(before.views(), id as int, w);
            lemma_pop_keeps_tasks(v, before.shared(), w, self.shared(), r);
            let a = tasks_of(self.views());
            let b = tasks_of(before.views());
            let vt = visitor_tasks(v);
            let wt = visitor_tasks(w);
            let q = before.shared().to_multiset();
            let q2 = self.shared().to_multiset();
            assert(a.add(vt) == b.add(wt));
            if let Taken::Task(task) = r {
                assert forall|x: u64| a.add(q2).insert(task).count(x) == b.add(q).count(x) by {
                    assert(a.add(vt).count(x) == b.add(wt).count(x));
                    assert(wt.add(q2).insert(task).count(x) == vt.add(q).count(x));
                }
                assert(self.tasks().insert(task) =~= before.tasks());
                assert(self.tasks() =~= before.tasks().remove(task));
            } else {
                assert forall|x: u64| a.add(q2).count(x) == b.add(q).count(x) by {
                    assert(a.add(vt).count(x) == b.add(wt).count(x));
                    assert(wt.add(q2).count(x) == vt.add(q).count(x));
                }
                assert(self.tasks() =~= before.tasks());
            }
        }
        r
    }

    /// Takes a task for a visitor: one of its own, else one of the queue that all
    /// share, else one of another visitor.
    pub fn take(&mut self, id: usize) -> (r: Taken)
        requires
            old(self).wf(),
            id < old(self).views().len(),
            2 * old(self).views().len() <= usize::MAX,
        ensures
            final(self).wf(),
            final(self).views().len() == old(self).views().len(),
            took(
                old(self).views(),
                old(self).shared(),
                final(self).views(),
                final(self).shared(),
                id as int,
                r,
            ),
            r matches Taken::Task(task) ==> old(self).tasks().contains(task)
                && final(self).tasks() == old(self).tasks().remove(task),
            !(r is Task) ==> final(self).tasks() == old(self).tasks(),
            r is Empty ==> {
                let v = old(self).views()[id as int];
                v.local.len() == 0 && v.worker.len() == 0 && old(self).shared().len() == 0
            },
            old(self).tasks() == vstd::multiset::Multiset::<u64>::empty() ==> r is Empty,
    {
        let ghost before = *self;
        let r: Taken = self.pop(id);
        match r {
            Taken::Empty => {
                assert(self.views() =~= before.views());
                let s: Taken = self.steal(id);
                proof {
                    assert(self.tasks() == before.tasks() || s is Task);
                    if before.tasks() == vstd::multiset::Multiset::<u64>::empty() {
                        assert forall|i: int| 0 <= i < before.views().len() implies (
                        #[trigger] before.views()[i]).worker.len() == 0 by {
                            before.lemma_idle(i);
                        }
                    }
                }
                s
            },
            _ => {
                proof {
                    if before.tasks() == vstd::multiset::Multiset::<u64>::empty() {
                        before.lemma_idle(id as int);
                    }
                }
                r
            },
        }
    }

    /// Without tasks, no visitor has one and none is shared.
    pub proof fn lemma_idle(&self, i: int)
        requires
            0 <= i < self.views().len(),
            self.tasks() == vstd::multiset::Multiset::<u64>::empty(),
        ensures
            self.views()[i].local.len() == 0,
            self.views()[i].worker.len() == 0,
            self.shared().len() == 0,
    {
        broadcast use vstd::seq_lib::group_to_multiset_ensures;

        let v = self.views()[i];
        if v.local.len() > 0 {
            lemma_tasks_part(self.views(), i, v.local[0]);
            assert(v.local.to_multiset().contains(v.local[0]));
            assert(self.tasks().count(v.local[0]) > 0);
        }
        if v.worker.len() > 0 {
            lemma_tasks_part(self.views(), i, v.worker[0]);
            assert(v.worker.to_multiset().contains(v.worker[0]));
            assert(self.tasks().count(v.worker[0]) > 0);
        }
        if self.shared().len() > 0 {
            assert(self.shared().to_multiset().contains(self.shared()[0]));
            assert(self.tasks().count(self.shared()[0]) > 0);
        }
    }

    /// Steals tasks for visitor `task_id` from the visitor that a draw among all the
    /// others stands for.
    pub fn steal_from(&mut self, task_id: usize, draw: usize) -> (r: Taken)
        requires
            old(self).wf(),
            task_id < old(self).views().len(),
            draw + 1 < old(self).views().len(),
        ensures
            final(self).wf(),
            final(self).shared() == old(self).shared(),
            stolen_from(
                old(self).views(),
                task_id as int,
                victim_of(draw as int, task_id as int),
                final(self).views(),
                r,
            ),
            r matches Taken::Task(task) ==> old(self).tasks().contains(task)
                && final(self).tasks() == old(self).tasks().remove(task),
            !(r is Task) ==> final(self).tasks() == old(self).tasks(),
    {
        let ghost before = *self;
        assert(self.visitors@.len() == self.visitors.len());
        let id: usize = if draw < task_id {
            draw
        } else {
            draw + 1
        };
        let mut thief: SlotVisitor = SlotVisitor::new(task_id);
        std::mem::swap(&mut thief, &mut self.visitors[task_id]);
        assert(self.views()[id as int] == before.views()[id as int]);
        assert(thief@ == before.views()[task_id as int]);
        let taken: Taken = thief.steal_from(&mut self.visitors[id]);
        std::mem::swap(&mut thief, &mut self.visitors[task_id]);
        proof {
            let from = before.views()[id as int].worker;
            if let Taken::Task(task) = taken {
                let n = choose|n: int|
                    #![trigger from[n]]
                    {
                        &&& 0 <= n < from.len()
                        &&& task == from[n]
                        &&& self.views()[id as int] == (VisitorView {
                            worker: from.skip(n + 1),
                            ..before.views()[id as int]
                        })
                        &&& self.views()[task_id as int] == (VisitorView {
                            worker: before.views()[task_id as int].worker + from.take(n),
                            ..before.views()[task_id as int]
                        })
                    };
                assert(self.views() =~= before.views().update(
                    id as int,
                    VisitorView { worker: from.skip(n + 1), ..before.views()[id as int] },
                ).update(
                    task_id as int,
                    VisitorView {
                        worker: before.views()[task_id as int].worker + from.take(n),
                        ..before.views()[task_id as int]
                    },
                ));
                lemma_steal_keeps_tasks(before.views(), id as int, task_id as int, n);
                assert(self.tasks().insert(task) =~= before.tasks());
                assert(self.tasks() =~= before.tasks().remove(task));
            } else {
                assert(self.views() =~= before.views());
            }
        }
        taken
    }

    /// Steals tasks of other visitors, which are chosen at random, for visitor
    /// `task_id`. After twice as many attempts as there are visitors it gives up. If
    /// all others have tasks in their queues, one is returned, whichever are chosen.
    pub fn steal(&mut self, task_id: usize) -> (r: Taken)
        requires
            old(self).wf(),
            task_id < old(self).views().len(),
            2 * old(self).views().len() <= usize::MAX,
        ensures
            final(self).wf(),
            final(self).views().len() == old(self).views().len(),
            final(self).shared() == old(self).shared(),
            stolen(old(self).views(), task_id as int, final(self).views(), r),
            old(self).views().len() > 1 && (forall|i: int|
                0 <= i < old(self).views().len() && i != task_id ==> (#[trigger] old(self).views()[i]).worker.len() > 0) ==> r is Task,
            (forall|i: int|
                0 <= i < old(self).views().len() && i != task_id ==> (#[trigger] old(self).views()[i]).worker.len() == 0) ==> r == Taken::Empty,
            r matches Taken::Task(task) ==> old(self).tasks().contains(task)
                && final(self).tasks() == old(self).tasks().remove(task),
            !(r is Task) ==> final(self).tasks() == old(self).tasks(),
    {
        let nworkers: usize = self.visitors.len();
        if nworkers == 1 {
            return Taken::Empty;
        }
        let ghost before = *self;
        let ghost mut last: int = 0;
        let mut attempt: usize = 0;
        while attempt < 2 * nworkers
            invariant
                self.wf(),
                attempt <= 2 * nworkers <= usize::MAX,
                nworkers >= 2,
                nworkers == self.views().len(),
                nworkers == self.visitors@.len(),
                task_id < nworkers,
                before == *old(self),
                self.views() == before.views(),
                self.shared() == before.shared(),
                self.tasks() == before.tasks(),
                attempt > 0 ==> 0 <= last < nworkers && last != task_id && stolen_from(
                    before.views(),
                    task_id as int,
                    last,
                    before.views(),
                    Taken::Empty,
                ),
            decreases 2 * nworkers - attempt,
        {
            let draw: usize = random_below(nworkers - 1);
            let taken: Taken = self.steal_from(task_id, draw);
            proof {
                last = victim_of(draw as int, task_id as int);
                assert(stolen_from(before.views(), task_id as int, last, self.views(), taken));
            }
            match taken {
                Taken::Empty => {},
                _ => {
                    return taken;
                },
            }
            attempt = attempt + 1;
        }
        Taken::Empty
    }
}

/// Stealing takes the returned task and loses no other.
pub proof fn lemma_steal_keeps_tasks(views: Seq<VisitorView>, victim: int, thief: int, n: int)
    requires
        0 <= victim < views.len(),
        0 <= thief < views.len(),
        victim != thief,
        0 <= n < views[victim].worker.len(),
    ensures
        tasks_of(
            views.update(
                victim,
                VisitorView { worker: views[victim].worker.skip(n + 1), ..views[victim] },
            ).update(
                thief,
                VisitorView {
                    worker: views[thief].worker + views[victim].worker.take(n),
                    ..views[thief]
                },
            ),
        ).insert(views[victim].worker[n]) == tasks_of(views),
{
    broadcast use vstd::seq_lib::group_to_multiset_ensures;

    let q = views[victim].worker;
    let v = views[victim];
    let w = VisitorView { worker: q.skip(n + 1), ..v };
    let t = views[thief];
    let u = VisitorView { worker: t.worker + q.take(n), ..t };
    let mid = views.update(victim, w);
    lemma_tasks_update(views, victim, w);
    lemma_tasks_update(mid, thief, u);
    lemma_split_multiset(q, n + 1);
    assert(q.take(n + 1) =~= q.take(n).push(q[n]));
    vstd::seq_lib::lemma_multiset_commutative(t.worker, q.take(n));
    let a = tasks_of(views);
    let b = tasks_of(mid);
    let c = tasks_of(mid.update(thief, u));
    assert forall|x: u64| c.insert(q[n]).count(x) == a.count(x) by {
        assert(b.add(visitor_tasks(v)).count(x) == a.add(visitor_tasks(w)).count(x));
        assert(c.add(visitor_tasks(t)).count(x) == b.add(visitor_tasks(u)).count(x));
        assert(q.to_multiset().count(x) == q.take(n).to_multiset().insert(q[n]).count(x) + q.skip(
            n + 1,
        ).to_multiset().count(x));
    }
    assert(c.insert(q[n]) =~= a);
}

} // verus!
