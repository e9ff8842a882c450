//! The sizes of blocks and lines.

use vstd::arithmetic::power2::{lemma2_to64, lemma_pow2_pos, lemma_pow2_strictly_increases, pow2};
use vstd::prelude::*;

use super::bitmap::rounded_up;
use super::region::{lemma_rounded_up, log2_floor_of};
use super::{align_down, align_usize, lemma_log2_floor, log2_floor};
use crate::bits::is_power_of_two;

pub mod block;

verus! {

/// The tunable parameters.
#[derive(Clone, Copy, PartialEq, Eq, Debug, Structural)]
pub struct ImmixArguments {
    pub max_heap_size: usize,
    pub line_size: usize,
    pub block_size: usize,
    pub min_block_size: usize,
    pub max_block_size: usize,
    pub min_line_size: usize,
    pub max_line_size: usize,
    pub humongous_threshold: usize,
    pub target_num_blocks: usize,
    pub target_line_count: usize,
    pub min_free_threshold: usize,
    pub allocation_threshold: usize,
    pub guaranteed_gc_interval: usize,
    pub control_interval_min: usize,
    pub control_interval_max: usize,
    pub control_interval_adjust_period: usize,
    pub uncommit: bool,
    pub uncommit_delay: usize,
    /// How many regions to process at once during parallel region
    /// iteration. Affects heaps with lots of regions.
    pub parallel_region_stride: usize,
    pub parallel_gc_threads: usize,
}

/// The sizes that follow from the parameters.
#[derive(Clone, Copy, PartialEq, Eq, Debug, Structural)]
pub struct ImmixOptions {
    pub max_heap_size: usize,
    pub uncommit: bool,
    pub uncommit_delay: usize,
    pub parallel_region_stride: usize,
    pub parallel_gc_threads: usize,
    pub block_size_bytes: usize,
    pub block_size_words: usize,
    pub line_size_bytes: usize,
    pub line_size_words: usize,
    pub line_size_bytes_mask: usize,
    pub line_size_bytes_shift: usize,
    pub line_size_log2: usize,
    pub line_count: usize,
    pub block_count: usize,
    pub block_size_bytes_shift: usize,
    pub block_size_bytes_mask: usize,
    pub block_size_words_shift: usize,
    pub block_size_words_mask: usize,
    pub humongous_threshold_words: usize,
    pub humongous_threshold_bytes: usize,
    pub block_size_log2: usize,
}

/// `wanted` brought between a least and a greatest value. The greatest one wins.
pub open spec fn clamped(wanted: int, least: int, greatest: int) -> int {
    let up = if wanted < least {
        least
    } else {
        wanted
    };
    if greatest < up {
        greatest
    } else {
        up
    }
}

impl ImmixArguments {
    pub fn default() -> (r: Self)
        ensures
            r.min_block_size == 8192,
            r.max_block_size == 65536,
            r.min_line_size == 128,
            r.max_line_size == 1024,
            r.block_size == 0,
            r.target_num_blocks == 2048,
            r.humongous_threshold == 50,
            r.line_size == 0,
            r.target_line_count == 128,
            r.min_free_threshold == 10,
            r.allocation_threshold == 10,
            r.guaranteed_gc_interval == 300000,
            r.uncommit,
            r.uncommit_delay == 300000,
            r.control_interval_min == 1,
            r.control_interval_max == 10,
            r.control_interval_adjust_period == 1000,
            r.max_heap_size == 100663296,
            r.parallel_region_stride == 1024,
            r.parallel_gc_threads == 4,
    {
        ImmixArguments {
            min_block_size: 8192,
            max_block_size: 65536,
            min_line_size: 128,
            max_line_size: 1024,
            block_size: 0,
            target_num_blocks: 2048,
            humongous_threshold: 50,
            line_size: 0,
            target_line_count: 128,
            min_free_threshold: 10,
            allocation_threshold: 10,
            guaranteed_gc_interval: 300000,
            uncommit: true,
            uncommit_delay: 300000,
            control_interval_min: 1,
            control_interval_max: 10,
            control_interval_adjust_period: 1000,
            max_heap_size: 100663296,
            parallel_region_stride: 1024,
            parallel_gc_threads: 4,
        }
    }

    /// The block size that is asked for, or a share of the heap within limits.
    pub open spec fn block_size_wanted(self) -> int {
        if self.block_size != 0 {
            self.block_size as int
        } else {
            let target = if self.target_num_blocks == 0 {
                2048
            } else {
                self.target_num_blocks as int
            };
            let least = if self.min_block_size < 8192 {
                8192
            } else {
                self.min_block_size as int
            };
            let greatest = if self.max_block_size > 131072 || self.max_block_size == 0 {
                131072
            } else {
                self.max_block_size as int
            };
            clamped(self.max_heap_size as int / target, least, greatest)
        }
    }

    /// The block size in whole pages.
    pub open spec fn block_pages(self, page_size: int) -> int {
        rounded_up(self.block_size_wanted(), page_size)
    }

    pub open spec fn block_log2(self, page_size: int) -> nat {
        log2_floor(self.block_pages(page_size))
    }

    /// The size of a heap of whole blocks.
    pub open spec fn heap_size(self, page_size: int) -> int {
        rounded_up(
            rounded_up(self.max_heap_size as int, self.block_pages(page_size)),
            pow2(self.block_log2(page_size)) as int,
        )
    }

    /// The line size that is asked for, or a share of a block within limits.
    pub open spec fn line_size_wanted(self, page_size: int) -> int {
        if self.line_size != 0 {
            self.line_size as int
        } else {
            let least = if self.min_line_size < 128 {
                128
            } else {
                self.min_line_size as int
            };
            let greatest = if self.max_line_size > 2048 || self.max_line_size == 0 {
                2048
            } else {
                self.max_line_size as int
            };
            clamped(
                pow2(self.block_log2(page_size)) as int / self.target_line_count as int,
                least,
                greatest,
            )
        }
    }

    pub open spec fn line_log2(self, page_size: int) -> nat {
        log2_floor(rounded_up(self.line_size_wanted(page_size), 128))
    }

    pub open spec fn humongous_percent(self) -> int {
        if self.humongous_threshold == 0 {
            100
        } else {
            self.humongous_threshold as int
        }
    }

    /// The words above which an object is humongous.
    pub open spec fn humongous_words(self, page_size: int) -> int {
        let n = pow2(self.block_log2(page_size)) as int / 8 * self.humongous_percent() / 100;
        n - n % 8
    }

    /// The sizes can be worked out: divisors are not zero and the sizes leave room in the
    /// address space.
    pub open spec fn sizeable(self, page_size: int) -> bool {
        &&& page_size >= 8
        &&& self.line_size == 0 ==> self.target_line_count > 0
        &&& self.block_size_wanted() + page_size <= usize::MAX
        &&& self.max_heap_size + self.block_pages(page_size) <= usize::MAX
        &&& rounded_up(self.max_heap_size as int, self.block_pages(page_size)) + pow2(
            self.block_log2(page_size),
        ) <= usize::MAX
        &&& self.line_size_wanted(page_size) + 128 <= usize::MAX
        &&& pow2(self.block_log2(page_size)) as int / 8 * self.humongous_percent() <= usize::MAX
        &&& self.humongous_words(page_size) * 8 <= usize::MAX
    }
}

impl ImmixOptions {
    pub const MIN_BLOCK_SIZE: usize = 8192;

    pub const MAX_BLOCK_SIZE: usize = 131072;

    pub const MIN_LINE_SIZE: usize = 128;

    pub const MAX_LINE_SIZE: usize = 2048;

    /// The size that is asked for, or a share within limits.
    fn size_within(asked: usize, share: usize, least: usize, greatest: usize) -> (r: usize)
        ensures
            r == if asked != 0 {
                asked as int
            } else {
                clamped(share as int, least as int, greatest as int)
            },
    {
        if asked != 0 {
            return asked;
        }
        let mut size: usize = share;
        if size < least {
            size = least;
        }
        if greatest < size {
            size = greatest;
        }
        size
    }

    /// The size of a block, its exponent, and the size of the heap.
    fn size_blocks(args: &ImmixArguments, page_size: usize) -> (r: (usize, usize, usize))
        requires
            args.sizeable(page_size as int),
        ensures
            r.0 == pow2(r.1 as nat),
            r.1 == args.block_log2(page_size as int),
            3 <= r.1 < usize::BITS,
            r.2 == args.heap_size(page_size as int),
            r.2 >= args.max_heap_size,
            r.2 as int % r.0 as int == 0,
    {
        let min_block_size: usize = if args.min_block_size < Self::MIN_BLOCK_SIZE {
            Self::MIN_BLOCK_SIZE
        } else {
            args.min_block_size
        };
        let target_num_blocks: usize = if args.target_num_blocks == 0 {
            2048
        } else {
            args.target_num_blocks
        };
        let max_block_size: usize = if args.max_block_size > Self::MAX_BLOCK_SIZE
            || args.max_block_size == 0 {
            Self::MAX_BLOCK_SIZE
        } else {
            args.max_block_size
        };
        let wanted: usize = Self::size_within(
            args.block_size,
            args.max_heap_size / target_num_blocks,
            min_block_size,
            max_block_size,
        );
        assert(wanted == args.block_size_wanted());
        let pages: usize = align_usize(wanted, page_size);
        proof {
            lemma_rounded_up(wanted as int, page_size as int);
            if pages < page_size {
                vstd::arithmetic::div_mod::lemma_small_mod(pages as nat, page_size as nat);
            }
            assert(pages >= 8);
        }
        let heap_pages: usize = align_usize(args.max_heap_size, pages);
        let log: usize = log2_floor_of(pages);
        proof {
            lemma_log2_floor(pages as int);
            lemma_rounded_up(args.max_heap_size as int, pages as int);
            lemma_pow2_pos(log as nat);
            vstd::bits::lemma_usize_shl_is_mul(1, log);
        }
        let block_size: usize = 1usize << log;
        proof {
            lemma_rounded_up(heap_pages as int, block_size as int);
            lemma2_to64();
            if log < 3 {
                lemma_pow2_strictly_increases(log as nat, 3);
                if log + 1 < 3 {
                    lemma_pow2_strictly_increases((log + 1) as nat, 3);
                }
            }
        }
        (block_size, log, align_usize(heap_pages, block_size))
    }

    /// The size of a line and its exponent.
    fn size_lines(args: &ImmixArguments, page_size: usize, block_size: usize) -> (r: (usize, usize))
        requires
            args.sizeable(page_size as int),
            block_size == pow2(args.block_log2(page_size as int)),
        ensures
            r.0 == pow2(r.1 as nat),
            r.1 == args.line_log2(page_size as int),
            7 <= r.1 < usize::BITS,
    {
        let min_line_size: usize = if args.min_line_size < Self::MIN_LINE_SIZE {
            Self::MIN_LINE_SIZE
        } else {
            args.min_line_size
        };
        let max_line_size: usize = if args.max_line_size > Self::MAX_LINE_SIZE
            || args.max_line_size == 0 {
            Self::MAX_LINE_SIZE
        } else {
            args.max_line_size
        };
        let share: usize = if args.line_size != 0 {
            0
        } else {
            block_size / args.target_line_count
        };
        let wanted: usize = Self::size_within(args.line_size, share, min_line_size, max_line_size);
        assert(wanted == args.line_size_wanted(page_size as int));
        let lines: usize = align_usize(wanted, Self::MIN_LINE_SIZE);
        proof {
            lemma_rounded_up(wanted as int, 128);
            assert(lines >= 128);
        }
        let log: usize = log2_floor_of(lines);
        proof {
            lemma_log2_floor(lines as int);
            vstd::bits::lemma_usize_shl_is_mul(1, log);
            lemma2_to64();
            if log < 7 {
                if log + 1 < 7 {
                    lemma_pow2_strictly_increases((log + 1) as nat, 7);
                }
            }
        }
        (1usize << log, log)
    }

    /// Works out the sizes.
    pub fn setup_sizes(args: &ImmixArguments, page_size: usize) -> (r: Self)
        requires
            args.sizeable(page_size as int),
        ensures
            r.uncommit == args.uncommit,
            r.uncommit_delay == args.uncommit_delay,
            r.parallel_gc_threads == args.parallel_gc_threads,
            r.parallel_region_stride == args.parallel_region_stride,
            r.max_heap_size == args.heap_size(page_size as int),
            r.max_heap_size >= args.max_heap_size,
            r.block_size_log2 == args.block_log2(page_size as int),
            r.block_size_bytes == pow2(r.block_size_log2 as nat),
            r.block_size_words == r.block_size_bytes / 8,
            r.block_size_bytes_mask == r.block_size_bytes - 1,
            r.block_size_words_mask == r.block_size_bytes - 1,
            r.block_size_bytes_shift == r.block_size_log2,
            r.block_size_words_shift == r.block_size_log2 - 3,
            r.block_count * r.block_size_bytes == r.max_heap_size,
            r.line_size_log2 == args.line_log2(page_size as int),
            r.line_size_bytes == pow2(r.line_size_log2 as nat),
            r.line_size_words == r.line_size_bytes / 8,
            r.line_size_bytes_mask == r.line_size_bytes - 1,
            r.line_size_bytes_shift == r.line_size_log2,
            r.line_count == r.block_size_bytes / r.line_size_bytes,
            r.humongous_threshold_words == args.humongous_words(page_size as int),
            r.humongous_threshold_bytes == r.humongous_threshold_words * 8,
    {
        let (block_size, block_log, heap_size): (usize, usize, usize) = Self::size_blocks(
            args,
            page_size,
        );
        let (line_size, line_log): (usize, usize) = Self::size_lines(args, page_size, block_size);
        proof {
            lemma_pow2_pos(block_log as nat);
            lemma_pow2_pos(line_log as nat);
            vstd::arithmetic::div_mod::lemma_fundamental_div_mod(
                heap_size as int,
                block_size as int,
            );
            let q = heap_size as int / block_size as int;
            assert(q * block_size == block_size * q) by (nonlinear_arith);
            assert(is_power_of_two(8)) by {
                lemma2_to64();
                assert(pow2(3) == 8);
            }
        }
        let humongous_threshold: usize = if args.humongous_threshold == 0 {
            100
        } else {
            args.humongous_threshold
        };
        let block_size_words: usize = block_size / 8;
        let words: usize = align_down(block_size_words * humongous_threshold / 100, 8);
        ImmixOptions {
            max_heap_size: heap_size,
            uncommit: args.uncommit,
            uncommit_delay: args.uncommit_delay,
            parallel_region_stride: args.parallel_region_stride,
            parallel_gc_threads: args.parallel_gc_threads,
            block_count: heap_size / block_size,
            block_size_bytes: block_size,
            block_size_words,
            block_size_bytes_mask: block_size - 1,
            block_size_words_mask: block_size - 1,
            block_size_bytes_shift: block_log,
            block_size_words_shift: block_log - 3,
            block_size_log2: block_log,
            line_size_bytes: line_size,
            line_count: block_size / line_size,
            line_size_words: line_size / 8,
            line_size_log2: line_log,
            line_size_bytes_mask: line_size - 1,
            line_size_bytes_shift: line_log,
            humongous_threshold_words: words,
            humongous_threshold_bytes: words * 8,
        }
    }
}

/// What the sizes of a heap satisfy. Sizes that were asked for are used; others lie between
/// their bounds. A block is rounded up to whole pages and then down to a power of two, the
/// heap is rounded up to whole blocks, a line is a power of two of at least 128 bytes, and the
/// humongous threshold is the given share of a block, rounded down to eight words.
pub proof fn lemma_block_sizes(args: ImmixArguments, page_size: int)
    requires
        args.sizeable(page_size),
        0 < args.block_size_wanted(),
        0 < args.line_size_wanted(page_size),
    ensures
        ({
            let wanted = args.block_size_wanted();
            let pages = args.block_pages(page_size);
            let block = pow2(args.block_log2(page_size)) as int;
            let heap = args.heap_size(page_size);
            let words = args.humongous_words(page_size);
            let line = pow2(args.line_log2(page_size)) as int;
            &&& args.block_size != 0 ==> wanted == args.block_size
            &&& args.block_size == 0 ==> wanted <= 131072
            &&& args.line_size != 0 ==> args.line_size_wanted(page_size) == args.line_size
            &&& args.line_size == 0 ==> args.line_size_wanted(page_size) <= 2048
            &&& wanted <= pages < wanted + page_size
            &&& pages % page_size == 0
            &&& block <= pages < 2 * block
            &&& args.max_heap_size <= heap < args.max_heap_size + pages + block
            &&& heap % block == 0
            &&& line < args.line_size_wanted(page_size) + 128
            &&& args.line_size_wanted(page_size) < 2 * line
            &&& 64 < line
            &&& words % 8 == 0
            &&& 100 * words <= block / 8 * args.humongous_percent() < 100 * (words + 8)
        }),
{
    let wanted = args.block_size_wanted();
    let pages = args.block_pages(page_size);
    let block = pow2(args.block_log2(page_size)) as int;
    let lines = rounded_up(args.line_size_wanted(page_size), 128);
    lemma_rounded_up(wanted, page_size);
    lemma_log2_floor(pages);
    vstd::arithmetic::power2::lemma_pow2_unfold(args.block_log2(page_size) + 1);
    vstd::arithmetic::power2::lemma_pow2_pos(args.block_log2(page_size));
    lemma_rounded_up(args.max_heap_size as int, pages);
    lemma_rounded_up(rounded_up(args.max_heap_size as int, pages), block);
    lemma_rounded_up(args.line_size_wanted(page_size), 128);
    lemma_log2_floor(lines);
    vstd::arithmetic::power2::lemma_pow2_unfold(args.line_log2(page_size) + 1);
}

} // verus!
