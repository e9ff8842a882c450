# rsgc

The data structures and decisions of a garbage collector, verified with Verus.

- `heap`: the region-based heap. Bitmaps, card table, free lists and the set of free
  regions; marking with work-stealing queues; sweeping; the steps of full, concurrent and
  degenerated cycles; the control thread, heuristics, pacing and safepoints as state
  machines.
- `gc`: a mark-and-sweep collector with pages of blocks that finds objects by interior
  pointers.
- `blocks`: an allocator of blocks and lines with runs of blocks for large objects.
- `arena`: arenas of pages with size classes and scrambled free lists.
- `base`: bit sets, stacks, aligned mappings and small utilities.
- `gc_roots`: address ranges that hold roots.

Addresses are numbers, and what memory holds is passed in. Where a cycle has to stop
threads, sleep, or ask the operating system for memory, the library returns the next
step and `app/` performs it. `app/` also holds what needs floating point.

The queues of `crossbeam_deque` and `crossbeam_queue` and the choice of a victim by
`rand` are called in `src/heap/deque.rs` and `src/heap/queue.rs`; the contracts there are
taken on trust.
