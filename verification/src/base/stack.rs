//! Stacks, which are searched for pointers.

use vstd::prelude::*;

verus! {

/// A stack, by the address that it starts at. It grows towards lower addresses.
#[derive(Clone, Copy, PartialEq, Eq, Debug, Structural)]
pub struct Stack {
    stack_start: usize,
}

/// The ends of a stack.
#[derive(Clone, Copy, PartialEq, Eq, Debug, Structural)]
pub struct StackBounds {
    pub origin: usize,
    pub bound: usize,
}

impl StackBounds {
    /// The ends of a stack of `size` bytes whose lowest address is `bound`.
    pub fn from_lowest(bound: usize, size: usize) -> (r: Self)
        requires
            bound + size <= usize::MAX,
        ensures
            r.bound == bound,
            r.origin == bound + size,
    {
        StackBounds { bound, origin: bound + size }
    }
}

/// The words of a stack that are not zero, with their addresses, among the first `n` from
/// `stack_end` on.
pub open spec fn pointers(stack_end: int, words: Seq<usize>, n: int) -> Seq<(usize, usize)>
    decreases n,
{
    if n <= 0 {
        Seq::empty()
    } else if words[n - 1] == 0 {
        pointers(stack_end, words, n - 1)
    } else {
        pointers(stack_end, words, n - 1).push(
            ((stack_end + 8 * (n - 1)) as usize, words[n - 1]),
        )
    }
}

impl Stack {
    pub closed spec fn start(&self) -> usize {
        self.stack_start
    }

    /// The stack with the given ends.
    pub fn new(bounds: StackBounds) -> (r: Self)
        ensures
            r.start() == bounds.origin,
    {
        Stack { stack_start: bounds.origin }
    }

    pub fn stack_start(&self) -> (r: usize)
        ensures
            r == self.start(),
    {
        self.stack_start
    }

    /// Whether an address is on the part of the stack that is in use. `position` is where
    /// the stack has grown to.
    pub fn is_on_stack(&self, position: usize, addr: usize) -> (r: bool)
        ensures
            r == (position <= addr <= self.start()),
    {
        position <= addr && addr <= self.stack_start
    }

    /// The words of the stack that are not zero, with their addresses, from `stack_end` to
    /// its start. `words` holds what is on the stack.
    pub fn iterate_pointers(&self, stack_end: usize, words: &Vec<usize>) -> (r: Vec<
        (usize, usize),
    >)
        requires
            stack_end % 8 == 0,
            self.start() <= usize::MAX - 8,
            stack_end < self.start() ==> 8 * words@.len() >= self.start() - stack_end,
        ensures
            r@ == pointers(
                stack_end as int,
                words@,
                if stack_end < self.start() {
                    (self.start() - stack_end + 7) / 8
                } else {
                    0
                },
            ),
    {
        let mut out: Vec<(usize, usize)> = Vec::new();
        let mut current: usize = stack_end;
        let mut i: usize = 0;
        while current < self.stack_start
            invariant
                current == stack_end + 8 * i,
                self.start() <= usize::MAX - 8,
                current < self.start() + 8 || i == 0,
                stack_end < self.start() ==> 8 * words@.len() >= self.start() - stack_end,
                out@ == pointers(stack_end as int, words@, i as int),
            decreases self.start() + 8 - current,
        {
            let address: usize = words[i];
            if address != 0 {
                out.push((current, address));
            }
            current = current + 8;
            i = i + 1;
        }
        out
    }
}

} // verus!
