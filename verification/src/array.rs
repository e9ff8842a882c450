//! Arrays whose length is fixed when they are made.

use vstd::prelude::*;

verus! {

/// Immutable array of `T` values.
pub struct Array<T> {
    data: Vec<T>,
}

impl<T> Array<T> {
    pub closed spec fn view(&self) -> Seq<T> {
        self.data@
    }

    pub fn as_slice(&self) -> (r: &[T])
        ensures
            r@ == self@,
    {
        self.data.as_slice()
    }

    pub fn len(&self) -> (r: usize)
        ensures
            r == self@.len(),
    {
        self.data.len()
    }

    pub fn is_empty(&self) -> (r: bool)
        ensures
            r == (self@.len() == 0),
    {
        self.data.len() == 0
    }

    /// An array of what `init` makes of each index.
    pub fn new_with<F: Fn(usize) -> T>(length: usize, init: F) -> (r: Self)
        requires
            forall|i: usize| i < length ==> call_requires(init, (i,)),
        ensures
            r@.len() == length,
            forall|i: usize| i < length ==> call_ensures(init, (i,), #[trigger] r@[i as int]),
    {
        let mut data: Vec<T> = Vec::new();
        let mut i: usize = 0;
        while i < length
            invariant
                i <= length,
                data@.len() == i,
                forall|k: usize| k < length ==> call_requires(init, (k,)),
                forall|k: usize| k < i ==> call_ensures(init, (k,), #[trigger] data@[k as int]),
            decreases length - i,
        {
            data.push(init(i));
            i = i + 1;
        }
        Array { data }
    }
}

impl<T: Copy> Array<T> {
    /// An array that holds `init` at each index.
    pub fn new(length: usize, init: T) -> (r: Self)
        ensures
            r@ == Seq::new(length as nat, |i: int| init),
    {
        let mut data: Vec<T> = Vec::new();
        let mut i: usize = 0;
        while i < length
            invariant
                i <= length,
                data@ == Seq::new(i as nat, |k: int| init),
            decreases length - i,
        {
            data.push(init);
            i = i + 1;
            assert(data@ =~= Seq::new(i as nat, |k: int| init));
        }
        assert(data@ =~= Seq::new(length as nat, |i: int| init));
        Array { data }
    }
}

} // verus!
