//! Arrays in the order of their elements.

use crate::array::ExponentialArray;
use crate::compare::{
    cmp_chunked_sequences, cmp_says, lemma_cmp_outcome, lemma_partial_cmp_outcome, order_outcome,
    partial_cmp_chunked_sequences, partial_cmp_says, seq_cmp, seq_partial_cmp, SingleChunk,
};
use core::cmp::Ordering;
use vstd::prelude::*;
use vstd::std_specs::cmp::{OrdSpec, PartialOrdSpec, PartialOrdSpecImpl};

verus! {

impl<T, const BASE_SHIFT: usize, const CHUNKS: usize> ExponentialArray<T, BASE_SHIFT, CHUNKS> {
    /// Compares the elements with those of a slice.
    fn partial_cmp_slice<U>(&self, other: &[U]) -> (order: Option<Ordering>) where T: PartialOrd<U>
        ensures
            order_outcome(partial_cmp_says::<T, U>(), self@, other@, order),
            T::obeys_partial_cmp_spec() ==> order == seq_partial_cmp(self@, other@),
    {
        let order = partial_cmp_chunked_sequences(self.held_parts(), SingleChunk::new(other));
        proof {
            if T::obeys_partial_cmp_spec() {
                lemma_partial_cmp_outcome(self@, other@, order);
            }
        }
        order
    }

    /// Compares the elements with those of another array, from the first to the last.
    pub fn cmp(&self, other: &Self) -> (order: Ordering) where T: Ord
        ensures
            order_outcome(cmp_says::<T>(), self@, other@, Some(order)),
            T::obeys_cmp_spec() ==> order == seq_cmp(self@, other@),
    {
        let order = cmp_chunked_sequences(self.held_parts(), other.held_parts());
        proof {
            if T::obeys_cmp_spec() {
                lemma_cmp_outcome(self@, other@, order);
            }
        }
        order
    }
}

impl<
    T: PartialOrd<U>,
    U,
    const BASE_SHIFT: usize,
    const CHUNKS: usize,
    const OTHER_BASE_SHIFT: usize,
    const OTHER_CHUNKS: usize,
> PartialOrd<ExponentialArray<U, OTHER_BASE_SHIFT, OTHER_CHUNKS>> for ExponentialArray<
    T,
    BASE_SHIFT,
    CHUNKS,
> {
    fn partial_cmp(&self, other: &ExponentialArray<U, OTHER_BASE_SHIFT, OTHER_CHUNKS>) -> (order:
        Option<Ordering>)
        ensures
            order_outcome(partial_cmp_says::<T, U>(), self@, other@, order),
    {
        let order = partial_cmp_chunked_sequences(self.held_parts(), other.held_parts());
        proof {
            if T::obeys_partial_cmp_spec() {
                lemma_partial_cmp_outcome(self@, other@, order);
            }
        }
        order
    }
}

impl<
    T: PartialOrd<U>,
    U,
    const BASE_SHIFT: usize,
    const CHUNKS: usize,
    const OTHER_BASE_SHIFT: usize,
    const OTHER_CHUNKS: usize,
> PartialOrdSpecImpl<ExponentialArray<U, OTHER_BASE_SHIFT, OTHER_CHUNKS>> for ExponentialArray<
    T,
    BASE_SHIFT,
    CHUNKS,
> {
    open spec fn obeys_partial_cmp_spec() -> bool {
        T::obeys_partial_cmp_spec()
    }

    open spec fn partial_cmp_spec(
        &self,
        other: &ExponentialArray<U, OTHER_BASE_SHIFT, OTHER_CHUNKS>,
    ) -> Option<Ordering> {
        seq_partial_cmp(self@, other@)
    }
}

impl<
    T: PartialOrd<U>,
    U,
    const BASE_SHIFT: usize,
    const CHUNKS: usize,
> PartialOrd<[U]> for ExponentialArray<T, BASE_SHIFT, CHUNKS> {
    fn partial_cmp(&self, other: &[U]) -> (order: Option<Ordering>)
        ensures
            order_outcome(partial_cmp_says::<T, U>(), self@, other@, order),
    {
        self.partial_cmp_slice(other)
    }
}

impl<
    T: PartialOrd<U>,
    U,
    const BASE_SHIFT: usize,
    const CHUNKS: usize,
> PartialOrdSpecImpl<[U]> for ExponentialArray<T, BASE_SHIFT, CHUNKS> {
    open spec fn obeys_partial_cmp_spec() -> bool {
        T::obeys_partial_cmp_spec()
    }

    open spec fn partial_cmp_spec(&self, other: &[U]) -> Option<Ordering> {
        seq_partial_cmp(self@, other@)
    }
}

impl<
    T: PartialOrd<U>,
    U,
    const BASE_SHIFT: usize,
    const CHUNKS: usize,
> PartialOrd<&[U]> for ExponentialArray<T, BASE_SHIFT, CHUNKS> {
    fn partial_cmp(&self, other: &&[U]) -> (order: Option<Ordering>)
        ensures
            order_outcome(partial_cmp_says::<T, U>(), self@, other@, order),
    {
        self.partial_cmp_slice(*other)
    }
}

impl<
    T: PartialOrd<U>,
    U,
    const BASE_SHIFT: usize,
    const CHUNKS: usize,
> PartialOrdSpecImpl<&[U]> for ExponentialArray<T, BASE_SHIFT, CHUNKS> {
    open spec fn obeys_partial_cmp_spec() -> bool {
        T::obeys_partial_cmp_spec()
    }

    open spec fn partial_cmp_spec(&self, other: &&[U]) -> Option<Ordering> {
        seq_partial_cmp(self@, other@)
    }
}

impl<
    T: PartialOrd<U>,
    U,
    const N: usize,
    const BASE_SHIFT: usize,
    const CHUNKS: usize,
> PartialOrd<[U; N]> for ExponentialArray<
    T,
    BASE_SHIFT,
    CHUNKS,
> {
    fn partial_cmp(&self, other: &[U; N]) -> (order: Option<Ordering>)
        ensures
            order_outcome(partial_cmp_says::<T, U>(), self@, other@, order),
    {
        self.partial_cmp_slice(other.as_slice())
    }
}

impl<
    T: PartialOrd<U>,
    U,
    const N: usize,
    const BASE_SHIFT: usize,
    const CHUNKS: usize,
> PartialOrdSpecImpl<[U; N]> for ExponentialArray<
    T,
    BASE_SHIFT,
    CHUNKS,
> {
    open spec fn obeys_partial_cmp_spec() -> bool {
        T::obeys_partial_cmp_spec()
    }

    open spec fn partial_cmp_spec(&self, other: &[U; N]) -> Option<Ordering> {
        seq_partial_cmp(self@, other@)
    }
}

impl<
    T: PartialOrd<U>,
    U,
    const N: usize,
    const BASE_SHIFT: usize,
    const CHUNKS: usize,
> PartialOrd<&[U; N]> for ExponentialArray<
    T,
    BASE_SHIFT,
    CHUNKS,
> {
    fn partial_cmp(&self, other: &&[U; N]) -> (order: Option<Ordering>)
        ensures
            order_outcome(partial_cmp_says::<T, U>(), self@, other@, order),
    {
        self.partial_cmp_slice(other.as_slice())
    }
}

impl<
    T: PartialOrd<U>,
    U,
    const N: usize,
    const BASE_SHIFT: usize,
    const CHUNKS: usize,
> PartialOrdSpecImpl<&[U; N]> for ExponentialArray<
    T,
    BASE_SHIFT,
    CHUNKS,
> {
    open spec fn obeys_partial_cmp_spec() -> bool {
        T::obeys_partial_cmp_spec()
    }

    open spec fn partial_cmp_spec(&self, other: &&[U; N]) -> Option<Ordering> {
        seq_partial_cmp(self@, other@)
    }
}

impl<
    T: PartialOrd<U>,
    U,
    const BASE_SHIFT: usize,
    const CHUNKS: usize,
> PartialOrd<Vec<U>> for ExponentialArray<T, BASE_SHIFT, CHUNKS> {
    fn partial_cmp(&self, other: &Vec<U>) -> (order: Option<Ordering>)
        ensures
            order_outcome(partial_cmp_says::<T, U>(), self@, other@, order),
    {
        self.partial_cmp_slice(other.as_slice())
    }
}

impl<
    T: PartialOrd<U>,
    U,
    const BASE_SHIFT: usize,
    const CHUNKS: usize,
> PartialOrdSpecImpl<Vec<U>> for ExponentialArray<T, BASE_SHIFT, CHUNKS> {
    open spec fn obeys_partial_cmp_spec() -> bool {
        T::obeys_partial_cmp_spec()
    }

    open spec fn partial_cmp_spec(&self, other: &Vec<U>) -> Option<Ordering> {
        seq_partial_cmp(self@, other@)
    }
}

impl<
    T: PartialOrd<U>,
    U,
    const BASE_SHIFT: usize,
    const CHUNKS: usize,
> PartialOrd<&Vec<U>> for ExponentialArray<T, BASE_SHIFT, CHUNKS> {
    fn partial_cmp(&self, other: &&Vec<U>) -> (order: Option<Ordering>)
        ensures
            order_outcome(partial_cmp_says::<T, U>(), self@, other@, order),
    {
        self.partial_cmp_slice(other.as_slice())
    }
}

impl<
    T: PartialOrd<U>,
    U,
    const BASE_SHIFT: usize,
    const CHUNKS: usize,
> PartialOrdSpecImpl<&Vec<U>> for ExponentialArray<T, BASE_SHIFT, CHUNKS> {
    open spec fn obeys_partial_cmp_spec() -> bool {
        T::obeys_partial_cmp_spec()
    }

    open spec fn partial_cmp_spec(&self, other: &&Vec<U>) -> Option<Ordering> {
        seq_partial_cmp(self@, other@)
    }
}

} // verus!
