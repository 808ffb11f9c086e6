//! Arrays that are equal element by element.

use crate::array::ExponentialArray;
use crate::compare::{eq_chunked_sequences, eq_outcome, lemma_eq_outcome, seq_eq, SingleChunk};
use vstd::prelude::*;
use vstd::std_specs::cmp::{PartialEqSpec, PartialEqSpecImpl};

verus! {

impl<
    T: PartialEq<U>,
    U,
    const BASE_SHIFT: usize,
    const CHUNKS: usize,
    const OTHER_BASE_SHIFT: usize,
    const OTHER_CHUNKS: usize,
> PartialEq<ExponentialArray<U, OTHER_BASE_SHIFT, OTHER_CHUNKS>> for ExponentialArray<
    T,
    BASE_SHIFT,
    CHUNKS,
> {
    fn eq(&self, other: &ExponentialArray<U, OTHER_BASE_SHIFT, OTHER_CHUNKS>) -> (equal: bool)
        ensures
            self.wf() && other.wf() ==> eq_outcome(self@, other@, equal),
    {
        let equal = eq_chunked_sequences(
            self.len,
            other.len,
            self.held_parts(),
            other.held_parts(),
        );
        proof {
            if self.wf() && other.wf() {
                self.lemma_view();
                other.lemma_view();
            }
            if <T as PartialEqSpec<U>>::obeys_eq_spec() && self.len == other.len {
                lemma_eq_outcome(self@, other@, equal);
            }
        }
        equal
    }
}

impl<
    T: PartialEq<U>,
    U,
    const BASE_SHIFT: usize,
    const CHUNKS: usize,
    const OTHER_BASE_SHIFT: usize,
    const OTHER_CHUNKS: usize,
> PartialEqSpecImpl<ExponentialArray<U, OTHER_BASE_SHIFT, OTHER_CHUNKS>> for ExponentialArray<
    T,
    BASE_SHIFT,
    CHUNKS,
> {
    open spec fn obeys_eq_spec() -> bool {
        <T as PartialEqSpec<U>>::obeys_eq_spec()
    }

    open spec fn eq_spec(
        &self,
        other: &ExponentialArray<U, OTHER_BASE_SHIFT, OTHER_CHUNKS>,
    ) -> bool {
        self.recorded_len() == other.recorded_len() && seq_eq(self@, other@)
    }
}

impl<
    T: PartialEq<U>,
    U,
    const BASE_SHIFT: usize,
    const CHUNKS: usize,
> PartialEq<[U]> for ExponentialArray<T, BASE_SHIFT, CHUNKS> {
    fn eq(&self, other: &[U]) -> (equal: bool)
        ensures
            self.wf() ==> eq_outcome(self@, other@, equal),
    {
        let equal = eq_chunked_sequences(
            self.len,
            other.len(),
            self.held_parts(),
            SingleChunk::new(other),
        );
        proof {
            if self.wf() {
                self.lemma_view();
            }
            if <T as PartialEqSpec<U>>::obeys_eq_spec() && self.len == other@.len() {
                lemma_eq_outcome(self@, other@, equal);
            }
        }
        equal
    }
}

impl<
    T: PartialEq<U>,
    U,
    const BASE_SHIFT: usize,
    const CHUNKS: usize,
> PartialEqSpecImpl<[U]> for ExponentialArray<T, BASE_SHIFT, CHUNKS> {
    open spec fn obeys_eq_spec() -> bool {
        <T as PartialEqSpec<U>>::obeys_eq_spec()
    }

    open spec fn eq_spec(&self, other: &[U]) -> bool {
        self.recorded_len() == other@.len() && seq_eq(self@, other@)
    }
}

impl<
    T: PartialEq<U>,
    U,
    const BASE_SHIFT: usize,
    const CHUNKS: usize,
> PartialEq<&[U]> for ExponentialArray<T, BASE_SHIFT, CHUNKS> {
    fn eq(&self, other: &&[U]) -> (equal: bool)
        ensures
            self.wf() ==> eq_outcome(self@, other@, equal),
    {
        <Self as PartialEq<[U]>>::eq(self, *other)
    }
}

impl<
    T: PartialEq<U>,
    U,
    const BASE_SHIFT: usize,
    const CHUNKS: usize,
> PartialEqSpecImpl<&[U]> for ExponentialArray<T, BASE_SHIFT, CHUNKS> {
    open spec fn obeys_eq_spec() -> bool {
        <T as PartialEqSpec<U>>::obeys_eq_spec()
    }

    open spec fn eq_spec(&self, other: &&[U]) -> bool {
        self.recorded_len() == other@.len() && seq_eq(self@, other@)
    }
}

impl<
    T: PartialEq<U>,
    U,
    const N: usize,
    const BASE_SHIFT: usize,
    const CHUNKS: usize,
> PartialEq<[U; N]> for ExponentialArray<
    T,
    BASE_SHIFT,
    CHUNKS,
> {
    fn eq(&self, other: &[U; N]) -> (equal: bool)
        ensures
            self.wf() ==> eq_outcome(self@, other@, equal),
    {
        <Self as PartialEq<[U]>>::eq(self, other.as_slice())
    }
}

impl<
    T: PartialEq<U>,
    U,
    const N: usize,
    const BASE_SHIFT: usize,
    const CHUNKS: usize,
> PartialEqSpecImpl<[U; N]> for ExponentialArray<
    T,
    BASE_SHIFT,
    CHUNKS,
> {
    open spec fn obeys_eq_spec() -> bool {
        <T as PartialEqSpec<U>>::obeys_eq_spec()
    }

    open spec fn eq_spec(&self, other: &[U; N]) -> bool {
        self.recorded_len() == other@.len() && seq_eq(self@, other@)
    }
}

impl<
    T: PartialEq<U>,
    U,
    const N: usize,
    const BASE_SHIFT: usize,
    const CHUNKS: usize,
> PartialEq<&[U; N]> for ExponentialArray<
    T,
    BASE_SHIFT,
    CHUNKS,
> {
    fn eq(&self, other: &&[U; N]) -> (equal: bool)
        ensures
            self.wf() ==> eq_outcome(self@, other@, equal),
    {
        <Self as PartialEq<[U]>>::eq(self, other.as_slice())
    }
}

impl<
    T: PartialEq<U>,
    U,
    const N: usize,
    const BASE_SHIFT: usize,
    const CHUNKS: usize,
> PartialEqSpecImpl<&[U; N]> for ExponentialArray<
    T,
    BASE_SHIFT,
    CHUNKS,
> {
    open spec fn obeys_eq_spec() -> bool {
        <T as PartialEqSpec<U>>::obeys_eq_spec()
    }

    open spec fn eq_spec(&self, other: &&[U; N]) -> bool {
        self.recorded_len() == other@.len() && seq_eq(self@, other@)
    }
}

impl<
    T: PartialEq<U>,
    U,
    const BASE_SHIFT: usize,
    const CHUNKS: usize,
> PartialEq<Vec<U>> for ExponentialArray<T, BASE_SHIFT, CHUNKS> {
    fn eq(&self, other: &Vec<U>) -> (equal: bool)
        ensures
            self.wf() ==> eq_outcome(self@, other@, equal),
    {
        <Self as PartialEq<[U]>>::eq(self, other.as_slice())
    }
}

impl<
    T: PartialEq<U>,
    U,
    const BASE_SHIFT: usize,
    const CHUNKS: usize,
> PartialEqSpecImpl<Vec<U>> for ExponentialArray<T, BASE_SHIFT, CHUNKS> {
    open spec fn obeys_eq_spec() -> bool {
        <T as PartialEqSpec<U>>::obeys_eq_spec()
    }

    open spec fn eq_spec(&self, other: &Vec<U>) -> bool {
        self.recorded_len() == other@.len() && seq_eq(self@, other@)
    }
}

impl<
    T: PartialEq<U>,
    U,
    const BASE_SHIFT: usize,
    const CHUNKS: usize,
> PartialEq<&Vec<U>> for ExponentialArray<T, BASE_SHIFT, CHUNKS> {
    fn eq(&self, other: &&Vec<U>) -> (equal: bool)
        ensures
            self.wf() ==> eq_outcome(self@, other@, equal),
    {
        <Self as PartialEq<[U]>>::eq(self, other.as_slice())
    }
}

impl<
    T: PartialEq<U>,
    U,
    const BASE_SHIFT: usize,
    const CHUNKS: usize,
> PartialEqSpecImpl<&Vec<U>> for ExponentialArray<T, BASE_SHIFT, CHUNKS> {
    open spec fn obeys_eq_spec() -> bool {
        <T as PartialEqSpec<U>>::obeys_eq_spec()
    }

    open spec fn eq_spec(&self, other: &&Vec<U>) -> bool {
        self.recorded_len() == other@.len() && seq_eq(self@, other@)
    }
}

impl<T: Eq, const BASE_SHIFT: usize, const CHUNKS: usize> Eq for ExponentialArray<
    T,
    BASE_SHIFT,
    CHUNKS,
> {

}

} // verus!
