//! Contiguous segments in order, to be changed in place.

use crate::array::ExponentialArray;
use crate::chunk::{lend, Chunk};
use crate::contents::{lemma_segments, packed, segments};
use crate::geometry::filled;
use vstd::prelude::*;
use vstd::std_specs::iter::{DoubleEndedIteratorSpecImpl, IteratorSpecImpl};

verus! {

/// An iterator over initialized mutable contiguous chunks.
pub struct ChunksMut<'a, T, const BASE_SHIFT: usize, const CHUNKS: usize> {
    slices: Vec<&'a mut [T]>,
}

/// Lends what each of the first `count` chunks holds.
pub(crate) fn lend_parts<'a, T>(chunks: &'a mut Vec<Chunk<T>>, count: usize) -> (slices: Vec<
    &'a mut [T],
>)
    requires
        count <= old(chunks)@.len(),
    ensures
        slices@.len() == count,
        final(chunks)@.len() == old(chunks)@.len(),
        forall|c: int|
            #![trigger slices@[c]]
            0 <= c < count ==> {
                &&& slices@[c]@ == old(chunks)@[c]@
                &&& final(slices@[c])@.len() == slices@[c]@.len()
                &&& final(slices@[c])@ == final(chunks)@[c]@
            },
        forall|c: int|
            #![trigger final(chunks)@[c]]
            count <= c < old(chunks)@.len() ==> final(chunks)@[c]@ == old(chunks)@[c]@,
        forall|c: int|
            #![trigger final(chunks)@[c]]
            0 <= c < old(chunks)@.len() ==> {
                &&& final(chunks)@[c].address() == old(chunks)@[c].address()
                &&& final(chunks)@[c].room() == old(chunks)@[c].room()
            },
{
    let ghost before = chunks@;
    let mut slices: Vec<&'a mut [T]> = Vec::new();
    let mut rest: &'a mut [Chunk<T>] = lend(chunks);
    while slices.len() < count
        invariant
            slices@.len() <= count <= before.len(),
            rest@ == before.skip(slices@.len() as int),
            after_borrow(chunks)@.len() == before.len(),
            final(rest)@ == after_borrow(chunks)@.skip(slices@.len() as int),
            forall|c: int|
                #![trigger slices@[c]]
                0 <= c < slices@.len() ==> {
                    &&& slices@[c]@ == before[c]@
                    &&& final(slices@[c])@.len() == slices@[c]@.len()
                    &&& final(slices@[c])@ == after_borrow(chunks)@[c]@
                },
            forall|c: int|
                #![trigger after_borrow(chunks)@[c]]
                0 <= c < slices@.len() ==> {
                    &&& after_borrow(chunks)@[c].address() == before[c].address()
                    &&& after_borrow(chunks)@[c].room() == before[c].room()
                },
        decreases count - slices@.len(),
    {
        let ghost k = slices@.len() as int;
        let (head, tail) = rest.split_at_mut(1);
        let chunk: &'a mut Chunk<T> = &mut head[0];
        proof {
            assert(after_borrow(chunks)@.skip(k) == seq![*final(chunk)] + final(tail)@);
            assert(after_borrow(chunks)@[k] == after_borrow(chunks)@.skip(k)[0]);
            assert((seq![*final(chunk)] + final(tail)@).skip(1) =~= final(tail)@);
            assert(after_borrow(chunks)@.skip(k).skip(1) =~= after_borrow(chunks)@.skip(k + 1));
        }
        slices.push(chunk.as_mut_slice());
        rest = tail;
    }
    proof {
        assert(final(rest)@ == rest@);
        assert forall|c: int| count <= c < before.len() implies #[trigger] after_borrow(chunks)@[c]
            == before[c] by {
            assert(after_borrow(chunks)@.skip(count as int)[c - count] == before.skip(
                count as int,
            )[c - count]);
        }
    }
    slices
}

impl<'a, T, const BASE_SHIFT: usize, const CHUNKS: usize> ChunksMut<'a, T, BASE_SHIFT, CHUNKS> {
    /// The slices that are left, in order.
    pub closed spec fn items(&self) -> Seq<&'a mut [T]> {
        self.slices@
    }

    /// The slices that are left when the iterator is given up stay as they are.
    pub proof fn lemma_given_up(self)
        requires
            has_resolved(self),
        ensures
            forall|c: int|
                #![trigger self.items()[c]]
                0 <= c < self.items().len() ==> final(self.items()[c])@ == self.items()[c]@,
    {
        assert(has_resolved(self.slices));
        assert forall|c: int|
            #![trigger self.items()[c]]
            0 <= c < self.items().len() implies final(self.items()[c])@ == self.items()[c]@ by {
            assert(has_resolved(self.slices@[c]));
        }
    }
}

impl<'a, T, const BASE_SHIFT: usize, const CHUNKS: usize> Iterator for ChunksMut<
    'a,
    T,
    BASE_SHIFT,
    CHUNKS,
> {
    type Item = &'a mut [T];

    fn next(&mut self) -> (item: Option<&'a mut [T]>) {
        let ghost items = self.items();
        if self.slices.len() == 0 {
            return None;
        }
        let item = Some(self.slices.remove(0));
        assert(self.items() =~= items.drop_first());
        item
    }

    fn size_hint(&self) -> (hint: (usize, Option<usize>))
        ensures
            hint == (self.items().len() as usize, Some(self.items().len() as usize)),
            hint.0 == self.items().len(),
    {
        let len: usize = self.slices.len();
        (len, Some(len))
    }
}

impl<'a, T, const BASE_SHIFT: usize, const CHUNKS: usize> IteratorSpecImpl for ChunksMut<
    'a,
    T,
    BASE_SHIFT,
    CHUNKS,
> {
    open spec fn obeys_prophetic_iter_laws(&self) -> bool {
        true
    }

    open spec fn remaining(&self) -> Seq<&'a mut [T]> {
        self.items()
    }

    open spec fn will_return_none(&self) -> bool {
        true
    }

    open spec fn decrease(&self) -> Option<nat> {
        Some(self.items().len())
    }

    open spec fn initial_value_relation(&self, init: &Self) -> bool {
        init.items() == self.items()
    }

    open spec fn peek(&self, index: int) -> Option<&'a mut [T]> {
        if 0 <= index < self.items().len() {
            Some(self.items()[index])
        } else {
            None
        }
    }
}

impl<'a, T, const BASE_SHIFT: usize, const CHUNKS: usize> DoubleEndedIterator for ChunksMut<
    'a,
    T,
    BASE_SHIFT,
    CHUNKS,
> {
    fn next_back(&mut self) -> (item: Option<&'a mut [T]>) {
        self.slices.pop()
    }
}

impl<'a, T, const BASE_SHIFT: usize, const CHUNKS: usize> DoubleEndedIteratorSpecImpl for ChunksMut<
    'a,
    T,
    BASE_SHIFT,
    CHUNKS,
> {
    open spec fn peek_back(&self, index: int) -> Option<&'a mut [T]> {
        if 0 <= index < self.items().len() {
            Some(self.items()[self.items().len() - 1 - index])
        } else {
            None
        }
    }
}

impl<'a, T, const BASE_SHIFT: usize, const CHUNKS: usize> ExactSizeIterator for ChunksMut<
    'a,
    T,
    BASE_SHIFT,
    CHUNKS,
> {
    fn len(&self) -> (len: usize)
        ensures
            len == self.items().len(),
    {
        self.slices.len()
    }
}

impl<'a, T, const BASE_SHIFT: usize, const CHUNKS: usize> core::iter::FusedIterator for ChunksMut<
    'a,
    T,
    BASE_SHIFT,
    CHUNKS,
> {

}

impl<T, const BASE_SHIFT: usize, const CHUNKS: usize> ExponentialArray<T, BASE_SHIFT, CHUNKS> {
    /// Lends what each chunk that holds anything holds.
    pub(crate) fn lend_segments(&mut self) -> (slices: Vec<&mut [T]>)
        requires
            old(self).wf(),
        ensures
            final(self).wf(),
            final(self)@.len() == old(self)@.len(),
            final(self).buffers() == old(self).buffers(),
            slices@.len() == segments(BASE_SHIFT as nat, old(self)@).len(),
            slices@.len() == segments(BASE_SHIFT as nat, final(self)@).len(),
            forall|c: int|
                #![trigger slices@[c]]
                0 <= c < slices@.len() ==> {
                    &&& slices@[c]@ == segments(BASE_SHIFT as nat, old(self)@)[c]
                    &&& final(slices@[c])@.len() == slices@[c]@.len()
                    &&& final(slices@[c])@ == segments(BASE_SHIFT as nat, final(self)@)[c]
                },
    {
        let ghost before = *self;
        let ghost base = BASE_SHIFT as nat;
        let count: usize = self.initialized_chunks();
        proof {
            self.lemma_view();
            lemma_segments(self.parts(), base, self.len as int);
        }
        let slices = lend_parts(&mut self.chunks, count);
        proof {
            assert forall|c: int| 0 <= c < before.parts().len() implies (
            #[trigger] after_borrow(self).parts()[c]).len() == filled(
                base,
                before.len as int,
                c as nat,
            ) by {
                assert(before.parts()[c].len() == filled(base, before.len as int, c as nat));
                if c < count {
                    assert(final(slices@[c])@.len() == slices@[c]@.len());
                }
            }
            assert(packed(after_borrow(self).parts(), base, before.len as int));
            lemma_segments(after_borrow(self).parts(), base, before.len as int);
            assert(after_borrow(self).buffers() =~= before.buffers());
            after_borrow(self).lemma_view();
        }
        slices
    }

    /// Returns an iterator over initialized mutable contiguous chunks.
    ///
    /// Each yielded slice is contiguous. The whole array is not necessarily
    /// contiguous.
    #[must_use]
    pub fn chunks_mut(&mut self) -> (chunks: ChunksMut<'_, T, BASE_SHIFT, CHUNKS>)
        requires
            old(self).wf(),
        ensures
            final(self).wf(),
            final(self)@.len() == old(self)@.len(),
            final(self).buffers() == old(self).buffers(),
            chunks.items().len() == segments(BASE_SHIFT as nat, old(self)@).len(),
            chunks.items().len() == segments(BASE_SHIFT as nat, final(self)@).len(),
            forall|c: int|
                #![trigger chunks.items()[c]]
                0 <= c < chunks.items().len() ==> {
                    &&& chunks.items()[c]@ == segments(BASE_SHIFT as nat, old(self)@)[c]
                    &&& final(chunks.items()[c])@.len() == chunks.items()[c]@.len()
                    &&& final(chunks.items()[c])@ == segments(BASE_SHIFT as nat, final(self)@)[c]
                },
    {
        ChunksMut { slices: self.lend_segments() }
    }
}

} // verus!
