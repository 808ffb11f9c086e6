//! Contiguous segments in order.

use crate::array::ExponentialArray;
use crate::contents::{held, lemma_held, lemma_segments, segments};
use crate::geometry::chunks_for;
use vstd::prelude::*;
use vstd::std_specs::iter::{DoubleEndedIteratorSpecImpl, IteratorSpecImpl};

verus! {

/// What each of `slices` holds.
pub open spec fn slice_views<T>(slices: Seq<&[T]>) -> Seq<Seq<T>> {
    Seq::new(slices.len(), |i: int| slices[i]@)
}

/// The slice that holds `contents`.
spec fn slice_of<'a, T>(contents: Seq<T>) -> &'a [T] {
    choose|slice: &'a [T]| slice@ == contents
}

/// A slice is told apart by what it holds.
proof fn lemma_slice_of<'a, T>(slice: &'a [T])
    ensures
        slice_of(slice@) == slice,
{
    assert(slice_of::<T>(slice@)@ == slice@);
    assert(slice_of::<T>(slice@) =~= slice);
}

/// An iterator over initialized contiguous chunks.
pub struct Chunks<'a, T, const BASE_SHIFT: usize, const CHUNKS: usize> {
    array: &'a ExponentialArray<T, BASE_SHIFT, CHUNKS>,
    front: usize,
    back: usize,
}

impl<'a, T, const BASE_SHIFT: usize, const CHUNKS: usize> Chunks<'a, T, BASE_SHIFT, CHUNKS> {
    #[verifier::type_invariant]
    spec fn inv(&self) -> bool {
        self.front <= self.back <= self.array.chunks@.len()
    }

    /// The slices that are left, in order.
    pub closed spec fn items(&self) -> Seq<&'a [T]> {
        Seq::new(
            (self.back - self.front) as nat,
            |i: int| slice_of(self.array.chunks@[self.front + i]@),
        )
    }
}

impl<'a, T, const BASE_SHIFT: usize, const CHUNKS: usize> Clone for Chunks<
    'a,
    T,
    BASE_SHIFT,
    CHUNKS,
> {
    fn clone(&self) -> (copy: Self)
        ensures
            copy == *self,
    {
        *self
    }
}

impl<'a, T, const BASE_SHIFT: usize, const CHUNKS: usize> Copy for Chunks<
    'a,
    T,
    BASE_SHIFT,
    CHUNKS,
> {

}

impl<'a, T, const BASE_SHIFT: usize, const CHUNKS: usize> Iterator for Chunks<
    'a,
    T,
    BASE_SHIFT,
    CHUNKS,
> {
    type Item = &'a [T];

    fn next(&mut self) -> (item: Option<&'a [T]>) {
        proof {
            use_type_invariant(&*self);
        }
        let ghost items = self.items();
        if self.front == self.back {
            return None;
        }
        let slice = self.array.chunks[self.front].as_slice();
        self.front = self.front + 1;
        proof {
            lemma_slice_of(slice);
            assert(self.items() =~= items.drop_first());
        }
        Some(slice)
    }

    fn size_hint(&self) -> (hint: (usize, Option<usize>))
        ensures
            hint == (self.items().len() as usize, Some(self.items().len() as usize)),
            hint.0 == self.items().len(),
    {
        proof {
            use_type_invariant(&*self);
        }
        let len: usize = self.back - self.front;
        (len, Some(len))
    }
}

impl<'a, T, const BASE_SHIFT: usize, const CHUNKS: usize> IteratorSpecImpl for Chunks<
    'a,
    T,
    BASE_SHIFT,
    CHUNKS,
> {
    open spec fn obeys_prophetic_iter_laws(&self) -> bool {
        true
    }

    open spec fn remaining(&self) -> Seq<&'a [T]> {
        self.items()
    }

    open spec fn will_return_none(&self) -> bool {
        true
    }

    open spec fn decrease(&self) -> Option<nat> {
        Some(self.items().len())
    }

    open spec fn initial_value_relation(&self, init: &Self) -> bool {
        init.items() == self.items()
    }

    open spec fn peek(&self, index: int) -> Option<&'a [T]> {
        if 0 <= index < self.items().len() {
            Some(self.items()[index])
        } else {
            None
        }
    }
}

impl<'a, T, const BASE_SHIFT: usize, const CHUNKS: usize> DoubleEndedIterator for Chunks<
    'a,
    T,
    BASE_SHIFT,
    CHUNKS,
> {
    fn next_back(&mut self) -> (item: Option<&'a [T]>) {
        proof {
            use_type_invariant(&*self);
        }
        let ghost items = self.items();
        if self.front == self.back {
            return None;
        }
        self.back = self.back - 1;
        let slice = self.array.chunks[self.back].as_slice();
        proof {
            lemma_slice_of(slice);
            assert(self.items() =~= items.drop_last());
        }
        Some(slice)
    }
}

impl<'a, T, const BASE_SHIFT: usize, const CHUNKS: usize> DoubleEndedIteratorSpecImpl for Chunks<
    'a,
    T,
    BASE_SHIFT,
    CHUNKS,
> {
    open spec fn peek_back(&self, index: int) -> Option<&'a [T]> {
        if 0 <= index < self.items().len() {
            Some(self.items()[self.items().len() - 1 - index])
        } else {
            None
        }
    }
}

impl<'a, T, const BASE_SHIFT: usize, const CHUNKS: usize> ExactSizeIterator for Chunks<
    'a,
    T,
    BASE_SHIFT,
    CHUNKS,
> {
    fn len(&self) -> (len: usize)
        ensures
            len == self.items().len(),
    {
        proof {
            use_type_invariant(&*self);
        }
        self.back - self.front
    }
}

impl<'a, T, const BASE_SHIFT: usize, const CHUNKS: usize> core::iter::FusedIterator for Chunks<
    'a,
    T,
    BASE_SHIFT,
    CHUNKS,
> {

}

impl<T, const BASE_SHIFT: usize, const CHUNKS: usize> ExponentialArray<T, BASE_SHIFT, CHUNKS> {
    /// Returns an iterator over initialized contiguous chunks.
    ///
    /// Each yielded slice is contiguous. The whole array is not necessarily
    /// contiguous.
    #[must_use]
    pub fn chunks(&self) -> (chunks: Chunks<'_, T, BASE_SHIFT, CHUNKS>)
        requires
            self.wf(),
        ensures
            slice_views(chunks.items()) == segments(BASE_SHIFT as nat, self@),
    {
        let chunks = self.held_parts();
        proof {
            self.lemma_view();
            lemma_segments(self.parts(), BASE_SHIFT as nat, self.len as int);
            lemma_held(self.parts());
            let count = chunks_for(BASE_SHIFT as nat, self.len as int);
            if count > 0 {
                assert(self.parts()[count - 1].len() > 0);
            }
        }
        chunks
    }

    /// Returns an iterator over what the chunks hold, up to the last that holds anything.
    pub(crate) fn held_parts(&self) -> (chunks: Chunks<'_, T, BASE_SHIFT, CHUNKS>)
        ensures
            slice_views(chunks.items()) == self.parts().take(held(self.parts()) as int),
            slice_views(chunks.items()).flatten() == self.parts().flatten(),
    {
        let ghost parts = self.parts();
        let mut back: usize = 0;
        let mut chunk: usize = 0;
        while chunk < self.chunks.len()
            invariant
                parts == self.parts(),
                chunk <= self.chunks@.len(),
                back <= chunk,
                back == held(parts.take(chunk as int)),
                forall|c: int|
                    0 <= c < chunk ==> slice_of::<T>((#[trigger] self.chunks@[c])@)@
                        == self.chunks@[c]@,
            decreases self.chunks@.len() - chunk,
        {
            let slice = self.chunks[chunk].as_slice();
            proof {
                lemma_slice_of(slice);
                assert(parts.take(chunk + 1).drop_last() =~= parts.take(chunk as int));
            }
            chunk = chunk + 1;
            if slice.len() > 0 {
                back = chunk;
            }
        }
        let chunks = Chunks { array: self, front: 0, back };
        proof {
            assert(parts.take(chunk as int) =~= parts);
            lemma_held(parts);
            assert(slice_views(chunks.items()) =~= parts.take(back as int));
        }
        chunks
    }

    /// Returns the number of chunks that hold an element.
    pub(crate) fn initialized_chunks(&self) -> (count: usize)
        requires
            self.wf(),
        ensures
            count == chunks_for(BASE_SHIFT as nat, self@.len() as int),
            count <= self.chunks@.len(),
    {
        proof {
            self.lemma_view();
        }
        if self.len == 0 {
            0
        } else {
            proof {
                self.lemma_slot(self.len - 1);
            }
            Self::locate(self.len - 1).0 + 1
        }
    }
}

} // verus!
