//! The elements themselves, in order.

use crate::array::{chunk_parts, ExponentialArray};
use crate::chunk::Chunk;
use std::collections::VecDeque;
use vstd::prelude::*;
use vstd::std_specs::iter::{DoubleEndedIteratorSpecImpl, IteratorSpecImpl};

verus! {

/// Turns a vector into a queue of the same elements.
///
/// This calls the conversion of [`Vec`] into [`VecDeque`], which keeps the elements
/// and their order.
#[verifier::external_body]
fn into_queue<T>(values: Vec<T>) -> (queue: VecDeque<T>)
    ensures
        queue@ == values@,
{
    VecDeque::from(values)
}

/// An owning iterator over an [`ExponentialArray`].
pub struct IntoIter<T, const BASE_SHIFT: usize, const CHUNKS: usize> {
    front: VecDeque<T>,
    middle: Vec<Chunk<T>>,
    back: VecDeque<T>,
    left: usize,
}

impl<T, const BASE_SHIFT: usize, const CHUNKS: usize> IntoIter<T, BASE_SHIFT, CHUNKS> {
    /// The elements that are left, in order.
    pub closed spec fn items(&self) -> Seq<T> {
        self.front@ + chunk_parts(self.middle@).flatten() + self.back@
    }

    /// The elements that are left are counted.
    pub closed spec fn wf(&self) -> bool {
        self.left == self.items().len()
    }
}

impl<T, const BASE_SHIFT: usize, const CHUNKS: usize> Iterator for IntoIter<
    T,
    BASE_SHIFT,
    CHUNKS,
> {
    type Item = T;

    fn next(&mut self) -> (item: Option<T>)
        ensures
            old(self).wf() ==> final(self).wf(),
    {
        let ghost items = self.items();
        while self.front.len() == 0 && self.middle.len() > 0
            invariant
                self.items() == items,
                self.left == old(self).left,
            decreases self.middle@.len(),
        {
            let ghost parts = chunk_parts(self.middle@);
            let chunk = self.middle.remove(0);
            self.front = into_queue(chunk.into_slots());
            proof {
                assert(chunk_parts(self.middle@) =~= parts.drop_first());
                assert(self.items() =~= items);
            }
        }
        assert(chunk_parts(self.middle@).len() == 0 ==> chunk_parts(self.middle@).flatten()
            =~= Seq::<T>::empty());
        let item = if self.front.len() > 0 {
            self.front.pop_front()
        } else {
            self.back.pop_front()
        };
        if item.is_some() {
            self.left = self.left.saturating_sub(1);
        }
        proof {
            if items.len() > 0 {
                assert(self.items() =~= items.drop_first());
            } else {
                assert(self.items() =~= items);
            }
        }
        item
    }

    fn size_hint(&self) -> (hint: (usize, Option<usize>))
        ensures
            self.wf() ==> hint.0 == self.items().len() && hint.1 == Some(hint.0),
    {
        (self.left, Some(self.left))
    }
}

impl<T, const BASE_SHIFT: usize, const CHUNKS: usize> IteratorSpecImpl for IntoIter<
    T,
    BASE_SHIFT,
    CHUNKS,
> {
    open spec fn obeys_prophetic_iter_laws(&self) -> bool {
        true
    }

    open spec fn remaining(&self) -> Seq<T> {
        self.items()
    }

    open spec fn will_return_none(&self) -> bool {
        true
    }

    open spec fn decrease(&self) -> Option<nat> {
        Some(self.items().len())
    }

    open spec fn initial_value_relation(&self, init: &Self) -> bool {
        init.items() == self.items()
    }

    open spec fn peek(&self, index: int) -> Option<T> {
        if 0 <= index < self.items().len() {
            Some(self.items()[index])
        } else {
            None
        }
    }
}

impl<T, const BASE_SHIFT: usize, const CHUNKS: usize> DoubleEndedIterator for IntoIter<
    T,
    BASE_SHIFT,
    CHUNKS,
> {
    fn next_back(&mut self) -> (item: Option<T>)
        ensures
            old(self).wf() ==> final(self).wf(),
    {
        let ghost items = self.items();
        while self.back.len() == 0 && self.middle.len() > 0
            invariant
                self.items() == items,
                self.left == old(self).left,
            decreases self.middle@.len(),
        {
            let ghost parts = chunk_parts(self.middle@);
            if let Some(chunk) = self.middle.pop() {
                self.back = into_queue(chunk.into_slots());
                proof {
                    assert(chunk_parts(self.middle@) =~= parts.drop_last());
                    assert(parts.drop_last().push(parts.last()) =~= parts);
                    parts.drop_last().lemma_flatten_push(parts.last());
                    assert(self.items() =~= items);
                }
            }
        }
        assert(chunk_parts(self.middle@).len() == 0 ==> chunk_parts(self.middle@).flatten()
            =~= Seq::<T>::empty());
        let item = if self.back.len() > 0 {
            self.back.pop_back()
        } else {
            self.front.pop_back()
        };
        if item.is_some() {
            self.left = self.left.saturating_sub(1);
        }
        proof {
            if items.len() > 0 {
                assert(self.items() =~= items.drop_last());
            } else {
                assert(self.items() =~= items);
            }
        }
        item
    }
}

impl<T, const BASE_SHIFT: usize, const CHUNKS: usize> DoubleEndedIteratorSpecImpl for IntoIter<
    T,
    BASE_SHIFT,
    CHUNKS,
> {
    open spec fn peek_back(&self, index: int) -> Option<T> {
        if 0 <= index < self.items().len() {
            Some(self.items()[self.items().len() - 1 - index])
        } else {
            None
        }
    }
}

impl<T, const BASE_SHIFT: usize, const CHUNKS: usize> ExactSizeIterator for IntoIter<
    T,
    BASE_SHIFT,
    CHUNKS,
> {
    fn len(&self) -> (len: usize)
        ensures
            self.wf() ==> len == self.items().len(),
    {
        self.left
    }
}

impl<T, const BASE_SHIFT: usize, const CHUNKS: usize> core::iter::FusedIterator for IntoIter<
    T,
    BASE_SHIFT,
    CHUNKS,
> {

}

impl<T, const BASE_SHIFT: usize, const CHUNKS: usize> ExponentialArray<T, BASE_SHIFT, CHUNKS> {
    /// Returns an iterator over the elements themselves.
    #[must_use]
    pub fn into_iter(self) -> (iter: IntoIter<T, BASE_SHIFT, CHUNKS>)
        requires
            self.wf(),
        ensures
            iter.wf(),
            iter.items() == self@,
    {
        proof {
            self.lemma_view();
        }
        let iter = IntoIter {
            front: VecDeque::new(),
            middle: self.chunks,
            back: VecDeque::new(),
            left: self.len,
        };
        assert(iter.items() =~= self@);
        iter
    }
}

impl<T, const BASE_SHIFT: usize, const CHUNKS: usize> From<
    ExponentialArray<T, BASE_SHIFT, CHUNKS>,
> for Vec<T> {
    /// Moves the elements to a vector.
    fn from(array: ExponentialArray<T, BASE_SHIFT, CHUNKS>) -> (values: Vec<T>)
        ensures
            values@ == array@,
    {
        let mut values: Vec<T> = Vec::with_capacity(array.len);
        let mut chunks = array.chunks;
        let ghost parts = chunk_parts(chunks@);
        let mut chunk: usize = 0;
        assert(parts.take(0).flatten() =~= Seq::<T>::empty());
        while chunk < chunks.len()
            invariant
                chunk <= chunks@.len() == parts.len(),
                forall|c: int| chunk <= c < chunks@.len() ==> (#[trigger] chunks@[c])@ == parts[c],
                values@ == parts.take(chunk as int).flatten(),
            decreases chunks@.len() - chunk,
        {
            chunks[chunk].append_to(&mut values);
            proof {
                parts.take(chunk as int).lemma_flatten_push(parts[chunk as int]);
                assert(parts.take(chunk as int).push(parts[chunk as int]) =~= parts.take(
                    chunk + 1,
                ));
            }
            chunk = chunk + 1;
        }
        assert(parts.take(chunk as int) =~= parts);
        values
    }
}

impl<T, const BASE_SHIFT: usize, const CHUNKS: usize> vstd::std_specs::convert::FromSpecImpl<
    ExponentialArray<T, BASE_SHIFT, CHUNKS>,
> for Vec<T> {
    open spec fn obeys_from_spec() -> bool {
        false
    }

    open spec fn from_spec(array: ExponentialArray<T, BASE_SHIFT, CHUNKS>) -> Vec<T> {
        arbitrary()
    }
}

} // verus!
