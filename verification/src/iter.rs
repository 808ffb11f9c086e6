//! Shared references in order.

use crate::array::ExponentialArray;
use crate::contents::lemma_part;
use crate::cursor::ElementCursor;
use crate::geometry::lemma_chunk_of;
use vstd::prelude::*;
use vstd::std_specs::iter::{DoubleEndedIteratorSpecImpl, IteratorSpecImpl};

verus! {

/// `result` may come of folding `items` into `init` with `fold`, from the first
/// item to the last.
pub open spec fn folded<A, B, F: FnMut(B, A) -> B>(
    fold: F,
    init: B,
    items: Seq<A>,
    result: B,
) -> bool
    decreases items.len(),
{
    if items.len() == 0 {
        result == init
    } else {
        exists|before: B|
            folded(fold, init, items.drop_last(), before) && #[trigger] call_ensures(
                fold,
                (before, items.last()),
                result,
            )
    }
}

/// One more call goes on from what was folded before.
pub proof fn lemma_folded_push<A, B, F: FnMut(B, A) -> B>(
    fold: F,
    init: B,
    items: Seq<A>,
    before: B,
    item: A,
    result: B,
)
    requires
        folded(fold, init, items, before),
        call_ensures(fold, (before, item), result),
    ensures
        folded(fold, init, items.push(item), result),
{
    assert(items.push(item).drop_last() =~= items);
    assert(call_ensures(fold, (before, items.push(item).last()), result));
}

/// An iterator over shared references in an [`ExponentialArray`].
pub struct Iter<'a, T, const BASE_SHIFT: usize, const CHUNKS: usize> {
    array: &'a ExponentialArray<T, BASE_SHIFT, CHUNKS>,
    cursor: ElementCursor,
}

impl<'a, T, const BASE_SHIFT: usize, const CHUNKS: usize> Iter<'a, T, BASE_SHIFT, CHUNKS> {
    #[verifier::type_invariant]
    spec fn inv(&self) -> bool {
        &&& self.array.wf()
        &&& self.cursor.valid(BASE_SHIFT as nat)
        &&& self.cursor.back <= self.array.len
    }

    /// The references that are left, in order.
    pub closed spec fn items(&self) -> Seq<&'a T> {
        self.array@.subrange(self.cursor.front as int, self.cursor.back as int).as_ref()
    }

    /// Calls `fold` with each reference that is left, from the first to the last, and
    /// with what the call before returned.
    pub fn fold<B, F>(self, init: B, fold: F) -> (result: B) where F: FnMut(B, &'a T) -> B
        requires
            forall|accum: B, i: int|
                0 <= i < self.items().len() ==> #[trigger] call_requires(
                    fold,
                    (accum, self.items()[i]),
                ),
        ensures
            folded(fold, init, self.items(), result),
    {
        proof {
            use_type_invariant(&self);
            self.array.lemma_view();
        }
        let ghost items = self.items();
        let ghost base = BASE_SHIFT as nat;
        let mut fold = fold;
        let ghost original = fold;
        let mut accum = init;
        let mut index: usize = self.cursor.front;
        let end: usize = self.cursor.back;
        while index < end
            invariant
                self.array.wf(),
                self.array@.len() == self.array.len,
                end <= self.array.len,
                end == self.cursor.back,
                self.cursor.front <= index <= end,
                base == BASE_SHIFT,
                items == self.array@.subrange(self.cursor.front as int, end as int).as_ref(),
                fold == original,
                forall|accum: B, i: int|
                    0 <= i < items.len() ==> #[trigger] call_requires(original, (accum, items[i])),
                folded(original, init, items.take(index - self.cursor.front), accum),
            decreases end - index,
        {
            proof {
                self.array.lemma_slot(index as int);
                lemma_chunk_of(base, index as int);
            }
            let (chunk, offset) = ExponentialArray::<T, BASE_SHIFT, CHUNKS>::locate(index);
            let values = self.array.chunks[chunk].as_slice();
            proof {
                assert(values@ == self.array.parts()[chunk as int]);
                lemma_part(self.array.parts(), base, self.array.len as int, chunk as int);
            }
            let ghost chunk_first = index - offset;
            let mut position: usize = offset;
            while position < values.len() && index < end
                invariant
                    end <= self.array@.len(),
                    end == self.cursor.back,
                    self.cursor.front <= index <= end,
                    offset <= position <= values@.len(),
                    index == chunk_first + position,
                    0 <= chunk_first,
                    chunk_first + values@.len() <= self.array@.len(),
                    values@ == self.array@.subrange(chunk_first, chunk_first + values@.len()),
                    items == self.array@.subrange(self.cursor.front as int, end as int).as_ref(),
                    fold == original,
                    forall|accum: B, i: int|
                        0 <= i < items.len() ==> #[trigger] call_requires(
                            original,
                            (accum, items[i]),
                        ),
                    folded(original, init, items.take(index - self.cursor.front), accum),
                decreases values@.len() - position,
            {
                let ghost before = accum;
                let ghost place = index - self.cursor.front;
                let value = &values[position];
                assert(items[place] == value);
                assert(call_requires(original, (accum, items[place])));
                accum = fold(accum, value);
                proof {
                    assert(items.take(place + 1) =~= items.take(place).push(value));
                    lemma_folded_push(original, init, items.take(place), before, value, accum);
                }
                position = position + 1;
                index = index + 1;
            }
        }
        assert(items.take(items.len() as int) =~= items);
        accum
    }

    /// Calls `fold` with each reference that is left, from the last to the first, and
    /// with what the call before returned.
    pub fn rfold<B, F>(self, init: B, fold: F) -> (result: B) where F: FnMut(B, &'a T) -> B
        requires
            forall|accum: B, i: int|
                0 <= i < self.items().len() ==> #[trigger] call_requires(
                    fold,
                    (accum, self.items()[i]),
                ),
        ensures
            folded(fold, init, self.items().reverse(), result),
    {
        proof {
            use_type_invariant(&self);
            self.array.lemma_view();
        }
        let ghost items = self.items();
        let ghost base = BASE_SHIFT as nat;
        let mut fold = fold;
        let ghost original = fold;
        let mut accum = init;
        let start: usize = self.cursor.front;
        let mut end: usize = self.cursor.back;
        let ghost back = end;
        while start < end
            invariant
                self.array.wf(),
                self.array@.len() == self.array.len,
                start <= end <= back <= self.array.len,
                base == BASE_SHIFT,
                items == self.array@.subrange(start as int, back as int).as_ref(),
                fold == original,
                forall|accum: B, i: int|
                    0 <= i < items.len() ==> #[trigger] call_requires(original, (accum, items[i])),
                folded(original, init, items.reverse().take(back - end), accum),
            decreases end - start,
        {
            proof {
                self.array.lemma_slot(end - 1);
                lemma_chunk_of(base, end - 1);
            }
            let (chunk, offset) = ExponentialArray::<T, BASE_SHIFT, CHUNKS>::locate(end - 1);
            let values = self.array.chunks[chunk].as_slice();
            proof {
                assert(values@ == self.array.parts()[chunk as int]);
                lemma_part(self.array.parts(), base, self.array.len as int, chunk as int);
            }
            let ghost chunk_first = end - 1 - offset;
            let mut position: usize = offset + 1;
            while position > 0 && start < end
                invariant
                    start <= end <= back <= self.array@.len(),
                    position <= values@.len(),
                    end == chunk_first + position,
                    0 <= chunk_first,
                    chunk_first + values@.len() <= self.array@.len(),
                    values@ == self.array@.subrange(chunk_first, chunk_first + values@.len()),
                    items == self.array@.subrange(start as int, back as int).as_ref(),
                    fold == original,
                    forall|accum: B, i: int|
                        0 <= i < items.len() ==> #[trigger] call_requires(
                            original,
                            (accum, items[i]),
                        ),
                    folded(original, init, items.reverse().take(back - end), accum),
                decreases position,
            {
                let ghost before = accum;
                let ghost place = back - end;
                position = position - 1;
                end = end - 1;
                let value = &values[position];
                assert(items[end - start] == value);
                assert(items.reverse()[place] == value);
                assert(call_requires(original, (accum, items[end - start])));
                accum = fold(accum, value);
                proof {
                    let seen = items.reverse().take(place);
                    assert(items.reverse().take(place + 1) =~= seen.push(value));
                    lemma_folded_push(original, init, seen, before, value, accum);
                }
            }
        }
        assert(items.reverse().take(items.len() as int) =~= items.reverse());
        accum
    }
}

impl<'a, T, const BASE_SHIFT: usize, const CHUNKS: usize> Clone for Iter<
    'a,
    T,
    BASE_SHIFT,
    CHUNKS,
> {
    fn clone(&self) -> (copy: Self)
        ensures
            copy == *self,
    {
        *self
    }
}

impl<'a, T, const BASE_SHIFT: usize, const CHUNKS: usize> Copy for Iter<'a, T, BASE_SHIFT, CHUNKS> {

}

impl<'a, T, const BASE_SHIFT: usize, const CHUNKS: usize> Iterator for Iter<
    'a,
    T,
    BASE_SHIFT,
    CHUNKS,
> {
    type Item = &'a T;

    fn next(&mut self) -> (item: Option<&'a T>) {
        proof {
            use_type_invariant(&*self);
            self.array.lemma_view();
        }
        let ghost items = self.items();
        let mut cursor = self.cursor;
        match cursor.next_front::<T, BASE_SHIFT, CHUNKS>() {
            Some((chunk, offset)) => {
                proof {
                    self.array.lemma_slot(self.cursor.front as int);
                }
                self.cursor = cursor;
                assert(self.items() =~= items.drop_first());
                Some(self.array.chunks[chunk].get(offset))
            },
            None => None,
        }
    }

    fn size_hint(&self) -> (hint: (usize, Option<usize>))
        ensures
            hint == (self.items().len() as usize, Some(self.items().len() as usize)),
            hint.0 == self.items().len(),
    {
        proof {
            use_type_invariant(&*self);
            self.array.lemma_view();
        }
        let len: usize = self.cursor.len();
        (len, Some(len))
    }
}

impl<'a, T, const BASE_SHIFT: usize, const CHUNKS: usize> IteratorSpecImpl for Iter<
    'a,
    T,
    BASE_SHIFT,
    CHUNKS,
> {
    open spec fn obeys_prophetic_iter_laws(&self) -> bool {
        true
    }

    open spec fn remaining(&self) -> Seq<&'a T> {
        self.items()
    }

    open spec fn will_return_none(&self) -> bool {
        true
    }

    open spec fn decrease(&self) -> Option<nat> {
        Some(self.items().len())
    }

    open spec fn initial_value_relation(&self, init: &Self) -> bool {
        init.items() == self.items()
    }

    open spec fn peek(&self, index: int) -> Option<&'a T> {
        if 0 <= index < self.items().len() {
            Some(self.items()[index])
        } else {
            None
        }
    }
}

impl<'a, T, const BASE_SHIFT: usize, const CHUNKS: usize> DoubleEndedIterator for Iter<
    'a,
    T,
    BASE_SHIFT,
    CHUNKS,
> {
    fn next_back(&mut self) -> (item: Option<&'a T>) {
        proof {
            use_type_invariant(&*self);
            self.array.lemma_view();
        }
        let ghost items = self.items();
        let mut cursor = self.cursor;
        match cursor.next_back::<T, BASE_SHIFT, CHUNKS>() {
            Some((chunk, offset)) => {
                proof {
                    self.array.lemma_slot(self.cursor.back - 1);
                }
                self.cursor = cursor;
                assert(self.items() =~= items.drop_last());
                Some(self.array.chunks[chunk].get(offset))
            },
            None => None,
        }
    }
}

impl<'a, T, const BASE_SHIFT: usize, const CHUNKS: usize> DoubleEndedIteratorSpecImpl for Iter<
    'a,
    T,
    BASE_SHIFT,
    CHUNKS,
> {
    open spec fn peek_back(&self, index: int) -> Option<&'a T> {
        if 0 <= index < self.items().len() {
            Some(self.items()[self.items().len() - 1 - index])
        } else {
            None
        }
    }
}

impl<'a, T, const BASE_SHIFT: usize, const CHUNKS: usize> ExactSizeIterator for Iter<
    'a,
    T,
    BASE_SHIFT,
    CHUNKS,
> {
    fn len(&self) -> (len: usize)
        ensures
            len == self.items().len(),
    {
        proof {
            use_type_invariant(&*self);
            self.array.lemma_view();
        }
        self.cursor.len()
    }
}

impl<'a, T, const BASE_SHIFT: usize, const CHUNKS: usize> core::iter::FusedIterator for Iter<
    'a,
    T,
    BASE_SHIFT,
    CHUNKS,
> {

}

impl<T, const BASE_SHIFT: usize, const CHUNKS: usize> ExponentialArray<T, BASE_SHIFT, CHUNKS> {
    /// Returns an iterator over shared references.
    #[must_use]
    pub fn iter(&self) -> (iter: Iter<'_, T, BASE_SHIFT, CHUNKS>)
        requires
            self.wf(),
        ensures
            iter.items() == self@.as_ref(),
    {
        proof {
            self.lemma_view();
            if self.len > 0 {
                self.lemma_slot(0);
            }
        }
        let iter = Iter {
            array: self,
            cursor: ElementCursor::new::<T, BASE_SHIFT, CHUNKS>(self.len),
        };
        assert(iter.items() =~= self@.as_ref());
        iter
    }
}

} // verus!
