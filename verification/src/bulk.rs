//! Many elements at once.

use crate::array::{grown_to, ExponentialArray};
use crate::chunk::Chunk;
use crate::contents::{cut, lemma_cut, lemma_part};
use crate::geometry::{
    chunk_start, chunks_for, filled, lemma_chunk_start_monotone, lemma_chunk_start_next,
    lemma_chunks_for, lemma_lives_at, lives_at,
};
use crate::source::{lemma_ready, withheld, Source};
use vstd::prelude::*;

verus! {

/// One end of a range of indices.
#[derive(Clone, Copy, Debug, Eq, PartialEq, Structural)]
pub enum RangeBound {
    /// The range reaches the index and holds it.
    Included(usize),
    /// The range reaches the index and does not hold it.
    Excluded(usize),
    /// The range reaches as far as it can.
    Unbounded,
}

/// The first index of a range with the start `bound`.
pub open spec fn range_start(bound: RangeBound) -> int {
    match bound {
        RangeBound::Included(start) => start as int,
        RangeBound::Excluded(start) => start + 1,
        RangeBound::Unbounded => 0,
    }
}

/// The index after the last of a range with the end `bound`, among `len` elements.
pub open spec fn range_end(bound: RangeBound, len: nat) -> int {
    match bound {
        RangeBound::Included(end) => end + 1,
        RangeBound::Excluded(end) => end as int,
        RangeBound::Unbounded => len as int,
    }
}

/// Why a range does not lie within an array.
#[derive(Clone, Copy, Debug, Eq, PartialEq, Structural)]
pub enum RangeError {
    /// The index after the start overflows `usize`.
    StartOverflow,
    /// The index after the end overflows `usize`.
    EndOverflow,
    /// The range ends before it starts.
    Reversed {
        /// The first index of the range.
        start: usize,
        /// The index after the last of the range.
        end: usize,
    },
    /// The range ends after the last element.
    OutOfBounds {
        /// The index after the last of the range.
        end: usize,
        /// The number of elements.
        len: usize,
    },
}

/// What comes of resolving a range among `len` elements.
pub open spec fn resolved_range(start: RangeBound, end: RangeBound, len: nat) -> Result<
    (usize, usize),
    RangeError,
> {
    let first = range_start(start);
    let last = range_end(end, len);
    if first > usize::MAX {
        Err(RangeError::StartOverflow)
    } else if last > usize::MAX {
        Err(RangeError::EndOverflow)
    } else if first > last {
        Err(RangeError::Reversed { start: first as usize, end: last as usize })
    } else if last > len {
        Err(RangeError::OutOfBounds { end: last as usize, len: len as usize })
    } else {
        Ok((first as usize, last as usize))
    }
}

/// Each element of `copies` is a clone of the element of `originals` at its place.
pub open spec fn all_cloned<T: Clone>(originals: Seq<T>, copies: Seq<T>) -> bool {
    &&& copies.len() == originals.len()
    &&& forall|i: int|
        #![trigger copies[i]]
        0 <= i < originals.len() ==> cloned(originals[i], copies[i])
}

impl<T, const BASE_SHIFT: usize, const CHUNKS: usize> ExponentialArray<T, BASE_SHIFT, CHUNKS> {
    /// After room for all elements up to `count` was reserved and they were written,
    /// the chunks are those that it takes for `count` slots.
    proof fn lemma_room_for(&self, count: int)
        requires
            self.wf(),
            0 <= count <= Self::slot_limit(),
            chunks_for(BASE_SHIFT as nat, count) <= self.buffers().len(),
        ensures
            count <= self.capacity,
    {
        lemma_chunks_for(BASE_SHIFT as nat, count, self.buffers().len());
    }

    /// Appends clones of all elements in `values`.
    ///
    /// Existing elements are not moved. If there is no memory for a chunk, this uses
    /// the global allocation error handler.
    pub fn extend_from_slice(&mut self, values: &[T]) where T: Clone
        requires
            old(self).wf(),
            old(self)@.len() + values@.len() <= Self::slot_limit(),
        ensures
            final(self).wf(),
            final(self)@.len() == old(self)@.len() + values@.len(),
            final(self)@.take(old(self)@.len() as int) == old(self)@,
            all_cloned(values@, final(self)@.skip(old(self)@.len() as int)),
            grown_to(
                BASE_SHIFT as nat,
                old(self).buffers(),
                final(self).buffers(),
                final(self)@.len() as int,
            ),
    {
        self.reserve(values.len());
        proof {
            self.lemma_view();
            self.lemma_room_for(self.len + values@.len());
        }
        self.clone_slice_to_tail_reserved(values);
    }

    /// Writes clones of `values` to the slots from the cursor on.
    fn clone_slice_to_tail_reserved(&mut self, values: &[T]) where T: Clone
        requires
            old(self).wf(),
            old(self).len + values@.len() <= old(self).capacity,
        ensures
            final(self).wf(),
            final(self)@.len() == old(self)@.len() + values@.len(),
            final(self)@.take(old(self)@.len() as int) == old(self)@,
            all_cloned(values@, final(self)@.skip(old(self)@.len() as int)),
            final(self).buffers() == old(self).buffers(),
    {
        let ghost before = *self;
        proof {
            self.lemma_view();
        }
        let mut count: usize = 0;
        while count < values.len()
            invariant
                self.wf(),
                count <= values@.len(),
                self.len == before.len + count,
                before.len + values@.len() <= self.capacity,
                before@.len() == before.len,
                self@.len() == before@.len() + count,
                self@.take(before@.len() as int) == before@,
                all_cloned(values@.take(count as int), self@.skip(before@.len() as int)),
                self.buffers() == before.buffers(),
            decreases values@.len() - count,
        {
            let value = values[count].clone();
            let ghost shorter = self@;
            self.write_reserved_tail_slot(value);
            count = count + 1;
            proof {
                assert(self@.take(before@.len() as int) =~= shorter.take(before@.len() as int));
                assert(self@.skip(before@.len() as int) =~= shorter.skip(
                    before@.len() as int,
                ).push(value));
                assert(values@.take(count as int) =~= values@.take(count - 1).push(
                    values@[count - 1],
                ));
            }
        }
        assert(values@.take(count as int) =~= values@);
    }

    /// Appends clones of the elements in the range from `start` to `end`.
    ///
    /// Existing elements are not moved. The range is resolved before any new elements
    /// are appended. If there is no memory for a chunk, this uses the global
    /// allocation error handler.
    pub fn extend_from_within(&mut self, start: RangeBound, end: RangeBound) where T: Clone
        requires
            old(self).wf(),
            resolved_range(start, end, old(self)@.len()) is Ok,
            old(self)@.len() + range_end(end, old(self)@.len()) - range_start(start)
                <= Self::slot_limit(),
        ensures
            final(self).wf(),
            final(self)@.len() == old(self)@.len() + range_end(end, old(self)@.len())
                - range_start(start),
            final(self)@.take(old(self)@.len() as int) == old(self)@,
            all_cloned(
                old(self)@.subrange(range_start(start), range_end(end, old(self)@.len())),
                final(self)@.skip(old(self)@.len() as int),
            ),
            grown_to(
                BASE_SHIFT as nat,
                old(self).buffers(),
                final(self).buffers(),
                final(self)@.len() as int,
            ),
    {
        if let Ok((first, last)) = self.resolve_range_bounds(start, end) {
            let additional: usize = last - first;
            proof {
                self.lemma_view();
            }
            self.reserve(additional);
            proof {
                self.lemma_view();
                self.lemma_room_for(self.len + additional);
            }
            self.clone_array_range_to_tail_reserved(first, last);
        }
    }

    /// Returns the index where a range starts and the index after its last, if the
    /// range lies within the array.
    pub fn resolve_range_bounds(&self, start: RangeBound, end: RangeBound) -> (range: Result<
        (usize, usize),
        RangeError,
    >)
        requires
            self.wf(),
        ensures
            range == resolved_range(start, end, self@.len()),
    {
        proof {
            self.lemma_view();
        }
        let first: usize = match start {
            RangeBound::Included(index) => index,
            RangeBound::Excluded(index) => match index.checked_add(1) {
                Some(first) => first,
                None => {
                    return Err(RangeError::StartOverflow);
                },
            },
            RangeBound::Unbounded => 0,
        };
        let last: usize = match end {
            RangeBound::Included(index) => match index.checked_add(1) {
                Some(last) => last,
                None => {
                    return Err(RangeError::EndOverflow);
                },
            },
            RangeBound::Excluded(index) => index,
            RangeBound::Unbounded => self.len,
        };
        if first > last {
            return Err(RangeError::Reversed { start: first, end: last });
        }
        if last > self.len {
            return Err(RangeError::OutOfBounds { end: last, len: self.len });
        }
        Ok((first, last))
    }

    /// Writes clones of the elements from `start` up to `end` to the slots from the
    /// cursor on.
    fn clone_array_range_to_tail_reserved(&mut self, start: usize, end: usize) where T: Clone
        requires
            old(self).wf(),
            start <= end <= old(self)@.len(),
            old(self).len + end - start <= old(self).capacity,
        ensures
            final(self).wf(),
            final(self)@.len() == old(self)@.len() + end - start,
            final(self)@.take(old(self)@.len() as int) == old(self)@,
            all_cloned(
                old(self)@.subrange(start as int, end as int),
                final(self)@.skip(old(self)@.len() as int),
            ),
            final(self).buffers() == old(self).buffers(),
    {
        let ghost before = *self;
        proof {
            self.lemma_view();
        }
        let mut index: usize = start;
        while index < end
            invariant
                self.wf(),
                start <= index <= end <= before@.len(),
                self.len == before.len + index - start,
                before.len + end - start <= self.capacity,
                before@.len() == before.len,
                self@.len() == before@.len() + index - start,
                self@.take(before@.len() as int) == before@,
                all_cloned(
                    before@.subrange(start as int, index as int),
                    self@.skip(before@.len() as int),
                ),
                self.buffers() == before.buffers(),
            decreases end - index,
        {
            let value = self.get_unchecked(index).clone();
            let ghost shorter = self@;
            assert(shorter[index as int] == shorter.take(before@.len() as int)[index as int]);
            self.write_reserved_tail_slot(value);
            index = index + 1;
            proof {
                assert(self@.take(before@.len() as int) =~= shorter.take(before@.len() as int));
                assert(self@.skip(before@.len() as int) =~= shorter.skip(
                    before@.len() as int,
                ).push(value));
                assert(before@.subrange(start as int, index as int) =~= before@.subrange(
                    start as int,
                    index - 1,
                ).push(before@[index - 1]));
            }
        }
    }

    /// Moves all elements from `other` to the end of `self`, leaving `other` empty.
    ///
    /// Existing elements in `self` are not moved. The addresses of the elements that
    /// were in `other` name them no longer. If there is no memory for a chunk, this
    /// uses the global allocation error handler.
    pub fn append(&mut self, other: &mut Self)
        requires
            old(self).wf(),
            old(other).wf(),
            old(self)@.len() + old(other)@.len() <= Self::slot_limit(),
        ensures
            old(self).appended(old(other), final(self), final(other)),
    {
        proof {
            other.lemma_view();
            self.lemma_view();
        }
        self.reserve(other.len);
        proof {
            self.lemma_view();
            self.lemma_room_for(self.len + other.len);
        }
        self.move_array_range_to_tail(other, 0);
        assert(old(other)@.skip(0) =~= old(other)@);
        assert(other@ =~= Seq::<T>::empty());
    }

    /// Moves the elements of `source` from `start` on to the slots from the cursor on.
    fn move_array_range_to_tail(&mut self, source: &mut Self, start: usize)
        requires
            old(self).wf(),
            old(source).wf(),
            start <= old(source).len,
            old(self).len + old(source).len - start <= old(self).capacity,
        ensures
            final(self).wf(),
            final(source).wf(),
            final(self)@ == old(self)@ + old(source)@.skip(start as int),
            final(source)@ == old(source)@.take(start as int),
            final(self).buffers() == old(self).buffers(),
            final(source).buffers() == old(source).buffers(),
    {
        let ghost before = *self;
        let ghost whole = *source;
        let ghost base = BASE_SHIFT as nat;
        let ghost len = source.len as int;
        proof {
            source.lemma_view();
            if start > 0 {
                source.lemma_slot(start - 1);
            }
            lemma_cut(whole.parts(), base, len, start as int);
        }
        let (first, offset) = Self::end_position(start);
        let mut chunk: usize = first;
        let mut kept: usize = offset;
        let ghost mut moved = start as int;
        proof {
            assert(whole@.subrange(start as int, moved) =~= Seq::empty());
            assert(before@ + Seq::<T>::empty() =~= before@);
            assert forall|c: int| 0 <= c < first && c < whole.chunks@.len() implies cut(
                whole.parts(),
                base,
                start as int,
            )[c] == #[trigger] whole.chunks@[c]@ by {
                assert(whole.parts()[c].len() == filled(base, len, c as nat));
                lemma_chunk_start_monotone(base, c as nat, first as nat);
                assert(cut(whole.parts(), base, start as int)[c] =~= whole.chunks@[c]@);
            }
        }
        while chunk < source.chunks.len()
            invariant
                self.wf(),
                base == BASE_SHIFT,
                len == whole.len,
                whole.wf(),
                whole@.len() == len,
                start <= moved <= len,
                self.len == before.len + moved - start,
                before.len + len - start <= self.capacity,
                self@ == before@ + whole@.subrange(start as int, moved),
                self.buffers() == before.buffers(),
                source.len == whole.len,
                source.capacity == whole.capacity,
                source.chunks@.len() == whole.chunks@.len(),
                first <= chunk,
                lives_at(base, start as int, first as int, offset as int),
                kept == if chunk == first {
                    offset
                } else {
                    0
                },
                moved == if chunk == first {
                    start as int
                } else if chunk_start(base, chunk as nat) <= len {
                    chunk_start(base, chunk as nat) as int
                } else {
                    len
                },
                forall|c: int|
                    0 <= c < whole.chunks@.len() ==> (#[trigger] source.chunks@[c])@ == if c
                        < chunk {
                        cut(whole.parts(), base, start as int)[c]
                    } else {
                        whole.chunks@[c]@
                    },
                forall|c: int|
                    0 <= c < whole.chunks@.len() ==> {
                        &&& (#[trigger] source.chunks@[c]).address() == whole.chunks@[c].address()
                        &&& source.chunks@[c].room() == whole.chunks@[c].room()
                    },
            decreases source.chunks@.len() - chunk,
        {
            let ghost part = whole.parts()[chunk as int];
            proof {
                assert(part.len() == filled(base, len, chunk as nat));
                lemma_part(whole.parts(), base, len, chunk as int);
                lemma_chunk_start_next(base, chunk as nat);
                lemma_chunk_start_monotone(base, first as nat, chunk as nat);
                assert(source.chunks@[chunk as int]@ == part);
            }
            self.move_chunk_to_tail(&mut source.chunks[chunk], kept);
            proof {
                let next = moved + part.len() - kept;
                assert(whole@.subrange(start as int, moved) + part.skip(kept as int)
                    =~= whole@.subrange(start as int, next));
                assert(self@ =~= before@ + whole@.subrange(start as int, next));
                let left = cut(whole.parts(), base, start as int)[chunk as int];
                assert(part.take(kept as int) =~= left);
                moved = next;
            }
            chunk = chunk + 1;
            kept = 0;
        }
        proof {
            lemma_chunk_start_monotone(base, whole.chunks@.len(), chunk as nat);
            if chunk == first {
                lemma_lives_at(base, start as int, first as int, offset as int);
            }
            assert(moved == len);
            assert(whole@.subrange(start as int, len) =~= whole@.skip(start as int));
        }
        source.len = start;
        source.tail_chunk = first;
        source.tail_offset = offset;
        proof {
            assert(source.parts() =~= cut(whole.parts(), base, start as int));
            assert(source.buffers() =~= whole.buffers());
        }
    }

    /// Moves the elements of `chunk` from `offset` on to the slots from the cursor on.
    fn move_chunk_to_tail(&mut self, chunk: &mut Chunk<T>, offset: usize)
        requires
            old(self).wf(),
            offset <= old(chunk)@.len(),
            old(self).len + old(chunk)@.len() - offset <= old(self).capacity,
        ensures
            final(self).wf(),
            final(self)@ == old(self)@ + old(chunk)@.skip(offset as int),
            final(self).buffers() == old(self).buffers(),
            final(self).capacity == old(self).capacity,
            final(self).len == old(self).len + old(chunk)@.len() - offset,
            final(chunk)@ == old(chunk)@.take(offset as int),
            final(chunk).address() == old(chunk).address(),
            final(chunk).room() == old(chunk).room(),
    {
        let ghost before = *self;
        let ghost kept = chunk@.take(offset as int);
        let ghost tail = chunk@.skip(offset as int);
        chunk.reverse_from(offset);
        proof {
            assert(before@ + tail.take(0) =~= before@);
            assert(chunk@ =~= kept + tail.reverse().take(tail.len() as int));
        }
        while chunk.len() > offset
            invariant
                self.wf(),
                offset == kept.len(),
                offset <= chunk@.len() <= offset + tail.len(),
                chunk@ == kept + tail.reverse().take(chunk@.len() - offset),
                self@ == before@ + tail.take(tail.len() - (chunk@.len() - offset)),
                self.buffers() == before.buffers(),
                self.capacity == before.capacity,
                self.len == before.len + tail.len() - (chunk@.len() - offset),
                before.len + tail.len() <= self.capacity,
                chunk.address() == old(chunk).address(),
                chunk.room() == old(chunk).room(),
            decreases chunk@.len(),
        {
            let ghost left = chunk@.len() - offset;
            if let Some(value) = chunk.pop() {
                assert(value == tail[tail.len() - left]);
                self.write_reserved_tail_slot(value);
                proof {
                    assert(tail.take(tail.len() - left + 1) =~= tail.take(tail.len() - left).push(
                        value,
                    ));
                    assert(self@ =~= before@ + tail.take(tail.len() - left + 1));
                    assert(chunk@ =~= kept + tail.reverse().take(left - 1));
                }
            }
        }
        assert(kept + tail.reverse().take(0) =~= kept);
        assert(tail.take(tail.len() as int) =~= tail);
    }

    /// Splits the array into two at `at`.
    ///
    /// `self` keeps the elements before `at`, and the returned array contains the
    /// others in order. Existing elements retained by `self` are not moved. The
    /// addresses of the elements in the split-off tail name them no longer. If there
    /// is no memory for a chunk, this uses the global allocation error handler.
    #[must_use]
    pub fn split_off(&mut self, at: usize) -> (tail: Self)
        requires
            old(self).wf(),
            at <= old(self)@.len(),
        ensures
            old(self).split(at as int, final(self), &tail),
    {
        proof {
            self.lemma_view();
            self.lemma_capacity();
        }
        let mut tail = Self::with_capacity(self.len - at);
        proof {
            tail.lemma_view();
            tail.lemma_room_for(self.len - at);
        }
        tail.move_array_range_to_tail(self, at);
        assert(tail@ =~= old(self)@.skip(at as int));
        tail
    }

    /// Resizes the array to `new_len`.
    ///
    /// If `new_len` is less than the current length, the array is truncated. If it is
    /// greater, clones of `value` are appended until one element is missing, which is
    /// `value` itself. Existing elements that remain in the array are not moved. If
    /// there is no memory for a chunk, this uses the global allocation error handler.
    pub fn resize(&mut self, new_len: usize, value: T) where T: Clone
        requires
            old(self).wf(),
            new_len <= Self::slot_limit(),
        ensures
            final(self).wf(),
            final(self)@.len() == new_len,
            if new_len <= old(self)@.len() {
                &&& final(self)@ == old(self)@.take(new_len as int)
                &&& final(self).buffers() == old(self).buffers()
            } else {
                &&& final(self)@.take(old(self)@.len() as int) == old(self)@
                &&& forall|i: int|
                    old(self)@.len() <= i < new_len - 1 ==> cloned(
                        value,
                        #[trigger] final(self)@[i],
                    )
                &&& final(self)@.last() == value
                &&& grown_to(
                    BASE_SHIFT as nat,
                    old(self).buffers(),
                    final(self).buffers(),
                    new_len as int,
                )
            },
    {
        let ghost before = *self;
        proof {
            self.lemma_view();
        }
        if new_len <= self.len {
            self.truncate(new_len);
            assert(before@.take(before@.len() as int) =~= before@);
            return ;
        }
        self.reserve(new_len - self.len);
        proof {
            self.lemma_view();
            self.lemma_room_for(new_len as int);
            assert(self@.take(before@.len() as int) =~= before@);
        }
        let ghost reserved = self.buffers();
        while self.len < new_len - 1
            invariant
                self.wf(),
                before.len <= self.len <= new_len - 1,
                new_len <= self.capacity,
                before@.len() == before.len,
                self@.len() == self.len,
                self@.take(before@.len() as int) == before@,
                forall|i: int|
                    before@.len() <= i < self@.len() ==> cloned(value, #[trigger] self@[i]),
                self.buffers() == reserved,
            decreases new_len - self.len,
        {
            let ghost shorter = self@;
            self.write_reserved_tail_slot(value.clone());
            assert(self@.take(before@.len() as int) =~= shorter.take(before@.len() as int));
        }
        let ghost shorter = self@;
        self.write_reserved_tail_slot(value);
        assert(self@.take(before@.len() as int) =~= shorter.take(before@.len() as int));
    }

    /// Resizes the array to `new_len` using `make_value` for appended elements.
    ///
    /// If `new_len` is less than the current length, the array is truncated and
    /// `make_value` is not called. If it is greater, `make_value` is called once for
    /// each appended element. Existing elements that remain in the array are not
    /// moved. If there is no memory for a chunk, this uses the global allocation error
    /// handler.
    pub fn resize_with<F>(&mut self, new_len: usize, make_value: F) where F: FnMut() -> T
        requires
            old(self).wf(),
            new_len <= Self::slot_limit(),
            new_len > old(self)@.len() ==> call_requires(make_value, ()) || withheld(make_value),
        ensures
            final(self).wf(),
            final(self)@.len() == new_len,
            if new_len <= old(self)@.len() {
                &&& final(self)@ == old(self)@.take(new_len as int)
                &&& final(self).buffers() == old(self).buffers()
            } else {
                &&& final(self)@.take(old(self)@.len() as int) == old(self)@
                &&& forall|i: int|
                    old(self)@.len() <= i < new_len ==> call_ensures(
                        make_value,
                        (),
                        #[trigger] final(self)@[i],
                    )
                &&& exists|states: Seq<F>|
                    {
                        &&& #[trigger] states.len() == new_len - old(self)@.len() + 1
                        &&& states[0] == make_value
                        &&& forall|i: int|
                            #![trigger final(self)@[i]]
                            old(self)@.len() <= i < new_len ==> states[i - old(
                                self,
                            )@.len()].steps(
                                final(self)@[i],
                                &states[i - old(self)@.len() + 1],
                            )
                    }
                &&& grown_to(
                    BASE_SHIFT as nat,
                    old(self).buffers(),
                    final(self).buffers(),
                    new_len as int,
                )
            },
    {
        let ghost before = *self;
        proof {
            self.lemma_view();
        }
        if new_len <= self.len {
            self.truncate(new_len);
            assert(before@.take(before@.len() as int) =~= before@);
            return ;
        }
        let additional: usize = new_len - self.len;
        self.reserve(additional);
        proof {
            self.lemma_view();
            self.lemma_room_for(new_len as int);
            lemma_ready(make_value, additional as nat);
        }
        self.fill_tail_reserved_with(additional, make_value);
    }

    /// Writes `count` values produced by `make_value` to the slots from the cursor on.
    fn fill_tail_reserved_with<F>(&mut self, count: usize, make_value: F) where F: Source<T>
        requires
            old(self).wf(),
            old(self).len + count <= old(self).capacity,
            make_value.ready_for(count as nat),
        ensures
            final(self).wf(),
            final(self)@.len() == old(self)@.len() + count,
            final(self)@.take(old(self)@.len() as int) == old(self)@,
            forall|i: int|
                old(self)@.len() <= i < final(self)@.len() ==> make_value.gives(
                    #[trigger] final(self)@[i],
                ),
            exists|states: Seq<F>|
                {
                    &&& #[trigger] states.len() == count + 1
                    &&& states[0] == make_value
                    &&& forall|i: int|
                        #![trigger final(self)@[i]]
                        old(self)@.len() <= i < final(self)@.len() ==> states[i - old(
                            self,
                        )@.len()].steps(final(self)@[i], &states[i - old(self)@.len() + 1])
                },
            final(self).buffers() == old(self).buffers(),
    {
        let ghost before = *self;
        let ghost first = make_value;
        let mut make_value = make_value;
        let ghost mut states: Seq<F> = seq![make_value];
        let mut written: usize = 0;
        proof {
            self.lemma_view();
            assert(self@.take(before@.len() as int) =~= before@);
        }
        while written < count
            invariant
                self.wf(),
                written <= count,
                make_value.ready_for((count - written) as nat),
                states.len() == written + 1,
                states[0] == first,
                states.last() == make_value,
                self.len == before.len + written,
                before.len + count <= self.capacity,
                before@.len() == before.len,
                self@.len() == self.len,
                self@.take(before@.len() as int) == before@,
                forall|value: T| #[trigger] make_value.gives(value) ==> first.gives(value),
                forall|i: int|
                    before@.len() <= i < self@.len() ==> first.gives(#[trigger] self@[i]),
                forall|i: int|
                    #![trigger self@[i]]
                    before@.len() <= i < self@.len() ==> states[i - before@.len()].steps(
                        self@[i],
                        &states[i - before@.len() + 1],
                    ),
                self.buffers() == before.buffers(),
            decreases count - written,
        {
            let ghost shorter = self@;
            let ghost fewer = states;
            let value = make_value.make();
            proof {
                states = states.push(make_value);
            }
            self.write_reserved_tail_slot(value);
            proof {
                assert(self@.take(before@.len() as int) =~= shorter.take(before@.len() as int));
                assert forall|i: int|
                    #![trigger self@[i]]
                    before@.len() <= i < self@.len() implies states[i - before@.len()].steps(
                    self@[i],
                    &states[i - before@.len() + 1],
                ) by {
                    if i < shorter.len() {
                        assert(self@[i] == shorter[i]);
                        assert(states[i - before@.len()] == fewer[i - before@.len()]);
                        assert(states[i - before@.len() + 1] == fewer[i - before@.len() + 1]);
                    }
                }
            }
            written = written + 1;
        }
        assert(states.len() == count + 1);
    }
}

} // verus!
