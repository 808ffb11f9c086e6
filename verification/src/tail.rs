//! Elements that come and go at the end.

use crate::access::ElementAddress;
use crate::array::ExponentialArray;
use crate::chunk::{lend, Chunk};
use crate::contents::{cut, lemma_append, lemma_cut};
use crate::error::{TryPushError, TryReserveError};
use crate::geometry::{
    chunk_exponent, chunk_of, chunk_slots, chunk_start, chunks_for, filled,
    lemma_chunk_start_monotone, lemma_chunk_start_next, lemma_chunks_for, lemma_lives_at,
    lemma_usable_chunks, lives_at, representable,
};
use crate::source::{make_for_slot, withheld};
use vstd::layout;
use vstd::prelude::*;

verus! {

/// Drops the elements of `chunks` from that of chunk `first` at `offset` on, in order.
///
/// They are all taken out before the first of them is dropped. If the drop of one
/// panics, the others are dropped still, and the chunks stay.
fn cut_off_from<T>(chunks: &mut Vec<Chunk<T>>, first: usize, offset: usize)
    requires
        first < old(chunks)@.len(),
        offset <= old(chunks)@[first as int]@.len(),
    ensures
        final(chunks)@.len() == old(chunks)@.len(),
        forall|c: int|
            #![trigger final(chunks)@[c]]
            0 <= c < old(chunks)@.len() ==> {
                &&& final(chunks)@[c]@ == if c < first {
                    old(chunks)@[c]@
                } else if c == first {
                    old(chunks)@[c]@.take(offset as int)
                } else {
                    Seq::<T>::empty()
                }
                &&& final(chunks)@[c].address() == old(chunks)@[c].address()
                &&& final(chunks)@[c].room() == old(chunks)@[c].room()
            },
{
    let ghost before = chunks@;
    let mut removed = Vec::new();
    let (kept, mut rest) = lend(chunks).split_at_mut(first);
    let mut from: usize = offset;
    let ghost mut next = first as int;
    proof {
        assert(final(kept)@ == kept@);
        assert(after_borrow(chunks)@ == final(kept)@ + final(rest)@);
        assert(after_borrow(chunks)@.skip(next) =~= final(rest)@);
    }
    while rest.len() > 0
        invariant
            first <= next <= before.len(),
            rest@ == before.skip(next),
            after_borrow(chunks)@.len() == before.len(),
            final(rest)@ == after_borrow(chunks)@.skip(next),
            from == if next == first {
                offset as int
            } else {
                0
            },
            next == first ==> offset <= before[first as int]@.len(),
            forall|c: int|
                #![trigger after_borrow(chunks)@[c]]
                0 <= c < next ==> {
                    &&& after_borrow(chunks)@[c]@ == if c < first {
                        before[c]@
                    } else if c == first {
                        before[c]@.take(offset as int)
                    } else {
                        Seq::<T>::empty()
                    }
                    &&& after_borrow(chunks)@[c].address() == before[c].address()
                    &&& after_borrow(chunks)@[c].room() == before[c].room()
                },
        decreases rest@.len(),
    {
        let (head, tail) = rest.split_at_mut(1);
        let chunk = &mut head[0];
        proof {
            assert(after_borrow(chunks)@.skip(next) == seq![*final(chunk)] + final(tail)@);
            assert(after_borrow(chunks)@[next] == after_borrow(chunks)@.skip(next)[0]);
            assert((seq![*final(chunk)] + final(tail)@).skip(1) =~= final(tail)@);
            assert(after_borrow(chunks)@.skip(next).skip(1) =~= after_borrow(chunks)@.skip(
                next + 1,
            ));
            assert(chunk@.take(0) =~= Seq::<T>::empty());
        }
        removed.push(chunk.cut_off(from));
        from = 0;
        rest = tail;
        proof {
            next = next + 1;
        }
    }
}

impl<T, const BASE_SHIFT: usize, const CHUNKS: usize> ExponentialArray<T, BASE_SHIFT, CHUNKS> {
    /// The arithmetic of an allocated chunk does not overflow.
    pub(crate) proof fn lemma_allocated_chunk(&self, chunk: int)
        requires
            self.wf(),
            0 <= chunk < self.chunks@.len(),
        ensures
            chunk < CHUNKS,
            BASE_SHIFT < usize::BITS,
            chunk_exponent(BASE_SHIFT as nat, chunk as nat) < usize::BITS,
            representable(BASE_SHIFT as nat, layout::size_of::<T>(), chunk as nat),
    {
        lemma_usable_chunks(BASE_SHIFT as nat, layout::size_of::<T>(), CHUNKS as nat);
        assert(representable(BASE_SHIFT as nat, layout::size_of::<T>(), chunk as nat));
        assert(representable(BASE_SHIFT as nat, layout::size_of::<T>(), 0));
    }

    /// Appends `value` and returns its index.
    ///
    /// Existing elements are not moved. If there is no memory for a chunk, this uses
    /// the global allocation error handler.
    pub fn push(&mut self, value: T) -> (index: usize)
        requires
            old(self).wf(),
            old(self)@.len() < Self::slot_limit(),
        ensures
            index == old(self)@.len(),
            old(self).pushed(value, final(self)),
    {
        self.reserve(1);
        let index: usize = self.reserved_index();
        self.write_reserved_tail_slot(value);
        index
    }

    /// Returns the index of the next element, for which there is a slot.
    fn reserved_index(&self) -> (index: usize)
        requires
            self.wf(),
            chunks_for(BASE_SHIFT as nat, self@.len() + 1int) <= self.buffers().len(),
            self@.len() < Self::slot_limit(),
        ensures
            index == self@.len(),
            index == self.len,
            index < self.capacity,
    {
        proof {
            self.lemma_view();
            lemma_chunks_for(BASE_SHIFT as nat, self.len + 1, self.buffers().len());
        }
        self.len
    }

    /// Appends a value produced by `make_value` and returns its index.
    ///
    /// The closure is called after space is reserved. If there is no memory for a
    /// chunk, this uses the global allocation error handler.
    pub fn push_with<F>(&mut self, make_value: F) -> (index: usize) where F: FnOnce() -> T
        requires
            old(self).wf(),
            old(self)@.len() < Self::slot_limit(),
            call_requires(make_value, ()) || withheld(make_value),
        ensures
            index == old(self)@.len(),
            old(self).pushed(final(self)@.last(), final(self)),
            call_ensures(make_value, (), final(self)@.last()),
    {
        self.reserve(1);
        let index: usize = self.reserved_index();
        let value = make_for_slot(make_value, self);
        self.write_reserved_tail_slot(value);
        index
    }

    /// Appends `value` and returns a mutable reference to it.
    ///
    /// Existing elements are not moved. If there is no memory for a chunk, this uses
    /// the global allocation error handler.
    pub fn push_mut(&mut self, value: T) -> (element: &mut T)
        requires
            old(self).wf(),
            old(self)@.len() < Self::slot_limit(),
        ensures
            *element == value,
            old(self).pushed(*final(element), final(self)),
    {
        self.reserve(1);
        let index: usize = self.reserved_index();
        let ghost before = self@;
        self.write_reserved_tail_slot(value);
        let element = self.get_unchecked_mut(index);
        assert(before.push(value).update(index as int, *final(element)) =~= before.push(
            *final(element),
        ));
        element
    }

    /// Appends `value` and returns its stable address.
    ///
    /// The address names the element until the element is removed or the array is
    /// dropped. If there is no memory for a chunk, this uses the global allocation
    /// error handler.
    pub fn push_ptr(&mut self, value: T) -> (pointer: ElementAddress)
        requires
            old(self).wf(),
            old(self)@.len() < Self::slot_limit(),
        ensures
            pointer@ == final(self).address(old(self)@.len() as int),
            final(self).in_allocation(old(self)@.len() as int),
            pointer@ != 0,
            old(self).pushed(value, final(self)),
    {
        self.reserve(1);
        let index: usize = self.reserved_index();
        proof {
            self.lemma_capacity();
            lemma_lives_at(
                BASE_SHIFT as nat,
                self.len as int,
                self.tail_chunk as int,
                self.tail_offset as int,
            );
        }
        let pointer = ElementAddress::new(self.address_at(self.tail_chunk, self.tail_offset));
        assert(pointer@ == self.address(index as int));
        self.write_reserved_tail_slot(value);
        pointer
    }

    /// Tries to append `value` and returns its index. The value comes back with the
    /// error.
    pub fn try_push(&mut self, value: T) -> (result: Result<usize, TryPushError<T>>)
        requires
            old(self).wf(),
        ensures
            final(self).wf(),
            match result {
                Ok(index) => {
                    &&& index == old(self)@.len()
                    &&& index < Self::slot_limit()
                    &&& old(self).pushed(value, final(self))
                },
                Err(error) => {
                    &&& error.rejected() == value
                    &&& old(self).reserved(final(self), 1, Err(error.reason()@))
                },
            },
    {
        match self.reserve_tail_slot() {
            Ok(index) => {
                self.write_reserved_tail_slot(value);
                Ok(index)
            },
            Err(error) => Err(TryPushError::new(value, error)),
        }
    }

    /// Tries to append a value produced by `make_value` and returns its index.
    ///
    /// The closure is not called if reserving space fails.
    pub fn try_push_with<F>(&mut self, make_value: F) -> (result: Result<
        usize,
        TryReserveError,
    >) where F: FnOnce() -> T
        requires
            old(self).wf(),
            old(self)@.len() < Self::slot_limit() ==> call_requires(make_value, ()) || withheld(
                make_value,
            ),
        ensures
            final(self).wf(),
            match result {
                Ok(index) => {
                    &&& index == old(self)@.len()
                    &&& index < Self::slot_limit()
                    &&& old(self).pushed(final(self)@.last(), final(self))
                    &&& call_ensures(make_value, (), final(self)@.last())
                },
                Err(error) => old(self).reserved(final(self), 1, Err(error@)),
            },
    {
        match self.reserve_tail_slot() {
            Ok(index) => {
                let value = make_for_slot(make_value, self);
                self.write_reserved_tail_slot(value);
                Ok(index)
            },
            Err(error) => Err(error),
        }
    }

    /// Tries to reserve the slot that the cursor names, and returns the index of it.
    fn reserve_tail_slot(&mut self) -> (result: Result<usize, TryReserveError>)
        requires
            old(self).wf(),
        ensures
            final(self).wf(),
            match result {
                Ok(index) => {
                    &&& index == old(self)@.len()
                    &&& old(self).reserved(final(self), 1, Ok(()))
                    &&& final(self).len < final(self).capacity
                },
                Err(error) => old(self).reserved(final(self), 1, Err(error@)),
            },
    {
        match self.try_reserve(1) {
            Ok(_) => Ok(self.reserved_index()),
            Err(error) => Err(error),
        }
    }

    /// Writes `value` to the slot that the cursor names.
    pub(crate) fn write_reserved_tail_slot(&mut self, value: T)
        requires
            old(self).wf(),
            old(self).len < old(self).capacity,
        ensures
            final(self).wf(),
            final(self)@ == old(self)@.push(value),
            final(self).buffers() == old(self).buffers(),
            final(self).capacity == old(self).capacity,
            final(self).len == old(self).len + 1,
    {
        let ghost before = *self;
        let chunk: usize = self.tail_chunk;
        proof {
            self.lemma_view();
            self.lemma_capacity();
            self.lemma_allocated_chunk(chunk as int);
            lemma_append(
                before.parts(),
                BASE_SHIFT as nat,
                before.len as int,
                chunk as int,
                before.tail_offset as int,
                value,
            );
            assert(before.parts()[chunk as int] == before.chunks@[chunk as int]@);
            assert(before.chunks@[chunk as int].room() == chunk_slots(
                BASE_SHIFT as nat,
                chunk as nat,
            ));
        }
        self.chunks[chunk].push(value);
        proof {
            assert(self.parts() =~= before.parts().update(
                chunk as int,
                before.parts()[chunk as int].push(value),
            ));
            assert(self.buffers() =~= before.buffers());
        }
        self.len = self.len + 1;
        self.advance_tail_after_push();
    }

    /// Moves the cursor one slot on.
    fn advance_tail_after_push(&mut self)
        requires
            chunk_exponent(BASE_SHIFT as nat, old(self).tail_chunk as nat) < usize::BITS,
            old(self).tail_chunk < usize::MAX,
            old(self).tail_offset < chunk_slots(BASE_SHIFT as nat, old(self).tail_chunk as nat),
        ensures
            final(self).len == old(self).len,
            final(self).capacity == old(self).capacity,
            final(self).chunks == old(self).chunks,
            lives_at(
                BASE_SHIFT as nat,
                chunk_start(BASE_SHIFT as nat, old(self).tail_chunk as nat)
                    + old(self).tail_offset + 1,
                final(self).tail_chunk as int,
                final(self).tail_offset as int,
            ),
    {
        proof {
            lemma_chunk_start_next(BASE_SHIFT as nat, self.tail_chunk as nat);
            lemma_chunk_start_next(BASE_SHIFT as nat, self.tail_chunk as nat + 1);
        }
        let slots: usize = Self::chunk_capacity_unchecked(self.tail_chunk);
        self.tail_offset = self.tail_offset + 1;
        if self.tail_offset == slots {
            self.tail_chunk = self.tail_chunk + 1;
            self.tail_offset = 0;
        }
    }

    /// Moves the cursor one slot back, and returns the slot that it then names.
    fn retreat_tail_before_pop(&mut self) -> (place: (usize, usize))
        requires
            old(self).wf(),
            old(self).len > 0,
        ensures
            final(self).len == old(self).len,
            final(self).capacity == old(self).capacity,
            final(self).chunks == old(self).chunks,
            place == (final(self).tail_chunk, final(self).tail_offset),
            lives_at(
                BASE_SHIFT as nat,
                old(self).len - 1,
                place.0 as int,
                place.1 as int,
            ),
            place.0 < old(self).chunks@.len(),
    {
        proof {
            let base = BASE_SHIFT as nat;
            self.lemma_slot(self.len - 1);
            crate::geometry::lemma_chunk_of(base, self.len - 1);
            if self.tail_offset == 0 {
                lemma_chunk_start_next(base, (self.tail_chunk - 1) as nat);
                lemma_lives_at(
                    base,
                    self.len - 1,
                    self.tail_chunk - 1,
                    chunk_slots(base, (self.tail_chunk - 1) as nat) - 1,
                );
                self.lemma_allocated_chunk(self.tail_chunk - 1);
            } else {
                lemma_lives_at(
                    base,
                    self.len - 1,
                    self.tail_chunk as int,
                    self.tail_offset - 1,
                );
            }
        }
        if self.tail_offset == 0 {
            self.tail_chunk = self.tail_chunk - 1;
            self.tail_offset = Self::chunk_capacity_unchecked(self.tail_chunk);
        }
        self.tail_offset = self.tail_offset - 1;
        (self.tail_chunk, self.tail_offset)
    }

    /// Removes the last element and returns it, or returns `None` if the array is
    /// empty.
    ///
    /// Allocated chunks are retained.
    pub fn pop(&mut self) -> (value: Option<T>)
        requires
            old(self).wf(),
        ensures
            old(self).popped(value, final(self)),
    {
        let ghost before = *self;
        let ghost base = BASE_SHIFT as nat;
        proof {
            self.lemma_view();
        }
        if self.len == 0 {
            return None;
        }
        proof {
            self.lemma_slot(self.len - 1);
            lemma_cut(before.parts(), base, before.len as int, before.len - 1);
        }
        let (chunk, offset) = self.retreat_tail_before_pop();
        proof {
            lemma_lives_at(base, before.len - 1, chunk as int, offset as int);
        }
        self.len = self.len - 1;
        let value = self.chunks[chunk].pop();
        proof {
            assert forall|c: int| 0 <= c < before.chunks@.len() implies #[trigger] self.parts()[c]
                == cut(before.parts(), base, before.len - 1)[c] by {
                assert(before.parts()[c].len() == filled(base, before.len as int, c as nat));
                if c < chunk {
                    lemma_chunk_start_monotone(base, c as nat, chunk as nat);
                } else if c > chunk {
                    lemma_chunk_start_monotone(base, chunk as nat, c as nat);
                }
                assert(self.parts()[c] =~= cut(before.parts(), base, before.len - 1)[c]);
            }
            assert(self.parts() =~= cut(before.parts(), base, before.len - 1));
            assert(self.buffers() =~= before.buffers());
            assert(before@.take(before.len - 1) =~= before@.drop_last());
        }
        value
    }

    /// Shortens the array, keeping the first `new_len` elements.
    ///
    /// If `new_len` is greater than or equal to the current length, this does nothing.
    /// Allocated chunks are retained.
    pub fn truncate(&mut self, new_len: usize)
        requires
            old(self).wf(),
        ensures
            old(self).truncated(new_len as int, final(self)),
    {
        let ghost before = *self;
        proof {
            self.lemma_view();
        }
        if new_len >= self.len {
            return ;
        }
        let ghost base = BASE_SHIFT as nat;
        proof {
            self.lemma_slot(new_len as int);
            self.lemma_allocated_chunk(chunk_of(base, new_len as int) as int);
            lemma_cut(before.parts(), base, before.len as int, new_len as int);
        }
        let (tail_chunk, tail_offset) = Self::end_position(new_len);
        proof {
            lemma_lives_at(base, new_len as int, tail_chunk as int, tail_offset as int);
        }
        self.len = new_len;
        self.tail_chunk = tail_chunk;
        self.tail_offset = tail_offset;
        cut_off_from(&mut self.chunks, tail_chunk, tail_offset);
        proof {
            lemma_chunk_start_next(base, tail_chunk as nat);
            assert forall|c: int| 0 <= c < before.chunks@.len() implies #[trigger] self.parts()[c]
                == cut(before.parts(), base, new_len as int)[c] by {
                assert(before.parts()[c].len() == filled(base, before.len as int, c as nat));
                if c < tail_chunk {
                    lemma_chunk_start_monotone(base, c as nat, tail_chunk as nat);
                } else if c > tail_chunk {
                    lemma_chunk_start_monotone(base, tail_chunk as nat, c as nat);
                }
                assert(self.parts()[c] =~= cut(before.parts(), base, new_len as int)[c]);
            }
            assert(self.parts() =~= cut(before.parts(), base, new_len as int));
            assert(self.buffers() =~= before.buffers());
        }
    }

    /// Removes all elements.
    ///
    /// Allocated chunks are retained.
    pub fn clear(&mut self)
        requires
            old(self).wf(),
        ensures
            final(self).wf(),
            final(self)@ == Seq::<T>::empty(),
            final(self).buffers() == old(self).buffers(),
    {
        proof {
            self.lemma_view();
        }
        self.truncate(0);
        assert(self@ =~= Seq::<T>::empty());
    }
}

} // verus!
