//! A walk over the slots of an array from both ends.

use crate::array::ExponentialArray;
use crate::geometry::{
    chunk_of, chunk_slots, lemma_chunk_of_index, lemma_chunk_start_next, lemma_lives_at, lives_at,
    offset_of,
};
use vstd::prelude::*;

verus! {

/// The indices from `front` up to `back`, with the slots at both ends.
#[derive(Clone, Copy)]
pub(crate) struct ElementCursor {
    pub(crate) front: usize,
    pub(crate) back: usize,
    pub(crate) front_chunk: usize,
    pub(crate) front_offset: usize,
    pub(crate) front_remaining_in_chunk: usize,
    pub(crate) back_chunk: usize,
    pub(crate) back_offset: usize,
}

impl ElementCursor {
    /// The slots are those of the indices, and the front chunk lasts as long as the
    /// indices do in it.
    pub(crate) open spec fn valid(&self, base: nat) -> bool {
        &&& self.front <= self.back
        &&& lives_at(base, self.back as int, self.back_chunk as int, self.back_offset as int)
        &&& self.front < self.back ==> {
            let left = chunk_slots(base, self.front_chunk as nat) - self.front_offset;
            &&& base < usize::BITS
            &&& lives_at(
                base,
                self.front as int,
                self.front_chunk as int,
                self.front_offset as int,
            )
            &&& 0 < self.front_remaining_in_chunk <= left
            &&& self.front_remaining_in_chunk < left ==> self.back <= self.front
                + self.front_remaining_in_chunk
        }
    }

    /// Starts a walk over the first `len` indices.
    pub(crate) fn new<T, const BASE_SHIFT: usize, const CHUNKS: usize>(len: usize) -> (cursor: Self)
        requires
            len > 0 ==> BASE_SHIFT < usize::BITS,
        ensures
            cursor.valid(BASE_SHIFT as nat),
            cursor.front == 0,
            cursor.back == len,
    {
        proof {
            lemma_chunk_start_next(BASE_SHIFT as nat, 0);
        }
        let (back_chunk, back_offset) = ExponentialArray::<T, BASE_SHIFT, CHUNKS>::end_position(
            len,
        );
        Self {
            front: 0,
            back: len,
            front_chunk: 0,
            front_offset: 0,
            front_remaining_in_chunk: ExponentialArray::<
                T,
                BASE_SHIFT,
                CHUNKS,
            >::initial_front_remaining(len),
            back_chunk,
            back_offset,
        }
    }

    /// Returns the number of indices left.
    pub(crate) fn len(&self) -> (len: usize)
        requires
            self.front <= self.back,
        ensures
            len == self.back - self.front,
    {
        self.back - self.front
    }

    /// Takes the first index, and returns the slot of it.
    pub(crate) fn next_front<T, const BASE_SHIFT: usize, const CHUNKS: usize>(
        &mut self,
    ) -> (place: Option<(usize, usize)>)
        requires
            old(self).valid(BASE_SHIFT as nat),
        ensures
            final(self).valid(BASE_SHIFT as nat),
            final(self).back == old(self).back,
            match place {
                Some((chunk, offset)) => {
                    &&& old(self).front < old(self).back
                    &&& final(self).front == old(self).front + 1
                    &&& chunk == chunk_of(BASE_SHIFT as nat, old(self).front as int)
                    &&& offset == offset_of(BASE_SHIFT as nat, old(self).front as int)
                },
                None => old(self).front == old(self).back && *final(self) == *old(self),
            },
    {
        if self.front == self.back {
            return None;
        }
        let chunk: usize = self.front_chunk;
        let offset: usize = self.front_offset;
        proof {
            let base = BASE_SHIFT as nat;
            lemma_lives_at(base, self.front as int, chunk as int, offset as int);
            lemma_chunk_start_next(base, chunk as nat);
            lemma_chunk_start_next(base, chunk as nat + 1);
            if self.front + 1 < self.back {
                lemma_chunk_of_index(base, (self.front + 1) as usize);
                if self.front_remaining_in_chunk == 1 {
                    lemma_lives_at(base, self.front + 1, chunk + 1, 0);
                }
            }
        }
        self.front = self.front + 1;
        self.front_offset = self.front_offset + 1;
        self.front_remaining_in_chunk = self.front_remaining_in_chunk - 1;
        if self.front_remaining_in_chunk == 0 && self.front != self.back {
            self.front_chunk = self.front_chunk + 1;
            self.front_offset = 0;
            let slots: usize = ExponentialArray::<
                T,
                BASE_SHIFT,
                CHUNKS,
            >::chunk_capacity_unchecked(self.front_chunk);
            let len: usize = self.len();
            self.front_remaining_in_chunk = if len < slots {
                len
            } else {
                slots
            };
        }
        Some((chunk, offset))
    }

    /// Takes the last index, and returns the slot of it.
    pub(crate) fn next_back<T, const BASE_SHIFT: usize, const CHUNKS: usize>(
        &mut self,
    ) -> (place: Option<(usize, usize)>)
        requires
            old(self).valid(BASE_SHIFT as nat),
        ensures
            final(self).valid(BASE_SHIFT as nat),
            final(self).front == old(self).front,
            match place {
                Some((chunk, offset)) => {
                    &&& old(self).front < old(self).back
                    &&& final(self).back == old(self).back - 1
                    &&& chunk == chunk_of(BASE_SHIFT as nat, final(self).back as int)
                    &&& offset == offset_of(BASE_SHIFT as nat, final(self).back as int)
                },
                None => old(self).front == old(self).back && *final(self) == *old(self),
            },
    {
        if self.front == self.back {
            return None;
        }
        proof {
            let base = BASE_SHIFT as nat;
            lemma_chunk_of_index(base, (self.back - 1) as usize);
            if self.back_offset == 0 {
                let before = (self.back_chunk - 1) as nat;
                lemma_chunk_start_next(base, before);
                lemma_lives_at(
                    base,
                    self.back - 1,
                    before as int,
                    chunk_slots(base, before) - 1,
                );
            } else {
                lemma_lives_at(
                    base,
                    self.back - 1,
                    self.back_chunk as int,
                    self.back_offset - 1,
                );
            }
        }
        self.back = self.back - 1;
        if self.back_offset == 0 {
            self.back_chunk = self.back_chunk - 1;
            self.back_offset = ExponentialArray::<
                T,
                BASE_SHIFT,
                CHUNKS,
            >::chunk_capacity_unchecked(self.back_chunk);
        }
        self.back_offset = self.back_offset - 1;
        Some((self.back_chunk, self.back_offset))
    }
}

} // verus!
