//! Allocation: the chunks of an array, and room for more elements.

use crate::array::{grown_to, ExponentialArray};
use crate::chunk::{step_with, Chunk};
use crate::contents::lemma_push_empty;
use crate::error::{TryReserveError, TryReserveErrorKind};
use crate::geometry::{
    chunk_slots, chunks_for, counted_slots, lemma_chunk_start_next, lemma_chunks_for,
    lemma_representable_start, lemma_usable_chunks, representable, usable_chunks,
};
use vstd::layout;
use vstd::prelude::*;

verus! {

impl<T, const BASE_SHIFT: usize, const CHUNKS: usize> ExponentialArray<T, BASE_SHIFT, CHUNKS> {
    /// Creates an empty array.
    #[must_use]
    pub fn new() -> (array: Self)
        ensures
            array.wf(),
            array@ == Seq::<T>::empty(),
            array.buffers() == Seq::<usize>::empty(),
    {
        proof {
            lemma_chunk_start_next(BASE_SHIFT as nat, 0);
        }
        Self { len: 0, capacity: 0, tail_chunk: 0, tail_offset: 0, chunks: Vec::new() }
    }

    /// Creates an empty array with enough chunks allocated for `capacity` elements.
    ///
    /// If there is no memory for them, this uses the global allocation error handler.
    #[must_use]
    pub fn with_capacity(capacity: usize) -> (array: Self)
        requires
            capacity <= Self::slot_limit(),
        ensures
            array.wf(),
            array@ == Seq::<T>::empty(),
            array.buffers().len() == chunks_for(BASE_SHIFT as nat, capacity as int),
    {
        let mut array = Self::new();
        array.reserve(capacity);
        array
    }

    /// Creates an empty array with enough chunks allocated for `capacity` elements.
    pub fn try_with_capacity(capacity: usize) -> (array: Result<Self, TryReserveError>)
        ensures
            match array {
                Ok(array) => {
                    &&& array.wf()
                    &&& array@ == Seq::<T>::empty()
                    &&& array.buffers().len() == chunks_for(BASE_SHIFT as nat, capacity as int)
                    &&& capacity <= Self::slot_limit()
                },
                Err(error) => match error@ {
                    TryReserveErrorKind::CapacityOverflow => false,
                    TryReserveErrorKind::CapacityExceeded { requested, max } => {
                        &&& capacity > Self::slot_limit()
                        &&& requested == capacity
                        &&& max == Self::slot_limit()
                    },
                    TryReserveErrorKind::AllocError { size, align } => {
                        &&& capacity <= Self::slot_limit()
                        &&& layout::size_of::<T>() > 0
                        &&& align == layout::align_of::<T>()
                        &&& exists|chunk: nat|
                            chunk < chunks_for(BASE_SHIFT as nat, capacity as int) && size
                                == #[trigger] chunk_slots(BASE_SHIFT as nat, chunk)
                                * layout::size_of::<T>() && Self::chunk_refused(chunk)
                    },
                },
            },
    {
        let mut array = Self::new();
        match array.try_reserve(capacity) {
            Ok(_) => Ok(array),
            Err(error) => Err(error),
        }
    }

    /// Returns the number of elements that can be held without allocating more
    /// chunks.
    #[must_use]
    pub fn capacity(&self) -> (capacity: usize)
        requires
            self.wf(),
        ensures
            capacity == counted_slots(BASE_SHIFT as nat, self.buffers().len()),
    {
        self.capacity
    }

    /// Returns the number of chunks currently allocated.
    #[must_use]
    pub fn allocated_chunks(&self) -> (count: usize)
        ensures
            count == self.buffers().len(),
    {
        self.chunks.len()
    }

    /// Adds a chunk behind the others, given that there is memory for it.
    fn place_chunk(&mut self, chunk: Chunk<T>)
        requires
            old(self).wf(),
            old(self).chunks@.len() < usable_chunks(
                BASE_SHIFT as nat,
                layout::size_of::<T>(),
                CHUNKS as nat,
            ),
            chunk.fresh(),
            chunk.room() == chunk_slots(BASE_SHIFT as nat, old(self).chunks@.len()),
        ensures
            final(self).wf(),
            final(self)@ == old(self)@,
            final(self).len == old(self).len,
            final(self).buffers() == old(self).buffers().push(chunk.address()),
    {
        let ghost before = *self;
        let ghost base = BASE_SHIFT as nat;
        let ghost index = self.chunks@.len();
        proof {
            lemma_usable_chunks(base, layout::size_of::<T>(), CHUNKS as nat);
            assert(representable(base, layout::size_of::<T>(), index));
            lemma_representable_start(base, layout::size_of::<T>(), index);
            lemma_chunk_start_next(base, index);
            lemma_push_empty(before.parts(), base, before.len as int);
            chunk.lemma_fresh();
        }
        let slots: usize = Self::chunk_capacity_unchecked(self.chunks.len());
        self.capacity = self.capacity.saturating_add(slots);
        self.chunks.push(chunk);
        assert(self.parts() =~= before.parts().push(Seq::empty()));
        assert(self.buffers() =~= before.buffers().push(chunk.address()));
    }

    /// Adds a chunk behind the others, or reports that there was no memory for it:
    /// `allocated` is what came of the allocation.
    fn place_allocated_chunk(&mut self, allocated: Option<Chunk<T>>) -> (result: Result<
        (),
        TryReserveError,
    >)
        requires
            old(self).wf(),
            old(self).chunks@.len() < usable_chunks(
                BASE_SHIFT as nat,
                layout::size_of::<T>(),
                CHUNKS as nat,
            ),
            allocated matches Some(chunk) ==> {
                &&& chunk.fresh()
                &&& chunk.room() == chunk_slots(BASE_SHIFT as nat, old(self).chunks@.len())
            },
        ensures
            final(self).wf(),
            final(self)@ == old(self)@,
            final(self).len == old(self).len,
            match (allocated, result) {
                (Some(chunk), Ok(_)) => final(self).buffers() == old(self).buffers().push(
                    chunk.address(),
                ),
                (None, Err(error)) => {
                    &&& *final(self) == *old(self)
                    &&& error@ matches TryReserveErrorKind::AllocError { size, align }
                    &&& size == chunk_slots(BASE_SHIFT as nat, old(self).buffers().len())
                        * layout::size_of::<T>()
                    &&& align == layout::align_of::<T>()
                },
                _ => false,
            },
    {
        match allocated {
            Some(chunk) => {
                self.place_chunk(chunk);
                Ok(())
            },
            None => {
                proof {
                    lemma_usable_chunks(
                        BASE_SHIFT as nat,
                        layout::size_of::<T>(),
                        CHUNKS as nat,
                    );
                    assert(representable(
                        BASE_SHIFT as nat,
                        layout::size_of::<T>(),
                        self.chunks@.len(),
                    ));
                }
                let slots: usize = Self::chunk_capacity_unchecked(self.chunks.len());
                Err(
                    TryReserveError::alloc_error(
                        slots * core::mem::size_of::<T>(),
                        core::mem::align_of::<T>(),
                    ),
                )
            },
        }
    }

    /// Allocates the next chunk. If there is no memory for it, this uses the global
    /// allocation error handler.
    fn allocate_next_chunk(&mut self)
        requires
            old(self).wf(),
            old(self).chunks@.len() < usable_chunks(
                BASE_SHIFT as nat,
                layout::size_of::<T>(),
                CHUNKS as nat,
            ),
        ensures
            final(self).wf(),
            final(self)@ == old(self)@,
            final(self).len == old(self).len,
            old(self).buffers().is_prefix_of(final(self).buffers()),
            final(self).buffers().len() == old(self).buffers().len() + 1,
    {
        proof {
            lemma_usable_chunks(BASE_SHIFT as nat, layout::size_of::<T>(), CHUNKS as nat);
            assert(representable(
                BASE_SHIFT as nat,
                layout::size_of::<T>(),
                self.chunks@.len(),
            ));
        }
        let slots: usize = Self::chunk_capacity_unchecked(self.chunks.len());
        let chunk = Chunk::with_room(slots);
        self.place_chunk(chunk);
    }

    /// Tries to allocate the next chunk. The slots of elements without a size take no
    /// memory, so that there is always room for them.
    fn try_allocate_next_chunk(&mut self) -> (result: Result<(), TryReserveError>)
        requires
            old(self).wf(),
        ensures
            final(self).wf(),
            final(self)@ == old(self)@,
            final(self).len == old(self).len,
            match result {
                Ok(_) => {
                    &&& old(self).buffers().is_prefix_of(final(self).buffers())
                    &&& final(self).buffers().len() == old(self).buffers().len() + 1
                    &&& final(self).buffers().len() <= usable_chunks(
                        BASE_SHIFT as nat,
                        layout::size_of::<T>(),
                        CHUNKS as nat,
                    )
                },
                Err(error) => {
                    &&& final(self).buffers() == old(self).buffers()
                    &&& if old(self).buffers().len() < CHUNKS && representable(
                        BASE_SHIFT as nat,
                        layout::size_of::<T>(),
                        old(self).buffers().len(),
                    ) {
                        &&& layout::size_of::<T>() > 0
                        &&& error@ matches TryReserveErrorKind::AllocError { size, align }
                        &&& size == chunk_slots(BASE_SHIFT as nat, old(self).buffers().len())
                            * layout::size_of::<T>()
                        &&& align == layout::align_of::<T>()
                        &&& Self::chunk_refused(old(self).buffers().len())
                    } else {
                        error@ == TryReserveErrorKind::CapacityOverflow
                    }
                },
            },
    {
        let chunk: usize = self.chunks.len();
        proof {
            lemma_usable_chunks(BASE_SHIFT as nat, layout::size_of::<T>(), CHUNKS as nat);
        }
        if Self::chunk_bytes(chunk).is_none() {
            return Err(TryReserveError::capacity_overflow());
        }
        let slots: usize = Self::chunk_capacity_unchecked(chunk);
        if core::mem::size_of::<T>() == 0 {
            self.allocate_next_chunk();
            return Ok(());
        }
        let allocated = match step_with(&Vec::<Chunk<T>>::try_reserve, &mut self.chunks, 1usize) {
            Ok(_) => Chunk::try_with_room(slots),
            Err(_) => None,
        };
        self.place_allocated_chunk(allocated)
    }

    /// Reserves capacity for at least `additional` more elements.
    ///
    /// This may allocate one or more chunks. Existing elements are not moved. If
    /// there is no memory for a chunk, this uses the global allocation error handler.
    pub fn reserve(&mut self, additional: usize)
        requires
            old(self).wf(),
            old(self)@.len() + additional <= Self::slot_limit(),
        ensures
            final(self).wf(),
            final(self)@ == old(self)@,
            grown_to(
                BASE_SHIFT as nat,
                old(self).buffers(),
                final(self).buffers(),
                old(self)@.len() + additional,
            ),
    {
        proof {
            self.lemma_view();
        }
        let requested_capacity: usize = self.len + additional;
        proof {
            lemma_chunks_for(
                BASE_SHIFT as nat,
                requested_capacity as int,
                self.buffers().len(),
            );
            lemma_chunks_for(
                BASE_SHIFT as nat,
                requested_capacity as int,
                usable_chunks(BASE_SHIFT as nat, layout::size_of::<T>(), CHUNKS as nat),
            );
        }
        if requested_capacity <= self.capacity {
            return ;
        }
        let last_chunk: usize = self.last_chunk_for(requested_capacity);
        let ghost before = *self;
        while self.chunks.len() <= last_chunk
            invariant
                self.wf(),
                self@ == before@,
                before.buffers().is_prefix_of(self.buffers()),
                before.buffers().len() <= last_chunk + 1,
                self.buffers().len() <= last_chunk + 1,
                last_chunk < usable_chunks(
                    BASE_SHIFT as nat,
                    layout::size_of::<T>(),
                    CHUNKS as nat,
                ),
            decreases last_chunk + 1 - self.chunks@.len(),
        {
            self.allocate_next_chunk();
        }
    }

    /// Returns the last chunk that it takes for `count` slots, given that the chunks
    /// there are do not suffice.
    fn last_chunk_for(&self, count: usize) -> (chunk: usize)
        requires
            self.wf(),
            self.capacity < count <= Self::slot_limit(),
        ensures
            chunk + 1 == chunks_for(BASE_SHIFT as nat, count as int),
            self.buffers().len() <= chunk < usable_chunks(
                BASE_SHIFT as nat,
                layout::size_of::<T>(),
                CHUNKS as nat,
            ),
    {
        let ghost usable = usable_chunks(BASE_SHIFT as nat, layout::size_of::<T>(), CHUNKS as nat);
        proof {
            lemma_usable_chunks(BASE_SHIFT as nat, layout::size_of::<T>(), CHUNKS as nat);
            assert(usable > 0);
            assert(representable(BASE_SHIFT as nat, layout::size_of::<T>(), 0));
            lemma_chunks_for(BASE_SHIFT as nat, count as int, usable);
            lemma_chunks_for(BASE_SHIFT as nat, count as int, self.buffers().len());
        }
        let (last_chunk, _) = Self::locate(count - 1);
        last_chunk
    }

    /// Tries to reserve capacity for at least `additional` more elements.
    ///
    /// Existing elements are not moved. If this returns an error, the length is
    /// unchanged. Capacity may have increased if allocation of an earlier chunk
    /// succeeded before a later chunk failed.
    pub fn try_reserve(&mut self, additional: usize) -> (result: Result<(), TryReserveError>)
        requires
            old(self).wf(),
        ensures
            final(self).wf(),
            old(self).reserved(
                final(self),
                additional as int,
                match result {
                    Ok(_) => Ok(()),
                    Err(error) => Err(error@),
                },
            ),
    {
        proof {
            self.lemma_view();
        }
        match self.len.checked_add(additional) {
            Some(requested_capacity) => {
                if requested_capacity <= self.capacity {
                    proof {
                        self.lemma_capacity();
                        lemma_chunks_for(
                            BASE_SHIFT as nat,
                            requested_capacity as int,
                            self.buffers().len(),
                        );
                    }
                    return Ok(());
                }
                self.try_reserve_slow(requested_capacity)
            },
            None => Err(TryReserveError::capacity_overflow()),
        }
    }

    fn try_reserve_slow(&mut self, requested_capacity: usize) -> (result: Result<
        (),
        TryReserveError,
    >)
        requires
            old(self).wf(),
            old(self).capacity < requested_capacity,
        ensures
            final(self).wf(),
            old(self).reserved(
                final(self),
                requested_capacity - old(self)@.len(),
                match result {
                    Ok(_) => Ok(()),
                    Err(error) => Err(error@),
                },
            ),
    {
        let max: usize = Self::max_capacity();
        if requested_capacity > max {
            return Err(TryReserveError::capacity_exceeded(requested_capacity, max));
        }
        let last_chunk: usize = self.last_chunk_for(requested_capacity);
        let ghost before = *self;
        proof {
            lemma_usable_chunks(BASE_SHIFT as nat, layout::size_of::<T>(), CHUNKS as nat);
        }
        while self.chunks.len() <= last_chunk
            invariant
                self.wf(),
                self@ == before@,
                before.buffers().is_prefix_of(self.buffers()),
                self.buffers().len() <= last_chunk + 1,
                last_chunk < usable_chunks(
                    BASE_SHIFT as nat,
                    layout::size_of::<T>(),
                    CHUNKS as nat,
                ),
                before == *old(self),
                last_chunk + 1 == chunks_for(BASE_SHIFT as nat, requested_capacity as int),
                requested_capacity <= Self::slot_limit(),
                usable_chunks(BASE_SHIFT as nat, layout::size_of::<T>(), CHUNKS as nat) <= CHUNKS,
                forall|chunk: nat|
                    chunk < usable_chunks(BASE_SHIFT as nat, layout::size_of::<T>(), CHUNKS as nat)
                        ==> #[trigger] representable(
                        BASE_SHIFT as nat,
                        layout::size_of::<T>(),
                        chunk,
                    ),
            decreases last_chunk + 1 - self.chunks@.len(),
        {
            assert(representable(BASE_SHIFT as nat, layout::size_of::<T>(), self.buffers().len()));
            match self.try_allocate_next_chunk() {
                Ok(_) => {},
                Err(error) => {
                    return Err(error);
                },
            }
        }
        Ok(())
    }
}

} // verus!
