//! The array and its invariant.

use crate::chunk::{placed, refused, Chunk};
use crate::contents::{lemma_packed, packed};
use crate::error::TryReserveErrorKind;
use crate::geometry::{
    chunk_of, chunk_slots, chunk_start, chunks_for, counted_slots, lemma_chunk_of_below,
    lemma_chunk_start_monotone, lemma_chunks_for, lemma_lives_at, lives_at, offset_of,
    usable_chunks,
};
use vstd::layout;
use vstd::prelude::*;

verus! {

/// A segmented exponential array.
///
/// Chunk `0` stores indices below `1 << BASE_SHIFT`. Chunk `c > 0` stores the
/// power-of-two range from `1 << (BASE_SHIFT + c - 1)` up to, but not including,
/// `1 << (BASE_SHIFT + c)`. `CHUNKS` is the largest number of chunks.
///
/// # Address stability
///
/// For non-zero-sized `T`, the address of an element does not change while the
/// element remains initialized in the array. `push`, `push_mut`, `push_ptr`,
/// `reserve`, and `try_reserve` do not move existing elements.
///
/// An element stops being initialized when it is removed by `pop`, `truncate`,
/// `clear`, a shrinking `resize` or `resize_with`, when it is moved out of the
/// source array by `append`, when it is in the tail moved out by `split_off`, or
/// when the whole array is dropped. Any raw pointer to that element must then be
/// treated as invalid. For zero-sized types, addresses are not meaningful.
///
/// # Contiguity
///
/// The whole array is not contiguous. Each individual chunk is contiguous.
pub struct ExponentialArray<T, const BASE_SHIFT: usize, const CHUNKS: usize> {
    pub(crate) len: usize,
    // The slots of all the chunks, as far as a `usize` counts.
    pub(crate) capacity: usize,
    // Cursor for the next append slot; equivalent to `end_position(len)`.
    pub(crate) tail_chunk: usize,
    pub(crate) tail_offset: usize,
    pub(crate) chunks: Vec<Chunk<T>>,
}

/// What each of `chunks` holds.
pub(crate) open spec fn chunk_parts<T>(chunks: Seq<Chunk<T>>) -> Seq<Seq<T>> {
    Seq::new(chunks.len(), |c: int| chunks[c]@)
}

/// Where each of `chunks` starts.
pub(crate) open spec fn chunk_addresses<T>(chunks: Seq<Chunk<T>>) -> Seq<usize> {
    Seq::new(chunks.len(), |c: int| chunks[c].address())
}

/// `after` has the buffers of `before`, where they were, and as many more as it
/// takes for `count` slots in all.
pub open spec fn grown_to(base: nat, before: Seq<usize>, after: Seq<usize>, count: int) -> bool {
    &&& before.is_prefix_of(after)
    &&& after.len() == if chunks_for(base, count) > before.len() {
        chunks_for(base, count)
    } else {
        before.len()
    }
}

/// To grow twice is to grow to the larger of the two counts.
pub proof fn lemma_grown_twice(
    base: nat,
    first: Seq<usize>,
    second: Seq<usize>,
    third: Seq<usize>,
    count: int,
    other: int,
)
    requires
        0 <= count,
        0 <= other,
        grown_to(base, first, second, count),
        grown_to(base, second, third, other),
    ensures
        grown_to(
            base,
            first,
            third,
            if count < other {
                other
            } else {
                count
            },
        ),
{
    lemma_chunks_for(base, count, chunks_for(base, other));
    lemma_chunks_for(base, other, chunks_for(base, other));
    lemma_chunks_for(base, other, chunks_for(base, count));
    lemma_chunks_for(base, count, chunks_for(base, count));
}

/// The address of the slot of `index`, for elements of `size` bytes in chunks of
/// which `buffers` are the addresses. No buffer reaches beyond the last address.
pub open spec fn slot_address(base: nat, size: nat, buffers: Seq<usize>, index: int) -> usize {
    let sum = buffers[chunk_of(base, index) as int] + offset_of(base, index) * size;
    if sum <= usize::MAX {
        sum as usize
    } else {
        usize::MAX
    }
}

impl<T, const BASE_SHIFT: usize, const CHUNKS: usize> View for ExponentialArray<
    T,
    BASE_SHIFT,
    CHUNKS,
> {
    type V = Seq<T>;

    /// The elements in order.
    open(crate) spec fn view(&self) -> Seq<T> {
        self.parts().flatten()
    }
}

impl<T, const BASE_SHIFT: usize, const CHUNKS: usize> ExponentialArray<T, BASE_SHIFT, CHUNKS> {
    /// The largest number of elements this configuration can hold for `T`.
    pub open spec fn slot_limit() -> usize {
        counted_slots(
            BASE_SHIFT as nat,
            usable_chunks(BASE_SHIFT as nat, layout::size_of::<T>(), CHUNKS as nat),
        )
    }

    /// The number of elements that the array has on record. That of an array in order
    /// is the number of its elements.
    pub open(crate) spec fn recorded_len(&self) -> nat {
        self.len as nat
    }

    /// What each allocated chunk holds.
    pub open(crate) spec fn parts(&self) -> Seq<Seq<T>> {
        chunk_parts(self.chunks@)
    }

    /// Where each allocated chunk starts.
    pub open(crate) spec fn buffers(&self) -> Seq<usize> {
        chunk_addresses(self.chunks@)
    }

    /// The address of the slot of `index`.
    pub open spec fn address(&self, index: int) -> usize {
        slot_address(BASE_SHIFT as nat, layout::size_of::<T>(), self.buffers(), index)
    }

    /// The chunk of `index` starts at the address that was read of an allocation for its
    /// slots.
    pub open spec fn in_allocation(&self, index: int) -> bool {
        let chunk = chunk_of(BASE_SHIFT as nat, index);
        placed::<T>(chunk_slots(BASE_SHIFT as nat, chunk) as usize, self.buffers()[chunk as int])
    }

    /// The allocator refused the slots of `chunk`, or a place for it behind the chunks
    /// before it.
    pub open(crate) spec fn chunk_refused(chunk: nat) -> bool {
        ||| refused::<T>(chunk_slots(BASE_SHIFT as nat, chunk) as usize)
        ||| exists|at: &mut Vec<Chunk<T>>, answer: Result<(), std::collections::TryReserveError>|
            (*at)@.len() == chunk && answer is Err && #[trigger] call_ensures(
                Vec::<Chunk<T>>::try_reserve,
                (at, 1usize),
                answer,
            )
    }

    /// What may come of a reservation of `additional` more slots, which leaves the
    /// array as `after`. A reservation within the limit fails only where the allocator
    /// refuses a chunk that it takes, and only for elements that have a size. The
    /// chunks that were allocated before the one that could not be stay.
    pub open spec fn reserved(
        &self,
        after: &Self,
        additional: int,
        result: Result<(), TryReserveErrorKind>,
    ) -> bool {
        let base = BASE_SHIFT as nat;
        let count = self@.len() + additional;
        &&& after@ == self@
        &&& match result {
            Ok(_) => {
                &&& count <= Self::slot_limit()
                &&& grown_to(base, self.buffers(), after.buffers(), count)
            },
            Err(TryReserveErrorKind::CapacityOverflow) => {
                &&& count > usize::MAX
                &&& after.buffers() == self.buffers()
            },
            Err(TryReserveErrorKind::CapacityExceeded { requested, max }) => {
                &&& Self::slot_limit() < count <= usize::MAX
                &&& requested == count
                &&& max == Self::slot_limit()
                &&& after.buffers() == self.buffers()
            },
            Err(TryReserveErrorKind::AllocError { size, align }) => {
                &&& count <= Self::slot_limit()
                &&& layout::size_of::<T>() > 0
                &&& self.buffers().is_prefix_of(after.buffers())
                &&& after.buffers().len() < chunks_for(base, count)
                &&& size == chunk_slots(base, after.buffers().len()) * layout::size_of::<T>()
                &&& align == layout::align_of::<T>()
                &&& Self::chunk_refused(after.buffers().len())
            },
        }
    }

    /// `after` is the array after `value` was pushed: it has the value as its last
    /// element, and the chunks that it takes.
    pub open spec fn pushed(&self, value: T, after: &Self) -> bool {
        &&& after.wf()
        &&& after@ == self@.push(value)
        &&& grown_to(BASE_SHIFT as nat, self.buffers(), after.buffers(), after@.len() as int)
    }

    /// `after` is the array after a pop gave `value`: it is one element shorter, unless
    /// there was none, and has the same chunks.
    pub open spec fn popped(&self, value: Option<T>, after: &Self) -> bool {
        &&& after.wf()
        &&& after.buffers() == self.buffers()
        &&& if self@.len() == 0 {
            value is None && after@ == self@
        } else {
            value == Some(self@.last()) && after@ == self@.drop_last()
        }
    }

    /// `after` is the array cut to its first `len` elements, with the same chunks.
    pub open spec fn truncated(&self, len: int, after: &Self) -> bool {
        &&& after.wf()
        &&& after.buffers() == self.buffers()
        &&& after@ == if len < self@.len() {
            self@.take(len)
        } else {
            self@
        }
    }

    /// `after` is the array after the elements of `other` were moved to its end, and
    /// `emptied` is what is left of `other`.
    pub open spec fn appended(&self, other: &Self, after: &Self, emptied: &Self) -> bool {
        &&& after.wf()
        &&& emptied.wf()
        &&& after@ == self@ + other@
        &&& emptied@ == Seq::<T>::empty()
        &&& grown_to(BASE_SHIFT as nat, self.buffers(), after.buffers(), after@.len() as int)
        &&& emptied.buffers() == other.buffers()
    }

    /// `after` is what is left of the array after the elements from `at` on were moved
    /// to `tail`.
    pub open spec fn split(&self, at: int, after: &Self, tail: &Self) -> bool {
        &&& after.wf()
        &&& tail.wf()
        &&& after@ == self@.take(at)
        &&& tail@ == self@.skip(at)
        &&& after.buffers() == self.buffers()
        &&& tail.buffers().len() == chunks_for(BASE_SHIFT as nat, self@.len() - at)
    }

    /// The chunks are allocated in order, each with the slots that its place in the
    /// order asks for.
    pub(crate) open spec fn allocated(&self) -> bool {
        &&& self.chunks@.len() <= usable_chunks(
            BASE_SHIFT as nat,
            layout::size_of::<T>(),
            CHUNKS as nat,
        )
        &&& self.capacity == counted_slots(BASE_SHIFT as nat, self.chunks@.len())
        &&& forall|c: int|
            0 <= c < self.chunks@.len() ==> {
                &&& (#[trigger] self.chunks@[c]).room() == chunk_slots(
                    BASE_SHIFT as nat,
                    c as nat,
                )
                &&& self.chunks@[c].address() != 0
                &&& placed::<T>(
                    chunk_slots(BASE_SHIFT as nat, c as nat) as usize,
                    self.chunks@[c].address(),
                )
            }
    }

    /// The invariant of an array. Its chunks are allocated in order, the elements
    /// fill them from the front with no gap, and the cursor names the slot after the
    /// last element.
    pub open(crate) spec fn wf(&self) -> bool {
        &&& self.allocated()
        &&& packed(self.parts(), BASE_SHIFT as nat, self.len as int)
        &&& lives_at(
            BASE_SHIFT as nat,
            self.len as int,
            self.tail_chunk as int,
            self.tail_offset as int,
        )
    }

    /// The elements of an array, by the slots that store them.
    pub(crate) proof fn lemma_view(&self)
        requires
            self.wf(),
        ensures
            self@.len() == self.len,
            forall|i: int|
                0 <= i < self@.len() ==> #[trigger] self@[i] == self.parts()[chunk_of(
                    BASE_SHIFT as nat,
                    i,
                ) as int][offset_of(BASE_SHIFT as nat, i)],
    {
        lemma_packed(self.parts(), BASE_SHIFT as nat, self.len as int);
    }

    /// The chunks of an array have room for its elements, and no more room than the
    /// configuration allows.
    pub(crate) proof fn lemma_capacity(&self)
        requires
            self.wf(),
        ensures
            self.len <= self.capacity <= Self::slot_limit(),
            self.capacity <= chunk_start(BASE_SHIFT as nat, self.chunks@.len()),
            self.len < self.capacity ==> self.tail_chunk < self.chunks@.len(),
    {
        let base = BASE_SHIFT as nat;
        let usable = usable_chunks(base, layout::size_of::<T>(), CHUNKS as nat);
        lemma_chunk_start_monotone(base, self.chunks@.len(), usable);
        lemma_lives_at(
            base,
            self.len as int,
            self.tail_chunk as int,
            self.tail_offset as int,
        );
        lemma_chunk_of_below(base, self.len as int, self.chunks@.len());
    }
}

} // verus!
