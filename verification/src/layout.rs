//! The arithmetic that finds an element.

use crate::array::ExponentialArray;
use crate::geometry::{
    chunk_exponent, chunk_of, chunk_slots, chunk_start, lemma_chunk_start_monotone,
    lemma_chunk_start_next, lemma_leading_zeros, lemma_lives_at, lemma_scaled_bounds,
    lemma_usable_chunks, lives_at, offset_of, representable, usable_chunks,
};
use vstd::arithmetic::power2::{lemma_pow2_pos, pow2};
use vstd::bits::{lemma_usize_pow2_no_overflow, lemma_usize_shl_is_mul, lemma_usize_shr_is_div};
use vstd::layout;
use vstd::prelude::*;

verus! {

impl<T, const BASE_SHIFT: usize, const CHUNKS: usize> ExponentialArray<T, BASE_SHIFT, CHUNKS> {
    /// Returns the base-2 exponent of the number of slots in `chunk`, if that number
    /// can be counted in a `usize`.
    pub(crate) fn chunk_shift(chunk: usize) -> (shift: Option<usize>)
        ensures
            shift == if chunk_exponent(BASE_SHIFT as nat, chunk as nat) < usize::BITS {
                Some(chunk_exponent(BASE_SHIFT as nat, chunk as nat) as usize)
            } else {
                None
            },
    {
        let growth_shift: usize = if chunk == 0 {
            0
        } else {
            chunk - 1
        };
        match BASE_SHIFT.checked_add(growth_shift) {
            Some(shift) => if shift >= usize::BITS as usize {
                None
            } else {
                Some(shift)
            },
            None => None,
        }
    }

    /// Returns `2^shift`.
    pub(crate) fn capacity_for_shift(shift: usize) -> (capacity: usize)
        requires
            shift < usize::BITS,
        ensures
            capacity == pow2(shift as nat),
    {
        proof {
            lemma_usize_pow2_no_overflow(shift as nat);
            lemma_usize_shl_is_mul(1, shift);
        }
        1usize << shift
    }

    /// Returns the number of slots in `chunk`, if the configuration has the chunk and
    /// the number can be counted in a `usize`.
    pub(crate) fn chunk_capacity(chunk: usize) -> (capacity: Option<usize>)
        ensures
            capacity == if chunk < CHUNKS && chunk_exponent(BASE_SHIFT as nat, chunk as nat)
                < usize::BITS {
                Some(chunk_slots(BASE_SHIFT as nat, chunk as nat) as usize)
            } else {
                None
            },
            capacity matches Some(slots) ==> slots == chunk_slots(BASE_SHIFT as nat, chunk as nat),
    {
        if chunk >= CHUNKS {
            return None;
        }
        match Self::chunk_shift(chunk) {
            Some(shift) => Some(Self::capacity_for_shift(shift)),
            None => None,
        }
    }

    /// Returns the number of bytes in `chunk`, if the configuration has the chunk and
    /// it can be addressed.
    pub(crate) fn chunk_bytes(chunk: usize) -> (bytes: Option<usize>)
        ensures
            bytes is Some <==> chunk < CHUNKS && representable(
                BASE_SHIFT as nat,
                layout::size_of::<T>(),
                chunk as nat,
            ),
            bytes matches Some(bytes) ==> bytes == chunk_slots(BASE_SHIFT as nat, chunk as nat)
                * layout::size_of::<T>(),
    {
        match Self::chunk_capacity(chunk) {
            Some(capacity) => match capacity.checked_mul(core::mem::size_of::<T>()) {
                Some(bytes) => if bytes <= isize::MAX as usize {
                    Some(bytes)
                } else {
                    None
                },
                None => None,
            },
            None => None,
        }
    }

    /// Returns the index of the first slot of `chunk`.
    pub(crate) fn chunk_start_unchecked(chunk: usize) -> (start: usize)
        requires
            chunk_exponent(BASE_SHIFT as nat, chunk as nat) < usize::BITS,
        ensures
            start == chunk_start(BASE_SHIFT as nat, chunk as nat),
    {
        if chunk == 0 {
            0
        } else {
            let shift: usize = BASE_SHIFT + (chunk - 1);
            Self::capacity_for_shift(shift)
        }
    }

    /// Returns the number of slots in `chunk`.
    pub(crate) fn chunk_capacity_unchecked(chunk: usize) -> (capacity: usize)
        requires
            chunk_exponent(BASE_SHIFT as nat, chunk as nat) < usize::BITS,
        ensures
            capacity == chunk_slots(BASE_SHIFT as nat, chunk as nat),
    {
        let shift: usize = BASE_SHIFT + chunk.saturating_sub(1);
        Self::capacity_for_shift(shift)
    }

    /// Returns the chunk that stores `index`, and the slot of it.
    pub(crate) fn locate(index: usize) -> (place: (usize, usize))
        requires
            BASE_SHIFT < usize::BITS,
        ensures
            place.0 == chunk_of(BASE_SHIFT as nat, index as int),
            place.1 == offset_of(BASE_SHIFT as nat, index as int),
            lives_at(BASE_SHIFT as nat, index as int, place.0 as int, place.1 as int),
            chunk_exponent(BASE_SHIFT as nat, place.0 as nat) < usize::BITS,
    {
        let scaled_index: usize = index >> BASE_SHIFT;
        proof {
            lemma_usize_shr_is_div(index, BASE_SHIFT);
            lemma_pow2_pos(BASE_SHIFT as nat);
        }
        if scaled_index == 0 {
            proof {
                assert(index < pow2(BASE_SHIFT as nat)) by {
                    vstd::arithmetic::div_mod::lemma_fundamental_div_mod(
                        index as int,
                        pow2(BASE_SHIFT as nat) as int,
                    );
                }
                lemma_lives_at(BASE_SHIFT as nat, index as int, 0, index as int);
            }
            return (0, index);
        }
        proof {
            let low = (63 - vstd::std_specs::bits::u64_leading_zeros(scaled_index as u64)) as nat;
            lemma_leading_zeros(scaled_index as u64);
            lemma_scaled_bounds(BASE_SHIFT as nat, index as nat, low);
            assert(BASE_SHIFT + low < usize::BITS) by {
                if BASE_SHIFT + low >= usize::BITS {
                    vstd::arithmetic::power2::lemma2_to64();
                    vstd::arithmetic::power2::lemma2_to64_rest();
                    if BASE_SHIFT + low > usize::BITS {
                        vstd::arithmetic::power2::lemma_pow2_strictly_increases(
                            usize::BITS as nat,
                            BASE_SHIFT as nat + low,
                        );
                    }
                }
            }
        }
        let chunk: usize = (64 - (scaled_index as u64).leading_zeros()) as usize;
        let start: usize = Self::chunk_start_unchecked(chunk);
        proof {
            lemma_chunk_start_next(BASE_SHIFT as nat, chunk as nat);
            lemma_lives_at(BASE_SHIFT as nat, index as int, chunk as int, index - start);
        }
        (chunk, index - start)
    }

    /// Returns the slot after the first `len` indices.
    pub(crate) fn end_position(len: usize) -> (place: (usize, usize))
        requires
            len > 0 ==> BASE_SHIFT < usize::BITS,
        ensures
            lives_at(BASE_SHIFT as nat, len as int, place.0 as int, place.1 as int),
    {
        if len == 0 {
            proof {
                lemma_chunk_start_next(BASE_SHIFT as nat, 0);
            }
            return (0, 0);
        }
        let (chunk, offset) = Self::locate(len - 1);
        let end_offset: usize = offset + 1;
        if end_offset == Self::chunk_capacity_unchecked(chunk) {
            proof {
                lemma_chunk_start_next(BASE_SHIFT as nat, chunk as nat);
                lemma_chunk_start_next(BASE_SHIFT as nat, chunk as nat + 1);
            }
            (chunk + 1, 0)
        } else {
            (chunk, end_offset)
        }
    }

    /// Returns how many of the first `len` indices the first chunk stores.
    pub(crate) fn initial_front_remaining(len: usize) -> (remaining: usize)
        requires
            len > 0 ==> BASE_SHIFT < usize::BITS,
        ensures
            remaining == if len <= chunk_slots(BASE_SHIFT as nat, 0) {
                len as int
            } else {
                chunk_slots(BASE_SHIFT as nat, 0) as int
            },
    {
        proof {
            lemma_chunk_start_next(BASE_SHIFT as nat, 0);
        }
        if len == 0 {
            0
        } else {
            let slots: usize = Self::chunk_capacity_unchecked(0);
            if len < slots {
                len
            } else {
                slots
            }
        }
    }

    /// Returns the maximum number of elements this configuration can hold for `T`.
    ///
    /// This is the sum of the representable chunk capacities, capped by Rust's
    /// allocation layout limits for `T`.
    #[must_use]
    pub fn max_capacity() -> (max: usize)
        ensures
            max == Self::slot_limit(),
    {
        let mut total: usize = 0;
        let mut chunk: usize = 0;
        let ghost base = BASE_SHIFT as nat;
        let ghost size = layout::size_of::<T>();
        let ghost usable = usable_chunks(base, size, CHUNKS as nat);
        proof {
            lemma_usable_chunks(base, size, CHUNKS as nat);
        }
        while chunk < CHUNKS
            invariant_except_break
                total == chunk_start(base, chunk as nat),
                chunk <= usable,
            invariant
                base == BASE_SHIFT,
                size == layout::size_of::<T>(),
                usable == usable_chunks(base, size, CHUNKS as nat),
                usable <= CHUNKS,
                forall|c: nat| c < usable ==> #[trigger] representable(base, size, c),
                usable < CHUNKS ==> !representable(base, size, usable),
            ensures
                total == chunk_start(base, usable),
            decreases CHUNKS - chunk,
        {
            if Self::chunk_bytes(chunk).is_none() {
                break;
            }
            assert(representable(base, size, chunk as nat));
            let capacity: usize = Self::chunk_capacity_unchecked(chunk);
            proof {
                lemma_chunk_start_next(base, chunk as nat);
                lemma_chunk_start_monotone(base, chunk as nat + 1, usable);
            }
            match total.checked_add(capacity) {
                Some(next) => {
                    total = next;
                },
                None => {
                    return usize::MAX;
                },
            }
            chunk += 1;
        }
        total
    }
}

} // verus!
