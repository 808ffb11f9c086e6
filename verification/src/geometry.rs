//! Where an index lives.
//!
//! The first two chunks have `2^base` slots each, and each later chunk has twice
//! the slots of the one before it. Chunk `0` therefore stores the indices below
//! `2^base`, and chunk `c > 0` the power-of-two range from `2^(base + c - 1)` up
//! to, but not including, `2^(base + c)`.

use vstd::arithmetic::power2::{
    lemma2_to64, lemma2_to64_rest, lemma_pow2_adds, lemma_pow2_pos, lemma_pow2_strictly_increases,
    lemma_pow2_unfold, pow2,
};
use vstd::bits::lemma_usize_pow2_no_overflow;
use vstd::prelude::*;
use vstd::std_specs::bits::u64_leading_zeros;

verus! {

/// The base-2 exponent of the number of slots in chunk `chunk`.
pub open spec fn chunk_exponent(base: nat, chunk: nat) -> nat {
    if chunk == 0 {
        base
    } else {
        (base + chunk - 1) as nat
    }
}

/// The number of slots in chunk `chunk`.
pub open spec fn chunk_slots(base: nat, chunk: nat) -> nat {
    pow2(chunk_exponent(base, chunk))
}

/// The index of the first slot of chunk `chunk`, which is also the number of
/// slots in all the chunks before it.
pub open spec fn chunk_start(base: nat, chunk: nat) -> nat {
    if chunk == 0 {
        0
    } else {
        pow2((base + chunk - 1) as nat)
    }
}

/// Chunk `chunk` stores `index`, at `offset` slots from its start.
pub open spec fn lives_at(base: nat, index: int, chunk: int, offset: int) -> bool {
    &&& 0 <= chunk
    &&& 0 <= offset < chunk_slots(base, chunk as nat)
    &&& chunk_start(base, chunk as nat) + offset == index
}

/// Chunk `chunk` stores `index`.
pub open spec fn in_chunk(base: nat, index: int, chunk: nat) -> bool {
    chunk_start(base, chunk) <= index < chunk_start(base, chunk) + chunk_slots(base, chunk)
}

/// The chunk that stores `index`.
pub open spec fn chunk_of(base: nat, index: int) -> nat {
    choose|chunk: nat| in_chunk(base, index, chunk)
}

/// The slot of its chunk that `index` names.
pub open spec fn offset_of(base: nat, index: int) -> int {
    index - chunk_start(base, chunk_of(base, index))
}

/// The least number of chunks that together have `count` slots.
pub open spec fn chunks_for(base: nat, count: int) -> nat {
    if count <= 0 {
        0
    } else {
        chunk_of(base, count - 1) + 1
    }
}

/// How many of the first `len` indices chunk `chunk` stores.
pub open spec fn filled(base: nat, len: int, chunk: nat) -> nat {
    if len <= chunk_start(base, chunk) {
        0
    } else if len >= chunk_start(base, chunk) + chunk_slots(base, chunk) {
        chunk_slots(base, chunk)
    } else {
        (len - chunk_start(base, chunk)) as nat
    }
}

/// A chunk `chunk` of elements of `size` bytes can be addressed: its slots can be
/// counted in a `usize` and its bytes in an `isize`.
pub open spec fn representable(base: nat, size: nat, chunk: nat) -> bool {
    &&& chunk_exponent(base, chunk) < usize::BITS
    &&& chunk_slots(base, chunk) * size <= isize::MAX
}

/// How many of the first `limit` chunks can be addressed, up to the first that
/// cannot.
pub open spec fn usable_chunks(base: nat, size: nat, limit: nat) -> nat
    decreases limit,
{
    if limit == 0 {
        0
    } else {
        let before = usable_chunks(base, size, (limit - 1) as nat);
        if before == limit - 1 && representable(base, size, before) {
            limit
        } else {
            before
        }
    }
}

/// The number of slots in the first `chunks` chunks, as far as a `usize` counts.
pub open spec fn counted_slots(base: nat, chunks: nat) -> usize {
    if chunk_start(base, chunks) <= usize::MAX {
        chunk_start(base, chunks) as usize
    } else {
        usize::MAX
    }
}

/// The chunks lie end to end: one starts where the one before it ends.
pub proof fn lemma_chunk_start_next(base: nat, chunk: nat)
    ensures
        chunk_start(base, chunk) + chunk_slots(base, chunk) == chunk_start(base, chunk + 1),
        chunk_slots(base, chunk) > 0,
{
    lemma_pow2_pos(chunk_exponent(base, chunk));
    if chunk > 0 {
        lemma_pow2_unfold(base + chunk);
    }
}

/// Later chunks start later.
pub proof fn lemma_chunk_start_monotone(base: nat, before: nat, after: nat)
    requires
        before <= after,
    ensures
        chunk_start(base, before) <= chunk_start(base, after),
        before < after ==> chunk_start(base, before) + chunk_slots(base, before) <= chunk_start(
            base,
            after,
        ),
    decreases after - before,
{
    if before < after {
        lemma_chunk_start_next(base, before);
        lemma_chunk_start_monotone(base, before + 1, after);
    }
}

/// The first `count` indices lie in the first `count + 1` chunks.
proof fn lemma_chunk_start_grows(base: nat, count: nat)
    ensures
        chunk_start(base, count + 1) > count,
    decreases count,
{
    if count == 0 {
        lemma_pow2_pos(base);
    } else {
        lemma_chunk_start_grows(base, (count - 1) as nat);
        lemma_chunk_start_next(base, count);
    }
}

/// Some chunk below `bound` stores `index`, if the chunks below `bound` reach it.
proof fn lemma_in_some_chunk(base: nat, index: int, bound: nat)
    requires
        0 <= index < chunk_start(base, bound),
    ensures
        exists|chunk: nat| chunk < bound && in_chunk(base, index, chunk),
    decreases bound,
{
    let last = (bound - 1) as nat;
    lemma_chunk_start_next(base, last);
    if index < chunk_start(base, last) {
        lemma_in_some_chunk(base, index, last);
    } else {
        assert(in_chunk(base, index, last));
    }
}

/// Only one chunk stores `index`.
pub proof fn lemma_chunk_is_unique(base: nat, index: int, one: nat, other: nat)
    requires
        in_chunk(base, index, one),
        in_chunk(base, index, other),
    ensures
        one == other,
{
    if one < other {
        lemma_chunk_start_monotone(base, one, other);
    } else if other < one {
        lemma_chunk_start_monotone(base, other, one);
    }
}

/// Every index lives in exactly one slot of one chunk.
pub proof fn lemma_chunk_of(base: nat, index: int)
    requires
        0 <= index,
    ensures
        in_chunk(base, index, chunk_of(base, index)),
        lives_at(base, index, chunk_of(base, index) as int, offset_of(base, index)),
{
    lemma_chunk_start_grows(base, index as nat);
    lemma_in_some_chunk(base, index, (index + 1) as nat);
}

/// The chunk and the offset that name an index are the chunk and the offset of it.
pub proof fn lemma_lives_at(base: nat, index: int, chunk: int, offset: int)
    requires
        lives_at(base, index, chunk, offset),
    ensures
        chunk == chunk_of(base, index),
        offset == offset_of(base, index),
{
    lemma_chunk_of(base, index);
    lemma_chunk_is_unique(base, index, chunk as nat, chunk_of(base, index));
}

/// The indices before the start of chunk `bound` live in the chunks before it.
pub proof fn lemma_chunk_of_below(base: nat, index: int, bound: nat)
    requires
        0 <= index,
    ensures
        index < chunk_start(base, bound) <==> chunk_of(base, index) < bound,
{
    lemma_chunk_of(base, index);
    if chunk_of(base, index) < bound {
        lemma_chunk_start_monotone(base, chunk_of(base, index), bound);
    } else {
        lemma_chunk_start_monotone(base, bound, chunk_of(base, index));
    }
}

/// `chunks_for` is the least number of chunks with enough slots.
pub proof fn lemma_chunks_for(base: nat, count: int, chunks: nat)
    requires
        0 <= count,
    ensures
        count <= chunk_start(base, chunks) <==> chunks_for(base, count) <= chunks,
{
    if count > 0 {
        lemma_chunk_of_below(base, count - 1, chunks);
    }
}

/// Chunk `chunk` stores `filled` of the first `len` indices: an index below `len`
/// has its slot among them.
pub proof fn lemma_filled(base: nat, len: int, index: int)
    requires
        0 <= index,
    ensures
        index < len ==> offset_of(base, index) < filled(base, len, chunk_of(base, index)),
        index >= len ==> offset_of(base, index) >= filled(base, len, chunk_of(base, index)),
{
    lemma_chunk_of(base, index);
}

/// A value between `2^low` and `2^(low + 1)` times `2^base` lies between the
/// powers of two that are `base` higher.
pub proof fn lemma_scaled_bounds(base: nat, index: nat, low: nat)
    requires
        pow2(low) <= index / pow2(base) < pow2(low + 1),
    ensures
        pow2(base + low) <= index < pow2(base + low + 1),
{
    let unit = pow2(base) as int;
    let whole = index as int / unit;
    lemma_pow2_pos(base);
    vstd::arithmetic::div_mod::lemma_fundamental_div_mod(index as int, unit);
    lemma_pow2_adds(base, low);
    lemma_pow2_adds(base, low + 1);
    assert(unit * pow2(low) <= unit * whole) by (nonlinear_arith)
        requires
            unit > 0,
            pow2(low) <= whole,
    ;
    assert(unit * (whole + 1) <= unit * pow2(low + 1)) by (nonlinear_arith)
        requires
            unit > 0,
            whole + 1 <= pow2(low + 1),
    ;
    assert(unit * (whole + 1) == unit * whole + unit) by (nonlinear_arith);
    assert(base + (low + 1) == base + low + 1);
}

/// The usable chunks are the representable ones: each of them is representable,
/// and the first chunk past them is not, unless the limit cut them short.
pub proof fn lemma_usable_chunks(base: nat, size: nat, limit: nat)
    ensures
        usable_chunks(base, size, limit) <= limit,
        forall|chunk: nat|
            chunk < usable_chunks(base, size, limit) ==> #[trigger] representable(
                base,
                size,
                chunk,
            ),
        usable_chunks(base, size, limit) < limit ==> !representable(
            base,
            size,
            usable_chunks(base, size, limit),
        ),
    decreases limit,
{
    if limit > 0 {
        lemma_usable_chunks(base, size, (limit - 1) as nat);
    }
}

/// The slots of the representable chunks can be counted in one bit more than a
/// `usize` has.
pub proof fn lemma_representable_start(base: nat, size: nat, chunk: nat)
    requires
        representable(base, size, chunk),
    ensures
        chunk_slots(base, chunk) <= usize::MAX,
        chunk_start(base, chunk) <= usize::MAX,
        chunk_start(base, chunk + 1) <= usize::MAX + 1,
{
    lemma_usize_pow2_no_overflow(chunk_exponent(base, chunk));
    lemma_chunk_start_next(base, chunk);
    lemma_pow2_unfold(usize::BITS as nat);
    assert(pow2(usize::BITS as nat) == usize::MAX + 1) by {
        lemma2_to64();
        lemma2_to64_rest();
    }
    if chunk_exponent(base, chunk) + 1 < usize::BITS {
        lemma_usize_pow2_no_overflow(chunk_exponent(base, chunk) + 1);
        lemma_pow2_unfold(chunk_exponent(base, chunk) + 1);
    }
}

/// The slots of the chunk of an index can be counted, if the index can be and the
/// slots of the first chunk can be.
pub proof fn lemma_chunk_of_index(base: nat, index: usize)
    requires
        base < usize::BITS,
    ensures
        chunk_exponent(base, chunk_of(base, index as int)) < usize::BITS,
{
    let chunk = chunk_of(base, index as int);
    lemma_chunk_of(base, index as int);
    if chunk > 0 && base + chunk - 1 >= usize::BITS {
        lemma2_to64();
        lemma2_to64_rest();
        if base + chunk - 1 > usize::BITS {
            lemma_pow2_strictly_increases(usize::BITS as nat, (base + chunk - 1) as nat);
        }
    }
}

/// The leading zeros of a nonzero value tell between which powers of two it lies.
pub proof fn lemma_leading_zeros(value: u64)
    ensures
        0 <= u64_leading_zeros(value) <= 64,
        value > 0 ==> u64_leading_zeros(value) < 64 && pow2((63 - u64_leading_zeros(value)) as nat)
            <= value,
        value < pow2((64 - u64_leading_zeros(value)) as nat),
    decreases value,
{
    reveal(u64_leading_zeros);
    if value == 0 {
        lemma_pow2_pos(0);
    } else {
        lemma_leading_zeros(value / 2);
        lemma_pow2_unfold((64 - u64_leading_zeros(value)) as nat);
        if value / 2 == 0 {
            lemma2_to64();
        } else {
            lemma_pow2_unfold((63 - u64_leading_zeros(value)) as nat);
        }
    }
}

} // verus!
