//! What the words of the contracts mean.
//!
//! The contracts speak of the geometry of the chunks, of orders, of folds and of texts
//! by words of their own. The laws here say what follows of each word in plain terms:
//! sums of slots, first differences, single calls, digits.

use crate::array::ExponentialArray;
use crate::bulk::all_cloned;
use crate::chunk::{placed, refused, Chunk};
use crate::chunks::{slice_views, Chunks};
use crate::chunks_mut::ChunksMut;
use crate::compare::{
    cmp_says, eq_outcome, order_outcome, partial_cmp_says, seq_cmp, seq_eq, seq_partial_cmp,
    stops_at,
};
use crate::convert::extension_slots;
use crate::error::{TryPushError, TryReserveError, TryReserveErrorKind};
use crate::geometry::{
    chunk_exponent, chunk_of, chunk_slots, chunks_for, lemma_chunk_of, lemma_chunk_start_next,
    lemma_chunks_for, lemma_lives_at, lemma_representable_start,
    lemma_usable_chunks, lives_at, offset_of, representable, usable_chunks,
};
use crate::hash::in_range;
use crate::into_iter::IntoIter;
use crate::iter::{folded, Iter};
use crate::iter_mut::held;
use crate::laws::{
    segments_fill_their_chunks, segments_join_to_the_contents, slots_add_up, total_slots,
    usable_means_representable,
};
use crate::text::decimal;
use core::cmp::Ordering;
use vstd::arithmetic::power2::{
    lemma2_to64, lemma2_to64_rest, lemma_pow2_strictly_increases, pow2,
};
use vstd::layout;
use vstd::prelude::*;
use vstd::std_specs::cmp::{OrdSpec, PartialEqSpec, PartialOrdSpec};
use vstd::std_specs::iter::{DoubleEndedIteratorSpec, IteratorSpec};

verus! {

// The geometry of the chunks.

/// The first chunk has `2^base` slots, and chunk `chunk` after it has
/// `2^(base + chunk - 1)`.
pub proof fn chunks_have_powers_of_two(base: nat, chunk: nat)
    ensures
        chunk_slots(base, 0) == pow2(base),
        chunk > 0 ==> chunk_slots(base, chunk) == pow2((base + chunk - 1) as nat),
{
}

/// An index lies in the chunk before whose end, and not before whose start, there are so
/// many slots, and its offset is the number of slots of the chunk before it.
pub proof fn indices_lie_in_their_chunks(base: nat, index: int)
    requires
        0 <= index,
    ensures
        total_slots(base, chunk_of(base, index)) <= index < total_slots(
            base,
            chunk_of(base, index) + 1,
        ),
        offset_of(base, index) == index - total_slots(base, chunk_of(base, index)),
{
    let chunk = chunk_of(base, index);
    lemma_chunk_of(base, index);
    slots_add_up(base, chunk);
    slots_add_up(base, chunk + 1);
    lemma_chunk_start_next(base, chunk);
}

/// A slot stores an index exactly if it is in a chunk and there are as many slots before
/// it as the index says.
pub proof fn slots_store_the_index_that_counts_them(
    base: nat,
    index: int,
    chunk: int,
    offset: int,
)
    ensures
        lives_at(base, index, chunk, offset) <==> 0 <= chunk && 0 <= offset < chunk_slots(
            base,
            chunk as nat,
        ) && total_slots(base, chunk as nat) + offset == index,
{
    slots_add_up(base, chunk as nat);
}

/// The chunks that a number of slots takes have so many slots, and one chunk less has
/// not.
pub proof fn chunks_for_slots_are_the_least(base: nat, count: int)
    requires
        0 <= count,
    ensures
        count <= total_slots(base, chunks_for(base, count)),
        chunks_for(base, count) > 0 ==> total_slots(
            base,
            (chunks_for(base, count) - 1) as nat,
        ) < count,
{
    let chunks = chunks_for(base, count);
    lemma_chunks_for(base, count, chunks);
    slots_add_up(base, chunks);
    if chunks > 0 {
        lemma_chunks_for(base, count, (chunks - 1) as nat);
        slots_add_up(base, (chunks - 1) as nat);
    }
}

/// A chunk can be addressed exactly if its slots can be counted in a `usize` and its
/// bytes in an `isize`.
pub proof fn representable_means_countable(base: nat, size: nat, chunk: nat)
    ensures
        representable(base, size, chunk) <==> chunk_slots(base, chunk) <= usize::MAX
            && chunk_slots(base, chunk) * size <= isize::MAX,
{
    lemma2_to64();
    lemma2_to64_rest();
    if representable(base, size, chunk) {
        lemma_representable_start(base, size, chunk);
    }
    if chunk_exponent(base, chunk) > usize::BITS {
        lemma_pow2_strictly_increases(usize::BITS as nat, chunk_exponent(base, chunk));
    }
}

/// The capacity of an array is the number of the slots of its chunks, as far as a `usize`
/// counts.
pub proof fn capacity_is_the_sum_of_the_chunks<T, const BASE_SHIFT: usize, const CHUNKS: usize>(
    array: &ExponentialArray<T, BASE_SHIFT, CHUNKS>,
    capacity: usize,
)
    requires
        call_ensures(ExponentialArray::<T, BASE_SHIFT, CHUNKS>::capacity, (array,), capacity),
    ensures
        ({
            let total = total_slots(BASE_SHIFT as nat, array.buffers().len());
            capacity == if total <= usize::MAX {
                total as int
            } else {
                usize::MAX as int
            }
        }),
{
    slots_add_up(BASE_SHIFT as nat, array.buffers().len());
}

/// The largest capacity is the number of the slots of the first chunks that can be
/// addressed, up to the limit of the configuration, as far as a `usize` counts.
pub proof fn the_limit_counts_the_chunks_that_can_be_addressed<
    T,
    const BASE_SHIFT: usize,
    const CHUNKS: usize,
>(max: usize)
    requires
        call_ensures(ExponentialArray::<T, BASE_SHIFT, CHUNKS>::max_capacity, (), max),
    ensures
        exists|chunks: nat|
            {
                &&& chunks <= CHUNKS
                &&& max == if #[trigger] total_slots(BASE_SHIFT as nat, chunks) <= usize::MAX {
                    total_slots(BASE_SHIFT as nat, chunks) as int
                } else {
                    usize::MAX as int
                }
                &&& forall|chunk: nat|
                    chunk < CHUNKS ==> (chunk < chunks <==> #[trigger] chunk_slots(
                        BASE_SHIFT as nat,
                        chunk,
                    ) <= usize::MAX && chunk_slots(BASE_SHIFT as nat, chunk)
                        * layout::size_of::<T>() <= isize::MAX)
            },
{
    let base = BASE_SHIFT as nat;
    let size = layout::size_of::<T>();
    let chunks = usable_chunks(base, size, CHUNKS as nat);
    slots_add_up(base, chunks);
    lemma_usable_chunks(base, size, CHUNKS as nat);
    assert forall|chunk: nat| chunk < CHUNKS implies (chunk < chunks <==> #[trigger] chunk_slots(
        base,
        chunk,
    ) <= usize::MAX && chunk_slots(base, chunk) * size <= isize::MAX) by {
        usable_means_representable(base, size, CHUNKS as nat, chunk);
        representable_means_countable(base, size, chunk);
    }
    assert(total_slots(base, chunks) >= 0);
}

/// An array that is made with a capacity is empty, and has no chunk more than the capacity
/// takes.
pub proof fn with_capacity_takes_the_least_chunks<
    T,
    const BASE_SHIFT: usize,
    const CHUNKS: usize,
>(capacity: usize, array: ExponentialArray<T, BASE_SHIFT, CHUNKS>)
    requires
        call_ensures(
            ExponentialArray::<T, BASE_SHIFT, CHUNKS>::with_capacity,
            (capacity,),
            array,
        ),
    ensures
        array@.len() == 0,
        capacity <= total_slots(BASE_SHIFT as nat, array.buffers().len()),
        array.buffers().len() > 0 ==> total_slots(
            BASE_SHIFT as nat,
            (array.buffers().len() - 1) as nat,
        ) < capacity,
{
    chunks_for_slots_are_the_least(BASE_SHIFT as nat, capacity as int);
}

/// The address of an element is that of its chunk and as many bytes more as the slots of
/// the chunk before it take, as far as a `usize` counts.
pub proof fn addresses_count_from_the_chunk<T, const BASE_SHIFT: usize, const CHUNKS: usize>(
    array: &ExponentialArray<T, BASE_SHIFT, CHUNKS>,
    chunk: nat,
    offset: nat,
)
    requires
        offset < chunk_slots(BASE_SHIFT as nat, chunk),
    ensures
        ({
            let sum = array.buffers()[chunk as int] + offset * layout::size_of::<T>();
            array.address((total_slots(BASE_SHIFT as nat, chunk) + offset) as int) == if sum <= usize::MAX {
                sum
            } else {
                usize::MAX as int
            }
        }),
{
    let base = BASE_SHIFT as nat;
    slots_add_up(base, chunk);
    lemma_lives_at(
        base,
        (total_slots(base, chunk) + offset) as int,
        chunk as int,
        offset as int,
    );
}

/// An extension asks for the larger of what it was told to expect and what it ends with.
pub proof fn extensions_ask_for_the_larger_number(len: int, hint: int, end: int)
    ensures
        extension_slots(len, hint, end) >= len + hint,
        extension_slots(len, hint, end) >= end,
        extension_slots(len, hint, end) == len + hint || extension_slots(len, hint, end) == end,
{
}

// Sequences.

/// Clones of all elements are as many as the elements, and each is a clone of the one at
/// its place.
pub proof fn all_cloned_means_each<T: Clone>(originals: Seq<T>, copies: Seq<T>)
    ensures
        all_cloned(originals, copies) <==> copies.len() == originals.len() && forall|i: int|
            #![trigger copies[i]]
            0 <= i < originals.len() ==> cloned(originals[i], copies[i]),
{
}

/// A sequence has an element at the indices below its length and at no other.
pub proof fn in_range_means_below_the_length<T>(contents: Seq<T>, index: int)
    ensures
        in_range(contents, index) <==> 0 <= index < contents.len(),
{
}

/// The views of slices are what they hold, one for each, in order.
pub proof fn slice_views_are_what_slices_hold<T>(slices: Seq<&[T]>)
    ensures
        slice_views(slices).len() == slices.len(),
        forall|i: int|
            #![trigger slices[i]]
            0 <= i < slices.len() ==> slice_views(slices)[i] == slices[i]@,
{
}

/// What mutable slices hold is one sequence for each, in order.
pub proof fn mutable_slices_hold_one_sequence_each<'a, T>(slices: Seq<&'a mut [T]>)
    ensures
        held(slices).len() == slices.len(),
        forall|i: int|
            #![trigger slices[i]]
            0 <= i < slices.len() ==> held(slices)[i] == slices[i]@,
{
}

/// An iterator over an array has a reference to each element, in order.
pub proof fn iterators_refer_to_every_element<'a, T, const BASE_SHIFT: usize, const CHUNKS: usize>(
    array: &'a ExponentialArray<T, BASE_SHIFT, CHUNKS>,
    iter: Iter<'a, T, BASE_SHIFT, CHUNKS>,
)
    requires
        call_ensures(ExponentialArray::<T, BASE_SHIFT, CHUNKS>::iter, (array,), iter),
    ensures
        iter.items().len() == array@.len(),
        forall|i: int|
            #![trigger iter.items()[i]]
            0 <= i < array@.len() ==> *iter.items()[i] == array@[i],
{
}

/// Iterators follow the laws of iterators, from both ends: what they have left is what
/// they say is left, each item comes in its turn, and then none does.
pub proof fn iterators_follow_the_laws<'a, T, const BASE_SHIFT: usize, const CHUNKS: usize>(
    iter: Iter<'a, T, BASE_SHIFT, CHUNKS>,
    chunks: Chunks<'a, T, BASE_SHIFT, CHUNKS>,
    owned: IntoIter<T, BASE_SHIFT, CHUNKS>,
    lent: ChunksMut<'a, T, BASE_SHIFT, CHUNKS>,
    index: int,
)
    ensures
        iter.obeys_prophetic_iter_laws() && iter.will_return_none(),
        iter.remaining() == iter.items(),
        iter.decrease() == Some(iter.items().len()),
        chunks.obeys_prophetic_iter_laws() && chunks.will_return_none(),
        chunks.remaining() == chunks.items(),
        chunks.decrease() == Some(chunks.items().len()),
        owned.obeys_prophetic_iter_laws() && owned.will_return_none(),
        owned.remaining() == owned.items(),
        owned.decrease() == Some(owned.items().len()),
        lent.obeys_prophetic_iter_laws() && lent.will_return_none(),
        lent.remaining() == lent.items(),
        lent.decrease() == Some(lent.items().len()),
        0 <= index < iter.items().len() ==> {
            &&& iter.peek(index) == Some(iter.items()[index])
            &&& iter.peek_back(index) == Some(iter.items()[iter.items().len() - 1 - index])
        },
        0 <= index < chunks.items().len() ==> {
            &&& chunks.peek(index) == Some(chunks.items()[index])
            &&& chunks.peek_back(index) == Some(chunks.items()[chunks.items().len() - 1 - index])
        },
        0 <= index < owned.items().len() ==> {
            &&& owned.peek(index) == Some(owned.items()[index])
            &&& owned.peek_back(index) == Some(owned.items()[owned.items().len() - 1 - index])
        },
        0 <= index < lent.items().len() ==> {
            &&& lent.peek(index) == Some(lent.items()[index])
            &&& lent.peek_back(index) == Some(lent.items()[lent.items().len() - 1 - index])
        },
{
}

/// An array can be indexed exactly below its length.
pub proof fn indices_below_the_length_are_valid<T, const BASE_SHIFT: usize, const CHUNKS: usize>(
    array: &ExponentialArray<T, BASE_SHIFT, CHUNKS>,
    index: usize,
)
    requires
        array.wf(),
    ensures
        vstd::std_specs::core::IndexSpec::index_req(array, &index) <==> index < array@.len(),
{
}

/// The chunk of an index is in an allocation that was made for the slots of the chunk and
/// that gave its address.
pub proof fn allocations_are_made_for_chunks<T, const BASE_SHIFT: usize, const CHUNKS: usize>(
    array: &ExponentialArray<T, BASE_SHIFT, CHUNKS>,
    index: int,
)
    ensures
        array.in_allocation(index) <==> placed::<T>(
            chunk_slots(BASE_SHIFT as nat, chunk_of(BASE_SHIFT as nat, index)) as usize,
            array.buffers()[chunk_of(BASE_SHIFT as nat, index) as int],
        ),
{
}

/// A chunk is refused where the allocator refused its slots or a place in the table of the
/// chunks.
pub(crate) proof fn chunks_are_refused_by_the_allocator<
    T,
    const BASE_SHIFT: usize,
    const CHUNKS: usize,
>(chunk: nat)
    requires
        ExponentialArray::<T, BASE_SHIFT, CHUNKS>::chunk_refused(chunk),
    ensures
        refused::<T>(chunk_slots(BASE_SHIFT as nat, chunk) as usize) || exists|
            at: &mut Vec<Chunk<T>>,
            answer: Result<(), std::collections::TryReserveError>,
        |
            (*at)@.len() == chunk && answer is Err && #[trigger] call_ensures(
                Vec::<Chunk<T>>::try_reserve,
                (at, 1usize),
                answer,
            ),
{
}

/// The contiguous slices of an array are its elements, in order. None is empty, and each
/// but the last is as long as its chunk.
pub proof fn slices_are_the_elements<'a, T, const BASE_SHIFT: usize, const CHUNKS: usize>(
    array: &'a ExponentialArray<T, BASE_SHIFT, CHUNKS>,
    chunks: Chunks<'a, T, BASE_SHIFT, CHUNKS>,
)
    requires
        call_ensures(ExponentialArray::<T, BASE_SHIFT, CHUNKS>::chunks, (array,), chunks),
    ensures
        slice_views(chunks.items()).flatten() == array@,
        forall|c: int|
            #![trigger chunks.items()[c]]
            0 <= c < chunks.items().len() ==> {
                &&& 0 < chunks.items()[c]@.len() <= chunk_slots(BASE_SHIFT as nat, c as nat)
                &&& c + 1 < chunks.items().len() ==> chunks.items()[c]@.len() == chunk_slots(
                    BASE_SHIFT as nat,
                    c as nat,
                )
            },
{
    let views = slice_views(chunks.items());
    segments_join_to_the_contents(BASE_SHIFT as nat, array@);
    assert forall|c: int| 0 <= c < chunks.items().len() implies {
        &&& 0 < (#[trigger] chunks.items()[c])@.len() <= chunk_slots(BASE_SHIFT as nat, c as nat)
        &&& c + 1 < chunks.items().len() ==> chunks.items()[c]@.len() == chunk_slots(
            BASE_SHIFT as nat,
            c as nat,
        )
    } by {
        assert(views[c] == chunks.items()[c]@);
        segments_fill_their_chunks(BASE_SHIFT as nat, array@, c);
    }
}

/// A fold calls its function once for each item, from the first to the last, each time
/// with what came of the call before.
pub proof fn folds_call_once_for_each_item<A, B, F: FnMut(B, A) -> B>(
    fold: F,
    init: B,
    items: Seq<A>,
    result: B,
)
    requires
        folded(fold, init, items, result),
    ensures
        exists|totals: Seq<B>|
            {
                &&& #[trigger] totals.len() == items.len() + 1
                &&& totals[0] == init
                &&& totals.last() == result
                &&& forall|i: int|
                    #![trigger items[i]]
                    0 <= i < items.len() ==> call_ensures(
                        fold,
                        (totals[i], items[i]),
                        totals[i + 1],
                    )
            },
    decreases items.len(),
{
    if items.len() == 0 {
        assert(seq![init].len() == items.len() + 1);
    } else {
        let fewer = items.drop_last();
        let before = choose|before: B|
            folded(fold, init, fewer, before) && #[trigger] call_ensures(
                fold,
                (before, items.last()),
                result,
            );
        folds_call_once_for_each_item(fold, init, fewer, before);
        let totals = choose|totals: Seq<B>|
            {
                &&& #[trigger] totals.len() == fewer.len() + 1
                &&& totals[0] == init
                &&& totals.last() == before
                &&& forall|i: int|
                    #![trigger fewer[i]]
                    0 <= i < fewer.len() ==> call_ensures(
                        fold,
                        (totals[i], fewer[i]),
                        totals[i + 1],
                    )
            };
        let more = totals.push(result);
        assert(more.len() == items.len() + 1);
        assert forall|i: int| 0 <= i < items.len() implies call_ensures(
            fold,
            (more[i], #[trigger] items[i]),
            more[i + 1],
        ) by {
            if i < fewer.len() {
                assert(fewer[i] == items[i]);
            }
        }
    }
}

// Comparisons.

/// Sequences are equal exactly if they are as long as each other and each element equals
/// the one at its place.
pub proof fn sequences_are_equal_element_by_element<T: PartialEq<U>, U>(
    left: Seq<T>,
    right: Seq<U>,
)
    ensures
        seq_eq(left, right) <==> left.len() == right.len() && forall|i: int|
            #![trigger left[i]]
            0 <= i < left.len() ==> left[i].eq_spec(&right[i]),
{
    if left.len() == right.len() && forall|i: int|
        #![trigger left[i]]
        0 <= i < left.len() ==> left[i].eq_spec(&right[i]) {
        assert forall|i: int| 0 <= i < left.len() implies left[i].eq_spec(
            #[trigger] &right[i],
        ) by {
            assert(left[i].eq_spec(&right[i]));
        }
    }
}

/// An array equals a slice, an array of fixed length or a vector exactly if it is as long
/// and each element equals the one at its place.
pub proof fn arrays_equal_what_holds_equal_elements<
    T: PartialEq<U>,
    U,
    const BASE_SHIFT: usize,
    const CHUNKS: usize,
    const N: usize,
>(
    array: &ExponentialArray<T, BASE_SHIFT, CHUNKS>,
    slice: &[U],
    fixed: &[U; N],
    vector: &Vec<U>,
)
    requires
        array.wf(),
    ensures
        array.eq_spec(slice) <==> seq_eq(array@, slice@),
        array.eq_spec(&slice) <==> seq_eq(array@, slice@),
        array.eq_spec(fixed) <==> seq_eq(array@, fixed@),
        array.eq_spec(&fixed) <==> seq_eq(array@, fixed@),
        array.eq_spec(vector) <==> seq_eq(array@, vector@),
        array.eq_spec(&vector) <==> seq_eq(array@, vector@),
        T::obeys_eq_spec() ==> {
            &&& <ExponentialArray<T, BASE_SHIFT, CHUNKS> as PartialEqSpec<[U]>>::obeys_eq_spec()
            &&& <ExponentialArray<T, BASE_SHIFT, CHUNKS> as PartialEqSpec<&[U]>>::obeys_eq_spec()
            &&& <ExponentialArray<T, BASE_SHIFT, CHUNKS> as PartialEqSpec<[U; N]>>::obeys_eq_spec()
            &&& <ExponentialArray<T, BASE_SHIFT, CHUNKS> as PartialEqSpec<&[U; N]>>::obeys_eq_spec()
            &&& <ExponentialArray<T, BASE_SHIFT, CHUNKS> as PartialEqSpec<Vec<U>>>::obeys_eq_spec()
            &&& <ExponentialArray<T, BASE_SHIFT, CHUNKS> as PartialEqSpec<&Vec<U>>>::obeys_eq_spec()
        },
{
    array.lemma_view();
}

/// What is said to be equal was found equal at each index, and what is said not to be was
/// found so at one, or has another length.
pub proof fn equality_is_found_element_by_element<T: PartialEq<U>, U>(
    left: Seq<T>,
    right: Seq<U>,
    equal: bool,
)
    requires
        eq_outcome(left, right, equal),
    ensures
        equal ==> left.len() == right.len() && forall|i: int|
            #![trigger left[i]]
            0 <= i < left.len() ==> call_ensures(
                <T as PartialEq<U>>::eq,
                (&left[i], &right[i]),
                true,
            ),
        !equal ==> left.len() != right.len() || exists|i: int|
            #![trigger left[i]]
            0 <= i < left.len() && call_ensures(
                <T as PartialEq<U>>::eq,
                (&left[i], &right[i]),
                false,
            ),
{
}

/// The order of two sequences is that of the first elements that are not equal in order;
/// and if there are none, the one that ends first is less.
pub proof fn order_is_that_of_the_first_difference<T: Ord>(
    left: Seq<T>,
    right: Seq<T>,
    stop: int,
)
    requires
        0 <= stop <= left.len(),
        stop <= right.len(),
        forall|i: int|
            #![trigger left[i]]
            0 <= i < stop ==> left[i].cmp_spec(&right[i]) == Ordering::Equal,
    ensures
        stop < left.len() && stop < right.len() && left[stop].cmp_spec(&right[stop])
            != Ordering::Equal ==> seq_cmp(left, right) == left[stop].cmp_spec(&right[stop]),
        stop == left.len() && stop < right.len() ==> seq_cmp(left, right) == Ordering::Less,
        stop < left.len() && stop == right.len() ==> seq_cmp(left, right) == Ordering::Greater,
        stop == left.len() && stop == right.len() ==> seq_cmp(left, right) == Ordering::Equal,
    decreases stop,
{
    if stop > 0 {
        let next_left = left.drop_first();
        let next_right = right.drop_first();
        assert(left[0].cmp_spec(&right[0]) == Ordering::Equal);
        assert forall|i: int| 0 <= i < stop - 1 implies (#[trigger] next_left[i]).cmp_spec(
            &next_right[i],
        ) == Ordering::Equal by {
            assert(left[i + 1].cmp_spec(&right[i + 1]) == Ordering::Equal);
        }
        order_is_that_of_the_first_difference(next_left, next_right, stop - 1);
    }
}

/// The partial order of two sequences is that of the first elements that are not equal in
/// order, if they have one; and if there are none, the sequence that ends first is less.
pub proof fn partial_order_is_that_of_the_first_difference<T: PartialOrd<U>, U>(
    left: Seq<T>,
    right: Seq<U>,
    stop: int,
)
    requires
        0 <= stop <= left.len(),
        stop <= right.len(),
        forall|i: int|
            #![trigger left[i]]
            0 <= i < stop ==> left[i].partial_cmp_spec(&right[i]) == Some(Ordering::Equal),
    ensures
        stop < left.len() && stop < right.len() && left[stop].partial_cmp_spec(&right[stop])
            != Some(Ordering::Equal) ==> seq_partial_cmp(left, right)
            == left[stop].partial_cmp_spec(&right[stop]),
        stop == left.len() && stop < right.len() ==> seq_partial_cmp(left, right) == Some(
            Ordering::Less,
        ),
        stop < left.len() && stop == right.len() ==> seq_partial_cmp(left, right) == Some(
            Ordering::Greater,
        ),
        stop == left.len() && stop == right.len() ==> seq_partial_cmp(left, right) == Some(
            Ordering::Equal,
        ),
    decreases stop,
{
    if stop > 0 {
        let next_left = left.drop_first();
        let next_right = right.drop_first();
        assert(left[0].partial_cmp_spec(&right[0]) == Some(Ordering::Equal));
        assert forall|i: int| 0 <= i < stop - 1 implies (#[trigger] next_left[i]).partial_cmp_spec(
            &next_right[i],
        ) == Some(Ordering::Equal) by {
            assert(left[i + 1].partial_cmp_spec(&right[i + 1]) == Some(Ordering::Equal));
        }
        partial_order_is_that_of_the_first_difference(next_left, next_right, stop - 1);
    }
}

/// A comparison of the two types gives what their order is said to be.
pub open spec fn follows_its_order<A: PartialOrd<B>, B: ?Sized>() -> bool {
    A::obeys_partial_cmp_spec()
}

/// An array is compared with another, a slice, an array of fixed length or a vector as
/// the sequence of its elements.
pub proof fn arrays_are_compared_as_sequences<
    T: PartialOrd<U>,
    U,
    const BASE_SHIFT: usize,
    const CHUNKS: usize,
    const OTHER_BASE_SHIFT: usize,
    const OTHER_CHUNKS: usize,
    const N: usize,
>(
    array: &ExponentialArray<T, BASE_SHIFT, CHUNKS>,
    other: &ExponentialArray<U, OTHER_BASE_SHIFT, OTHER_CHUNKS>,
    slice: &[U],
    fixed: &[U; N],
    vector: &Vec<U>,
)
    ensures
        array.partial_cmp_spec(other) == seq_partial_cmp(array@, other@),
        array.partial_cmp_spec(slice) == seq_partial_cmp(array@, slice@),
        array.partial_cmp_spec(&slice) == seq_partial_cmp(array@, slice@),
        array.partial_cmp_spec(fixed) == seq_partial_cmp(array@, fixed@),
        array.partial_cmp_spec(&fixed) == seq_partial_cmp(array@, fixed@),
        array.partial_cmp_spec(vector) == seq_partial_cmp(array@, vector@),
        array.partial_cmp_spec(&vector) == seq_partial_cmp(array@, vector@),
        T::obeys_partial_cmp_spec() ==> {
            &&& follows_its_order::<
                ExponentialArray<T, BASE_SHIFT, CHUNKS>,
                ExponentialArray<U, OTHER_BASE_SHIFT, OTHER_CHUNKS>,
            >()
            &&& follows_its_order::<ExponentialArray<T, BASE_SHIFT, CHUNKS>, [U]>()
            &&& follows_its_order::<ExponentialArray<T, BASE_SHIFT, CHUNKS>, &[U]>()
            &&& follows_its_order::<ExponentialArray<T, BASE_SHIFT, CHUNKS>, [U; N]>()
            &&& follows_its_order::<ExponentialArray<T, BASE_SHIFT, CHUNKS>, &[U; N]>()
            &&& follows_its_order::<ExponentialArray<T, BASE_SHIFT, CHUNKS>, Vec<U>>()
            &&& follows_its_order::<ExponentialArray<T, BASE_SHIFT, CHUNKS>, &Vec<U>>()
        },
{
}

/// A comparison element by element stops somewhere. The elements before are all said to
/// be equal in order, and what is said of the elements there, or else of the lengths, is
/// the outcome.
pub proof fn an_order_is_found_at_the_first_difference<A, B>(
    says: spec_fn(A, B, Option<Ordering>) -> bool,
    left: Seq<A>,
    right: Seq<B>,
    result: Option<Ordering>,
)
    requires
        order_outcome(says, left, right, result),
    ensures
        exists|stop: int|
            {
                &&& #[trigger] stops_at(says, left, right, stop, result)
                &&& 0 <= stop <= left.len()
                &&& stop <= right.len()
                &&& forall|i: int|
                    #![trigger left[i]]
                    0 <= i < stop ==> says(left[i], right[i], Some(Ordering::Equal))
                &&& stop < left.len() && stop < right.len() ==> result != Some(Ordering::Equal)
                    && says(left[stop], right[stop], result)
                &&& stop == left.len() && stop < right.len() ==> result == Some(Ordering::Less)
                &&& stop < left.len() && stop == right.len() ==> result == Some(Ordering::Greater)
                &&& stop == left.len() && stop == right.len() ==> result == Some(Ordering::Equal)
            },
{
}

/// What is said of two elements is what comes of comparing them.
pub proof fn what_is_said_is_what_a_comparison_gives<T: PartialOrd<U>, U, V: Ord>(
    left: T,
    right: U,
    first: V,
    second: V,
    order: Option<Ordering>,
)
    ensures
        partial_cmp_says::<T, U>()(left, right, order) <==> call_ensures(
            T::partial_cmp,
            (&left, &right),
            order,
        ),
        cmp_says::<V>()(first, second, order) <==> order is Some && call_ensures(
            V::cmp,
            (&first, &second),
            order->0,
        ),
{
}

// Texts.

/// The number that a text of decimal digits is.
pub open spec fn number(text: Seq<char>) -> int
    decreases text.len(),
{
    if text.len() == 0 {
        0
    } else {
        number(text.drop_last()) * 10 + (text.last() as int - '0' as int)
    }
}

/// A number in decimal digits is a text of digits that is the number, and starts with no
/// zero unless it is zero itself.
pub proof fn decimal_digits_are_the_number(value: nat)
    ensures
        number(decimal(value)) == value,
        decimal(value).len() > 0,
        forall|i: int|
            #![trigger decimal(value)[i]]
            0 <= i < decimal(value).len() ==> '0' <= decimal(value)[i] <= '9',
        decimal(value)[0] == '0' ==> value == 0 && decimal(value).len() == 1,
    decreases value,
{
    let text = decimal(value);
    if value < 10 {
        assert(number(text.drop_last()) == 0);
    } else {
        decimal_digits_are_the_number(value / 10);
        assert(text.drop_last() =~= decimal(value / 10));
        assert(text[0] == decimal(value / 10)[0]);
    }
}

/// A failed reservation says why it failed, with the numbers in decimal digits.
pub proof fn errors_name_their_numbers(error: &TryReserveError, text: String)
    requires
        call_ensures(TryReserveError::to_string, (error,), text),
    ensures
        match error@ {
            TryReserveErrorKind::CapacityOverflow => text@ == "requested capacity overflows usize"@,
            TryReserveErrorKind::CapacityExceeded { requested, max } => text@
                == "requested capacity "@ + decimal(requested as nat)
                + " exceeds maximum capacity "@ + decimal(max as nat),
            TryReserveErrorKind::AllocError { size, align } => text@
                == "memory allocation failed for layout with size "@ + decimal(size as nat)
                + " and align "@ + decimal(align as nat),
        },
{
}

/// A failed push says that it failed, and why.
pub proof fn push_errors_name_their_reason<T>(error: &TryPushError<T>, text: String, reason: String)
    requires
        call_ensures(TryPushError::<T>::to_string, (error,), text),
        call_ensures(TryReserveError::to_string, (&error.reason(),), reason),
    ensures
        text@ == "could not push value: "@ + reason@,
{
}

/// A failed push reads in program text as its fields do, with a placeholder for the value.
pub proof fn push_errors_read_as_their_fields<T>(error: &TryPushError<T>, text: String)
    requires
        call_ensures(TryPushError::<T>::debug_string, (error,), text),
    ensures
        ({
            let before = "TryPushError { value: \"<value>\", error: TryReserveError { kind: "@;
            text@ == before + match error.reason()@ {
                TryReserveErrorKind::CapacityOverflow => "CapacityOverflow"@,
                TryReserveErrorKind::CapacityExceeded {
                    requested,
                    max,
                } => "CapacityExceeded { requested: "@ + decimal(requested as nat) + ", max: "@
                    + decimal(max as nat) + " }"@,
                TryReserveErrorKind::AllocError {
                    size,
                    align,
                } => "AllocError { size: "@ + decimal(size as nat) + ", align: "@ + decimal(
                    align as nat,
                ) + " }"@,
            } + " } }"@
        }),
{
}

} // verus!
