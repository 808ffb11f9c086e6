//! What holds of the array as a whole.
//!
//! The functions of the library say what each of them does. The laws here say what
//! follows for a caller who uses several of them: they are stated over the models
//! that those contracts speak of.

use crate::array::{grown_to, ExponentialArray};
use crate::bulk::all_cloned;
use crate::compare::{seq_cmp, seq_eq, seq_partial_cmp};
use crate::contents::{lemma_packed, packed, segments};
use crate::error::TryReserveErrorKind;
use crate::geometry::{
    chunk_exponent, chunk_of, chunk_slots, chunk_start, counted_slots, filled, lemma_chunk_of,
    lemma_chunk_of_below, lemma_chunk_start_monotone, lemma_chunk_start_next, lemma_chunks_for,
    lemma_filled, lemma_lives_at, lemma_usable_chunks, lives_at, offset_of, representable,
    usable_chunks,
};
use crate::iter::folded;
use core::cmp::Ordering;
use vstd::arithmetic::power2::{lemma_pow2_strictly_increases, lemma_pow2_unfold};
use vstd::layout;
use vstd::prelude::*;
use vstd::std_specs::cmp::{OrdSpec, PartialEqSpec, PartialOrdSpec};

verus! {

// The geometry of the chunks.

/// The first two chunks have `2^base` slots each, and each later chunk has twice the
/// slots of the one before it.
pub proof fn chunks_double(base: nat, chunk: nat)
    ensures
        chunk_slots(base, 0) == chunk_slots(base, 1),
        chunk > 0 ==> chunk_slots(base, chunk + 1) == 2 * chunk_slots(base, chunk),
{
    if chunk > 0 {
        lemma_pow2_unfold(chunk_exponent(base, chunk + 1));
    }
}

/// The slots of the first chunks add up to the index where the next chunk starts.
pub open spec fn total_slots(base: nat, chunks: nat) -> nat
    decreases chunks,
{
    if chunks == 0 {
        0
    } else {
        total_slots(base, (chunks - 1) as nat) + chunk_slots(base, (chunks - 1) as nat)
    }
}

/// A chunk starts where the slots of the chunks before it end.
pub proof fn slots_add_up(base: nat, chunks: nat)
    ensures
        total_slots(base, chunks) == chunk_start(base, chunks),
    decreases chunks,
{
    if chunks > 0 {
        slots_add_up(base, (chunks - 1) as nat);
        lemma_chunk_start_next(base, (chunks - 1) as nat);
    }
}

/// A configuration holds as many elements as its usable chunks have slots together, as
/// far as a `usize` counts.
pub proof fn limit_is_the_sum_of_the_chunks<T, const BASE_SHIFT: usize, const CHUNKS: usize>()
    ensures
        ({
            let usable = usable_chunks(
                BASE_SHIFT as nat,
                layout::size_of::<T>(),
                CHUNKS as nat,
            );
            let total = total_slots(BASE_SHIFT as nat, usable);
            ExponentialArray::<T, BASE_SHIFT, CHUNKS>::slot_limit() == if total <= usize::MAX {
                total as int
            } else {
                usize::MAX as int
            }
        }),
{
    slots_add_up(
        BASE_SHIFT as nat,
        usable_chunks(BASE_SHIFT as nat, layout::size_of::<T>(), CHUNKS as nat),
    );
}

/// Every index has one slot of one chunk, and every slot is that of one index.
pub proof fn indices_and_slots_correspond(base: nat, index: int, chunk: int, offset: int)
    requires
        0 <= index,
    ensures
        lives_at(base, index, chunk, offset) <==> chunk == chunk_of(base, index) && offset
            == offset_of(base, index),
        0 <= chunk && 0 <= offset < chunk_slots(base, chunk as nat) ==> lives_at(
            base,
            chunk_start(base, chunk as nat) + offset,
            chunk,
            offset,
        ),
{
    lemma_chunk_of(base, index);
    if lives_at(base, index, chunk, offset) {
        lemma_lives_at(base, index, chunk, offset);
    }
}

/// A chunk that can be addressed comes after chunks that can be.
pub proof fn smaller_chunks_are_representable(base: nat, size: nat, before: nat, chunk: nat)
    requires
        before <= chunk,
        representable(base, size, chunk),
    ensures
        representable(base, size, before),
{
    if chunk_exponent(base, before) < chunk_exponent(base, chunk) {
        lemma_pow2_strictly_increases(chunk_exponent(base, before), chunk_exponent(base, chunk));
        assert(chunk_slots(base, before) * size <= chunk_slots(base, chunk) * size)
            by (nonlinear_arith)
            requires
                chunk_slots(base, before) <= chunk_slots(base, chunk),
        ;
    }
}

/// If the last of `limit` chunks can be addressed, all of them are usable, and the
/// configuration holds as many elements as they have slots.
pub proof fn all_chunks_are_usable(base: nat, size: nat, limit: nat)
    requires
        limit > 0,
        representable(base, size, (limit - 1) as nat),
    ensures
        usable_chunks(base, size, limit) == limit,
{
    lemma_usable_chunks(base, size, limit);
    if usable_chunks(base, size, limit) < limit {
        smaller_chunks_are_representable(
            base,
            size,
            usable_chunks(base, size, limit),
            (limit - 1) as nat,
        );
    }
}

/// The usable chunks are exactly the representable ones within the limit.
pub proof fn usable_means_representable(base: nat, size: nat, limit: nat, chunk: nat)
    ensures
        chunk < usable_chunks(base, size, limit) <==> chunk < limit && representable(
            base,
            size,
            chunk,
        ),
{
    lemma_usable_chunks(base, size, limit);
    if chunk < limit && representable(base, size, chunk) && chunk >= usable_chunks(
        base,
        size,
        limit,
    ) {
        smaller_chunks_are_representable(base, size, usable_chunks(base, size, limit), chunk);
    }
}

// The contiguous segments.

/// The contiguous segments, taken together in order, are the contents.
pub proof fn segments_join_to_the_contents<T>(base: nat, contents: Seq<T>)
    ensures
        segments(base, contents).flatten() == contents,
{
    let len = contents.len() as int;
    let parts = segments(base, contents);
    lemma_chunks_for(base, len, parts.len());
    assert forall|c: int| 0 <= c < parts.len() implies (#[trigger] parts[c]).len() == filled(
        base,
        len,
        c as nat,
    ) by {
        lemma_chunks_for(base, len, c as nat);
    }
    assert(packed(parts, base, len));
    lemma_packed(parts, base, len);
    assert forall|i: int| 0 <= i < len implies #[trigger] parts.flatten()[i] == contents[i] by {
        lemma_chunk_of(base, i);
        lemma_chunk_of_below(base, i, parts.len());
        lemma_filled(base, len, i);
    }
    assert(parts.flatten() =~= contents);
}

/// No segment is empty, none is longer than its chunk, and each but the last fills
/// its chunk.
pub proof fn segments_fill_their_chunks<T>(base: nat, contents: Seq<T>, chunk: int)
    requires
        0 <= chunk < segments(base, contents).len(),
    ensures
        0 < segments(base, contents)[chunk].len() <= chunk_slots(base, chunk as nat),
        chunk + 1 < segments(base, contents).len() ==> segments(base, contents)[chunk].len()
            == chunk_slots(base, chunk as nat),
{
    let len = contents.len() as int;
    lemma_chunk_start_next(base, chunk as nat);
    lemma_chunks_for(base, len, chunk as nat);
    lemma_chunks_for(base, len, chunk as nat + 1);
}

// The size of an array.

/// An array has room for its elements, no more room than its configuration allows,
/// and no more chunks than it may have.
pub proof fn sizes_are_bounded<T, const BASE_SHIFT: usize, const CHUNKS: usize>(
    array: &ExponentialArray<T, BASE_SHIFT, CHUNKS>,
)
    requires
        array.wf(),
    ensures
        array@.len() <= counted_slots(BASE_SHIFT as nat, array.buffers().len()),
        counted_slots(BASE_SHIFT as nat, array.buffers().len()) <= ExponentialArray::<
            T,
            BASE_SHIFT,
            CHUNKS,
        >::slot_limit(),
        array.buffers().len() <= CHUNKS,
        array.recorded_len() == array@.len(),
{
    array.lemma_view();
    array.lemma_capacity();
    lemma_usable_chunks(BASE_SHIFT as nat, layout::size_of::<T>(), CHUNKS as nat);
}

/// A reservation that succeeds leaves room for what was asked, and allocates no chunk
/// that it could have done without.
pub proof fn reservations_suffice(base: nat, before: Seq<usize>, after: Seq<usize>, count: int)
    requires
        0 <= count <= usize::MAX,
        grown_to(base, before, after, count),
    ensures
        count <= counted_slots(base, after.len()),
        after.len() > before.len() ==> chunk_start(base, (after.len() - 1) as nat) < count,
{
    lemma_chunks_for(base, count, after.len());
    if after.len() > before.len() {
        lemma_chunks_for(base, count, (after.len() - 1) as nat);
    }
}

/// Elements that go where room was reserved for them allocate nothing.
pub proof fn reserved_room_is_used(
    base: nat,
    before: Seq<usize>,
    reserved: Seq<usize>,
    after: Seq<usize>,
    count: int,
    used: int,
)
    requires
        0 <= used <= count,
        grown_to(base, before, reserved, count),
        grown_to(base, reserved, after, used),
    ensures
        after == reserved,
{
    lemma_chunks_for(base, count, reserved.len());
    lemma_chunks_for(base, used, reserved.len());
    assert(after =~= reserved);
}

// Addresses.

/// Each element lies in an allocation that was made for the slots of its chunk: the
/// address of the chunk was read of it.
pub proof fn elements_lie_in_allocations<T, const BASE_SHIFT: usize, const CHUNKS: usize>(
    array: &ExponentialArray<T, BASE_SHIFT, CHUNKS>,
    index: int,
)
    requires
        array.wf(),
        0 <= index < array@.len(),
    ensures
        array.in_allocation(index),
{
    array.lemma_view();
    array.lemma_slot(index);
    array.lemma_allocated_chunk(chunk_of(BASE_SHIFT as nat, index) as int);
}

/// The elements of an array stay where they are while the array grows: as long as the
/// chunks are kept where they were, the address of each element is the same.
///
/// The addresses are those that were read of the chunks when they were allocated. Two
/// things are not proved of them here, and rest on the documentation of [`Vec`]: that a
/// vector does not move its buffer while it has room, and that the calls by which a chunk
/// changes its vector (the contracts of the chunk name them) leave the buffer in place.
pub proof fn addresses_are_stable<T, const BASE_SHIFT: usize, const CHUNKS: usize>(
    before: &ExponentialArray<T, BASE_SHIFT, CHUNKS>,
    after: &ExponentialArray<T, BASE_SHIFT, CHUNKS>,
    index: int,
)
    requires
        before.wf(),
        before.buffers().is_prefix_of(after.buffers()),
        0 <= index < before@.len(),
    ensures
        after.address(index) == before.address(index),
{
    before.lemma_view();
    before.lemma_slot(index);
    assert(before.buffers()[chunk_of(BASE_SHIFT as nat, index) as int] == after.buffers().subrange(
        0,
        before.buffers().len() as int,
    )[chunk_of(BASE_SHIFT as nat, index) as int]);
}

/// A reservation, whatever comes of it, keeps the elements as they are, where they
/// are, and takes no room away.
pub proof fn reservations_move_nothing<T, const BASE_SHIFT: usize, const CHUNKS: usize>(
    before: &ExponentialArray<T, BASE_SHIFT, CHUNKS>,
    after: &ExponentialArray<T, BASE_SHIFT, CHUNKS>,
    additional: int,
    result: Result<(), TryReserveErrorKind>,
    index: int,
)
    requires
        before.wf(),
        before.reserved(after, additional, result),
        0 <= index < before@.len(),
    ensures
        after@ == before@,
        after.address(index) == before.address(index),
        counted_slots(BASE_SHIFT as nat, before.buffers().len()) <= counted_slots(
            BASE_SHIFT as nat,
            after.buffers().len(),
        ),
{
    if after.buffers() == before.buffers() {
        assert(before.buffers().is_prefix_of(after.buffers()));
    }
    addresses_are_stable(before, after, index);
    lemma_chunk_start_monotone(
        BASE_SHIFT as nat,
        before.buffers().len(),
        after.buffers().len(),
    );
}

/// An element that is pushed after others were cut off takes the slot that the first
/// of them left, and allocates nothing.
pub proof fn freed_slots_are_used_again<T, const BASE_SHIFT: usize, const CHUNKS: usize>(
    before: &ExponentialArray<T, BASE_SHIFT, CHUNKS>,
    shortened: &ExponentialArray<T, BASE_SHIFT, CHUNKS>,
    pushed: &ExponentialArray<T, BASE_SHIFT, CHUNKS>,
    len: int,
    value: T,
)
    requires
        before.wf(),
        0 <= len < before@.len(),
        before.truncated(len, shortened),
        shortened.pushed(value, pushed),
    ensures
        pushed.address(len) == before.address(len),
        pushed.buffers() == before.buffers(),
{
    let base = BASE_SHIFT as nat;
    addresses_are_stable(before, pushed, len);
    before.lemma_view();
    lemma_chunks_for(base, pushed@.len() as int, before.buffers().len());
    assert(pushed.buffers() =~= before.buffers());
}

/// Each chunk is contiguous: the next element of the same chunk comes right after the
/// one before it, as far as addresses count.
pub proof fn chunks_are_contiguous<T, const BASE_SHIFT: usize, const CHUNKS: usize>(
    array: &ExponentialArray<T, BASE_SHIFT, CHUNKS>,
    index: int,
)
    requires
        array.wf(),
        0 <= index,
        index + 1 < array@.len(),
        chunk_of(BASE_SHIFT as nat, index) == chunk_of(BASE_SHIFT as nat, index + 1),
    ensures
        array.address(index + 1) == if array.address(index) + layout::size_of::<T>() <= usize::MAX {
            array.address(index) + layout::size_of::<T>()
        } else {
            usize::MAX as int
        },
{
    let base = BASE_SHIFT as nat;
    let size = layout::size_of::<T>();
    array.lemma_view();
    array.lemma_slot(index);
    array.lemma_slot(index + 1);
    lemma_chunk_of(base, index);
    lemma_chunk_of(base, index + 1);
    array.lemma_allocated_chunk(chunk_of(base, index) as int);
    let offset = offset_of(base, index);
    let slots = chunk_slots(base, chunk_of(base, index));
    assert((offset + 1) * size == offset * size + size) by (nonlinear_arith);
    assert(0 <= offset * size) by (nonlinear_arith)
        requires
            0 <= offset,
    ;
    assert((offset + 1) * size <= slots * size) by (nonlinear_arith)
        requires
            offset + 1 <= slots,
    ;
}

// What one operation undoes of another.

/// A pop gives back what the push before it appended, and leaves the elements as they
/// were, where they were.
pub proof fn pop_undoes_push<T, const BASE_SHIFT: usize, const CHUNKS: usize>(
    before: &ExponentialArray<T, BASE_SHIFT, CHUNKS>,
    pushed: &ExponentialArray<T, BASE_SHIFT, CHUNKS>,
    popped: &ExponentialArray<T, BASE_SHIFT, CHUNKS>,
    value: T,
    result: Option<T>,
)
    requires
        before.wf(),
        before.pushed(value, pushed),
        pushed.popped(result, popped),
    ensures
        result == Some(value),
        popped@ == before@,
        forall|i: int|
            0 <= i < before@.len() ==> #[trigger] popped.address(i) == before.address(i),
{
    assert(before@.push(value).drop_last() =~= before@);
    assert forall|i: int| 0 <= i < before@.len() implies #[trigger] popped.address(i)
        == before.address(i) by {
        addresses_are_stable(before, popped, i);
    }
}

/// A push of what a pop gave leaves the elements as they were, where they were.
pub proof fn push_undoes_pop<T, const BASE_SHIFT: usize, const CHUNKS: usize>(
    before: &ExponentialArray<T, BASE_SHIFT, CHUNKS>,
    popped: &ExponentialArray<T, BASE_SHIFT, CHUNKS>,
    pushed: &ExponentialArray<T, BASE_SHIFT, CHUNKS>,
    value: T,
)
    requires
        before.wf(),
        before.popped(Some(value), popped),
        popped.pushed(value, pushed),
    ensures
        pushed@ == before@,
        pushed.buffers() == before.buffers(),
{
    before.lemma_view();
    lemma_chunks_for(BASE_SHIFT as nat, before@.len() as int, before.buffers().len());
    assert(before@.drop_last().push(before@.last()) =~= before@);
    assert(pushed.buffers() =~= before.buffers());
}

/// To append the tail that was split off is to have the whole again, where it was.
pub proof fn append_undoes_split_off<T, const BASE_SHIFT: usize, const CHUNKS: usize>(
    whole: &ExponentialArray<T, BASE_SHIFT, CHUNKS>,
    at: int,
    kept: &ExponentialArray<T, BASE_SHIFT, CHUNKS>,
    tail: &ExponentialArray<T, BASE_SHIFT, CHUNKS>,
    joined: &ExponentialArray<T, BASE_SHIFT, CHUNKS>,
    emptied: &ExponentialArray<T, BASE_SHIFT, CHUNKS>,
)
    requires
        whole.wf(),
        0 <= at <= whole@.len(),
        whole.split(at, kept, tail),
        kept.appended(tail, joined, emptied),
    ensures
        joined@ == whole@,
        joined.buffers() == whole.buffers(),
{
    whole.lemma_view();
    assert(whole@.take(at) + whole@.skip(at) =~= whole@);
    lemma_chunks_for(BASE_SHIFT as nat, whole@.len() as int, whole.buffers().len());
    assert(joined.buffers() =~= whole.buffers());
}

/// To split off what was appended is to have both sequences again.
pub proof fn split_off_undoes_append<T, const BASE_SHIFT: usize, const CHUNKS: usize>(
    first: &ExponentialArray<T, BASE_SHIFT, CHUNKS>,
    second: &ExponentialArray<T, BASE_SHIFT, CHUNKS>,
    joined: &ExponentialArray<T, BASE_SHIFT, CHUNKS>,
    emptied: &ExponentialArray<T, BASE_SHIFT, CHUNKS>,
    kept: &ExponentialArray<T, BASE_SHIFT, CHUNKS>,
    tail: &ExponentialArray<T, BASE_SHIFT, CHUNKS>,
)
    requires
        first.appended(second, joined, emptied),
        joined.split(first@.len() as int, kept, tail),
    ensures
        kept@ == first@,
        tail@ == second@,
{
    assert((first@ + second@).take(first@.len() as int) =~= first@);
    assert((first@ + second@).skip(first@.len() as int) =~= second@);
}

/// To shorten an array twice is to shorten it to the smaller length.
pub proof fn truncations_combine<T, const BASE_SHIFT: usize, const CHUNKS: usize>(
    before: &ExponentialArray<T, BASE_SHIFT, CHUNKS>,
    first: int,
    second: int,
    once: &ExponentialArray<T, BASE_SHIFT, CHUNKS>,
    twice: &ExponentialArray<T, BASE_SHIFT, CHUNKS>,
)
    requires
        0 <= first,
        0 <= second,
        before.truncated(first, once),
        once.truncated(second, twice),
    ensures
        before.truncated(
            if first < second {
                first
            } else {
                second
            },
            twice,
        ),
{
    if second < first && first < before@.len() {
        assert(before@.take(first).take(second) =~= before@.take(second));
    }
}

/// However items are taken from both ends of an iterator, each comes once and in
/// order: those taken at the front, those that are left, and those taken at the back,
/// the last first, are all of them.
pub proof fn each_item_comes_once<A>(all: Seq<A>, front: Seq<A>, left: Seq<A>, back: Seq<A>)
    requires
        front + left + back.reverse() == all,
        left.len() > 0,
    ensures
        front.push(left.first()) + left.drop_first() + back.reverse() == all,
        front + left.drop_last() + back.push(left.last()).reverse() == all,
{
    assert(front.push(left.first()) + left.drop_first() + back.reverse() =~= front + left
        + back.reverse());
    assert(front + left.drop_last() + back.push(left.last()).reverse() =~= front + left
        + back.reverse());
}

/// Where each call of a function has one result, a fold with it is the fold of the
/// sequence.
pub proof fn folds_compute<A, B, F: FnMut(B, A) -> B>(
    fold: F,
    step: spec_fn(B, A) -> B,
    init: B,
    items: Seq<A>,
    result: B,
)
    requires
        forall|before: B, item: A, after: B|
            #[trigger] call_ensures(fold, (before, item), after) ==> after == step(before, item),
        folded(fold, init, items, result),
    ensures
        result == items.fold_left(init, step),
    decreases items.len(),
{
    if items.len() > 0 {
        let before = choose|before: B|
            folded(fold, init, items.drop_last(), before) && #[trigger] call_ensures(
                fold,
                (before, items.last()),
                result,
            );
        folds_compute(fold, step, init, items.drop_last(), before);
    }
}

/// Where a clone is the same as its original, clones of all elements are the same
/// sequence.
pub proof fn exact_clones_are_equal<T: Clone>(originals: Seq<T>, copies: Seq<T>)
    requires
        all_cloned(originals, copies),
        forall|original: T, copy: T| #[trigger] cloned(original, copy) ==> copy == original,
    ensures
        copies == originals,
{
    assert forall|i: int| 0 <= i < copies.len() implies copies[i] == originals[i] by {
        assert(cloned(originals[i], copies[i]));
    }
    assert(copies =~= originals);
}

// Comparisons.

/// Arrays in order are equal exactly if their elements are, whatever their
/// configurations.
pub proof fn equality_is_of_sequences<
    T: PartialEq<U>,
    U,
    const BASE_SHIFT: usize,
    const CHUNKS: usize,
    const OTHER_BASE_SHIFT: usize,
    const OTHER_CHUNKS: usize,
>(
    left: &ExponentialArray<T, BASE_SHIFT, CHUNKS>,
    right: &ExponentialArray<U, OTHER_BASE_SHIFT, OTHER_CHUNKS>,
)
    requires
        left.wf(),
        right.wf(),
    ensures
        left.eq_spec(right) <==> seq_eq(left@, right@),
        <T as PartialEqSpec<U>>::obeys_eq_spec() ==> <ExponentialArray<
            T,
            BASE_SHIFT,
            CHUNKS,
        > as PartialEqSpec<ExponentialArray<U, OTHER_BASE_SHIFT, OTHER_CHUNKS>>>::obeys_eq_spec(),
{
    left.lemma_view();
    right.lemma_view();
}

/// Where elements are in equal order exactly if they are equal, sequences are too.
pub proof fn equal_order_means_equal<T: PartialOrd<U>, U>(left: Seq<T>, right: Seq<U>)
    requires
        forall|a: T, b: U|
            #[trigger] a.partial_cmp_spec(&b) == Some(Ordering::Equal) <==> a.eq_spec(&b),
    ensures
        seq_partial_cmp(left, right) == Some(Ordering::Equal) <==> seq_eq(left, right),
    decreases left.len(),
{
    if left.len() > 0 && right.len() > 0 {
        let next_left = left.drop_first();
        let next_right = right.drop_first();
        equal_order_means_equal(next_left, next_right);
        assert(left[0].partial_cmp_spec(&right[0]) == Some(Ordering::Equal) <==> left[0].eq_spec(
            &right[0],
        ));
        if seq_eq(next_left, next_right) && left[0].eq_spec(&right[0]) {
            assert forall|i: int| 0 <= i < left.len() implies (#[trigger] left[i]).eq_spec(
                &right[i],
            ) by {
                if i > 0 {
                    assert(next_left[i - 1] == left[i]);
                }
            }
        }
        if seq_eq(left, right) {
            assert forall|i: int| 0 <= i < next_left.len() implies (
            #[trigger] next_left[i]).eq_spec(&next_right[i]) by {
                assert(left[i + 1] == next_left[i]);
            }
        }
    }
}

/// Where the partial order of elements is their order, that of sequences is too.
pub proof fn partial_order_is_the_order<T: Ord>(left: Seq<T>, right: Seq<T>)
    requires
        forall|a: T, b: T| #[trigger] a.partial_cmp_spec(&b) == Some(a.cmp_spec(&b)),
    ensures
        seq_partial_cmp(left, right) == Some(seq_cmp(left, right)),
    decreases left.len(),
{
    if left.len() > 0 && right.len() > 0 {
        partial_order_is_the_order(left.drop_first(), right.drop_first());
        assert(left[0].partial_cmp_spec(&right[0]) == Some(left[0].cmp_spec(&right[0])));
    }
}

/// The order that is found with the sides changed.
pub open spec fn reversed(order: Ordering) -> Ordering {
    match order {
        Ordering::Less => Ordering::Greater,
        Ordering::Equal => Ordering::Equal,
        Ordering::Greater => Ordering::Less,
    }
}

/// Where the order of elements turns round with the sides, that of sequences does.
pub proof fn order_turns_round<T: Ord>(left: Seq<T>, right: Seq<T>)
    requires
        forall|a: T, b: T| #[trigger] a.cmp_spec(&b) == reversed(b.cmp_spec(&a)),
    ensures
        seq_cmp(left, right) == reversed(seq_cmp(right, left)),
    decreases left.len(),
{
    if left.len() > 0 && right.len() > 0 {
        order_turns_round(left.drop_first(), right.drop_first());
        assert(left[0].cmp_spec(&right[0]) == reversed(right[0].cmp_spec(&left[0])));
    }
}

/// Where the order of elements is transitive, that of sequences is: if the first is
/// not greater than the second, and the second not than the third, the first is not
/// greater than the third, and less than it if one of the steps is.
pub proof fn order_is_transitive<T: Ord>(first: Seq<T>, second: Seq<T>, third: Seq<T>)
    requires
        forall|a: T, b: T, c: T|
            #![trigger a.cmp_spec(&b), b.cmp_spec(&c)]
            a.cmp_spec(&b) != Ordering::Greater && b.cmp_spec(&c) != Ordering::Greater
                ==> a.cmp_spec(&c) == if a.cmp_spec(&b) == Ordering::Equal && b.cmp_spec(&c)
                == Ordering::Equal {
                Ordering::Equal
            } else {
                Ordering::Less
            },
        seq_cmp(first, second) != Ordering::Greater,
        seq_cmp(second, third) != Ordering::Greater,
    ensures
        seq_cmp(first, third) == if seq_cmp(first, second) == Ordering::Equal && seq_cmp(
            second,
            third,
        ) == Ordering::Equal {
            Ordering::Equal
        } else {
            Ordering::Less
        },
    decreases first.len(),
{
    if first.len() > 0 && second.len() > 0 && third.len() > 0 {
        let step = first[0].cmp_spec(&second[0]);
        let next = second[0].cmp_spec(&third[0]);
        if step == Ordering::Equal && next == Ordering::Equal {
            order_is_transitive(first.drop_first(), second.drop_first(), third.drop_first());
        }
    }
}

} // verus!
