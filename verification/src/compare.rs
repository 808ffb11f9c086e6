//! Sequences that come in chunks, compared.

use crate::chunks::slice_views;
use core::cmp::Ordering;
use vstd::prelude::*;
use vstd::std_specs::cmp::{OrdSpec, PartialEqSpec, PartialOrdSpec};
use vstd::std_specs::iter::{IteratorSpec, IteratorSpecImpl};

verus! {

/// The sequences are as long as each other and equal element by element.
pub open spec fn seq_eq<T: PartialEq<U>, U>(left: Seq<T>, right: Seq<U>) -> bool {
    &&& left.len() == right.len()
    &&& forall|i: int|
        #![trigger left[i]]
        #![trigger right[i]]
        0 <= i < left.len() ==> left[i].eq_spec(&right[i])
}

/// `equal` may come of comparing the sequences element by element: if it holds, each
/// comparison may say so, and if not, the lengths differ or a comparison may say so.
pub open spec fn eq_outcome<T: PartialEq<U>, U>(
    left: Seq<T>,
    right: Seq<U>,
    equal: bool,
) -> bool {
    if equal {
        &&& left.len() == right.len()
        &&& forall|i: int|
            #![trigger left[i]]
            #![trigger right[i]]
            0 <= i < left.len() ==> call_ensures(
                <T as PartialEq<U>>::eq,
                (&left[i], &right[i]),
                true,
            )
    } else {
        ||| left.len() != right.len()
        ||| exists|i: int|
            #![trigger left[i]]
            0 <= i < left.len() && call_ensures(
                <T as PartialEq<U>>::eq,
                (&left[i], &right[i]),
                false,
            )
    }
}

/// Where the comparison of elements follows its specification, that of sequences
/// does.
pub(crate) proof fn lemma_eq_outcome<T: PartialEq<U>, U>(
    left: Seq<T>,
    right: Seq<U>,
    equal: bool,
)
    requires
        eq_outcome(left, right, equal),
        <T as PartialEqSpec<U>>::obeys_eq_spec(),
    ensures
        equal == seq_eq(left, right),
{
    if equal {
        assert forall|i: int| 0 <= i < left.len() implies (#[trigger] left[i]).eq_spec(
            &right[i],
        ) by {
            assert(call_ensures(<T as PartialEq<U>>::eq, (&left[i], &right[i]), true));
        }
    } else if left.len() == right.len() {
        let i = choose|i: int|
            #![trigger left[i]]
            0 <= i < left.len() && call_ensures(
                <T as PartialEq<U>>::eq,
                (&left[i], &right[i]),
                false,
            );
        assert(!left[i].eq_spec(&right[i]));
    }
}

/// The order of two lengths.
pub open spec fn length_order(left: nat, right: nat) -> Ordering {
    if left < right {
        Ordering::Less
    } else if left == right {
        Ordering::Equal
    } else {
        Ordering::Greater
    }
}

/// A comparison that calls `says` of each pair of elements stops at index `stop`
/// with `result`: the elements before are said to be equal, and those at the index
/// are not, or one of the sequences ends there.
pub open spec fn stops_at<A, B>(
    says: spec_fn(A, B, Option<Ordering>) -> bool,
    left: Seq<A>,
    right: Seq<B>,
    stop: int,
    result: Option<Ordering>,
) -> bool {
    &&& 0 <= stop <= left.len()
    &&& stop <= right.len()
    &&& forall|i: int|
        #![trigger left[i]]
        #![trigger right[i]]
        0 <= i < stop ==> says(left[i], right[i], Some(Ordering::Equal))
    &&& if stop < left.len() && stop < right.len() {
        result != Some(Ordering::Equal) && says(left[stop], right[stop], result)
    } else {
        result == Some(length_order(left.len(), right.len()))
    }
}

/// `result` may come of comparing the sequences element by element, where `says`
/// tells what may come of comparing two elements.
pub open spec fn order_outcome<A, B>(
    says: spec_fn(A, B, Option<Ordering>) -> bool,
    left: Seq<A>,
    right: Seq<B>,
    result: Option<Ordering>,
) -> bool {
    exists|stop: int| stops_at(says, left, right, stop, result)
}

/// What may come of comparing two elements that may have no order.
pub open spec fn partial_cmp_says<T: PartialOrd<U>, U>() -> spec_fn(
    T,
    U,
    Option<Ordering>,
) -> bool {
    |left: T, right: U, order: Option<Ordering>|
        call_ensures(T::partial_cmp, (&left, &right), order)
}

/// What may come of comparing two elements that have an order.
pub open spec fn cmp_says<T: Ord>() -> spec_fn(T, T, Option<Ordering>) -> bool {
    |left: T, right: T, order: Option<Ordering>|
        order is Some && call_ensures(T::cmp, (&left, &right), order->0)
}

/// The order of the sequences is that of the first elements that are not equal, or
/// else that of the lengths.
pub open spec fn seq_partial_cmp<T: PartialOrd<U>, U>(
    left: Seq<T>,
    right: Seq<U>,
) -> Option<Ordering>
    decreases left.len(),
{
    if left.len() == 0 {
        if right.len() == 0 {
            Some(Ordering::Equal)
        } else {
            Some(Ordering::Less)
        }
    } else if right.len() == 0 {
        Some(Ordering::Greater)
    } else {
        match left[0].partial_cmp_spec(&right[0]) {
            Some(Ordering::Equal) => seq_partial_cmp(left.drop_first(), right.drop_first()),
            order => order,
        }
    }
}

/// The order of the sequences is that of the first elements that are not equal, or
/// else that of the lengths.
pub open spec fn seq_cmp<T: Ord>(left: Seq<T>, right: Seq<T>) -> Ordering
    decreases left.len(),
{
    if left.len() == 0 {
        if right.len() == 0 {
            Ordering::Equal
        } else {
            Ordering::Less
        }
    } else if right.len() == 0 {
        Ordering::Greater
    } else {
        match left[0].cmp_spec(&right[0]) {
            Ordering::Equal => seq_cmp(left.drop_first(), right.drop_first()),
            order => order,
        }
    }
}

/// An iterator over one slice.
pub(crate) struct SingleChunk<'a, T> {
    slice: Option<&'a [T]>,
}

impl<'a, T> SingleChunk<'a, T> {
    /// The slice, if it is left.
    pub closed spec fn items(&self) -> Seq<&'a [T]> {
        match self.slice {
            Some(slice) => seq![slice],
            None => Seq::empty(),
        }
    }

    pub(crate) fn new(slice: &'a [T]) -> (chunk: Self)
        ensures
            chunk.items() == seq![slice],
            slice_views(chunk.items()).flatten() == slice@,
    {
        let chunk = Self { slice: Some(slice) };
        proof {
            slice_views(chunk.items()).lemma_flatten_one_element();
        }
        chunk
    }
}

impl<'a, T> Iterator for SingleChunk<'a, T> {
    type Item = &'a [T];

    fn next(&mut self) -> (item: Option<&'a [T]>) {
        let ghost items = self.items();
        let item = self.slice;
        self.slice = None;
        proof {
            if items.len() > 0 {
                assert(self.items() =~= items.drop_first());
            }
        }
        item
    }
}

impl<'a, T> IteratorSpecImpl for SingleChunk<'a, T> {
    open spec fn obeys_prophetic_iter_laws(&self) -> bool {
        true
    }

    open spec fn remaining(&self) -> Seq<&'a [T]> {
        self.items()
    }

    open spec fn will_return_none(&self) -> bool {
        true
    }

    open spec fn decrease(&self) -> Option<nat> {
        Some(self.items().len())
    }

    open spec fn initial_value_relation(&self, init: &Self) -> bool {
        init.items() == self.items()
    }

    open spec fn peek(&self, index: int) -> Option<&'a [T]> {
        if 0 <= index < self.items().len() {
            Some(self.items()[index])
        } else {
            None
        }
    }
}

/// Takes the first slice that is not empty, or an empty one if there is none.
fn next_non_empty_chunk<'a, T, I: Iterator<Item = &'a [T]>>(chunks: &mut I) -> (chunk: &'a [T])
    where T: 'a
    requires
        (*old(chunks)).obeys_prophetic_iter_laws(),
        (*old(chunks)).decrease() is Some,
    ensures
        (*final(chunks)).obeys_prophetic_iter_laws(),
        (*final(chunks)).decrease() is Some,
        slice_views((*old(chunks)).remaining()).flatten() == chunk@ + slice_views(
            (*final(chunks)).remaining(),
        ).flatten(),
        chunk@.len() > 0 ==> (*final(chunks)).decrease()->0 < (*old(chunks)).decrease()->0,
        chunk@.len() == 0 ==> slice_views((*final(chunks)).remaining()).flatten().len() == 0,
{
    loop
        invariant
            (*chunks).obeys_prophetic_iter_laws(),
            (*chunks).decrease() is Some,
            slice_views((*old(chunks)).remaining()).flatten() == slice_views(
                (*chunks).remaining(),
            ).flatten(),
            (*chunks).decrease()->0 <= (*old(chunks)).decrease()->0,
        decreases (*chunks).decrease()->0,
    {
        let ghost views = slice_views((*chunks).remaining());
        match chunks.next() {
            Some(chunk) => {
                assert(views.drop_first() =~= slice_views((*chunks).remaining()));
                if chunk.len() > 0 {
                    return chunk;
                }
                assert(views.flatten() =~= views.drop_first().flatten());
            },
            None => {
                let empty: &'a [T] = &[];
                return empty;
            },
        }
    }
}

/// A sequence from `done` on, of which `front` is the beginning, goes on with the
/// rest when the first elements of `front` are done.
proof fn lemma_go_on<A>(all: Seq<A>, done: int, front: Seq<A>, rest: Seq<A>, count: int)
    requires
        0 <= done <= all.len(),
        all.skip(done) == front + rest,
        0 <= count <= front.len(),
    ensures
        done + count <= all.len(),
        all.subrange(done, done + count) == front.take(count),
        all.skip(done + count) == front.skip(count) + rest,
        all.take(done + count) == all.take(done) + front.take(count),
{
    assert(all.skip(done).len() == front.len() + rest.len());
    assert(all.skip(done).take(count) =~= all.subrange(done, done + count));
    assert((front + rest).take(count) =~= front.take(count));
    assert(all.skip(done).skip(count) =~= all.skip(done + count));
    assert((front + rest).skip(count) =~= front.skip(count) + rest);
    assert(all.take(done + count) =~= all.take(done) + all.subrange(done, done + count));
}

/// What was found equal before goes on with what is found equal next.
proof fn lemma_equal_so_far<T: PartialEq<U>, U>(
    left: Seq<T>,
    right: Seq<U>,
    next_left: Seq<T>,
    next_right: Seq<U>,
)
    requires
        eq_outcome(left, right, true),
        eq_outcome(next_left, next_right, true),
    ensures
        eq_outcome(left + next_left, right + next_right, true),
{
    let all_left = left + next_left;
    let all_right = right + next_right;
    assert forall|i: int| 0 <= i < all_left.len() implies call_ensures(
        <T as PartialEq<U>>::eq,
        (&#[trigger] all_left[i], &all_right[i]),
        true,
    ) by {
        if i < left.len() {
            assert(all_left[i] == left[i]);
        } else {
            assert(all_left[i] == next_left[i - left.len()]);
        }
    }
}

/// Compares the first `count` elements of two slices.
fn eq_slices<T: PartialEq<U>, U>(left: &[T], right: &[U], count: usize) -> (equal: bool)
    requires
        count <= left@.len(),
        count <= right@.len(),
    ensures
        eq_outcome(left@.take(count as int), right@.take(count as int), equal),
{
    let ghost first = left@.take(count as int);
    let ghost second = right@.take(count as int);
    let mut offset: usize = 0;
    while offset < count
        invariant
            offset <= count <= left@.len(),
            count <= right@.len(),
            first == left@.take(count as int),
            second == right@.take(count as int),
            forall|i: int|
                #![trigger first[i]]
                #![trigger second[i]]
                0 <= i < offset ==> call_ensures(
                    <T as PartialEq<U>>::eq,
                    (&first[i], &second[i]),
                    true,
                ),
        decreases count - offset,
    {
        let equal = left[offset] == right[offset];
        assert(first[offset as int] == left@[offset as int]);
        assert(second[offset as int] == right@[offset as int]);
        assert(call_ensures(
            <T as PartialEq<U>>::eq,
            (&first[offset as int], &second[offset as int]),
            equal,
        ));
        if !equal {
            return false;
        }
        offset = offset + 1;
    }
    true
}

/// Compares two sequences that come in chunks, given their lengths.
#[verifier::rlimit(40)]
#[verifier::spinoff_prover]
pub(crate) fn eq_chunked_sequences<
    'a,
    'b,
    T: PartialEq<U>,
    U,
    I: Iterator<Item = &'a [T]>,
    J: Iterator<Item = &'b [U]>,
>(left_len: usize, right_len: usize, left_chunks: I, right_chunks: J) -> (equal: bool)
    where T: 'a, U: 'b
    requires
        left_chunks.obeys_prophetic_iter_laws(),
        left_chunks.decrease() is Some,
        right_chunks.obeys_prophetic_iter_laws(),
        right_chunks.decrease() is Some,
    ensures
        if left_len == right_len {
            eq_outcome(
                slice_views(left_chunks.remaining()).flatten(),
                slice_views(right_chunks.remaining()).flatten(),
                equal,
            )
        } else {
            !equal
        },
{
    if left_len != right_len {
        return false;
    }
    let ghost left_all = slice_views(left_chunks.remaining()).flatten();
    let ghost right_all = slice_views(right_chunks.remaining()).flatten();
    let mut lefts = left_chunks;
    let mut rights = right_chunks;
    let mut left: &'a [T] = next_non_empty_chunk(&mut lefts);
    let mut right: &'b [U] = next_non_empty_chunk(&mut rights);
    let ghost mut done: int = 0;
    proof {
        assert(left_all.skip(0) =~= left_all);
        assert(right_all.skip(0) =~= right_all);
    }
    while left.len() > 0 && right.len() > 0
        invariant
            left_len == right_len,
            left_all == slice_views(left_chunks.remaining()).flatten(),
            right_all == slice_views(right_chunks.remaining()).flatten(),
            lefts.obeys_prophetic_iter_laws(),
            lefts.decrease() is Some,
            rights.obeys_prophetic_iter_laws(),
            rights.decrease() is Some,
            0 <= done <= left_all.len(),
            done <= right_all.len(),
            left_all.skip(done) == left@ + slice_views(lefts.remaining()).flatten(),
            right_all.skip(done) == right@ + slice_views(rights.remaining()).flatten(),
            left@.len() == 0 ==> slice_views(lefts.remaining()).flatten().len() == 0,
            right@.len() == 0 ==> slice_views(rights.remaining()).flatten().len() == 0,
            eq_outcome(left_all.take(done), right_all.take(done), true),
        decreases
            (if left@.len() > 0 && right@.len() > 0 {
                1int
            } else {
                0
            }),
            lefts.decrease()->0 + rights.decrease()->0,
    {
        let count: usize = if left.len() < right.len() {
            left.len()
        } else {
            right.len()
        };
        let ghost next_left = left@.take(count as int);
        let ghost next_right = right@.take(count as int);
        proof {
            lemma_go_on(
                left_all,
                done,
                left@,
                slice_views(lefts.remaining()).flatten(),
                count as int,
            );
            lemma_go_on(
                right_all,
                done,
                right@,
                slice_views(rights.remaining()).flatten(),
                count as int,
            );
        }
        if !eq_slices(left, right, count) {
            proof {
                let i = choose|i: int|
                    #![trigger next_left[i]]
                    0 <= i < next_left.len() && call_ensures(
                        <T as PartialEq<U>>::eq,
                        (&next_left[i], &next_right[i]),
                        false,
                    );
                assert(left_all[done + i] == left_all.subrange(done, done + count)[i]);
                assert(right_all[done + i] == right_all.subrange(done, done + count)[i]);
            }
            return false;
        }
        proof {
            lemma_equal_so_far(
                left_all.take(done),
                right_all.take(done),
                next_left,
                next_right,
            );
            done = done + count;
        }
        left = left.split_at(count).1;
        right = right.split_at(count).1;
        if left.len() == 0 {
            left = next_non_empty_chunk(&mut lefts);
        }
        if right.len() == 0 {
            right = next_non_empty_chunk(&mut rights);
        }
    }
    proof {
        assert(left@.len() == 0 ==> left_all.skip(done).len() == 0);
        assert(right@.len() == 0 ==> right_all.skip(done).len() == 0);
        assert(left_all.take(left_all.len() as int) =~= left_all);
        assert(right_all.take(right_all.len() as int) =~= right_all);
    }
    left.len() == 0 && right.len() == 0
}

/// What was found equal before goes on with what is found next.
proof fn lemma_order_goes_on<A, B>(
    says: spec_fn(A, B, Option<Ordering>) -> bool,
    left: Seq<A>,
    right: Seq<B>,
    next_left: Seq<A>,
    next_right: Seq<B>,
    result: Option<Ordering>,
)
    requires
        left.len() == right.len(),
        order_outcome(says, left, right, Some(Ordering::Equal)),
        order_outcome(says, next_left, next_right, result),
    ensures
        order_outcome(says, left + next_left, right + next_right, result),
{
    let before = choose|stop: int| stops_at(says, left, right, stop, Some(Ordering::Equal));
    let after = choose|stop: int| stops_at(says, next_left, next_right, stop, result);
    let all_left = left + next_left;
    let all_right = right + next_right;
    let stop = before + after;
    assert forall|i: int| 0 <= i < stop implies says(
        #[trigger] all_left[i],
        all_right[i],
        Some(Ordering::Equal),
    ) by {
        if i < left.len() {
            assert(all_left[i] == left[i]);
        } else {
            assert(all_left[i] == next_left[i - left.len()]);
        }
    }
    assert(stops_at(says, all_left, all_right, stop, result));
}

/// A comparison that stops before one of the sequences ends is not changed by what
/// comes after.
proof fn lemma_order_found<A, B>(
    says: spec_fn(A, B, Option<Ordering>) -> bool,
    left: Seq<A>,
    right: Seq<B>,
    more_left: Seq<A>,
    more_right: Seq<B>,
    result: Option<Ordering>,
)
    requires
        left.len() == right.len(),
        order_outcome(says, left, right, result),
        result != Some(Ordering::Equal),
    ensures
        order_outcome(says, left + more_left, right + more_right, result),
{
    let stop = choose|stop: int| stops_at(says, left, right, stop, result);
    let all_left = left + more_left;
    let all_right = right + more_right;
    assert forall|i: int| 0 <= i < stop implies says(
        #[trigger] all_left[i],
        all_right[i],
        Some(Ordering::Equal),
    ) by {
        assert(all_left[i] == left[i]);
    }
    assert(stops_at(says, all_left, all_right, stop, result));
}

/// Where the comparison of elements follows its specification, that of sequences
/// does.
pub(crate) proof fn lemma_partial_cmp_outcome<T: PartialOrd<U>, U>(
    left: Seq<T>,
    right: Seq<U>,
    result: Option<Ordering>,
)
    requires
        order_outcome(partial_cmp_says::<T, U>(), left, right, result),
        T::obeys_partial_cmp_spec(),
    ensures
        result == seq_partial_cmp(left, right),
    decreases left.len(),
{
    let says = partial_cmp_says::<T, U>();
    let stop = choose|stop: int| stops_at(says, left, right, stop, result);
    if stop > 0 {
        assert(says(left[0], right[0], Some(Ordering::Equal)));
        let next_left = left.drop_first();
        let next_right = right.drop_first();
        assert forall|i: int| 0 <= i < stop - 1 implies says(
            #[trigger] next_left[i],
            next_right[i],
            Some(Ordering::Equal),
        ) by {
            assert(next_left[i] == left[i + 1]);
        }
        assert(stops_at(says, next_left, next_right, stop - 1, result));
        lemma_partial_cmp_outcome(next_left, next_right, result);
    }
}

/// Where the comparison of elements follows its specification, that of sequences
/// does.
pub(crate) proof fn lemma_cmp_outcome<T: Ord>(left: Seq<T>, right: Seq<T>, result: Ordering)
    requires
        order_outcome(cmp_says::<T>(), left, right, Some(result)),
        T::obeys_cmp_spec(),
    ensures
        result == seq_cmp(left, right),
    decreases left.len(),
{
    let says = cmp_says::<T>();
    let stop = choose|stop: int| stops_at(says, left, right, stop, Some(result));
    if stop > 0 {
        assert(says(left[0], right[0], Some(Ordering::Equal)));
        let next_left = left.drop_first();
        let next_right = right.drop_first();
        assert forall|i: int| 0 <= i < stop - 1 implies says(
            #[trigger] next_left[i],
            next_right[i],
            Some(Ordering::Equal),
        ) by {
            assert(next_left[i] == left[i + 1]);
        }
        assert(stops_at(says, next_left, next_right, stop - 1, Some(result)));
        lemma_cmp_outcome(next_left, next_right, result);
    }
}

/// The first `count` elements of `all`.
spec fn first_of<A>(all: Seq<A>, count: usize) -> Seq<A> {
    all.take(count as int)
}

/// Compares the first `count` elements of two slices.
fn partial_cmp_slices<T: PartialOrd<U>, U>(left: &[T], right: &[U], count: usize) -> (order: Option<
    Ordering,
>)
    requires
        count <= left@.len(),
        count <= right@.len(),
    ensures
        order_outcome(
            partial_cmp_says::<T, U>(),
            first_of(left@, count),
            first_of(right@, count),
            order,
        ),
{
    let ghost says = partial_cmp_says::<T, U>();
    let ghost first = first_of(left@, count);
    let ghost second = first_of(right@, count);
    let mut offset: usize = 0;
    while offset < count
        invariant
            offset <= count <= left@.len(),
            count <= right@.len(),
            says == partial_cmp_says::<T, U>(),
            first == first_of(left@, count),
            second == first_of(right@, count),
            forall|i: int|
                #![trigger first[i]]
                #![trigger second[i]]
                0 <= i < offset ==> says(first[i], second[i], Some(Ordering::Equal)),
        decreases count - offset,
    {
        let order = left[offset].partial_cmp(&right[offset]);
        proof {
            assert(first[offset + 0] == left@[offset + 0]);
            assert(second[offset + 0] == right@[offset + 0]);
            assert(says(first[offset + 0], second[offset + 0], order));
        }
        match order {
            Some(Ordering::Equal) => {},
            order => {
                assert(stops_at(says, first, second, offset + 0, order));
                return order;
            },
        }
        offset = offset + 1;
    }
    assert(stops_at(says, first, second, offset + 0, Some(Ordering::Equal)));
    Some(Ordering::Equal)
}

/// Compares two sequences that come in chunks.
#[verifier::rlimit(40)]
#[verifier::spinoff_prover]
pub(crate) fn partial_cmp_chunked_sequences<
    'a,
    'b,
    T: PartialOrd<U>,
    U,
    I: Iterator<Item = &'a [T]>,
    J: Iterator<Item = &'b [U]>,
>(left_chunks: I, right_chunks: J) -> (order: Option<Ordering>) where T: 'a, U: 'b
    requires
        left_chunks.obeys_prophetic_iter_laws(),
        left_chunks.decrease() is Some,
        right_chunks.obeys_prophetic_iter_laws(),
        right_chunks.decrease() is Some,
    ensures
        order_outcome(
            partial_cmp_says::<T, U>(),
            slice_views(left_chunks.remaining()).flatten(),
            slice_views(right_chunks.remaining()).flatten(),
            order,
        ),
{
    let ghost says = partial_cmp_says::<T, U>();
    let ghost left_all = slice_views(left_chunks.remaining()).flatten();
    let ghost right_all = slice_views(right_chunks.remaining()).flatten();
    let mut lefts = left_chunks;
    let mut rights = right_chunks;
    let mut left: &'a [T] = next_non_empty_chunk(&mut lefts);
    let mut right: &'b [U] = next_non_empty_chunk(&mut rights);
    let ghost mut done: int = 0;
    proof {
        assert(left_all.skip(0) =~= left_all);
        assert(right_all.skip(0) =~= right_all);
        assert(stops_at(says, left_all.take(0), right_all.take(0), 0, Some(Ordering::Equal)));
    }
    while left.len() > 0 && right.len() > 0
        invariant
            says == partial_cmp_says::<T, U>(),
            left_all == slice_views(left_chunks.remaining()).flatten(),
            right_all == slice_views(right_chunks.remaining()).flatten(),
            lefts.obeys_prophetic_iter_laws(),
            lefts.decrease() is Some,
            rights.obeys_prophetic_iter_laws(),
            rights.decrease() is Some,
            0 <= done <= left_all.len(),
            done <= right_all.len(),
            left_all.skip(done) == left@ + slice_views(lefts.remaining()).flatten(),
            right_all.skip(done) == right@ + slice_views(rights.remaining()).flatten(),
            left@.len() == 0 ==> slice_views(lefts.remaining()).flatten().len() == 0,
            right@.len() == 0 ==> slice_views(rights.remaining()).flatten().len() == 0,
            order_outcome(says, left_all.take(done), right_all.take(done), Some(Ordering::Equal)),
        decreases
            (if left@.len() > 0 && right@.len() > 0 {
                1int
            } else {
                0
            }),
            lefts.decrease()->0 + rights.decrease()->0,
    {
        let count: usize = if left.len() < right.len() {
            left.len()
        } else {
            right.len()
        };
        let ghost next_left = first_of(left@, count);
        let ghost next_right = first_of(right@, count);
        let ghost left_done = left_all.take(done);
        let ghost right_done = right_all.take(done);
        proof {
            lemma_go_on(
                left_all,
                done,
                left@,
                slice_views(lefts.remaining()).flatten(),
                count + 0,
            );
            lemma_go_on(
                right_all,
                done,
                right@,
                slice_views(rights.remaining()).flatten(),
                count + 0,
            );
        }
        let order = partial_cmp_slices(left, right, count);
        proof {
            lemma_order_goes_on(says, left_done, right_done, next_left, next_right, order);
            done = done + count;
        }
        match order {
            Some(Ordering::Equal) => {},
            order => {
                proof {
                    lemma_order_found(
                        says,
                        left_all.take(done),
                        right_all.take(done),
                        left_all.skip(done),
                        right_all.skip(done),
                        order,
                    );
                    assert(left_all.take(done) + left_all.skip(done) =~= left_all);
                    assert(right_all.take(done) + right_all.skip(done) =~= right_all);
                }
                return order;
            },
        }
        left = left.split_at(count).1;
        right = right.split_at(count).1;
        if left.len() == 0 {
            left = next_non_empty_chunk(&mut lefts);
        }
        if right.len() == 0 {
            right = next_non_empty_chunk(&mut rights);
        }
    }
    let order = match (left.len() == 0, right.len() == 0) {
        (true, true) => Ordering::Equal,
        (true, false) => Ordering::Less,
        (false, _) => Ordering::Greater,
    };
    proof {
        let left_rest = left_all.skip(done);
        let right_rest = right_all.skip(done);
        assert(stops_at(says, left_rest, right_rest, 0, Some(order)));
        lemma_order_goes_on(
            says,
            left_all.take(done),
            right_all.take(done),
            left_rest,
            right_rest,
            Some(order),
        );
        assert(left_all.take(done) + left_rest =~= left_all);
        assert(right_all.take(done) + right_rest =~= right_all);
    }
    Some(order)
}

/// Compares the first `count` elements of two slices.
fn cmp_slices<T: Ord>(left: &[T], right: &[T], count: usize) -> (order: Ordering)
    requires
        count <= left@.len(),
        count <= right@.len(),
    ensures
        order_outcome(
            cmp_says::<T>(),
            first_of(left@, count),
            first_of(right@, count),
            Some(order),
        ),
{
    let ghost says = cmp_says::<T>();
    let ghost first = first_of(left@, count);
    let ghost second = first_of(right@, count);
    let mut offset: usize = 0;
    while offset < count
        invariant
            offset <= count <= left@.len(),
            count <= right@.len(),
            says == cmp_says::<T>(),
            first == first_of(left@, count),
            second == first_of(right@, count),
            forall|i: int|
                #![trigger first[i]]
                #![trigger second[i]]
                0 <= i < offset ==> says(first[i], second[i], Some(Ordering::Equal)),
        decreases count - offset,
    {
        let order = left[offset].cmp(&right[offset]);
        proof {
            assert(first[offset + 0] == left@[offset + 0]);
            assert(second[offset + 0] == right@[offset + 0]);
            assert(says(first[offset + 0], second[offset + 0], Some(order)));
        }
        match order {
            Ordering::Equal => {},
            order => {
                assert(stops_at(says, first, second, offset + 0, Some(order)));
                return order;
            },
        }
        offset = offset + 1;
    }
    assert(stops_at(says, first, second, offset + 0, Some(Ordering::Equal)));
    Ordering::Equal
}

/// Compares two sequences that come in chunks.
#[verifier::rlimit(40)]
#[verifier::spinoff_prover]
pub(crate) fn cmp_chunked_sequences<
    'a,
    'b,
    T: Ord,
    I: Iterator<Item = &'a [T]>,
    J: Iterator<Item = &'b [T]>,
>(left_chunks: I, right_chunks: J) -> (order: Ordering) where T: 'a + 'b
    requires
        left_chunks.obeys_prophetic_iter_laws(),
        left_chunks.decrease() is Some,
        right_chunks.obeys_prophetic_iter_laws(),
        right_chunks.decrease() is Some,
    ensures
        order_outcome(
            cmp_says::<T>(),
            slice_views(left_chunks.remaining()).flatten(),
            slice_views(right_chunks.remaining()).flatten(),
            Some(order),
        ),
{
    let ghost says = cmp_says::<T>();
    let ghost left_all = slice_views(left_chunks.remaining()).flatten();
    let ghost right_all = slice_views(right_chunks.remaining()).flatten();
    let mut lefts = left_chunks;
    let mut rights = right_chunks;
    let mut left: &'a [T] = next_non_empty_chunk(&mut lefts);
    let mut right: &'b [T] = next_non_empty_chunk(&mut rights);
    let ghost mut done: int = 0;
    proof {
        assert(left_all.skip(0) =~= left_all);
        assert(right_all.skip(0) =~= right_all);
        assert(stops_at(says, left_all.take(0), right_all.take(0), 0, Some(Ordering::Equal)));
    }
    while left.len() > 0 && right.len() > 0
        invariant
            says == cmp_says::<T>(),
            left_all == slice_views(left_chunks.remaining()).flatten(),
            right_all == slice_views(right_chunks.remaining()).flatten(),
            lefts.obeys_prophetic_iter_laws(),
            lefts.decrease() is Some,
            rights.obeys_prophetic_iter_laws(),
            rights.decrease() is Some,
            0 <= done <= left_all.len(),
            done <= right_all.len(),
            left_all.skip(done) == left@ + slice_views(lefts.remaining()).flatten(),
            right_all.skip(done) == right@ + slice_views(rights.remaining()).flatten(),
            left@.len() == 0 ==> slice_views(lefts.remaining()).flatten().len() == 0,
            right@.len() == 0 ==> slice_views(rights.remaining()).flatten().len() == 0,
            order_outcome(says, left_all.take(done), right_all.take(done), Some(Ordering::Equal)),
        decreases
            (if left@.len() > 0 && right@.len() > 0 {
                1int
            } else {
                0
            }),
            lefts.decrease()->0 + rights.decrease()->0,
    {
        let count: usize = if left.len() < right.len() {
            left.len()
        } else {
            right.len()
        };
        let ghost next_left = first_of(left@, count);
        let ghost next_right = first_of(right@, count);
        let ghost left_done = left_all.take(done);
        let ghost right_done = right_all.take(done);
        proof {
            lemma_go_on(
                left_all,
                done,
                left@,
                slice_views(lefts.remaining()).flatten(),
                count + 0,
            );
            lemma_go_on(
                right_all,
                done,
                right@,
                slice_views(rights.remaining()).flatten(),
                count + 0,
            );
        }
        let order = cmp_slices(left, right, count);
        proof {
            lemma_order_goes_on(says, left_done, right_done, next_left, next_right, Some(order));
            done = done + count;
        }
        match order {
            Ordering::Equal => {},
            order => {
                proof {
                    lemma_order_found(
                        says,
                        left_all.take(done),
                        right_all.take(done),
                        left_all.skip(done),
                        right_all.skip(done),
                        Some(order),
                    );
                    assert(left_all.take(done) + left_all.skip(done) =~= left_all);
                    assert(right_all.take(done) + right_all.skip(done) =~= right_all);
                }
                return order;
            },
        }
        left = left.split_at(count).1;
        right = right.split_at(count).1;
        if left.len() == 0 {
            left = next_non_empty_chunk(&mut lefts);
        }
        if right.len() == 0 {
            right = next_non_empty_chunk(&mut rights);
        }
    }
    let order = match (left.len() == 0, right.len() == 0) {
        (true, true) => Ordering::Equal,
        (true, false) => Ordering::Less,
        (false, _) => Ordering::Greater,
    };
    proof {
        let left_rest = left_all.skip(done);
        let right_rest = right_all.skip(done);
        assert(stops_at(says, left_rest, right_rest, 0, Some(order)));
        lemma_order_goes_on(
            says,
            left_all.take(done),
            right_all.take(done),
            left_rest,
            right_rest,
            Some(order),
        );
        assert(left_all.take(done) + left_rest =~= left_all);
        assert(right_all.take(done) + right_rest =~= right_all);
    }
    order
}

} // verus!
