//! What single operations do, said of what goes into them and what comes out.
//!
//! Where a contract says what an operation does by a word of the library, a law here
//! says it of the elements, index by index, or of the bounds, the calls and the letters
//! themselves.

use crate::array::{grown_to, ExponentialArray};
use crate::bulk::{RangeBound, RangeError};
use crate::debug::{joined, list_text, shown_as, string_views};
use crate::error::{TryPushError, TryReserveError, TryReserveErrorKind};
use crate::geometry::{chunk_slots, lemma_chunks_for};
use crate::laws::{slots_add_up, total_slots};
use crate::source::Source;
use core::fmt::Debug;
use vstd::layout;
use vstd::prelude::*;

verus! {

// Generated elements.

/// A resize that generates elements keeps the elements that there were, up to the new
/// length, and calls the generator once for each element that it appends: there is one
/// step of the generator for each of them, each step goes on from where the one before
/// it left the generator, and the step for an element makes that element.
pub proof fn generators_are_called_once_for_each_element<
    T,
    F: FnMut() -> T,
    const BASE_SHIFT: usize,
    const CHUNKS: usize,
>(array: &mut ExponentialArray<T, BASE_SHIFT, CHUNKS>, new_len: usize, make_value: F)
    requires
        call_ensures(
            ExponentialArray::<T, BASE_SHIFT, CHUNKS>::resize_with::<F>,
            (array, new_len, make_value),
            (),
        ),
    ensures
        final(array)@.len() == new_len,
        forall|i: int|
            #![trigger final(array)@[i]]
            0 <= i < new_len && i < old(array)@.len() ==> final(array)@[i] == old(array)@[i],
        new_len > old(array)@.len() ==> exists|states: Seq<F>|
            {
                &&& #[trigger] states.len() == new_len - old(array)@.len() + 1
                &&& states[0] == make_value
                &&& forall|k: int|
                    0 <= k < new_len - old(array)@.len() ==> #[trigger] states[k].steps(
                        final(array)@[old(array)@.len() + k],
                        &states[k + 1],
                    )
            },
{
    let len = old(array)@.len() as int;
    if new_len <= len {
        assert forall|i: int| 0 <= i < new_len && i < len implies #[trigger] final(array)@[i]
            == old(array)@[i] by {
            assert(old(array)@.take(new_len as int)[i] == old(array)@[i]);
        }
    } else {
        assert forall|i: int| 0 <= i < new_len && i < len implies #[trigger] final(array)@[i]
            == old(array)@[i] by {
            assert(final(array)@.take(len)[i] == final(array)@[i]);
        }
        let states = choose|states: Seq<F>|
            {
                &&& #[trigger] states.len() == new_len - len + 1
                &&& states[0] == make_value
                &&& forall|i: int|
                    #![trigger final(array)@[i]]
                    len <= i < new_len ==> states[i - len].steps(
                        final(array)@[i],
                        &states[i - len + 1],
                    )
            };
        assert(states.len() == new_len - len + 1);
        assert forall|k: int| 0 <= k < new_len - len implies #[trigger] states[k].steps(
            final(array)@[len + k],
            &states[k + 1],
        ) by {
            let element = final(array)@[len + k];
        }
    }
}

/// What a source is after `calls` calls, if each takes it from one state to the `next`.
pub open spec fn state_after<S>(next: spec_fn(S) -> S, first: S, calls: nat) -> S
    decreases calls,
{
    if calls == 0 {
        first
    } else {
        next(state_after(next, first, (calls - 1) as nat))
    }
}

/// Where a step of a source has one outcome, the elements that a source made, one by
/// each step, are those of its first calls, in the order of the calls.
pub proof fn generated_elements_come_in_order<T, S: Source<T>>(
    elements: Seq<T>,
    states: Seq<S>,
    value: spec_fn(S) -> T,
    next: spec_fn(S) -> S,
    k: int,
)
    requires
        states.len() == elements.len() + 1,
        forall|i: int|
            0 <= i < elements.len() ==> #[trigger] states[i].steps(elements[i], &states[i + 1]),
        forall|before: S, made: T, after: S| #[trigger]
            before.steps(made, &after) ==> made == value(before) && after == next(before),
        0 <= k <= elements.len(),
    ensures
        states[k] == state_after(next, states[0], k as nat),
        k < elements.len() ==> elements[k] == value(state_after(next, states[0], k as nat)),
    decreases k,
{
    if k > 0 {
        generated_elements_come_in_order(elements, states, value, next, k - 1);
        assert(states[k - 1].steps(elements[k - 1], &states[k - 1 + 1]));
    }
    if k < elements.len() {
        assert(states[k].steps(elements[k], &states[k + 1]));
    }
}

// Ranges.

/// `index` satisfies both bounds of a range.
pub open spec fn admitted(start: RangeBound, end: RangeBound, index: int) -> bool {
    &&& start matches RangeBound::Included(first) ==> first <= index
    &&& start matches RangeBound::Excluded(before) ==> before < index
    &&& end matches RangeBound::Included(last) ==> index <= last
    &&& end matches RangeBound::Excluded(after) ==> index < after
}

/// A range that is resolved lies within the array, and holds exactly the indices of the
/// array that satisfy both of its bounds.
pub proof fn ranges_hold_what_their_bounds_admit<
    T,
    const BASE_SHIFT: usize,
    const CHUNKS: usize,
>(
    array: &ExponentialArray<T, BASE_SHIFT, CHUNKS>,
    start: RangeBound,
    end: RangeBound,
    first: usize,
    last: usize,
)
    requires
        call_ensures(
            ExponentialArray::<T, BASE_SHIFT, CHUNKS>::resolve_range_bounds,
            (array, start, end),
            Ok((first, last)),
        ),
    ensures
        first <= last <= array@.len(),
        forall|i: int|
            0 <= i < array@.len() ==> (first <= i < last <==> #[trigger] admitted(start, end, i)),
{
}

/// The index where a range starts is the one that its start names, or the one after it,
/// or the first of all; and the index after its end is named in the same way. These two
/// decide what comes of a range, and nothing else does.
pub proof fn ranges_are_decided_by_their_ends<T, const BASE_SHIFT: usize, const CHUNKS: usize>(
    array: &ExponentialArray<T, BASE_SHIFT, CHUNKS>,
    start: RangeBound,
    end: RangeBound,
    range: Result<(usize, usize), RangeError>,
)
    requires
        call_ensures(
            ExponentialArray::<T, BASE_SHIFT, CHUNKS>::resolve_range_bounds,
            (array, start, end),
            range,
        ),
        array@.len() <= usize::MAX,
    ensures
        range == Err::<(usize, usize), RangeError>(RangeError::StartOverflow) <==> start
            == RangeBound::Excluded(usize::MAX),
        range == Err::<(usize, usize), RangeError>(RangeError::EndOverflow) <==> start
            != RangeBound::Excluded(usize::MAX) && end == RangeBound::Included(usize::MAX),
        start != RangeBound::Excluded(usize::MAX) && end != RangeBound::Included(usize::MAX) ==> {
            let first = match start {
                RangeBound::Included(index) => index as int,
                RangeBound::Excluded(index) => index + 1,
                RangeBound::Unbounded => 0,
            };
            let last = match end {
                RangeBound::Included(index) => index + 1,
                RangeBound::Excluded(index) => index as int,
                RangeBound::Unbounded => array@.len() as int,
            };
            match range {
                Ok((from, to)) => from == first && to == last && first <= last <= array@.len(),
                Err(RangeError::Reversed { start: from, end: to }) => from == first && to == last
                    && first > last,
                Err(RangeError::OutOfBounds { end: to, len }) => to == last && len == array@.len()
                    && first <= last && last > len,
                _ => false,
            }
        },
{
}

/// An array that is extended from within keeps its elements, and gets a clone of each
/// element whose index satisfies both bounds, in the order of the indices.
pub proof fn extension_from_within_clones_what_the_bounds_admit<
    T: Clone,
    const BASE_SHIFT: usize,
    const CHUNKS: usize,
>(
    array: &mut ExponentialArray<T, BASE_SHIFT, CHUNKS>,
    start: RangeBound,
    end: RangeBound,
    first: usize,
    last: usize,
)
    requires
        call_ensures(
            ExponentialArray::<T, BASE_SHIFT, CHUNKS>::extend_from_within,
            (array, start, end),
            (),
        ),
        call_ensures(
            ExponentialArray::<T, BASE_SHIFT, CHUNKS>::resolve_range_bounds,
            (&*old(array), start, end),
            Ok((first, last)),
        ),
    ensures
        final(array)@.len() == old(array)@.len() + last - first,
        forall|i: int|
            #![trigger final(array)@[i]]
            0 <= i < old(array)@.len() ==> final(array)@[i] == old(array)@[i],
        forall|i: int|
            #![trigger admitted(start, end, i)]
            0 <= i < old(array)@.len() && admitted(start, end, i) ==> cloned(
                old(array)@[i],
                final(array)@[old(array)@.len() + i - first],
            ),
        start == RangeBound::Unbounded && end == RangeBound::Unbounded ==> final(array)@.len() == 2
            * old(array)@.len(),
{
    let len = old(array)@.len() as int;
    ranges_hold_what_their_bounds_admit(&*old(array), start, end, first, last);
    assert forall|i: int| 0 <= i < len implies #[trigger] final(array)@[i] == old(array)@[i] by {
        assert(final(array)@.take(len)[i] == final(array)@[i]);
    }
    assert forall|i: int| 0 <= i < len && #[trigger] admitted(start, end, i) implies cloned(
        old(array)@[i],
        final(array)@[len + i - first],
    ) by {
        let copies = final(array)@.skip(len);
        assert(copies[i - first] == final(array)@[len + i - first]);
        assert(old(array)@.subrange(first as int, last as int)[i - first] == old(array)@[i]);
    }
}

// Lists.

/// How many letters come before text `index` of a list without its brackets: those of
/// the texts before it, and two after each of them.
pub open spec fn letters_before(texts: Seq<Seq<char>>, index: int) -> int
    decreases index,
{
    if index <= 0 {
        0
    } else {
        letters_before(texts, index - 1) + texts[index - 1].len() + 2
    }
}

/// One more text is joined to others by a comma and a space.
pub proof fn one_more_text_is_joined(texts: Seq<Seq<char>>, text: Seq<char>)
    ensures
        joined(Seq::empty()) == Seq::<char>::empty(),
        joined(seq![text]) == text,
        texts.len() > 0 ==> joined(texts.push(text)) == joined(texts) + seq![',', ' '] + text,
{
    reveal_strlit(", ");
    assert(", "@ =~= seq![',', ' ']);
    assert(texts.push(text).drop_last() =~= texts);
}

/// The text at `index` stands whole in `list`, behind the texts before it and `start` more
/// letters, with a comma and a space before it unless it is the first.
pub open spec fn stands_in(
    list: Seq<char>,
    start: int,
    texts: Seq<Seq<char>>,
    index: int,
) -> bool {
    let at = start + letters_before(texts, index);
    &&& start <= at <= at + texts[index].len() <= list.len()
    &&& list.subrange(at, at + texts[index].len()) == texts[index]
    &&& index > 0 ==> start + 2 <= at && list[at - 2] == ',' && list[at - 1] == ' '
}

/// The texts of a list stand in it one after the other, each whole, with a comma and a
/// space before each but the first, and nothing else.
pub proof fn every_text_is_shown(texts: Seq<Seq<char>>)
    ensures
        texts.len() > 0 ==> joined(texts).len() == letters_before(texts, texts.len() as int) - 2,
        forall|i: int|
            0 <= i < texts.len() ==> #[trigger] stands_in(joined(texts), 0, texts, i),
    decreases texts.len(),
{
    if texts.len() > 0 {
        let fewer = texts.drop_last();
        let last = texts.last();
        every_text_is_shown(fewer);
        one_more_text_is_joined(fewer, last);
        assert(fewer.push(last) =~= texts);
        if fewer.len() == 0 {
            assert(texts =~= seq![last]);
        }
        lemma_letters_before(texts, fewer, fewer.len() as int);
        let list = joined(texts);
        assert forall|i: int| 0 <= i < texts.len() implies #[trigger] stands_in(
            list,
            0,
            texts,
            i,
        ) by {
            let at = letters_before(texts, i);
            lemma_letters_before(texts, fewer, i);
            if i < fewer.len() {
                assert(stands_in(joined(fewer), 0, fewer, i));
                assert(list.subrange(at, at + texts[i].len()) =~= joined(fewer).subrange(
                    at,
                    at + texts[i].len(),
                ));
            } else {
                assert(list.subrange(at, at + texts[i].len()) =~= texts[i]);
            }
        }
    }
}

/// The letters before a text are those of the texts before it.
proof fn lemma_letters_before(texts: Seq<Seq<char>>, fewer: Seq<Seq<char>>, index: int)
    requires
        0 <= index <= fewer.len() <= texts.len(),
        forall|i: int| #![trigger fewer[i]] 0 <= i < fewer.len() ==> fewer[i] == texts[i],
    ensures
        letters_before(texts, index) == letters_before(fewer, index),
        letters_before(texts, index) >= 0,
    decreases index,
{
    if index > 0 {
        lemma_letters_before(texts, fewer, index - 1);
        assert(fewer[index - 1] == texts[index - 1]);
    }
}

/// The texts of strings are what they hold, one for each, in order.
pub proof fn string_views_are_what_strings_hold(strings: Seq<String>)
    ensures
        string_views(strings).len() == strings.len(),
        forall|i: int|
            #![trigger strings[i]]
            #![trigger string_views(strings)[i]]
            0 <= i < strings.len() ==> string_views(strings)[i] == strings[i]@,
{
}

/// The text of an array is a list of the texts of all its elements: an opening bracket,
/// each text whole, in order, with a comma and a space before each but the first, and a
/// closing bracket, and nothing else.
pub proof fn arrays_show_every_element<T: Debug, const BASE_SHIFT: usize, const CHUNKS: usize>(
    array: &ExponentialArray<T, BASE_SHIFT, CHUNKS>,
    text: String,
)
    requires
        call_ensures(ExponentialArray::<T, BASE_SHIFT, CHUNKS>::debug_string, (array,), text),
    ensures
        exists|strings: Seq<String>|
            {
                &&& strings.len() == array@.len()
                &&& #[trigger] list_shows(text@, string_views(strings))
                &&& forall|i: int|
                    #![trigger strings[i]]
                    0 <= i < array@.len() ==> shown_as(array@[i], strings[i])
            },
{
    let strings = choose|strings: Seq<String>|
        {
            &&& #[trigger] string_views(strings).len() == array@.len()
            &&& text@ == list_text(string_views(strings))
            &&& forall|i: int|
                #![trigger strings[i]]
                0 <= i < array@.len() ==> shown_as(array@[i], strings[i])
        };
    lemma_list_shows(string_views(strings));
}

/// The list of the texts that a function gives of an array shows one text of each
/// element, in order.
pub proof fn lists_show_every_element<
    T,
    F: Fn(&T) -> String,
    const BASE_SHIFT: usize,
    const CHUNKS: usize,
>(array: &ExponentialArray<T, BASE_SHIFT, CHUNKS>, render: F, text: String)
    requires
        call_ensures(
            ExponentialArray::<T, BASE_SHIFT, CHUNKS>::list_string::<F>,
            (array, render),
            text,
        ),
    ensures
        exists|strings: Seq<String>|
            {
                &&& strings.len() == array@.len()
                &&& #[trigger] list_shows(text@, string_views(strings))
                &&& forall|i: int|
                    #![trigger strings[i]]
                    0 <= i < array@.len() ==> call_ensures(render, (&array@[i],), strings[i])
            },
{
    let strings = choose|strings: Seq<String>|
        {
            &&& #[trigger] string_views(strings).len() == array@.len()
            &&& text@ == list_text(string_views(strings))
            &&& forall|i: int|
                #![trigger strings[i]]
                0 <= i < array@.len() ==> call_ensures(render, (&array@[i],), strings[i])
        };
    lemma_list_shows(string_views(strings));
}

/// `list` is an opening bracket, the texts, each whole, in order, with a comma and a
/// space before each but the first, and a closing bracket.
pub open spec fn list_shows(list: Seq<char>, texts: Seq<Seq<char>>) -> bool {
    &&& list.len() == 2 + if texts.len() == 0 {
        0
    } else {
        letters_before(texts, texts.len() as int) - 2
    }
    &&& list.first() == '['
    &&& list.last() == ']'
    &&& forall|i: int| 0 <= i < texts.len() ==> #[trigger] stands_in(list, 1, texts, i)
}

/// The list of some texts shows all of them.
proof fn lemma_list_shows(texts: Seq<Seq<char>>)
    ensures
        list_shows(list_text(texts), texts),
{
    let list = list_text(texts);
    let inner = joined(texts);
    reveal_strlit("[");
    reveal_strlit("]");
    every_text_is_shown(texts);
    one_more_text_is_joined(texts, Seq::empty());
    if texts.len() == 0 {
        assert(texts =~= Seq::empty());
    }
    assert(list.len() == inner.len() + 2);
    assert forall|i: int| 0 <= i < texts.len() implies #[trigger] stands_in(list, 1, texts, i) by {
        let at = letters_before(texts, i);
        assert(stands_in(inner, 0, texts, i));
        assert(list.subrange(1 + at, 1 + at + texts[i].len()) =~= inner.subrange(
            at,
            at + texts[i].len(),
        ));
        if i > 0 {
            assert(list[at - 1] == inner[at - 2]);
            assert(list[at] == inner[at - 1]);
        }
    }
}

// Elements and chunks.

/// `after` has the chunks of `before`, where they were, and `count` slots in all of its
/// chunks, and no chunk more than it takes for that.
pub open spec fn takes_least_chunks(
    base: nat,
    before: Seq<usize>,
    after: Seq<usize>,
    count: int,
) -> bool {
    &&& before.len() <= after.len()
    &&& forall|c: int| #![trigger after[c]] 0 <= c < before.len() ==> after[c] == before[c]
    &&& count <= total_slots(base, after.len())
    &&& after.len() > before.len() ==> total_slots(base, (after.len() - 1) as nat) < count
}

/// To grow for a number of slots is to take no chunk more than it needs.
pub proof fn growth_takes_the_least_chunks(
    base: nat,
    before: Seq<usize>,
    after: Seq<usize>,
    count: int,
)
    requires
        0 <= count,
    ensures
        grown_to(base, before, after, count) <==> takes_least_chunks(base, before, after, count),
{
    slots_add_up(base, after.len());
    lemma_chunks_for(base, count, after.len());
    lemma_chunks_for(base, count, before.len());
    if after.len() > 0 {
        slots_add_up(base, (after.len() - 1) as nat);
        lemma_chunks_for(base, count, (after.len() - 1) as nat);
    }
    if takes_least_chunks(base, before, after, count) {
        assert(before =~= after.subrange(0, before.len() as int));
    }
    if grown_to(base, before, after, count) {
        assert forall|c: int| 0 <= c < before.len() implies #[trigger] after[c] == before[c] by {
            assert(after.subrange(0, before.len() as int)[c] == after[c]);
        }
    }
}

/// `after` starts with the elements of `before`.
pub open spec fn keeps<T>(before: Seq<T>, after: Seq<T>) -> bool {
    &&& before.len() <= after.len()
    &&& forall|i: int| #![trigger after[i]] 0 <= i < before.len() ==> after[i] == before[i]
}

/// A push appends its value behind the elements that there are, and returns its index.
pub proof fn push_appends_one_element<T, const BASE_SHIFT: usize, const CHUNKS: usize>(
    array: &mut ExponentialArray<T, BASE_SHIFT, CHUNKS>,
    value: T,
    index: usize,
)
    requires
        call_ensures(
            ExponentialArray::<T, BASE_SHIFT, CHUNKS>::push,
            (array, value),
            index,
        ),
    ensures
        index == old(array)@.len(),
        final(array)@.len() == old(array)@.len() + 1,
        keeps(old(array)@, final(array)@),
        final(array)@[index as int] == value,
        takes_least_chunks(
            BASE_SHIFT as nat,
            old(array).buffers(),
            final(array).buffers(),
            final(array)@.len() as int,
        ),
{
    growth_takes_the_least_chunks(
        BASE_SHIFT as nat,
        old(array).buffers(),
        final(array).buffers(),
        final(array)@.len() as int,
    );
}

/// A push that can fail appends its value if it succeeds, and gives the value back and
/// leaves the elements as they are if not. It is refused for the limit exactly if the
/// array is as long as the limit, and for memory only if it takes another chunk.
pub proof fn try_push_appends_or_gives_back<T, const BASE_SHIFT: usize, const CHUNKS: usize>(
    array: &mut ExponentialArray<T, BASE_SHIFT, CHUNKS>,
    value: T,
    result: Result<usize, TryPushError<T>>,
)
    requires
        old(array).wf(),
        call_ensures(
            ExponentialArray::<T, BASE_SHIFT, CHUNKS>::try_push,
            (array, value),
            result,
        ),
    ensures
        keeps(old(array)@, final(array)@),
        match result {
            Ok(index) => {
                &&& index == old(array)@.len()
                &&& final(array)@.len() == index + 1
                &&& final(array)@[index as int] == value
                &&& takes_least_chunks(
                    BASE_SHIFT as nat,
                    old(array).buffers(),
                    final(array).buffers(),
                    index + 1,
                )
            },
            Err(error) => {
                &&& error.rejected() == value
                &&& final(array)@ == old(array)@
                &&& old(array)@.len() < ExponentialArray::<T, BASE_SHIFT, CHUNKS>::slot_limit()
                    ==> error.reason()@ is AllocError && layout::size_of::<T>() > 0
                    && total_slots(BASE_SHIFT as nat, old(array).buffers().len())
                    == old(array)@.len()
            },
        },
        old(array)@.len() >= ExponentialArray::<T, BASE_SHIFT, CHUNKS>::slot_limit()
            ==> result is Err,
{
    let base = BASE_SHIFT as nat;
    old(array).lemma_view();
    old(array).lemma_capacity();
    slots_add_up(base, old(array).buffers().len());
    match result {
        Ok(index) => {
            growth_takes_the_least_chunks(
                base,
                old(array).buffers(),
                final(array).buffers(),
                index + 1,
            );
        },
        Err(error) => {
            if old(array)@.len() < ExponentialArray::<T, BASE_SHIFT, CHUNKS>::slot_limit() {
                lemma_chunks_for(base, old(array)@.len() + 1int, final(array).buffers().len());
                lemma_chunks_for(base, old(array)@.len() + 1int, old(array).buffers().len());
            }
        },
    }
}

/// A pop takes the last element, if there is one, and keeps the others and the chunks.
pub proof fn pop_takes_the_last_element<T, const BASE_SHIFT: usize, const CHUNKS: usize>(
    array: &mut ExponentialArray<T, BASE_SHIFT, CHUNKS>,
    value: Option<T>,
)
    requires
        call_ensures(ExponentialArray::<T, BASE_SHIFT, CHUNKS>::pop, (array,), value),
    ensures
        final(array).buffers() == old(array).buffers(),
        keeps(final(array)@, old(array)@),
        match value {
            Some(value) => {
                &&& old(array)@.len() > 0
                &&& final(array)@.len() == old(array)@.len() - 1
                &&& value == old(array)@[old(array)@.len() - 1]
            },
            None => old(array)@.len() == 0 && final(array)@.len() == 0,
        },
{
}

/// A cut keeps the first elements, as many as are asked for if there are so many, and the
/// chunks.
pub proof fn truncate_keeps_the_first_elements<T, const BASE_SHIFT: usize, const CHUNKS: usize>(
    array: &mut ExponentialArray<T, BASE_SHIFT, CHUNKS>,
    new_len: usize,
)
    requires
        call_ensures(ExponentialArray::<T, BASE_SHIFT, CHUNKS>::truncate, (array, new_len), ()),
    ensures
        final(array)@.len() <= new_len,
        final(array)@.len() <= old(array)@.len(),
        final(array)@.len() == new_len || final(array)@.len() == old(array)@.len(),
        keeps(final(array)@, old(array)@),
        final(array).buffers() == old(array).buffers(),
{
}

/// An array that is cleared has no elements and the chunks that it had.
pub proof fn clear_keeps_the_chunks<T, const BASE_SHIFT: usize, const CHUNKS: usize>(
    array: &mut ExponentialArray<T, BASE_SHIFT, CHUNKS>,
)
    requires
        call_ensures(ExponentialArray::<T, BASE_SHIFT, CHUNKS>::clear, (array,), ()),
    ensures
        final(array)@.len() == 0,
        final(array).buffers() == old(array).buffers(),
{
}

/// A resize has the length that was asked for, keeps the elements that there were up to
/// it, and appends clones of a value, and at last the value itself.
pub proof fn resize_appends_clones<T: Clone, const BASE_SHIFT: usize, const CHUNKS: usize>(
    array: &mut ExponentialArray<T, BASE_SHIFT, CHUNKS>,
    new_len: usize,
    value: T,
)
    requires
        call_ensures(
            ExponentialArray::<T, BASE_SHIFT, CHUNKS>::resize,
            (array, new_len, value),
            (),
        ),
    ensures
        final(array)@.len() == new_len,
        forall|i: int|
            #![trigger final(array)@[i]]
            0 <= i < new_len && i < old(array)@.len() ==> final(array)@[i] == old(array)@[i],
        forall|i: int|
            #![trigger final(array)@[i]]
            old(array)@.len() <= i < new_len - 1 ==> cloned(value, final(array)@[i]),
        new_len > old(array)@.len() ==> final(array)@[new_len - 1] == value,
        takes_least_chunks(
            BASE_SHIFT as nat,
            old(array).buffers(),
            final(array).buffers(),
            if new_len > old(array)@.len() {
                new_len as int
            } else {
                0
            },
        ),
{
    let len = old(array)@.len() as int;
    if new_len > len {
        assert forall|i: int| 0 <= i < new_len && i < len implies #[trigger] final(array)@[i]
            == old(array)@[i] by {
            assert(final(array)@.take(len)[i] == final(array)@[i]);
        }
        growth_takes_the_least_chunks(
            BASE_SHIFT as nat,
            old(array).buffers(),
            final(array).buffers(),
            new_len as int,
        );
    }
}

/// An append has the elements of both arrays, those of the first before those of the
/// second, and leaves the second empty, with its chunks.
pub proof fn append_joins_two_arrays<T, const BASE_SHIFT: usize, const CHUNKS: usize>(
    array: &mut ExponentialArray<T, BASE_SHIFT, CHUNKS>,
    other: &mut ExponentialArray<T, BASE_SHIFT, CHUNKS>,
)
    requires
        call_ensures(ExponentialArray::<T, BASE_SHIFT, CHUNKS>::append, (array, other), ()),
    ensures
        final(array)@.len() == old(array)@.len() + old(other)@.len(),
        keeps(old(array)@, final(array)@),
        forall|k: int|
            #![trigger old(other)@[k]]
            0 <= k < old(other)@.len() ==> final(array)@[old(array)@.len() + k] == old(other)@[k],
        final(other)@.len() == 0,
        final(other).buffers() == old(other).buffers(),
        takes_least_chunks(
            BASE_SHIFT as nat,
            old(array).buffers(),
            final(array).buffers(),
            final(array)@.len() as int,
        ),
{
    growth_takes_the_least_chunks(
        BASE_SHIFT as nat,
        old(array).buffers(),
        final(array).buffers(),
        final(array)@.len() as int,
    );
}

/// A split leaves the elements before the index, with the chunks, and moves the others,
/// in order, to an array that has no chunk more than they take.
pub proof fn split_off_parts_an_array<T, const BASE_SHIFT: usize, const CHUNKS: usize>(
    array: &mut ExponentialArray<T, BASE_SHIFT, CHUNKS>,
    at: usize,
    tail: ExponentialArray<T, BASE_SHIFT, CHUNKS>,
)
    requires
        at <= old(array)@.len(),
        call_ensures(ExponentialArray::<T, BASE_SHIFT, CHUNKS>::split_off, (array, at), tail),
    ensures
        final(array)@.len() == at,
        tail@.len() == old(array)@.len() - at,
        keeps(final(array)@, old(array)@),
        forall|k: int|
            #![trigger tail@[k]]
            0 <= k < tail@.len() ==> tail@[k] == old(array)@[at + k],
        final(array).buffers() == old(array).buffers(),
        takes_least_chunks(
            BASE_SHIFT as nat,
            Seq::empty(),
            tail.buffers(),
            old(array)@.len() - at,
        ),
{
    assert(tail.buffers().subrange(0, 0) =~= Seq::<usize>::empty());
    growth_takes_the_least_chunks(
        BASE_SHIFT as nat,
        Seq::empty(),
        tail.buffers(),
        old(array)@.len() - at,
    );
}

/// An extension from a slice appends one clone of each value, in order.
pub proof fn extension_from_a_slice_clones_every_value<
    T: Clone,
    const BASE_SHIFT: usize,
    const CHUNKS: usize,
>(array: &mut ExponentialArray<T, BASE_SHIFT, CHUNKS>, values: &[T])
    requires
        call_ensures(
            ExponentialArray::<T, BASE_SHIFT, CHUNKS>::extend_from_slice,
            (array, values),
            (),
        ),
    ensures
        final(array)@.len() == old(array)@.len() + values@.len(),
        keeps(old(array)@, final(array)@),
        forall|k: int|
            #![trigger values@[k]]
            0 <= k < values@.len() ==> cloned(
                values@[k],
                final(array)@[old(array)@.len() + k],
            ),
        takes_least_chunks(
            BASE_SHIFT as nat,
            old(array).buffers(),
            final(array).buffers(),
            final(array)@.len() as int,
        ),
{
    let len = old(array)@.len() as int;
    assert forall|i: int| 0 <= i < len implies #[trigger] final(array)@[i] == old(array)@[i] by {
        assert(final(array)@.take(len)[i] == final(array)@[i]);
    }
    assert forall|k: int| 0 <= k < values@.len() implies cloned(
        #[trigger] values@[k],
        final(array)@[len + k],
    ) by {
        assert(final(array)@.skip(len)[k] == final(array)@[len + k]);
    }
    growth_takes_the_least_chunks(
        BASE_SHIFT as nat,
        old(array).buffers(),
        final(array).buffers(),
        final(array)@.len() as int,
    );
}

/// A reservation keeps the elements, and has the slots that were asked for.
pub proof fn reserve_makes_room<T, const BASE_SHIFT: usize, const CHUNKS: usize>(
    array: &mut ExponentialArray<T, BASE_SHIFT, CHUNKS>,
    additional: usize,
)
    requires
        call_ensures(
            ExponentialArray::<T, BASE_SHIFT, CHUNKS>::reserve,
            (array, additional),
            (),
        ),
    ensures
        final(array)@ == old(array)@,
        takes_least_chunks(
            BASE_SHIFT as nat,
            old(array).buffers(),
            final(array).buffers(),
            old(array)@.len() + additional,
        ),
{
    growth_takes_the_least_chunks(
        BASE_SHIFT as nat,
        old(array).buffers(),
        final(array).buffers(),
        old(array)@.len() + additional,
    );
}

/// What comes of a reservation that can fail is decided by how many elements were asked
/// for in all: too many for a `usize`, too many for the limit, or else no refusal but the
/// allocator's, which comes only where slots are missing and take memory. An error names
/// the numbers that it is about.
pub proof fn reservations_are_decided_by_the_limit<
    T,
    const BASE_SHIFT: usize,
    const CHUNKS: usize,
>(
    array: &mut ExponentialArray<T, BASE_SHIFT, CHUNKS>,
    additional: usize,
    result: Result<(), TryReserveError>,
)
    requires
        old(array).wf(),
        call_ensures(
            ExponentialArray::<T, BASE_SHIFT, CHUNKS>::try_reserve,
            (array, additional),
            result,
        ),
    ensures
        final(array)@ == old(array)@,
        ({
            let base = BASE_SHIFT as nat;
            let limit = ExponentialArray::<T, BASE_SHIFT, CHUNKS>::slot_limit();
            let count = old(array)@.len() + additional;
            let size = layout::size_of::<T>();
            let before = old(array).buffers();
            let after = final(array).buffers();
            if count > usize::MAX {
                &&& result matches Err(error)
                &&& error@ == TryReserveErrorKind::CapacityOverflow
                &&& after == before
            } else if count > limit {
                &&& result matches Err(error)
                &&& error@ == (TryReserveErrorKind::CapacityExceeded {
                    requested: count as usize,
                    max: limit,
                })
                &&& after == before
            } else {
                match result {
                    Ok(_) => takes_least_chunks(base, before, after, count),
                    Err(error) => {
                        &&& size > 0
                        &&& keeps(before, after)
                        &&& total_slots(base, after.len()) < count
                        &&& error@ matches TryReserveErrorKind::AllocError { size: bytes, align }
                        &&& bytes == chunk_slots(base, after.len()) * size
                        &&& align == layout::align_of::<T>()
                    },
                }
            }
        }),
{
    let base = BASE_SHIFT as nat;
    let count = old(array)@.len() + additional;
    let before = old(array).buffers();
    let after = final(array).buffers();
    old(array).lemma_view();
    growth_takes_the_least_chunks(base, before, after, count);
    slots_add_up(base, after.len());
    lemma_chunks_for(base, count, after.len());
    if before.is_prefix_of(after) {
        assert forall|c: int| 0 <= c < before.len() implies #[trigger] after[c] == before[c] by {
            assert(after.subrange(0, before.len() as int)[c] == after[c]);
        }
    }
}

} // verus!
