//! Mutable references in order.

use crate::array::ExponentialArray;
use crate::contents::{lemma_segments, segments};
use vstd::prelude::*;
use vstd::std_specs::iter::{DoubleEndedIteratorSpecImpl, IteratorSpecImpl};

verus! {

/// What each of `slices` holds.
pub open spec fn held<'a, T>(slices: Seq<&'a mut [T]>) -> Seq<Seq<T>> {
    slices.map_values(|slice: &'a mut [T]| slice@)
}

/// The slice in `slot`, if there is one.
spec fn in_slot<'a, T>(slot: Option<&'a mut [T]>) -> Seq<&'a mut [T]> {
    match slot {
        Some(slice) => seq![slice],
        None => Seq::empty(),
    }
}

/// A value that leaves the front of the first part leaves the front of all.
proof fn lemma_take_front<T>(parts: Seq<Seq<T>>, left: Seq<Seq<T>>, value: T)
    requires
        parts.len() > 0,
        left.len() > 0,
        parts.drop_first() == left.drop_first(),
        parts[0] == seq![value] + left[0],
    ensures
        parts.flatten() == seq![value] + left.flatten(),
{
    assert(parts.flatten() =~= seq![value] + left.flatten());
}

/// A value that leaves the back of the last part leaves the back of all.
proof fn lemma_take_back<T>(parts: Seq<Seq<T>>, left: Seq<Seq<T>>, value: T)
    requires
        parts.len() > 0,
        left.len() > 0,
        parts.drop_last() == left.drop_last(),
        parts.last() == left.last() + seq![value],
    ensures
        parts.flatten() == left.flatten() + seq![value],
{
    parts.drop_last().lemma_flatten_push(parts.last());
    left.drop_last().lemma_flatten_push(left.last());
    assert(parts.drop_last().push(parts.last()) =~= parts);
    assert(left.drop_last().push(left.last()) =~= left);
    assert(parts.flatten() =~= left.flatten() + seq![value]);
}

/// A first part that is empty adds nothing.
proof fn lemma_empty_front<T>(parts: Seq<Seq<T>>)
    requires
        parts.len() > 0,
        parts[0].len() == 0,
    ensures
        parts.flatten() == parts.drop_first().flatten(),
{
    assert(parts.flatten() =~= parts.drop_first().flatten());
}

/// A last part that is empty adds nothing.
proof fn lemma_empty_back<T>(parts: Seq<Seq<T>>)
    requires
        parts.len() > 0,
        parts.last().len() == 0,
    ensures
        parts.flatten() == parts.drop_last().flatten(),
{
    parts.drop_last().lemma_flatten_push(parts.last());
    assert(parts.drop_last().push(parts.last()) =~= parts);
    assert(parts.flatten() =~= parts.drop_last().flatten());
}

/// An iterator over mutable references in an [`ExponentialArray`].
pub struct IterMut<'a, T, const BASE_SHIFT: usize, const CHUNKS: usize> {
    front: Option<&'a mut [T]>,
    middle: Vec<&'a mut [T]>,
    back: Option<&'a mut [T]>,
    left: usize,
}

impl<'a, T, const BASE_SHIFT: usize, const CHUNKS: usize> IterMut<'a, T, BASE_SHIFT, CHUNKS> {
    /// The slices from which the references are taken, in order.
    pub closed spec fn slices(&self) -> Seq<&'a mut [T]> {
        in_slot(self.front) + self.middle@ + in_slot(self.back)
    }

    /// The values that are left, in order.
    pub open spec fn values(&self) -> Seq<T> {
        held(self.slices()).flatten()
    }

    /// The values that are left are counted.
    pub closed spec fn wf(&self) -> bool {
        self.left == self.values().len()
    }

    /// The values that are left when the iterator is given up stay as they are.
    pub proof fn lemma_given_up(self)
        requires
            has_resolved(self),
        ensures
            self.slices().map_values(|slice: &'a mut [T]| final(slice)@).flatten()
                == self.values(),
    {
        let slices = self.slices();
        assert forall|i: int| 0 <= i < slices.len() implies final(#[trigger] slices[i])@
            == slices[i]@ by {
            if i < in_slot(self.front).len() {
                assert(has_resolved(self.front));
            } else if i < in_slot(self.front).len() + self.middle@.len() {
                assert(has_resolved(self.middle));
                assert(has_resolved(self.middle@[i - in_slot(self.front).len()]));
            } else {
                assert(has_resolved(self.back));
            }
        }
        assert(slices.map_values(|slice: &'a mut [T]| final(slice)@) =~= held(slices));
    }
}

impl<'a, T, const BASE_SHIFT: usize, const CHUNKS: usize> Iterator for IterMut<
    'a,
    T,
    BASE_SHIFT,
    CHUNKS,
> {
    type Item = &'a mut T;

    fn next(&mut self) -> (item: Option<&'a mut T>)
        ensures
            old(self).wf() ==> final(self).wf(),
            match item {
                Some(value) => {
                    &&& old(self).values().len() > 0
                    &&& *value == old(self).values()[0]
                    &&& final(self).values() == old(self).values().drop_first()
                    &&& old(self).slices().map_values(|slice: &'a mut [T]| final(slice)@).flatten()
                        == seq![*final(value)] + final(self).slices().map_values(
                        |slice: &'a mut [T]| final(slice)@,
                    ).flatten()
                },
                None => {
                    &&& old(self).values().len() == 0
                    &&& final(self).values().len() == 0
                    &&& old(self).slices().map_values(
                        |slice: &'a mut [T]| final(slice)@,
                    ).flatten() == final(self).slices().map_values(
                        |slice: &'a mut [T]| final(slice)@,
                    ).flatten()
                },
            },
    {
        let ghost before = *self;
        loop
            invariant
                before == *old(self),
                self.values() == before.values(),
                self.left == before.left,
                self.slices().map_values(|slice: &'a mut [T]| final(slice)@).flatten()
                    == before.slices().map_values(|slice: &'a mut [T]| final(slice)@).flatten(),
            decreases self.middle@.len(), in_slot(self.front).len() + 2 * in_slot(self.back).len(),
        {
            let ghost slices = self.slices();
            match self.front.take() {
                Some(slice) => {
                    if slice.len() > 0 {
                        let (head, tail) = slice.split_at_mut(1);
                        self.front = Some(tail);
                        self.left = self.left.saturating_sub(1);
                        let item = &mut head[0];
                        proof {
                            let now = slices.map_values(|slice: &'a mut [T]| slice@);
                            let now_left = self.slices().map_values(|slice: &'a mut [T]| slice@);
                            assert(now.drop_first() =~= now_left.drop_first());
                            assert(now[0] =~= seq![*item] + now_left[0]);
                            lemma_take_front(now, now_left, *item);
                            assert(self.values() =~= before.values().drop_first());
                            assert(slices.map_values(
                                |slice: &'a mut [T]| final(slice)@,
                            ).drop_first() =~= self.slices().map_values(
                                |slice: &'a mut [T]| final(slice)@,
                            ).drop_first());
                            assert(final(slices[0])@
                                =~= seq![*final(item)] + final(self.slices()[0])@);
                            lemma_take_front(
                                slices.map_values(|slice: &'a mut [T]| final(slice)@),
                                self.slices().map_values(|slice: &'a mut [T]| final(slice)@),
                                *final(item),
                            );
                        }
                        return Some(item);
                    } else {
                        proof {
                            assert(self.slices() =~= slices.drop_first());
                            let now = slices.map_values(|slice: &'a mut [T]| slice@);
                            lemma_empty_front(now);
                            assert(now.drop_first() =~= held(self.slices()));
                            lemma_empty_front(
                                slices.map_values(|slice: &'a mut [T]| final(slice)@),
                            );
                            assert(slices.map_values(
                                |slice: &'a mut [T]| final(slice)@,
                            ).drop_first() =~= self.slices().map_values(
                                |slice: &'a mut [T]| final(slice)@,
                            ));
                        }
                    }
                },
                None => {
                    if self.middle.len() > 0 {
                        self.front = Some(self.middle.remove(0));
                        assert(self.slices() =~= slices);
                    } else {
                        self.front = self.back.take();
                        assert(self.slices() =~= slices);
                        if self.front.is_none() {
                            return None;
                        }
                    }
                },
            }
        }
    }

    fn size_hint(&self) -> (hint: (usize, Option<usize>))
        ensures
            self.wf() ==> hint.0 == self.values().len() && hint.1 == Some(hint.0),
    {
        (self.left, Some(self.left))
    }
}

impl<'a, T, const BASE_SHIFT: usize, const CHUNKS: usize> IteratorSpecImpl for IterMut<
    'a,
    T,
    BASE_SHIFT,
    CHUNKS,
> {
    open spec fn obeys_prophetic_iter_laws(&self) -> bool {
        false
    }

    open spec fn remaining(&self) -> Seq<&'a mut T> {
        Seq::empty()
    }

    open spec fn will_return_none(&self) -> bool {
        true
    }

    open spec fn decrease(&self) -> Option<nat> {
        Some(self.values().len())
    }

    open spec fn initial_value_relation(&self, init: &Self) -> bool {
        init.values() == self.values()
    }

    open spec fn peek(&self, index: int) -> Option<&'a mut T> {
        None
    }
}

impl<'a, T, const BASE_SHIFT: usize, const CHUNKS: usize> DoubleEndedIterator for IterMut<
    'a,
    T,
    BASE_SHIFT,
    CHUNKS,
> {
    fn next_back(&mut self) -> (item: Option<&'a mut T>)
        ensures
            old(self).wf() ==> final(self).wf(),
            match item {
                Some(value) => {
                    &&& old(self).values().len() > 0
                    &&& *value == old(self).values().last()
                    &&& final(self).values() == old(self).values().drop_last()
                    &&& old(self).slices().map_values(|slice: &'a mut [T]| final(slice)@).flatten()
                        == final(self).slices().map_values(
                        |slice: &'a mut [T]| final(slice)@,
                    ).flatten() + seq![*final(value)]
                },
                None => {
                    &&& old(self).values().len() == 0
                    &&& final(self).values().len() == 0
                    &&& old(self).slices().map_values(
                        |slice: &'a mut [T]| final(slice)@,
                    ).flatten() == final(self).slices().map_values(
                        |slice: &'a mut [T]| final(slice)@,
                    ).flatten()
                },
            },
    {
        let ghost before = *self;
        loop
            invariant
                before == *old(self),
                self.values() == before.values(),
                self.left == before.left,
                self.slices().map_values(|slice: &'a mut [T]| final(slice)@).flatten()
                    == before.slices().map_values(|slice: &'a mut [T]| final(slice)@).flatten(),
            decreases self.middle@.len(), in_slot(self.back).len() + 2 * in_slot(self.front).len(),
        {
            let ghost slices = self.slices();
            match self.back.take() {
                Some(slice) => {
                    if slice.len() > 0 {
                        let last: usize = slice.len() - 1;
                        let (head, tail) = slice.split_at_mut(last);
                        self.back = Some(head);
                        self.left = self.left.saturating_sub(1);
                        let item = &mut tail[0];
                        proof {
                            let now = slices.map_values(|slice: &'a mut [T]| slice@);
                            let now_left = self.slices().map_values(|slice: &'a mut [T]| slice@);
                            assert(now.drop_last() =~= now_left.drop_last());
                            assert(now.last() =~= now_left.last() + seq![*item]);
                            lemma_take_back(now, now_left, *item);
                            assert(self.values() =~= before.values().drop_last());
                            assert(slices.map_values(
                                |slice: &'a mut [T]| final(slice)@,
                            ).drop_last() =~= self.slices().map_values(
                                |slice: &'a mut [T]| final(slice)@,
                            ).drop_last());
                            assert(final(slices.last())@
                                =~= final(self.slices().last())@ + seq![*final(item)]);
                            lemma_take_back(
                                slices.map_values(|slice: &'a mut [T]| final(slice)@),
                                self.slices().map_values(|slice: &'a mut [T]| final(slice)@),
                                *final(item),
                            );
                        }
                        return Some(item);
                    } else {
                        proof {
                            assert(self.slices() =~= slices.drop_last());
                            let now = slices.map_values(|slice: &'a mut [T]| slice@);
                            lemma_empty_back(now);
                            assert(now.drop_last() =~= held(self.slices()));
                            lemma_empty_back(
                                slices.map_values(|slice: &'a mut [T]| final(slice)@),
                            );
                            assert(slices.map_values(
                                |slice: &'a mut [T]| final(slice)@,
                            ).drop_last() =~= self.slices().map_values(
                                |slice: &'a mut [T]| final(slice)@,
                            ));
                        }
                    }
                },
                None => {
                    if self.middle.len() > 0 {
                        self.back = self.middle.pop();
                        assert(self.slices() =~= slices);
                    } else {
                        self.back = self.front.take();
                        assert(self.slices() =~= slices);
                        if self.back.is_none() {
                            return None;
                        }
                    }
                },
            }
        }
    }
}

impl<'a, T, const BASE_SHIFT: usize, const CHUNKS: usize> DoubleEndedIteratorSpecImpl for IterMut<
    'a,
    T,
    BASE_SHIFT,
    CHUNKS,
> {
    open spec fn peek_back(&self, index: int) -> Option<&'a mut T> {
        None
    }
}

impl<'a, T, const BASE_SHIFT: usize, const CHUNKS: usize> ExactSizeIterator for IterMut<
    'a,
    T,
    BASE_SHIFT,
    CHUNKS,
> {
    fn len(&self) -> (len: usize)
        ensures
            self.wf() ==> len == self.values().len(),
    {
        self.left
    }
}

impl<'a, T, const BASE_SHIFT: usize, const CHUNKS: usize> core::iter::FusedIterator for IterMut<
    'a,
    T,
    BASE_SHIFT,
    CHUNKS,
> {

}

impl<T, const BASE_SHIFT: usize, const CHUNKS: usize> ExponentialArray<T, BASE_SHIFT, CHUNKS> {
    /// Returns an iterator over mutable references.
    #[must_use]
    pub fn iter_mut(&mut self) -> (iter: IterMut<'_, T, BASE_SHIFT, CHUNKS>)
        requires
            old(self).wf(),
        ensures
            iter.wf(),
            iter.values() == old(self)@,
            final(self).wf(),
            final(self).buffers() == old(self).buffers(),
            final(self)@.len() == old(self)@.len(),
            iter.slices().map_values(|slice: &mut [T]| final(slice)@).flatten() == final(self)@,
    {
        let ghost before = *self;
        let ghost base = BASE_SHIFT as nat;
        proof {
            self.lemma_view();
            lemma_segments(self.parts(), base, self.len as int);
            crate::laws::segments_join_to_the_contents(base, self@);
        }
        let left: usize = self.len;
        let iter = IterMut { front: None, middle: self.lend_segments(), back: None, left };
        proof {
            crate::laws::segments_join_to_the_contents(base, after_borrow(self)@);
            assert(held(iter.slices()) =~= segments(base, before@));
            assert(iter.slices().map_values(|slice: &mut [T]| final(slice)@) =~= segments(
                base,
                after_borrow(self)@,
            ));
        }
        iter
    }
}

} // verus!
