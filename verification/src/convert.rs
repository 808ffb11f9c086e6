//! Arrays from other sequences.

use crate::array::{grown_to, lemma_grown_twice, ExponentialArray};
use crate::bulk::all_cloned;
use crate::chunk::call_with;
use crate::contents::{lemma_first_parts, lemma_part};
use crate::geometry::{chunks_for, filled, lemma_chunks_for};
use vstd::prelude::*;
use vstd::std_specs::iter::IteratorSpec;

verus! {

/// Returns the least number of items that `iter` says it has left.
///
/// This calls [`Iterator::size_hint`]. Of the number nothing is claimed: it is a
/// hint, and an iterator may have another number of items.
#[verifier::external_body]
fn least_remaining<I: Iterator>(iter: &I) -> (lower: usize) {
    iter.size_hint().0
}

/// `lower` is what may come of asking `iter` for the least number of items it has left.
pub closed spec fn announced<I: Iterator>(iter: I, lower: usize) -> bool {
    call_ensures(least_remaining::<I>, (&iter,), lower)
}

/// A number is announced exactly if it may be the lower bound that the iterator gives.
proof fn announced_means_hinted<I: Iterator>(iter: I, lower: usize)
    ensures
        announced(iter, lower) <==> call_ensures(least_remaining::<I>, (&iter,), lower),
{
}

/// Moves the elements of an array to a vector.
///
/// This calls the conversion of an array into a [`Vec`], which keeps the elements
/// and their order.
#[verifier::external_body]
fn array_into_vec<T, const N: usize>(values: [T; N]) -> (vector: Vec<T>)
    ensures
        vector@ == values@,
{
    Vec::from(values)
}

/// The number of slots that an extension asks for: that of the elements it was told to
/// expect, or that of the elements it ends up with, if they are more.
pub open spec fn extension_slots(len: int, hint: int, end: int) -> int {
    if end < len + hint {
        len + hint
    } else {
        end
    }
}

impl<T, const BASE_SHIFT: usize, const CHUNKS: usize> ExponentialArray<T, BASE_SHIFT, CHUNKS> {
    /// Appends the items of `iter`.
    ///
    /// Existing elements are not moved. Room for as many items as the iterator
    /// announces is reserved at once, so that it must not announce more than the array
    /// can have; [`try_extend`](Self::try_extend) asks it first. If there is no memory for a chunk, this
    /// uses the global allocation error handler.
    pub fn extend<I: Iterator<Item = T>>(&mut self, iter: I)
        requires
            old(self).wf(),
            iter.obeys_prophetic_iter_laws(),
            iter.decrease() is Some,
            old(self)@.len() + iter.remaining().len() <= Self::slot_limit(),
            forall|lower: usize| #[trigger]
                announced(iter, lower) ==> old(self)@.len() + lower <= Self::slot_limit(),
        ensures
            final(self).wf(),
            final(self)@ == old(self)@ + iter.remaining(),
            exists|lower: usize| #[trigger]
                announced(iter, lower) && grown_to(
                    BASE_SHIFT as nat,
                    old(self).buffers(),
                    final(self).buffers(),
                    extension_slots(
                        old(self)@.len() as int,
                        lower as int,
                        final(self)@.len() as int,
                    ),
                ),
    {
        let lower: usize = call_with(&least_remaining::<I>, &iter);
        assert(announced(iter, lower));
        self.extend_expecting(iter, lower);
    }

    /// Appends the items of `iter`, unless the iterator
    /// announces more than the array can have. It is given back then, and the array
    /// stays as it is.
    ///
    /// If there is no memory for a chunk, this uses the global allocation error handler.
    pub fn try_extend<I: Iterator<Item = T>>(&mut self, iter: I) -> (result: Result<(), I>)
        requires
            old(self).wf(),
            iter.obeys_prophetic_iter_laws(),
            iter.decrease() is Some,
            old(self)@.len() + iter.remaining().len() <= Self::slot_limit(),
        ensures
            exists|lower: usize| #[trigger]
                announced(iter, lower) && match result {
                    Ok(_) => {
                        &&& old(self)@.len() + lower <= Self::slot_limit()
                        &&& final(self).wf()
                        &&& final(self)@ == old(self)@ + iter.remaining()
                        &&& grown_to(
                            BASE_SHIFT as nat,
                            old(self).buffers(),
                            final(self).buffers(),
                            extension_slots(
                                old(self)@.len() as int,
                                lower as int,
                                final(self)@.len() as int,
                            ),
                        )
                    },
                    Err(back) => {
                        &&& old(self)@.len() + lower > Self::slot_limit()
                        &&& back == iter
                        &&& *final(self) == *old(self)
                    },
                },
    {
        proof {
            self.lemma_view();
            self.lemma_capacity();
        }
        let lower: usize = call_with(&least_remaining::<I>, &iter);
        assert(announced(iter, lower));
        if lower > Self::max_capacity() - self.len {
            return Err(iter);
        }
        self.extend_expecting(iter, lower);
        Ok(())
    }

    /// Appends the items of `iter`, of which there are said to be `lower` at least. Room
    /// for as many is reserved at once.
    pub fn extend_expecting<I: Iterator<Item = T>>(&mut self, iter: I, lower: usize)
        requires
            old(self).wf(),
            iter.obeys_prophetic_iter_laws(),
            iter.decrease() is Some,
            old(self)@.len() + iter.remaining().len() <= Self::slot_limit(),
            old(self)@.len() + lower <= Self::slot_limit(),
        ensures
            final(self).wf(),
            final(self)@ == old(self)@ + iter.remaining(),
            grown_to(
                BASE_SHIFT as nat,
                old(self).buffers(),
                final(self).buffers(),
                extension_slots(
                    old(self)@.len() as int,
                    lower as int,
                    final(self)@.len() as int,
                ),
            ),
    {
        let ghost before = *self;
        let ghost base = BASE_SHIFT as nat;
        proof {
            self.lemma_view();
            self.lemma_capacity();
            lemma_chunks_for(base, self.len as int, self.buffers().len());
        }
        let ghost count = before.len + lower;
        self.reserve(lower);
        let mut iter = iter;
        let ghost all = iter.remaining();
        assert(before@ + all =~= self@ + iter.remaining());
        loop
            invariant_except_break
                before.wf(),
                before@.len() == before.len,
                iter.obeys_prophetic_iter_laws(),
                iter.decrease() is Some,
                self.wf(),
                self@ + iter.remaining() == before@ + all,
                before@.len() + all.len() <= Self::slot_limit(),
                before@.len() <= self@.len(),
                base == BASE_SHIFT,
                count == before.len + lower,
                grown_to(
                    base,
                    before.buffers(),
                    self.buffers(),
                    if count < self@.len() {
                        self@.len() as int
                    } else {
                        count
                    },
                ),
            ensures
                self.wf(),
                self@ == before@ + all,
                grown_to(
                    base,
                    before.buffers(),
                    self.buffers(),
                    if count < self@.len() {
                        self@.len() as int
                    } else {
                        count
                    },
                ),
            decreases iter.decrease()->0,
        {
            let ghost shorter = *self;
            let ghost left = iter.remaining();
            assert((shorter@ + left).len() == (before@ + all).len());
            match iter.next() {
                Some(value) => {
                    self.push(value);
                    proof {
                        assert(self@ + iter.remaining() =~= shorter@ + left);
                        lemma_grown_twice(
                            base,
                            before.buffers(),
                            shorter.buffers(),
                            self.buffers(),
                            if count < shorter@.len() {
                                shorter@.len() as int
                            } else {
                                count
                            },
                            self@.len() as int,
                        );
                    }
                },
                None => {
                    assert(self@ + iter.remaining() =~= self@);
                    break;
                },
            }
        }
    }

    /// Appends copies of the elements that `iter` refers to.
    ///
    /// Existing elements are not moved. Room for as many items as the iterator
    /// announces is reserved at once, so that it must not announce more than the array
    /// can have; [`try_extend_copied`](Self::try_extend_copied) asks it first. If there is no memory for a chunk, this
    /// uses the global allocation error handler.
    pub fn extend_copied<'a, I: Iterator<Item = &'a T>>(&mut self, iter: I) where T: Copy + 'a
        requires
            old(self).wf(),
            iter.obeys_prophetic_iter_laws(),
            iter.decrease() is Some,
            old(self)@.len() + iter.remaining().len() <= Self::slot_limit(),
            forall|lower: usize| #[trigger]
                announced(iter, lower) ==> old(self)@.len() + lower <= Self::slot_limit(),
        ensures
            final(self).wf(),
            final(self)@ == old(self)@ + iter.remaining().map_values(|value: &'a T| *value),
            exists|lower: usize| #[trigger]
                announced(iter, lower) && grown_to(
                    BASE_SHIFT as nat,
                    old(self).buffers(),
                    final(self).buffers(),
                    extension_slots(
                        old(self)@.len() as int,
                        lower as int,
                        final(self)@.len() as int,
                    ),
                ),
    {
        let lower: usize = call_with(&least_remaining::<I>, &iter);
        assert(announced(iter, lower));
        self.extend_copied_expecting(iter, lower);
    }

    /// Appends copies of the elements that `iter` refers to, unless the iterator
    /// announces more than the array can have. It is given back then, and the array
    /// stays as it is.
    ///
    /// If there is no memory for a chunk, this uses the global allocation error handler.
    pub fn try_extend_copied<'a, I: Iterator<Item = &'a T>>(&mut self, iter: I) -> (result: Result<
        (),
        I,
    >) where T: Copy + 'a
        requires
            old(self).wf(),
            iter.obeys_prophetic_iter_laws(),
            iter.decrease() is Some,
            old(self)@.len() + iter.remaining().len() <= Self::slot_limit(),
        ensures
            exists|lower: usize| #[trigger]
                announced(iter, lower) && match result {
                    Ok(_) => {
                        &&& old(self)@.len() + lower <= Self::slot_limit()
                        &&& final(self).wf()
                        &&& final(self)@ == old(self)@ + iter.remaining().map_values(
                            |value: &'a T| *value,
                        )
                        &&& grown_to(
                            BASE_SHIFT as nat,
                            old(self).buffers(),
                            final(self).buffers(),
                            extension_slots(
                                old(self)@.len() as int,
                                lower as int,
                                final(self)@.len() as int,
                            ),
                        )
                    },
                    Err(back) => {
                        &&& old(self)@.len() + lower > Self::slot_limit()
                        &&& back == iter
                        &&& *final(self) == *old(self)
                    },
                },
    {
        proof {
            self.lemma_view();
            self.lemma_capacity();
        }
        let lower: usize = call_with(&least_remaining::<I>, &iter);
        assert(announced(iter, lower));
        if lower > Self::max_capacity() - self.len {
            return Err(iter);
        }
        self.extend_copied_expecting(iter, lower);
        Ok(())
    }

    /// Appends copies of the elements that `iter` refers to, of which there are said to
    /// be `lower` at least. Room for as many is reserved at once.
    pub fn extend_copied_expecting<'a, I: Iterator<Item = &'a T>>(&mut self, iter: I, lower: usize)
        where T: Copy + 'a
        requires
            old(self).wf(),
            iter.obeys_prophetic_iter_laws(),
            iter.decrease() is Some,
            old(self)@.len() + iter.remaining().len() <= Self::slot_limit(),
            old(self)@.len() + lower <= Self::slot_limit(),
        ensures
            final(self).wf(),
            final(self)@ == old(self)@ + iter.remaining().map_values(|value: &'a T| *value),
            grown_to(
                BASE_SHIFT as nat,
                old(self).buffers(),
                final(self).buffers(),
                extension_slots(
                    old(self)@.len() as int,
                    lower as int,
                    final(self)@.len() as int,
                ),
            ),
    {
        let ghost before = *self;
        let ghost base = BASE_SHIFT as nat;
        proof {
            self.lemma_view();
            self.lemma_capacity();
            lemma_chunks_for(base, self.len as int, self.buffers().len());
        }
        let mut iter = iter;
        let ghost all = iter.remaining();
        let ghost count = before.len + lower;
        self.reserve(lower);
        proof {
            self.lemma_view();
            lemma_chunks_for(base, self.len + lower, self.buffers().len());
        }
        self.copy_refs_to_tail_reserved(&mut iter, lower);
        let ghost done = all.len() - iter.remaining().len();
        proof {
            self.lemma_view();
            assert(all.skip(0) =~= all);
            assert(self@ =~= before@ + all.take(done).map_values(|value: &'a T| *value));
            assert(iter.remaining() =~= all.skip(done));
        }
        loop
            invariant_except_break
                before.wf(),
                before@.len() == before.len,
                iter.obeys_prophetic_iter_laws(),
                iter.decrease() is Some,
                self.wf(),
                iter.remaining() == all.skip(self@.len() - before@.len()),
                before@.len() <= self@.len() <= before@.len() + all.len(),
                self@ == before@ + all.take(self@.len() - before@.len()).map_values(
                    |value: &'a T| *value,
                ),
                before@.len() + all.len() <= Self::slot_limit(),
                base == BASE_SHIFT,
                count == before.len + lower,
                grown_to(
                    base,
                    before.buffers(),
                    self.buffers(),
                    if count < self@.len() {
                        self@.len() as int
                    } else {
                        count
                    },
                ),
            ensures
                self.wf(),
                self@ == before@ + all.map_values(|value: &'a T| *value),
                grown_to(
                    base,
                    before.buffers(),
                    self.buffers(),
                    if count < self@.len() {
                        self@.len() as int
                    } else {
                        count
                    },
                ),
            decreases iter.decrease()->0,
        {
            let ghost shorter = *self;
            let ghost taken = self@.len() - before@.len();
            match iter.next() {
                Some(value) => {
                    self.push(*value);
                    proof {
                        assert(all.take(taken + 1) =~= all.take(taken).push(value));
                        assert(self@ =~= before@ + all.take(taken + 1).map_values(
                            |value: &'a T| *value,
                        ));
                        assert(all.skip(taken).drop_first() =~= all.skip(taken + 1));
                        lemma_grown_twice(
                            base,
                            before.buffers(),
                            shorter.buffers(),
                            self.buffers(),
                            if count < shorter@.len() {
                                shorter@.len() as int
                            } else {
                                count
                            },
                            self@.len() as int,
                        );
                    }
                },
                None => {
                    assert(all.take(taken) =~= all);
                    break;
                },
            }
        }
    }

    /// Writes copies of the elements that the first `count` items of `iterator` refer
    /// to, or fewer if it ends before, to the slots from the cursor on.
    fn copy_refs_to_tail_reserved<'a, I: Iterator<Item = &'a T>>(
        &mut self,
        iterator: &mut I,
        count: usize,
    ) where T: Copy + 'a
        requires
            old(self).wf(),
            old(self).len + count <= old(self).capacity,
            (*old(iterator)).obeys_prophetic_iter_laws(),
            (*old(iterator)).decrease() is Some,
        ensures
            final(self).wf(),
            final(self).buffers() == old(self).buffers(),
            (*final(iterator)).obeys_prophetic_iter_laws(),
            (*final(iterator)).decrease() is Some,
            ({
                let all = (*old(iterator)).remaining();
                let taken = if count < all.len() {
                    count as int
                } else {
                    all.len() as int
                };
                &&& (*final(iterator)).remaining() == all.skip(taken)
                &&& final(self)@ == old(self)@ + all.take(taken).map_values(
                    |value: &'a T| *value,
                )
            }),
    {
        let ghost before = *self;
        let ghost all = (*iterator).remaining();
        let mut written: usize = 0;
        proof {
            self.lemma_view();
            assert(all.skip(0) =~= all);
            assert(self@ =~= before@ + all.take(0).map_values(|value: &'a T| *value));
        }
        while written < count
            invariant
                self.wf(),
                (*iterator).obeys_prophetic_iter_laws(),
                (*iterator).decrease() is Some,
                written <= count,
                written <= all.len(),
                self.len == before.len + written,
                before.len + count <= self.capacity,
                self.buffers() == before.buffers(),
                (*iterator).remaining() == all.skip(written as int),
                self@ == before@ + all.take(written as int).map_values(|value: &'a T| *value),
                before == *old(self),
                all == (*old(iterator)).remaining(),
            decreases count - written,
        {
            match iterator.next() {
                Some(value) => {
                    self.write_reserved_tail_slot(*value);
                    proof {
                        assert(all.take(written + 1) =~= all.take(written as int).push(value));
                        assert(self@ =~= before@ + all.take(written + 1).map_values(
                            |value: &'a T| *value,
                        ));
                        assert(all.skip(written as int).drop_first() =~= all.skip(written + 1));
                    }
                    written = written + 1;
                },
                None => {
                    assert(all.take(written as int) =~= all.take(all.len() as int));
                    return ;
                },
            }
        }
    }

    /// Collects the items of `iter`.
    ///
    /// Room for as many items as the iterator announces is reserved at once, so that it
    /// must not announce more than an array can have;
    /// [`try_from_iter`](Self::try_from_iter) asks it first.
    pub fn from_iter<I: Iterator<Item = T>>(iter: I) -> (array: Self)
        requires
            iter.obeys_prophetic_iter_laws(),
            iter.decrease() is Some,
            iter.remaining().len() <= Self::slot_limit(),
            forall|lower: usize| #[trigger]
                announced(iter, lower) ==> lower <= Self::slot_limit(),
        ensures
            array.wf(),
            array@ == iter.remaining(),
            exists|lower: usize| #[trigger]
                announced(iter, lower) && array.buffers().len() == chunks_for(
                    BASE_SHIFT as nat,
                    extension_slots(0, lower as int, array@.len() as int),
                ),
    {
        let mut array = Self::new();
        array.extend(iter);
        assert(array@ =~= iter.remaining());
        array
    }

    /// Collects the items of `iter`, unless the iterator announces more than an array can
    /// have. It is given back then.
    pub fn try_from_iter<I: Iterator<Item = T>>(iter: I) -> (array: Result<Self, I>)
        requires
            iter.obeys_prophetic_iter_laws(),
            iter.decrease() is Some,
            iter.remaining().len() <= Self::slot_limit(),
        ensures
            exists|lower: usize| #[trigger]
                announced(iter, lower) && match array {
                    Ok(array) => {
                        &&& lower <= Self::slot_limit()
                        &&& array.wf()
                        &&& array@ == iter.remaining()
                        &&& array.buffers().len() == chunks_for(
                            BASE_SHIFT as nat,
                            extension_slots(0, lower as int, array@.len() as int),
                        )
                    },
                    Err(back) => lower > Self::slot_limit() && back == iter,
                },
    {
        let mut array = Self::new();
        match array.try_extend(iter) {
            Ok(_) => {
                assert(array@ =~= iter.remaining());
                Ok(array)
            },
            Err(back) => Err(back),
        }
    }

    /// Moves the elements of `values` to an array.
    pub fn from_vec(values: Vec<T>) -> (array: Self)
        requires
            values@.len() <= Self::slot_limit(),
        ensures
            array.wf(),
            array@ == values@,
            array.buffers().len() == chunks_for(BASE_SHIFT as nat, values@.len() as int),
    {
        let len: usize = values.len();
        let mut array = Self::new();
        array.extend_expecting(values.into_iter(), len);
        array
    }

    /// Moves the elements of `values` to an array.
    pub fn from_array<const N: usize>(values: [T; N]) -> (array: Self)
        requires
            N <= Self::slot_limit(),
        ensures
            array.wf(),
            array@ == values@,
            array.buffers().len() == chunks_for(BASE_SHIFT as nat, N as int),
    {
        Self::from_vec(array_into_vec(values))
    }

    /// Clones the elements of `values` to an array.
    pub fn from_slice(values: &[T]) -> (array: Self) where T: Clone
        requires
            values@.len() <= Self::slot_limit(),
        ensures
            array.wf(),
            all_cloned(values@, array@),
            array.buffers().len() == chunks_for(BASE_SHIFT as nat, values@.len() as int),
    {
        let mut array = Self::new();
        array.extend_from_slice(values);
        assert(array@.skip(0) =~= array@);
        array
    }

    /// Writes clones of the elements of `source` to the slots from the cursor on.
    fn clone_array_to_tail_reserved(&mut self, source: &Self) where T: Clone
        requires
            old(self).wf(),
            source.wf(),
            old(self)@.len() == 0,
            old(self).len + source.len <= old(self).capacity,
        ensures
            final(self).wf(),
            all_cloned(source@, final(self)@),
            final(self).buffers() == old(self).buffers(),
    {
        let ghost reserved = self.buffers();
        proof {
            self.lemma_view();
            source.lemma_view();
        }
        let mut index: usize = 0;
        while index < source.len
            invariant
                self.wf(),
                source.wf(),
                index <= source.len == source@.len(),
                self.len == index,
                self@.len() == index,
                source.len <= self.capacity,
                all_cloned(source@.take(index as int), self@),
                self.buffers() == reserved,
            decreases source.len - index,
        {
            let value = source.get_unchecked(index).clone();
            self.write_reserved_tail_slot(value);
            index = index + 1;
            assert(source@.take(index as int) =~= source@.take(index - 1).push(source@[index - 1]));
        }
        assert(source@.take(index as int) =~= source@);
    }
}

impl<T, const BASE_SHIFT: usize, const CHUNKS: usize> Default for ExponentialArray<
    T,
    BASE_SHIFT,
    CHUNKS,
> {
    fn default() -> (array: Self)
        ensures
            array.wf(),
            array@ == Seq::<T>::empty(),
            array.buffers() == Seq::<usize>::empty(),
    {
        Self::new()
    }
}

impl<T: Clone, const BASE_SHIFT: usize, const CHUNKS: usize> Clone for ExponentialArray<
    T,
    BASE_SHIFT,
    CHUNKS,
> {
    fn clone(&self) -> (copy: Self)
        ensures
            self.wf() ==> {
                &&& copy.wf()
                &&& all_cloned(self@, copy@)
                &&& copy.buffers().len() == chunks_for(BASE_SHIFT as nat, self@.len() as int)
            },
    {
        let limit: usize = Self::max_capacity();
        let mut copy = Self::new();
        if self.len <= limit {
            copy.reserve(self.len);
        }
        let ghost base = BASE_SHIFT as nat;
        let ghost reserved = copy.buffers();
        let ghost parts = self.parts();
        proof {
            if self.wf() {
                self.lemma_view();
                self.lemma_capacity();
                lemma_chunks_for(base, 0, 0);
            }
            assert(parts.take(0).flatten() =~= Seq::<T>::empty());
        }
        let mut chunk: usize = 0;
        while chunk < self.chunks.len()
            invariant
                copy.wf(),
                limit == Self::slot_limit(),
                base == BASE_SHIFT,
                parts == self.parts(),
                chunk <= self.chunks@.len(),
                self.wf() ==> {
                    &&& self.len == self@.len()
                    &&& self.len <= limit
                    &&& reserved.len() == chunks_for(base, self.len as int)
                    &&& copy.buffers() == reserved
                    &&& all_cloned(parts.take(chunk as int).flatten(), copy@)
                },
            decreases self.chunks@.len() - chunk,
        {
            let values = self.chunks[chunk].as_slice();
            let ghost first = parts.take(chunk as int).flatten();
            proof {
                if self.wf() {
                    lemma_first_parts(parts, base, self.len as int, chunk as int);
                    lemma_part(parts, base, self.len as int, chunk as int);
                    assert(parts[chunk as int].len() == filled(
                        base,
                        self.len as int,
                        chunk as nat,
                    ));
                }
                assert(first + values@.take(0) =~= first);
            }
            let mut offset: usize = 0;
            while offset < values.len()
                invariant
                    copy.wf(),
                    limit == Self::slot_limit(),
                    base == BASE_SHIFT,
                    offset <= values@.len(),
                    self.wf() ==> {
                        &&& self.len <= limit
                        &&& values@.len() > 0 ==> first.len() + values@.len() <= self.len
                        &&& reserved.len() == chunks_for(base, self.len as int)
                        &&& copy.buffers() == reserved
                        &&& all_cloned(first + values@.take(offset as int), copy@)
                    },
                decreases values@.len() - offset,
            {
                if copy.len() < limit {
                    let value = values[offset].clone();
                    copy.push(value);
                    proof {
                        if self.wf() {
                            lemma_chunks_for(base, copy@.len() as int, reserved.len());
                            lemma_chunks_for(base, self.len as int, reserved.len());
                            assert(copy.buffers() =~= reserved);
                            let done = first + values@.take(offset as int);
                            assert(first + values@.take(offset + 1) =~= done.push(
                                values@[offset as int],
                            ));
                        }
                    }
                }
                offset = offset + 1;
            }
            proof {
                parts.take(chunk as int).lemma_flatten_push(values@);
                assert(values@.take(offset as int) =~= values@);
                assert(parts.take(chunk as int).push(values@) =~= parts.take(chunk + 1));
            }
            chunk = chunk + 1;
        }
        assert(parts.take(chunk as int) =~= parts);
        copy
    }

    /// Makes the elements of the array clones of those of `source`.
    ///
    /// Allocated chunks are retained.
    fn clone_from(&mut self, source: &Self)
        requires
            old(self).wf(),
            source.wf(),
        ensures
            final(self).wf(),
            all_cloned(source@, final(self)@),
            grown_to(
                BASE_SHIFT as nat,
                old(self).buffers(),
                final(self).buffers(),
                source@.len() as int,
            ),
    {
        self.clear();
        proof {
            source.lemma_view();
            source.lemma_capacity();
        }
        self.reserve(source.len);
        proof {
            self.lemma_view();
            lemma_chunks_for(BASE_SHIFT as nat, source.len as int, self.buffers().len());
        }
        self.clone_array_to_tail_reserved(source);
    }
}

} // verus!
