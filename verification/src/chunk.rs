//! One chunk: a buffer of fixed size whose slots fill from the front.
//!
//! The buffer is the spare capacity of a vector that is never asked to hold more
//! than it was made for. A vector neither grows while it has room nor gives room
//! back when it is shortened, so the buffer stays where it was allocated.
//!
//! A chunk is changed only by calls of [`Vec::push`] within its room, [`Vec::pop`],
//! [`Vec::drain`], [`Vec::append`] to another vector, and [`AsMut::as_mut`]. The contract
//! of each function that changes a chunk names the call that it makes. That none of
//! these calls moves the buffer is what their documentation says, and is not proved.

use std::collections::TryReserveError;
use vstd::layout;
use vstd::prelude::*;

verus! {

/// A buffer with room for a fixed number of elements.
pub(crate) struct Chunk<T> {
    slots: Vec<T>,
    address: usize,
    room: Ghost<nat>,
}

/// Returns the address of the buffer of `slots`, for pointers into the buffer to
/// be made from it later.
///
/// This calls [`Vec::as_mut_ptr`] and exposes the provenance of the pointer. The
/// pointer of a vector is never null, and the vector stays as it is. Of the
/// address nothing more is claimed: the allocator chooses it.
#[verifier::external_body]
fn buffer_address<T>(slots: &mut Vec<T>) -> (address: usize)
    ensures
        address != 0,
        *final(slots) == *old(slots),
{
    slots.as_mut_ptr().expose_provenance()
}

/// Calls `call` with `argument`.
pub(crate) fn call_with<A, R, F: Fn(A) -> R>(call: &F, argument: A) -> (result: R)
    requires
        call_requires(*call, (argument,)),
    ensures
        call_ensures(*call, (argument,), result),
{
    call(argument)
}

/// Calls `step`, a function on vectors, with `slots`.
fn step_on<'a, T, R, F: Fn(&'a mut Vec<T>) -> R>(step: &F, slots: &'a mut Vec<T>) -> (result: R)
    requires
        forall|at: &mut Vec<T>| *at == *old(slots) ==> #[trigger] call_requires(*step, (at,)),
    ensures
        exists|at: &mut Vec<T>|
            *at == *old(slots) && *final(at) == *final(slots) && #[trigger] call_ensures(
                *step,
                (at,),
                result,
            ),
{
    step(slots)
}

/// Calls `step`, a function on vectors, with `slots` and `argument`.
pub(crate) fn step_with<'a, T, A, R, F: Fn(&'a mut Vec<T>, A) -> R>(
    step: &F,
    slots: &'a mut Vec<T>,
    argument: A,
) -> (result: R)
    requires
        forall|at: &mut Vec<T>|
            *at == *old(slots) ==> #[trigger] call_requires(*step, (at, argument)),
    ensures
        exists|at: &mut Vec<T>|
            *at == *old(slots) && *final(at) == *final(slots) && #[trigger] call_ensures(
                *step,
                (at, argument),
                result,
            ),
{
    step(slots, argument)
}

/// Asks the allocator for room for `room` elements. The vector comes with what was
/// answered: it has the room if the answer is `Ok`.
fn reserve_slots<T>(room: usize) -> (slots: (Vec<T>, Result<(), TryReserveError>))
    ensures
        slots.0@ == Seq::<T>::empty(),
        exists|at: &mut Vec<T>|
            (*at)@ == Seq::<T>::empty() && *final(at) == slots.0 && #[trigger] call_ensures(
                Vec::<T>::try_reserve,
                (at, room),
                slots.1,
            ),
{
    let mut slots: Vec<T> = Vec::new();
    let reserved = step_with(&Vec::<T>::try_reserve, &mut slots, room);
    let answer = (slots, reserved);
    assert(answer.1 == reserved);
    answer
}

/// `slots` is what came of an allocation of room for `room` elements.
pub closed spec fn made_for<T>(room: usize, slots: Vec<T>) -> bool {
    ||| call_ensures(Vec::<T>::with_capacity, (room,), slots)
    ||| exists|answer: Result<(), TryReserveError>|
        answer is Ok && #[trigger] call_ensures(reserve_slots::<T>, (room,), (slots, answer))
}

/// An allocation of room for `room` elements was refused.
pub closed spec fn refused<T>(room: usize) -> bool {
    exists|slots: Vec<T>, answer: Result<(), TryReserveError>|
        answer is Err && #[trigger] call_ensures(reserve_slots::<T>, (room,), (slots, answer))
}

/// `address` is what was read of a vector right after it was allocated with room for
/// `room` elements.
pub closed spec fn placed<T>(room: usize, address: usize) -> bool {
    exists|at: &mut Vec<T>|
        made_for(room, *at) && #[trigger] call_ensures(buffer_address::<T>, (at,), address)
}

/// Lends the elements of `slots` as one mutable slice.
///
/// This calls [`AsMut::as_mut`] on the vector. The slice holds the elements of the
/// vector, what is written to the slice is written to the vector, and a slice
/// keeps its length while it is borrowed.
#[verifier::external_body]
pub(crate) fn lend<T>(slots: &mut Vec<T>) -> (slice: &mut [T])
    ensures
        slice@ == old(slots)@,
        final(slots)@ == final(slice)@,
        final(slice)@.len() == slice@.len(),
{
    slots.as_mut()
}

/// A vector that was made for a number of elements is an empty one that was asked to have
/// room for so many; an allocation that was refused is one that was asked for; and an
/// address that was read of an allocation is one of such a vector, and not zero.
proof fn allocations_are_asked_for<T>(room: usize, slots: Vec<T>, address: usize)
    ensures
        made_for(room, slots) ==> slots@ == Seq::<T>::empty() && (call_ensures(
            Vec::<T>::with_capacity,
            (room,),
            slots,
        ) || exists|at: &mut Vec<T>, answer: Result<(), TryReserveError>|
            *final(at) == slots && answer is Ok && #[trigger] call_ensures(
                Vec::<T>::try_reserve,
                (at, room),
                answer,
            )),
        refused::<T>(room) ==> exists|at: &mut Vec<T>, answer: Result<(), TryReserveError>|
            answer is Err && #[trigger] call_ensures(Vec::<T>::try_reserve, (at, room), answer),
        placed::<T>(room, address) ==> address != 0 && exists|at: &mut Vec<T>|
            made_for(room, *at) && #[trigger] call_ensures(buffer_address::<T>, (at,), address),
{
    if refused::<T>(room) {
        let (made, answer) = choose|made: Vec<T>, answer: Result<(), TryReserveError>|
            answer is Err && #[trigger] call_ensures(reserve_slots::<T>, (room,), (made, answer));
        assert((made, answer).1 == answer);
    }
    if made_for(room, slots) && !call_ensures(Vec::<T>::with_capacity, (room,), slots) {
        let answer = choose|answer: Result<(), TryReserveError>|
            answer is Ok && #[trigger] call_ensures(reserve_slots::<T>, (room,), (slots, answer));
        assert((slots, answer).0 == slots);
        assert((slots, answer).1 == answer);
    }
}

/// Takes the elements from `from` on out of `slots`. They are dropped where they are,
/// one after the other, when what is returned is dropped.
///
/// This calls [`Vec::drain`]. The elements before `from` stay, and when the iterator
/// over the removed elements is dropped, so are the elements. The iterator is for being
/// dropped: of a vector whose iterator is forgotten, the documentation says nothing.
#[verifier::external_body]
pub(crate) fn drain_from<'a, T>(slots: &'a mut Vec<T>, from: usize) -> (removed: impl Sized + 'a)
    requires
        from <= old(slots)@.len(),
    ensures
        final(slots)@ == old(slots)@.take(from as int),
{
    slots.drain(from..)
}

/// Puts the elements of `slice` from `offset` on into the opposite order.
fn reverse_tail<T>(slice: &mut [T], offset: usize)
    requires
        offset <= old(slice)@.len(),
    ensures
        final(slice)@ == old(slice)@.take(offset as int) + old(slice)@.skip(
            offset as int,
        ).reverse(),
{
    let ghost before = slice@;
    let mut low: usize = offset;
    let mut high: usize = slice.len();
    while high - low > 1
        invariant
            offset <= low <= high <= before.len(),
            (low - offset) == (before.len() - high),
            slice@.len() == before.len(),
            forall|i: int|
                0 <= i < before.len() ==> #[trigger] slice@[i] == if offset <= i < low || high
                    <= i {
                    before[offset + before.len() - 1 - i]
                } else {
                    before[i]
                },
        decreases high - low,
    {
        high = high - 1;
        let (front, back) = slice.split_at_mut(high);
        core::mem::swap(&mut front[low], &mut back[0]);
        low = low + 1;
    }
    assert(slice@ =~= before.take(offset as int) + before.skip(offset as int).reverse());
}

impl<T> View for Chunk<T> {
    type V = Seq<T>;

    closed spec fn view(&self) -> Seq<T> {
        self.slots@
    }
}

impl<T> Chunk<T> {
    /// The address of the first slot.
    pub closed spec fn address(&self) -> usize {
        self.address
    }

    /// The vector whose buffer the chunk is.
    pub(crate) closed spec fn slots(&self) -> Vec<T> {
        self.slots
    }

    /// The number of slots.
    pub closed spec fn room(&self) -> nat {
        self.room@
    }

    /// The chunk is as it was allocated: it holds the vector that was made for it, and
    /// the address is that of the vector.
    pub(crate) closed spec fn fresh(&self) -> bool {
        &&& self@ == Seq::<T>::empty()
        &&& self.address != 0
        &&& exists|at: &mut Vec<T>|
            *at == self.slots && made_for(self.room() as usize, *at) && #[trigger] call_ensures(
                buffer_address::<T>,
                (at,),
                self.address,
            )
    }

    /// A chunk that is as it was allocated is empty, and its address was read of an
    /// allocation for its slots.
    pub(crate) proof fn lemma_fresh(&self)
        requires
            self.fresh(),
        ensures
            self@ == Seq::<T>::empty(),
            self.address() != 0,
            placed::<T>(self.room() as usize, self.address()),
    {
    }

    /// Allocates a chunk with `room` slots.
    pub(crate) fn with_room(room: usize) -> (chunk: Self)
        requires
            room * layout::size_of::<T>() <= isize::MAX,
        ensures
            chunk.fresh(),
            chunk.room() == room,
    {
        Self::from_slots(call_with(&Vec::<T>::with_capacity, room), room)
    }

    /// Tries to allocate a chunk with `room` slots. `None` means that the allocator
    /// had no memory for them. Slots that take no memory are never refused.
    pub(crate) fn try_with_room(room: usize) -> (chunk: Option<Self>)
        requires
            room * layout::size_of::<T>() <= isize::MAX,
        ensures
            room == 0 || layout::size_of::<T>() == 0 ==> chunk is Some,
            chunk matches Some(chunk) ==> chunk.fresh() && chunk.room() == room,
            chunk is None ==> refused::<T>(room),
    {
        if room == 0 || core::mem::size_of::<T>() == 0 {
            return Some(Self::with_room(room));
        }
        let (slots, reserved) = call_with(&reserve_slots::<T>, room);
        Self::from_reservation(slots, room, reserved)
    }

    /// Makes a chunk with `room` slots of an empty vector, given what came of the
    /// reservation of the slots.
    fn from_reservation(
        slots: Vec<T>,
        room: usize,
        reserved: Result<(), TryReserveError>,
    ) -> (chunk: Option<Self>)
        requires
            slots@ == Seq::<T>::empty(),
            reserved is Ok ==> made_for(room, slots),
        ensures
            match (reserved, chunk) {
                (Ok(_), Some(chunk)) => chunk.fresh() && chunk.room() == room,
                (Err(_), None) => true,
                _ => false,
            },
    {
        match reserved {
            Ok(_) => Some(Self::from_slots(slots, room)),
            Err(_) => None,
        }
    }

    /// Makes a chunk of a vector that was allocated with room for `room` elements.
    fn from_slots(slots: Vec<T>, room: usize) -> (chunk: Self)
        requires
            slots@ == Seq::<T>::empty(),
            made_for(room, slots),
        ensures
            chunk.fresh(),
            chunk.room() == room,
    {
        let mut slots = slots;
        let address: usize = step_on(&buffer_address::<T>, &mut slots);
        let chunk = Chunk { slots, address, room: Ghost(room as nat) };
        assert(chunk.address == address);
        chunk
    }

    /// Returns the address of the first slot.
    pub(crate) fn first_address(&self) -> (address: usize)
        ensures
            address == self.address(),
    {
        self.address
    }

    /// Returns the number of elements.
    pub(crate) fn len(&self) -> (len: usize)
        ensures
            len == self@.len(),
    {
        self.slots.len()
    }

    /// Writes `value` to the first free slot.
    pub(crate) fn push(&mut self, value: T)
        requires
            old(self)@.len() < old(self).room(),
        ensures
            final(self)@ == old(self)@.push(value),
            final(self).address() == old(self).address(),
            final(self).room() == old(self).room(),
            exists|at: &mut Vec<T>|
                *at == old(self).slots() && *final(at) == final(self).slots() && #[trigger] call_ensures(
                    Vec::<T>::push,
                    (at, value),
                    (),
                ),
    {
        step_with(&Vec::<T>::push, &mut self.slots, value);
    }

    /// Moves the last element out.
    pub(crate) fn pop(&mut self) -> (value: Option<T>)
        ensures
            value == if old(self)@.len() == 0 {
                None
            } else {
                Some(old(self)@.last())
            },
            final(self)@ == if old(self)@.len() == 0 {
                old(self)@
            } else {
                old(self)@.drop_last()
            },
            final(self).address() == old(self).address(),
            final(self).room() == old(self).room(),
            exists|at: &mut Vec<T>|
                *at == old(self).slots() && *final(at) == final(self).slots() && #[trigger] call_ensures(
                    Vec::<T>::pop,
                    (at,),
                    value,
                ),
    {
        step_on(&Vec::<T>::pop, &mut self.slots)
    }

    /// Takes the elements from `len` on out of the chunk. They are dropped where they
    /// are, one after the other, when what is returned is dropped.
    pub(crate) fn cut_off<'a>(&'a mut self, len: usize) -> (removed: impl Sized + 'a)
        requires
            len <= old(self)@.len(),
        ensures
            final(self)@ == old(self)@.take(len as int),
            final(self).address() == old(self).address(),
            final(self).room() == old(self).room(),
            exists|at: &mut Vec<T>, drained|
                *at == old(self).slots() && *final(at) == final(self).slots()
                    && #[trigger] call_ensures(drain_from::<T>, (at, len), drained),
    {
        step_with(&drain_from::<T>, &mut self.slots, len)
    }

    /// Returns the element at `offset`.
    pub(crate) fn get(&self, offset: usize) -> (value: &T)
        requires
            offset < self@.len(),
        ensures
            *value == self@[offset as int],
    {
        &self.slots[offset]
    }

    /// Returns the element at `offset`, to be changed in place.
    pub(crate) fn get_mut(&mut self, offset: usize) -> (value: &mut T)
        requires
            offset < old(self)@.len(),
        ensures
            *value == old(self)@[offset as int],
            final(self)@ == old(self)@.update(offset as int, *final(value)),
            final(self).address() == old(self).address(),
            final(self).room() == old(self).room(),
            exists|at: &mut Vec<T>, slice: &mut [T]|
                *at == old(self).slots() && *final(at) == final(self).slots()
                    && #[trigger] call_ensures(lend::<T>, (at,), slice),
    {
        &mut self.as_mut_slice()[offset]
    }

    /// Returns the elements as one slice.
    pub(crate) fn as_slice(&self) -> (slice: &[T])
        ensures
            slice@ == self@,
    {
        self.slots.as_slice()
    }

    /// Returns the elements as one slice, to be changed in place.
    pub(crate) fn as_mut_slice(&mut self) -> (slice: &mut [T])
        ensures
            slice@ == old(self)@,
            final(self)@ == final(slice)@,
            final(slice)@.len() == slice@.len(),
            final(self).address() == old(self).address(),
            final(self).room() == old(self).room(),
            exists|at: &mut Vec<T>|
                *at == old(self).slots() && *final(at) == final(self).slots() && #[trigger] call_ensures(
                    lend::<T>,
                    (at,),
                    slice,
                ),
    {
        step_on(&lend::<T>, &mut self.slots)
    }

    /// Puts the elements from `offset` on into the opposite order.
    pub(crate) fn reverse_from(&mut self, offset: usize)
        requires
            offset <= old(self)@.len(),
        ensures
            final(self)@ == old(self)@.take(offset as int) + old(self)@.skip(
                offset as int,
            ).reverse(),
            final(self).address() == old(self).address(),
            final(self).room() == old(self).room(),
            exists|at: &mut Vec<T>, slice: &mut [T]|
                *at == old(self).slots() && *final(at) == final(self).slots()
                    && #[trigger] call_ensures(lend::<T>, (at,), slice),
    {
        reverse_tail(self.as_mut_slice(), offset);
    }

    /// Gives up the buffer with the elements in it.
    pub(crate) fn into_slots(self) -> (slots: Vec<T>)
        ensures
            slots == self.slots(),
            slots@ == self@,
    {
        self.slots
    }

    /// Moves the elements to the end of `target`.
    pub(crate) fn append_to(&mut self, target: &mut Vec<T>)
        ensures
            final(target)@ == old(target)@ + old(self)@,
            final(self)@ == Seq::<T>::empty(),
            final(self).address() == old(self).address(),
            final(self).room() == old(self).room(),
            exists|to: &mut Vec<T>, at: &mut Vec<T>|
                *to == *old(target) && *final(to) == *final(target) && *at == old(self).slots()
                    && *final(at) == final(self).slots() && #[trigger] call_ensures(
                    Vec::<T>::append,
                    (to, at),
                    (),
                ),
    {
        step_with(&Vec::<T>::append, target, &mut self.slots);
    }
}

} // verus!
