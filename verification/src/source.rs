//! Calls of the functions that make elements.
//!
//! A function that makes elements is called here and nowhere else. To the rest of the
//! library it is something that can be called a certain number of times, or once there
//! is a slot for what it makes, so that each call shows in what is proved of the
//! caller.

use crate::array::ExponentialArray;
use vstd::prelude::*;

verus! {

/// The function is withheld. This never holds, which is known in this module only: a
/// function whose callers promise it a function that can be called or is withheld has
/// to leave the calls to this module.
pub closed spec fn withheld<F>(function: F) -> bool {
    false
}

/// Something that makes one value after the other.
///
/// Every function that can be called again and again is one. A caller who knows a
/// source only as a source sees each call: a call uses up one of those that the source
/// is ready for, and takes the source to its next state.
pub trait Source<T>: Sized {
    /// The source can be called `calls` times.
    spec fn ready_for(&self, calls: nat) -> bool;

    /// The source may make `value` when it is called.
    spec fn gives(&self, value: T) -> bool;

    /// A call may make `value` and leave the source as `after`.
    spec fn steps(&self, value: T, after: &Self) -> bool;

    /// Makes the next value.
    fn make(&mut self) -> (value: T)
        requires
            exists|calls: nat| calls > 0 && #[trigger] old(self).ready_for(calls),
        ensures
            old(self).steps(value, final(self)),
            old(self).gives(value),
            forall|next: T| #[trigger] final(self).gives(next) ==> old(self).gives(next),
            forall|calls: nat|
                calls > 0 && #[trigger] old(self).ready_for(calls) ==> final(self).ready_for(
                    (calls - 1) as nat,
                ),
    ;
}

impl<T, F: FnMut() -> T> Source<T> for F {
    closed spec fn ready_for(&self, calls: nat) -> bool {
        calls > 0 ==> call_requires(*self, ())
    }

    open spec fn gives(&self, value: T) -> bool {
        call_ensures(*self, (), value)
    }

    closed spec fn steps(&self, value: T, after: &Self) -> bool {
        call_ensures(*self, (), value)
    }

    fn make(&mut self) -> (value: T) {
        self()
    }
}

/// A function that can be called is ready for any number of calls.
pub(crate) proof fn lemma_ready<T, F: FnMut() -> T>(function: F, calls: nat)
    requires
        call_requires(function, ()) || withheld(function),
    ensures
        function.ready_for(calls),
{
}

/// A step of a function makes a value that a call of it gives.
pub proof fn lemma_steps<T, F: FnMut() -> T>(function: F, value: T, after: F)
    requires
        function.steps(value, &after),
    ensures
        call_ensures(function, (), value),
{
}

/// Makes a value for the slot that `array` has for one more element.
pub(crate) fn make_for_slot<T, F: FnOnce() -> T, const BASE_SHIFT: usize, const CHUNKS: usize>(
    function: F,
    array: &ExponentialArray<T, BASE_SHIFT, CHUNKS>,
) -> (value: T)
    requires
        call_requires(function, ()) || withheld(function),
        array.wf(),
        array.len < array.capacity,
    ensures
        call_ensures(function, (), value),
{
    function()
}

} // verus!
