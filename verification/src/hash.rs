//! Arrays that are hashed as sequences.

use crate::array::ExponentialArray;
use core::hash::{Hash, Hasher};
use vstd::prelude::*;

verus! {

/// Feeds `value` to a hasher.
///
/// This calls [`Hash::hash`]. Of what becomes of the hasher nothing is claimed: the
/// type of the value decides what is written to it, and the hasher what it makes of
/// that.
#[verifier::external_body]
fn feed<T: Hash, H: Hasher>(value: &T, state: &mut H) {
    value.hash(state)
}

/// To feed `value` may take a hasher from what `at` is to what becomes of it.
pub closed spec fn fed<T: Hash, H: Hasher>(value: T, at: &mut H) -> bool {
    call_ensures(feed::<T, H>, (&value, at), ())
}

/// A hasher is fed a value exactly where hashing the value may take it there.
proof fn fed_means_hashed<T: Hash, H: Hasher>(value: T)
    ensures
        forall|at: &mut H| #[trigger]
            fed(value, at) <==> call_ensures(feed::<T, H>, (&value, at), ()),
{
}

/// `contents` has an element at `index`.
pub open spec fn in_range<T>(contents: Seq<T>, index: int) -> bool {
    0 <= index < contents.len()
}

/// Calls `step` with `value` and `state`.
fn take_step<T, S, F: Fn(&T, &mut S)>(step: &F, value: &T, state: &mut S)
    requires
        forall|at: &mut S| call_requires(*step, (value, at)),
    ensures
        exists|at: &mut S|
            *at == *old(state) && *final(at) == *final(state) && #[trigger] call_ensures(
                *step,
                (value, at),
                (),
            ),
{
    step(value, state)
}

impl<T, const BASE_SHIFT: usize, const CHUNKS: usize> ExponentialArray<T, BASE_SHIFT, CHUNKS> {
    /// Takes `state` through a step with the length, and then through a step with each
    /// element in order.
    pub fn feed_in_order<S, F: Fn(&usize, &mut S), G: Fn(&T, &mut S)>(
        &self,
        feed_len: F,
        feed_element: G,
        state: &mut S,
    )
        requires
            forall|len: usize, at: &mut S| call_requires(feed_len, (&len, at)),
            forall|value: T, at: &mut S| call_requires(feed_element, (&value, at)),
        ensures
            exists|states: Seq<S>|
                {
                    &&& #[trigger] states.len() == self@.len() + 2
                    &&& states[0] == *old(state)
                    &&& states.last() == *final(state)
                    &&& exists|at: &mut S|
                        *at == states[0] && *final(at) == states[1] && #[trigger] call_ensures(
                            feed_len,
                            (&(self.recorded_len() as usize), at),
                            (),
                        )
                    &&& forall|i: int|
                        #[trigger] in_range(self@, i) ==> exists|at: &mut S|
                            *at == states[i + 1] && *final(at) == states[i + 2]
                                && #[trigger] call_ensures(feed_element, (&self@[i], at), ())
                },
    {
        let ghost mut states: Seq<S> = seq![*state];
        take_step(&feed_len, &self.len, state);
        proof {
            states = states.push(*state);
        }
        let ghost parts = self.parts();
        let ghost mut seen: Seq<T> = Seq::empty();
        assert(parts.take(0).flatten() =~= seen);
        let mut chunk: usize = 0;
        while chunk < self.chunks.len()
            invariant
                parts == self.parts(),
                chunk <= self.chunks@.len(),
                forall|value: T, at: &mut S| call_requires(feed_element, (&value, at)),
                seen == parts.take(chunk as int).flatten(),
                states.len() == seen.len() + 2,
                states[0] == *old(state),
                states.last() == *state,
                exists|at: &mut S|
                    *at == states[0] && *final(at) == states[1] && #[trigger] call_ensures(
                        feed_len,
                        (&self.len, at),
                        (),
                    ),
                forall|i: int|
                    #[trigger] in_range(seen, i) ==> exists|at: &mut S|
                        *at == states[i + 1] && *final(at) == states[i + 2]
                            && #[trigger] call_ensures(feed_element, (&seen[i], at), ()),
            decreases self.chunks@.len() - chunk,
        {
            let values = self.chunks[chunk].as_slice();
            let mut offset: usize = 0;
            assert(values@.take(0) =~= Seq::<T>::empty());
            assert(seen =~= parts.take(chunk as int).flatten() + values@.take(0));
            while offset < values.len()
                invariant
                    offset <= values@.len(),
                    forall|value: T, at: &mut S| call_requires(feed_element, (&value, at)),
                    seen == parts.take(chunk as int).flatten() + values@.take(offset as int),
                    states.len() == seen.len() + 2,
                    states[0] == *old(state),
                    states.last() == *state,
                    exists|at: &mut S|
                        *at == states[0] && *final(at) == states[1] && #[trigger] call_ensures(
                            feed_len,
                            (&self.len, at),
                            (),
                        ),
                    forall|i: int|
                        #[trigger] in_range(seen, i) ==> exists|at: &mut S|
                            *at == states[i + 1] && *final(at) == states[i + 2]
                                && #[trigger] call_ensures(feed_element, (&seen[i], at), ()),
                decreases values@.len() - offset,
            {
                let ghost fewer = states;
                let ghost less = seen;
                take_step(&feed_element, &values[offset], state);
                proof {
                    states = states.push(*state);
                    seen = seen.push(values@[offset as int]);
                    assert(seen =~= parts.take(chunk as int).flatten() + values@.take(
                        offset + 1,
                    ));
                    assert forall|i: int|
                        #[trigger] in_range(seen, i) implies exists|at: &mut S|
                            *at == states[i + 1] && *final(at) == states[i + 2]
                                && #[trigger] call_ensures(feed_element, (&seen[i], at), ()) by {
                        if i < less.len() {
                            assert(in_range(less, i));
                            assert(seen[i] == less[i]);
                            assert(states[i + 1] == fewer[i + 1]);
                            assert(states[i + 2] == fewer[i + 2]);
                        } else {
                            assert(seen[i] == values@[offset as int]);
                            assert(states[i + 1] == fewer.last());
                            assert(states[i + 2] == *state);
                        }
                    }
                }
                offset = offset + 1;
            }
            proof {
                parts.take(chunk as int).lemma_flatten_push(values@);
                assert(values@.take(offset as int) =~= values@);
                assert(parts.take(chunk as int).push(values@) =~= parts.take(chunk + 1));
            }
            chunk = chunk + 1;
        }
        assert(parts.take(chunk as int) =~= parts);
        proof {
            assert(seen == self@);
            assert(self.recorded_len() as usize == self.len);
            assert(exists|at: &mut S|
                *at == states[0] && *final(at) == states[1] && #[trigger] call_ensures(
                    feed_len,
                    (&(self.recorded_len() as usize), at),
                    (),
                ));
            assert(forall|i: int| #[trigger]
                in_range(self@, i) ==> exists|at: &mut S|
                    *at == states[i + 1] && *final(at) == states[i + 2]
                        && #[trigger] call_ensures(feed_element, (&self@[i], at), ()));
            assert(states.len() == self@.len() + 2);
        }
    }
}

impl<T: Hash, const BASE_SHIFT: usize, const CHUNKS: usize> Hash for ExponentialArray<
    T,
    BASE_SHIFT,
    CHUNKS,
> {
    /// Feeds the length to a hasher, and then each element in order.
    fn hash<H: Hasher>(&self, state: &mut H)
        ensures
            exists|states: Seq<H>|
                {
                    &&& #[trigger] states.len() == self@.len() + 2
                    &&& states[0] == *old(state)
                    &&& states.last() == *final(state)
                    &&& exists|at: &mut H|
                        *at == states[0] && *final(at) == states[1] && #[trigger] fed(
                            self.recorded_len() as usize,
                            at,
                        )
                    &&& forall|i: int|
                        #[trigger] in_range(self@, i) ==> exists|at: &mut H|
                            *at == states[i + 1] && *final(at) == states[i + 2] && #[trigger] fed(
                                self@[i],
                                at,
                            )
                },
    {
        self.feed_in_order(feed::<usize, H>, feed::<T, H>, state);
        proof {
            let states = choose|states: Seq<H>|
                {
                    &&& #[trigger] states.len() == self@.len() + 2
                    &&& states[0] == *old(state)
                    &&& states.last() == *state
                    &&& exists|at: &mut H|
                        *at == states[0] && *final(at) == states[1] && #[trigger] call_ensures(
                            feed::<usize, H>,
                            (&(self.recorded_len() as usize), at),
                            (),
                        )
                    &&& forall|i: int|
                        #[trigger] in_range(self@, i) ==> exists|at: &mut H|
                            *at == states[i + 1] && *final(at) == states[i + 2]
                                && #[trigger] call_ensures(feed::<T, H>, (&self@[i], at), ())
                };
            let at = choose|at: &mut H|
                *at == states[0] && *final(at) == states[1] && #[trigger] call_ensures(
                    feed::<usize, H>,
                    (&(self.recorded_len() as usize), at),
                    (),
                );
            assert(fed(self.recorded_len() as usize, at));
            assert forall|i: int| #[trigger] in_range(self@, i) implies exists|at: &mut H|
                *at == states[i + 1] && *final(at) == states[i + 2] && #[trigger] fed(
                    self@[i],
                    at,
                ) by {
                let at = choose|at: &mut H|
                    *at == states[i + 1] && *final(at) == states[i + 2]
                        && #[trigger] call_ensures(feed::<T, H>, (&self@[i], at), ());
                assert(fed(self@[i], at));
            }
            assert(states.len() == self@.len() + 2);
        }
    }
}

} // verus!
