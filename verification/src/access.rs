//! Elements by index.

use crate::array::ExponentialArray;
use crate::contents::lemma_replace;
use crate::geometry::{
    chunk_of, chunk_slots, lemma_chunk_of, lemma_chunk_of_below, lemma_filled, lemma_usable_chunks,
    offset_of, representable,
};
use vstd::layout;
use vstd::prelude::*;

verus! {

/// The address of an element.
///
/// It names the element until the element is removed or the array is dropped. The
/// provenance of the chunk is exposed, so that
/// [`with_exposed_provenance_mut`](core::ptr::with_exposed_provenance_mut) makes a raw
/// pointer of it. To dereference the pointer is unsafe and must obey Rust's aliasing
/// rules. The address is never zero.
#[derive(Clone, Copy, Debug, Eq, PartialEq, Structural)]
pub struct ElementAddress {
    address: usize,
}

impl View for ElementAddress {
    type V = usize;

    closed spec fn view(&self) -> usize {
        self.address
    }
}

impl ElementAddress {
    pub(crate) fn new(address: usize) -> (element: Self)
        ensures
            element@ == address,
    {
        Self { address }
    }

    /// Returns the address.
    #[must_use]
    pub fn get(&self) -> (address: usize)
        ensures
            address == self@,
    {
        self.address
    }

    /// An address is told apart from others by its value alone.
    pub proof fn lemma_equal(self, other: Self)
        ensures
            self == other <==> self@ == other@,
    {
    }
}

impl<T, const BASE_SHIFT: usize, const CHUNKS: usize> ExponentialArray<T, BASE_SHIFT, CHUNKS> {
    /// An index within the length lives in a slot of an allocated chunk.
    pub(crate) proof fn lemma_slot(&self, index: int)
        requires
            self.wf(),
            0 <= index < self.len,
        ensures
            BASE_SHIFT < usize::BITS,
            chunk_of(BASE_SHIFT as nat, index) < self.chunks@.len(),
            0 <= offset_of(BASE_SHIFT as nat, index) < self.chunks@[chunk_of(
                BASE_SHIFT as nat,
                index,
            ) as int]@.len(),
            self@[index] == self.chunks@[chunk_of(BASE_SHIFT as nat, index) as int]@[offset_of(
                BASE_SHIFT as nat,
                index,
            )],
    {
        let base = BASE_SHIFT as nat;
        self.lemma_view();
        lemma_chunk_of(base, index);
        lemma_chunk_of_below(base, index, self.chunks@.len());
        lemma_filled(base, self.len as int, index);
        assert(self.parts()[chunk_of(base, index) as int].len() == self.chunks@[chunk_of(
            base,
            index,
        ) as int]@.len());
        lemma_usable_chunks(base, layout::size_of::<T>(), CHUNKS as nat);
        assert(representable(base, layout::size_of::<T>(), 0));
    }

    /// Returns the number of initialized elements.
    #[must_use]
    pub fn len(&self) -> (len: usize)
        requires
            self.wf(),
        ensures
            len == self@.len(),
    {
        proof {
            self.lemma_view();
        }
        self.len
    }

    /// Returns whether the array is empty.
    #[must_use]
    pub fn is_empty(&self) -> (empty: bool)
        requires
            self.wf(),
        ensures
            empty <==> self@.len() == 0,
    {
        proof {
            self.lemma_view();
        }
        self.len == 0
    }

    /// Returns a shared reference to the first element, or `None` if empty.
    #[must_use]
    pub fn first(&self) -> (value: Option<&T>)
        requires
            self.wf(),
        ensures
            value == if self@.len() == 0 {
                None
            } else {
                Some(&self@[0])
            },
    {
        self.get(0)
    }

    /// Returns a mutable reference to the first element, or `None` if empty.
    #[must_use]
    pub fn first_mut(&mut self) -> (value: Option<&mut T>)
        requires
            old(self).wf(),
        ensures
            final(self).wf(),
            final(self).buffers() == old(self).buffers(),
            match value {
                Some(value) => {
                    &&& old(self)@.len() > 0
                    &&& *value == old(self)@[0]
                    &&& final(self)@ == old(self)@.update(0, *final(value))
                },
                None => old(self)@.len() == 0 && final(self)@ == old(self)@,
            },
    {
        self.get_mut(0)
    }

    /// Returns a shared reference to the last element, or `None` if empty.
    #[must_use]
    pub fn last(&self) -> (value: Option<&T>)
        requires
            self.wf(),
        ensures
            value == if self@.len() == 0 {
                None
            } else {
                Some(&self@.last())
            },
    {
        proof {
            self.lemma_view();
        }
        if self.len == 0 {
            None
        } else {
            self.get(self.len - 1)
        }
    }

    /// Returns a mutable reference to the last element, or `None` if empty.
    #[must_use]
    pub fn last_mut(&mut self) -> (value: Option<&mut T>)
        requires
            old(self).wf(),
        ensures
            final(self).wf(),
            final(self).buffers() == old(self).buffers(),
            match value {
                Some(value) => {
                    &&& old(self)@.len() > 0
                    &&& *value == old(self)@.last()
                    &&& final(self)@ == old(self)@.update(old(self)@.len() - 1, *final(value))
                },
                None => old(self)@.len() == 0 && final(self)@ == old(self)@,
            },
    {
        proof {
            self.lemma_view();
        }
        if self.len == 0 {
            None
        } else {
            self.get_mut(self.len - 1)
        }
    }

    /// Returns the stable address of the last element, or `None` if empty.
    ///
    /// The address names the element until the element is removed or the array is
    /// dropped.
    #[must_use]
    pub fn last_ptr(&self) -> (pointer: Option<ElementAddress>)
        requires
            self.wf(),
        ensures
            match pointer {
                Some(pointer) => {
                    &&& self@.len() > 0
                    &&& pointer@ == self.address(self@.len() - 1)
                    &&& self.in_allocation(self@.len() - 1)
                    &&& pointer@ != 0
                },
                None => self@.len() == 0,
            },
    {
        proof {
            self.lemma_view();
        }
        if self.len == 0 {
            None
        } else {
            self.ptr(self.len - 1)
        }
    }

    /// Returns a shared reference to the element at `index`.
    #[must_use]
    pub fn get(&self, index: usize) -> (value: Option<&T>)
        requires
            self.wf(),
        ensures
            value == if index < self@.len() {
                Some(&self@[index as int])
            } else {
                None
            },
    {
        proof {
            self.lemma_view();
        }
        if index < self.len {
            Some(self.get_unchecked(index))
        } else {
            None
        }
    }

    /// Returns a mutable reference to the element at `index`.
    #[must_use]
    pub fn get_mut(&mut self, index: usize) -> (value: Option<&mut T>)
        requires
            old(self).wf(),
        ensures
            final(self).wf(),
            final(self).buffers() == old(self).buffers(),
            match value {
                Some(value) => {
                    &&& index < old(self)@.len()
                    &&& *value == old(self)@[index as int]
                    &&& final(self)@ == old(self)@.update(index as int, *final(value))
                },
                None => index >= old(self)@.len() && final(self)@ == old(self)@,
            },
    {
        proof {
            self.lemma_view();
        }
        if index < self.len {
            Some(self.get_unchecked_mut(index))
        } else {
            None
        }
    }

    /// Returns a shared reference to the element at `index`, which must be less than
    /// the length.
    #[must_use]
    pub fn get_unchecked(&self, index: usize) -> (value: &T)
        requires
            self.wf(),
            index < self@.len(),
        ensures
            *value == self@[index as int],
    {
        proof {
            self.lemma_view();
            self.lemma_slot(index as int);
        }
        let (chunk, offset) = Self::locate(index);
        self.chunks[chunk].get(offset)
    }

    /// Returns a mutable reference to the element at `index`, which must be less than
    /// the length.
    #[must_use]
    pub fn get_unchecked_mut(&mut self, index: usize) -> (value: &mut T)
        requires
            old(self).wf(),
            index < old(self)@.len(),
        ensures
            *value == old(self)@[index as int],
            final(self).wf(),
            final(self)@ == old(self)@.update(index as int, *final(value)),
            final(self).buffers() == old(self).buffers(),
    {
        let ghost before = *self;
        proof {
            self.lemma_view();
            self.lemma_slot(index as int);
        }
        let (chunk, offset) = Self::locate(index);
        let value = self.chunks[chunk].get_mut(offset);
        proof {
            let base = BASE_SHIFT as nat;
            lemma_replace(before.parts(), base, before.len as int, index as int, *final(value));
            assert(after_borrow(self).parts() =~= before.parts().update(
                chunk as int,
                before.parts()[chunk as int].update(offset as int, *final(value)),
            ));
            assert(after_borrow(self).buffers() =~= before.buffers());
        }
        value
    }

    /// Returns the stable address of the element at `index`.
    ///
    /// The address names the element until the element is removed or the array is
    /// dropped.
    #[must_use]
    pub fn ptr(&self, index: usize) -> (pointer: Option<ElementAddress>)
        requires
            self.wf(),
        ensures
            match pointer {
                Some(pointer) => {
                    &&& index < self@.len()
                    &&& pointer@ == self.address(index as int)
                    &&& self.in_allocation(index as int)
                    &&& pointer@ != 0
                },
                None => index >= self@.len(),
            },
    {
        proof {
            self.lemma_view();
        }
        if index < self.len {
            proof {
                self.lemma_slot(index as int);
            }
            let (chunk, offset) = Self::locate(index);
            Some(ElementAddress::new(self.address_at(chunk, offset)))
        } else {
            None
        }
    }

    /// Returns the address of a slot of an allocated chunk.
    pub(crate) fn address_at(&self, chunk: usize, offset: usize) -> (address: usize)
        requires
            self.wf(),
            chunk < self.chunks@.len(),
            offset < chunk_slots(BASE_SHIFT as nat, chunk as nat),
        ensures
            forall|index: int|
                chunk_of(BASE_SHIFT as nat, index) == chunk && #[trigger] offset_of(
                    BASE_SHIFT as nat,
                    index,
                ) == offset ==> address == self.address(index),
            address != 0,
    {
        let ghost size = layout::size_of::<T>();
        proof {
            lemma_usable_chunks(BASE_SHIFT as nat, size, CHUNKS as nat);
            assert(representable(BASE_SHIFT as nat, size, chunk as nat));
            assert(offset * size <= chunk_slots(BASE_SHIFT as nat, chunk as nat) * size)
                by (nonlinear_arith)
                requires
                    offset < chunk_slots(BASE_SHIFT as nat, chunk as nat),
            ;
            assert(offset * size >= 0) by (nonlinear_arith);
        }
        let distance: usize = offset * core::mem::size_of::<T>();
        self.chunks[chunk].first_address().saturating_add(distance)
    }

    /// Returns a mutable reference to the element at `index`, which must be less than
    /// the length.
    pub fn index_mut(&mut self, index: usize) -> (value: &mut T)
        requires
            old(self).wf(),
            index < old(self)@.len(),
        ensures
            *value == old(self)@[index as int],
            final(self).wf(),
            final(self)@ == old(self)@.update(index as int, *final(value)),
            final(self).buffers() == old(self).buffers(),
    {
        self.get_unchecked_mut(index)
    }
}

impl<T, const BASE_SHIFT: usize, const CHUNKS: usize> core::ops::Index<
    usize,
> for ExponentialArray<T, BASE_SHIFT, CHUNKS> {
    type Output = T;

    fn index(&self, index: usize) -> (value: &T)
        ensures
            *value == self@[index as int],
    {
        self.get_unchecked(index)
    }
}

impl<T, const BASE_SHIFT: usize, const CHUNKS: usize> vstd::std_specs::core::IndexSpecImpl<
    usize,
> for ExponentialArray<T, BASE_SHIFT, CHUNKS> {
    open spec fn index_req(&self, index: &usize) -> bool {
        self.wf() && *index < self@.len()
    }
}

} // verus!
