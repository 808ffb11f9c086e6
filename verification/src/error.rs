//! Why a reservation failed.

use crate::text::{decimal, push_decimal};
use vstd::prelude::*;
use vstd::string::StringExecFns;

verus! {

/// The reason a reservation failed.
#[derive(Clone, Copy, Debug, Eq, PartialEq, Structural)]
pub enum TryReserveErrorKind {
    /// The requested element count overflowed `usize`.
    CapacityOverflow,
    /// The requested element count is larger than the array's configuration can
    /// represent.
    CapacityExceeded {
        /// The requested number of elements.
        requested: usize,
        /// The maximum number of elements this configuration can hold for `T`.
        max: usize,
    },
    /// The allocator had no memory for the requested layout.
    AllocError {
        /// The requested allocation size in bytes.
        size: usize,
        /// The requested allocation alignment in bytes.
        align: usize,
    },
}

impl TryReserveErrorKind {
    /// What a reservation that failed for this reason says of itself.
    pub open spec fn message(self) -> Seq<char> {
        match self {
            TryReserveErrorKind::CapacityOverflow => "requested capacity overflows usize"@,
            TryReserveErrorKind::CapacityExceeded {
                requested,
                max,
            } => "requested capacity "@ + decimal(requested as nat) + " exceeds maximum capacity "@
                + decimal(max as nat),
            TryReserveErrorKind::AllocError {
                size,
                align,
            } => "memory allocation failed for layout with size "@ + decimal(size as nat)
                + " and align "@ + decimal(align as nat),
        }
    }

    /// How the reason reads in program text.
    pub open spec fn debug_text(self) -> Seq<char> {
        match self {
            TryReserveErrorKind::CapacityOverflow => "CapacityOverflow"@,
            TryReserveErrorKind::CapacityExceeded {
                requested,
                max,
            } => "CapacityExceeded { requested: "@ + decimal(requested as nat) + ", max: "@
                + decimal(max as nat) + " }"@,
            TryReserveErrorKind::AllocError { size, align } => "AllocError { size: "@ + decimal(
                size as nat,
            ) + ", align: "@ + decimal(align as nat) + " }"@,
        }
    }
}

/// An error returned by fallible reservation APIs.
#[derive(Clone, Copy, Debug, Eq, PartialEq, Structural)]
pub struct TryReserveError {
    kind: TryReserveErrorKind,
}

impl View for TryReserveError {
    type V = TryReserveErrorKind;

    closed spec fn view(&self) -> TryReserveErrorKind {
        self.kind
    }
}

impl TryReserveError {
    /// Returns the error kind.
    #[must_use]
    pub fn kind(&self) -> (kind: TryReserveErrorKind)
        ensures
            kind == self@,
    {
        self.kind
    }

    pub(crate) fn capacity_overflow() -> (error: Self)
        ensures
            error@ == TryReserveErrorKind::CapacityOverflow,
    {
        Self { kind: TryReserveErrorKind::CapacityOverflow }
    }

    pub(crate) fn capacity_exceeded(requested: usize, max: usize) -> (error: Self)
        ensures
            error@ == (TryReserveErrorKind::CapacityExceeded { requested, max }),
    {
        Self { kind: TryReserveErrorKind::CapacityExceeded { requested, max } }
    }

    pub(crate) fn alloc_error(size: usize, align: usize) -> (error: Self)
        ensures
            error@ == (TryReserveErrorKind::AllocError { size, align }),
    {
        Self { kind: TryReserveErrorKind::AllocError { size, align } }
    }

    /// Returns the error as a sentence.
    pub fn to_string(&self) -> (text: String)
        ensures
            text@ == self@.message(),
    {
        match self.kind {
            TryReserveErrorKind::CapacityOverflow => String::from_str(
                "requested capacity overflows usize",
            ),
            TryReserveErrorKind::CapacityExceeded { requested, max } => {
                let mut text = String::from_str("requested capacity ");
                push_decimal(&mut text, requested);
                text.append(" exceeds maximum capacity ");
                push_decimal(&mut text, max);
                text
            },
            TryReserveErrorKind::AllocError { size, align } => {
                let mut text = String::from_str("memory allocation failed for layout with size ");
                push_decimal(&mut text, size);
                text.append(" and align ");
                push_decimal(&mut text, align);
                text
            },
        }
    }

    /// Returns the error as program text.
    pub(crate) fn debug_string(&self) -> (text: String)
        ensures
            text@ == "TryReserveError { kind: "@ + self@.debug_text() + " }"@,
    {
        let mut text = String::from_str("TryReserveError { kind: ");
        match self.kind {
            TryReserveErrorKind::CapacityOverflow => {
                text.append("CapacityOverflow");
            },
            TryReserveErrorKind::CapacityExceeded { requested, max } => {
                text.append("CapacityExceeded { requested: ");
                push_decimal(&mut text, requested);
                text.append(", max: ");
                push_decimal(&mut text, max);
                text.append(" }");
            },
            TryReserveErrorKind::AllocError { size, align } => {
                text.append("AllocError { size: ");
                push_decimal(&mut text, size);
                text.append(", align: ");
                push_decimal(&mut text, align);
                text.append(" }");
            },
        }
        assert(text@ == "TryReserveError { kind: "@ + self@.debug_text());
        text.append(" }");
        text
    }
}

/// An error returned when an element could not be appended.
pub struct TryPushError<T> {
    value: T,
    error: TryReserveError,
}

impl<T> TryPushError<T> {
    /// The value that could not be pushed.
    pub closed spec fn rejected(&self) -> T {
        self.value
    }

    /// The reservation error.
    pub closed spec fn reason(&self) -> TryReserveError {
        self.error
    }

    pub(crate) fn new(value: T, error: TryReserveError) -> (rejection: Self)
        ensures
            rejection.rejected() == value,
            rejection.reason() == error,
    {
        Self { value, error }
    }

    /// Returns the value that could not be pushed.
    #[must_use]
    pub fn value(&self) -> (value: &T)
        ensures
            *value == self.rejected(),
    {
        &self.value
    }

    /// Returns the reservation error.
    #[must_use]
    pub fn error(&self) -> (error: TryReserveError)
        ensures
            error == self.reason(),
    {
        self.error
    }

    /// Splits the error into the original value and reservation error.
    #[must_use]
    pub fn into_parts(self) -> (parts: (T, TryReserveError))
        ensures
            parts == (self.rejected(), self.reason()),
    {
        (self.value, self.error)
    }

    /// Returns the error as a sentence. The value is not shown.
    pub fn to_string(&self) -> (text: String)
        ensures
            text@ == "could not push value: "@ + self.reason()@.message(),
    {
        String::from_str("could not push value: ").concat(self.error.to_string().as_str())
    }

    /// Returns the error as program text, with a placeholder for the value.
    pub fn debug_string(&self) -> (text: String)
        ensures
            text@ == "TryPushError { value: \"<value>\", error: TryReserveError { kind: "@
                + self.reason()@.debug_text() + " } }"@,
    {
        let mut text = String::from_str("TryPushError { value: \"<value>\", error: ");
        text.append(self.error.debug_string().as_str());
        text.append(" }");
        proof {
            reveal_strlit("TryPushError { value: \"<value>\", error: TryReserveError { kind: ");
            reveal_strlit("TryPushError { value: \"<value>\", error: ");
            reveal_strlit("TryReserveError { kind: ");
            reveal_strlit(" } }");
            reveal_strlit(" }");
        }
        assert("TryPushError { value: \"<value>\", error: "@ + "TryReserveError { kind: "@
            == "TryPushError { value: \"<value>\", error: TryReserveError { kind: "@);
        assert(" }"@ + " }"@ == " } }"@);
        text
    }
}

} // verus!
