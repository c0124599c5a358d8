//! Optional values: a sum type that is either a present value or absent,
//! with safe extraction and chaining operations.

use vstd::pervasive::unreached;
use vstd::prelude::*;

verus! {

/// An optional value: either a present value or nothing. Absence is a
/// normal outcome, not an error.
#[derive(Debug, Clone, Copy, PartialEq, Eq)]
pub enum Option<T> {
    /// A present value.
    Present(T),
    /// No value.
    Absent,
}

impl<T> Option<T> {
    /// Whether this holds a value.
    pub fn is_some(&self) -> (r: bool)
        ensures
            r == (self is Present),
    {
        matches!(self, Option::Present(_))
    }

    /// Whether this holds no value.
    pub fn is_none(&self) -> (r: bool)
        ensures
            r == (self is Absent),
    {
        matches!(self, Option::Absent)
    }

    /// The held value, or `default` when absent.
    pub fn unwrap_or(&self, default: T) -> (r: T) where T: Copy
        ensures
            self matches Option::Present(v) ==> r == v,
            self is Absent ==> r == default,
    {
        match self {
            Option::Present(v) => *v,
            Option::Absent => default,
        }
    }

    /// The held value, or the result of calling `f` when absent.
    pub fn unwrap_or_else<F: FnOnce() -> T>(&self, f: F) -> (r: T) where T: Copy
        requires
            self is Absent ==> f.requires(()),
        ensures
            self matches Option::Present(v) ==> r == v,
            self is Absent ==> f.ensures((), r),
    {
        match self {
            Option::Present(v) => *v,
            Option::Absent => f(),
        }
    }

    /// The held value; only callable when a value is present.
    pub fn unwrap(&self) -> (r: T) where T: Copy
        requires
            self is Present,
        ensures
            self matches Option::Present(v) && r == v,
    {
        match self {
            Option::Present(v) => *v,
            Option::Absent => unreached(),
        }
    }

    /// Apply `f` to the held value, if any.
    pub fn map<U, F: FnOnce(T) -> U>(&self, f: F) -> (r: Option<U>) where T: Copy
        requires
            self matches Option::Present(v) ==> f.requires((*v,)),
        ensures
            self matches Option::Present(v) ==> r matches Option::Present(u) && f.ensures((*v,), u),
            self is Absent ==> r is Absent,
    {
        match self {
            Option::Present(v) => Option::Present(f(*v)),
            Option::Absent => Option::Absent,
        }
    }

    /// Apply `f`, itself returning an optional value, to the held value.
    pub fn and_then<U, F: FnOnce(T) -> Option<U>>(&self, f: F) -> (r: Option<U>) where T: Copy
        requires
            self matches Option::Present(v) ==> f.requires((*v,)),
        ensures
            self matches Option::Present(v) ==> f.ensures((*v,), r),
            self is Absent ==> r is Absent,
    {
        match self {
            Option::Present(v) => f(*v),
            Option::Absent => Option::Absent,
        }
    }

    /// Keep the held value only when it satisfies `predicate`.
    pub fn filter<F: FnOnce(T) -> bool>(&self, predicate: F) -> (r: Option<T>) where T: Copy
        requires
            self matches Option::Present(v) ==> predicate.requires((*v,)),
        ensures
            self matches Option::Present(v) ==> (r == Option::Present(*v) && predicate.ensures((*v,), true)) || (r is Absent && predicate.ensures((*v,), false)),
            self is Absent ==> r is Absent,
    {
        match self {
            Option::Present(v) => {
                if predicate(*v) {
                    Option::Present(*v)
                } else {
                    Option::Absent
                }
            },
            Option::Absent => Option::Absent,
        }
    }

    /// A reference to the held value, if any.
    pub fn as_ref(&self) -> (r: Option<&T>)
        ensures
            self matches Option::Present(v) ==> r matches Option::Present(p) && *p == v,
            self is Absent ==> r is Absent,
    {
        match self {
            Option::Present(v) => Option::Present(v),
            Option::Absent => Option::Absent,
        }
    }

    /// A mutable reference to the held value, if any; the option stays
    /// present and tracks whatever is written through the reference.
    pub fn as_mut(&mut self) -> (r: Option<&mut T>)
        ensures
            *old(self) is Absent ==> r is Absent && *final(self) is Absent,
            *old(self) matches Option::Present(v) ==> (r matches Option::Present(p) && *p == v
                && *final(self) == Option::Present(*final(p))),
    {
        match self {
            Option::Present(v) => Option::Present(v),
            Option::Absent => Option::Absent,
        }
    }

    /// Apply `f` to the held value, or return `default` when absent.
    pub fn map_or<U, F: FnOnce(T) -> U>(&self, default: U, f: F) -> (r: U) where T: Copy
        requires
            self matches Option::Present(v) ==> f.requires((*v,)),
        ensures
            self matches Option::Present(v) ==> f.ensures((*v,), r),
            self is Absent ==> r == default,
    {
        match self {
            Option::Present(v) => f(*v),
            Option::Absent => default,
        }
    }

    /// `other` when a value is present here, absent otherwise.
    pub fn and<U>(&self, other: Option<U>) -> (r: Option<U>) where T: Copy
        ensures
            self is Present ==> r == other,
            self is Absent ==> r is Absent,
    {
        match self {
            Option::Present(_) => other,
            Option::Absent => Option::Absent,
        }
    }

    /// This value when present, otherwise `other`.
    pub fn or(&self, other: Option<T>) -> (r: Option<T>) where T: Copy
        ensures
            self matches Option::Present(v) ==> r == Option::Present(*v),
            self is Absent ==> r == other,
    {
        match self {
            Option::Present(v) => Option::Present(*v),
            Option::Absent => other,
        }
    }
}

} // verus!
