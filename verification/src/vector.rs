//! Growable typed sequence: a contiguous, ordered, owning collection with
//! bounds-checked access and mutation, explicit failure on invalid indices,
//! and structural operations (insert, remove, swap, reverse, clear).

use vstd::prelude::*;
use vstd::seq_lib::*;
use vstd::std_specs::cmp::PartialEqSpec;
use vstd::std_specs::iter::IteratorSpec;

verus! {

/// Error signalled by every fallible index-based operation: it carries the
/// requested index and the length of the sequence at the time of the call.
#[derive(Debug, Clone, Copy, PartialEq, Eq, Structural)]
pub struct IndexOutOfBounds {
    /// The index the caller asked for.
    pub index: u64,
    /// The element count at the time of the call.
    pub len: u64,
}

/// Generic growable sequence owning a contiguous, ordered collection of
/// elements, addressed by zero-based indices `0 .. length - 1`.
#[derive(Debug, Clone, PartialEq, Eq)]
pub struct Vector<T> {
    elements: Vec<T>,
}

impl<T> View for Vector<T> {
    type V = Seq<T>;

    closed spec fn view(&self) -> Seq<T> {
        self.elements@
    }
}

/// Relies on `<[T]>::swap` (through `Vec`'s deref): exchanges the elements
/// at the two in-bounds positions and moves nothing else.
#[verifier::external_body]
fn exchange<T>(v: &mut Vec<T>, i: usize, j: usize)
    requires
        i < old(v)@.len(),
        j < old(v)@.len(),
    ensures
        final(v)@ == old(v)@.update(i as int, old(v)@[j as int]).update(
            j as int,
            old(v)@[i as int],
        ),
{
    v.swap(i, j);
}

impl<T> Vector<T> {
    /// Create a new empty sequence.
    pub fn new() -> (r: Self)
        ensures
            r@ == Seq::<T>::empty(),
    {
        Self { elements: Vec::new() }
    }

    /// Create a new empty sequence pre-sized to hold `capacity` elements
    /// without reallocation; the hint never caps growth.
    pub fn with_capacity(capacity: usize) -> (r: Self)
        ensures
            r@ == Seq::<T>::empty(),
    {
        Self { elements: Vec::with_capacity(capacity) }
    }

    /// The number of elements.
    pub fn len(&self) -> (r: u64)
        ensures
            r == self@.len(),
    {
        self.elements.len() as u64
    }

    /// Whether the sequence holds no element.
    pub fn is_empty(&self) -> (r: bool)
        ensures
            r == (self@.len() == 0),
    {
        self.elements.is_empty()
    }

    /// Append `value` at the end: the length grows by exactly one and the
    /// new value sits at the last index; every other element is unmoved.
    pub fn push(&mut self, value: T)
        ensures
            final(self)@ == old(self)@.push(value),
            final(self)@.len() == old(self)@.len() + 1,
            final(self)@.last() == value,
    {
        self.elements.push(value);
    }

    /// Remove and return the last element: the element most recently pushed
    /// and not yet removed. On an empty sequence the result is `None` and
    /// nothing changes.
    pub fn pop(&mut self) -> (r: Option<T>)
        ensures
            old(self)@.len() == 0 ==> r is None && final(self)@ == old(self)@,
            old(self)@.len() > 0 ==> r == Some(old(self)@.last()) && final(self)@ == old(
                self,
            )@.drop_last(),
    {
        self.elements.pop()
    }

    /// The element at `index`, or `None` when the index is not in bounds
    /// (absence is a normal outcome, not an error).
    pub fn get(&self, index: u64) -> (r: Option<&T>)
        ensures
            index < self@.len() ==> r is Some && *r.unwrap() == self@[index as int],
            index >= self@.len() ==> r is None,
    {
        if index < self.elements.len() as u64 {
            Some(&self.elements[index as usize])
        } else {
            None
        }
    }

    /// Mutable access to the element at `index`, or `None` when the index is
    /// not in bounds; only that element may change through the reference.
    pub fn get_mut(&mut self, index: u64) -> (r: Option<&mut T>)
        ensures
            index >= old(self)@.len() ==> r is None && final(self)@ == old(self)@,
            index < old(self)@.len() ==> r is Some && *r.unwrap() == old(self)@[index as int]
                && final(self)@ == old(self)@.update(index as int, *final(r.unwrap())),
    {
        if index < self.elements.len() as u64 {
            Some(&mut self.elements[index as usize])
        } else {
            None
        }
    }

    /// Overwrite the element at `index`, failing with an out-of-bounds error
    /// (and leaving the sequence unchanged) when `index >= length`.
    pub fn set(&mut self, index: u64, value: T) -> (r: Result<(), IndexOutOfBounds>)
        ensures
            index < old(self)@.len() ==> r is Ok && final(self)@ == old(self)@.update(
                index as int,
                value,
            ),
            index >= old(self)@.len() ==> r == Err::<(), IndexOutOfBounds>(
                IndexOutOfBounds { index, len: old(self)@.len() as u64 },
            ) && final(self)@ == old(self)@,
    {
        let len = self.elements.len();
        if index < len as u64 {
            self.elements[index as usize] = value;
            Ok(())
        } else {
            Err(IndexOutOfBounds { index, len: len as u64 })
        }
    }

    /// Exchange the elements at `i` and `j`, failing with an out-of-bounds
    /// error naming the offending index (and leaving the sequence unchanged)
    /// when either index is not in bounds.
    pub fn swap(&mut self, i: u64, j: u64) -> (r: Result<(), IndexOutOfBounds>)
        ensures
            i < old(self)@.len() && j < old(self)@.len() ==> r is Ok && final(self)@ == old(
                self,
            )@.update(i as int, old(self)@[j as int]).update(j as int, old(self)@[i as int]),
            i >= old(self)@.len() ==> r == Err::<(), IndexOutOfBounds>(
                IndexOutOfBounds { index: i, len: old(self)@.len() as u64 },
            ) && final(self)@ == old(self)@,
            i < old(self)@.len() && j >= old(self)@.len() ==> r == Err::<(), IndexOutOfBounds>(
                IndexOutOfBounds { index: j, len: old(self)@.len() as u64 },
            ) && final(self)@ == old(self)@,
    {
        let len = self.elements.len();
        if i >= len as u64 {
            return Err(IndexOutOfBounds { index: i, len: len as u64 });
        }
        if j >= len as u64 {
            return Err(IndexOutOfBounds { index: j, len: len as u64 });
        }
        exchange(&mut self.elements, i as usize, j as usize);
        Ok(())
    }

    /// Remove and return the element at `index`, shifting every later
    /// element one slot toward the start; fails with an out-of-bounds error
    /// (and leaves the sequence unchanged) when `index >= length`.
    pub fn remove(&mut self, index: u64) -> (r: Result<T, IndexOutOfBounds>)
        ensures
            index < old(self)@.len() ==> r == Ok::<T, IndexOutOfBounds>(
                old(self)@[index as int],
            ) && final(self)@ == old(self)@.remove(index as int),
            index >= old(self)@.len() ==> r == Err::<T, IndexOutOfBounds>(
                IndexOutOfBounds { index, len: old(self)@.len() as u64 },
            ) && final(self)@ == old(self)@,
    {
        let len = self.elements.len();
        if index < len as u64 {
            Ok(self.elements.remove(index as usize))
        } else {
            Err(IndexOutOfBounds { index, len: len as u64 })
        }
    }

    /// Place `value` at `index`, shifting the elements at and after `index`
    /// one slot toward the end; inserting at `length` appends. Fails with an
    /// out-of-bounds error (and leaves the sequence unchanged) when
    /// `index > length`.
    pub fn insert(&mut self, index: u64, value: T) -> (r: Result<(), IndexOutOfBounds>)
        ensures
            index <= old(self)@.len() ==> r is Ok && final(self)@ == old(self)@.insert(
                index as int,
                value,
            ),
            index > old(self)@.len() ==> r == Err::<(), IndexOutOfBounds>(
                IndexOutOfBounds { index, len: old(self)@.len() as u64 },
            ) && final(self)@ == old(self)@,
    {
        let len = self.elements.len();
        if index <= len as u64 {
            self.elements.insert(index as usize, value);
            Ok(())
        } else {
            Err(IndexOutOfBounds { index, len: len as u64 })
        }
    }

    /// Remove every element; the length becomes zero (capacity may be kept).
    pub fn clear(&mut self)
        ensures
            final(self)@ == Seq::<T>::empty(),
    {
        self.elements.clear();
    }

    /// Whether some element equals `value`, under the element type's
    /// equality comparison.
    pub fn contains(&self, value: &T) -> (r: bool) where T: PartialEq
        ensures
            T::obeys_eq_spec() ==> (r <==> exists|k: int|
                0 <= k < self@.len() && #[trigger] self@[k].eq_spec(value)),
    {
        let n = self.elements.len();
        let mut k: usize = 0;
        while k < n
            invariant
                k <= n,
                n == self@.len(),
                T::obeys_eq_spec() ==> forall|j: int| 0 <= j < k ==> !(#[trigger] self@[
                    j
                ].eq_spec(value)),
            decreases n - k,
        {
            let elem = &self.elements[k];
            if *elem == *value {
                return true;
            }
            k = k + 1;
        }
        false
    }

    /// Reverse the order of the elements in place; the length is unchanged.
    pub fn reverse(&mut self)
        ensures
            final(self)@ == old(self)@.reverse(),
            final(self)@.len() == old(self)@.len(),
    {
        let ghost len = self.elements@.len() as int;
        let mut i: usize = 0;
        let mut j: usize = self.elements.len();
        while j - i > 1
            invariant
                0 <= i,
                i <= j <= self@.len(),
                i + j == len,
                self@.len() == len,
                old(self)@.len() == len,
                forall|k: int| 0 <= k < i ==> self@[k] == old(self)@[len - 1 - k],
                forall|k: int| j <= k < len ==> self@[k] == old(self)@[len - 1 - k],
                forall|k: int| i <= k < j ==> self@[k] == old(self)@[k],
            decreases j - i,
        {
            j = j - 1;
            exchange(&mut self.elements, i, j);
            i = i + 1;
        }
        proof {
            assert(final(self)@ =~= old(self)@.reverse());
        }
    }

    /// A forward iterator over references to the elements in index order.
    pub fn iter(&self) -> (r: std::slice::Iter<'_, T>)
        ensures
            r.remaining() == self@.as_ref(),
    {
        let s = self.elements.as_slice();
        proof {
            vstd::std_specs::slice::axiom_spec_slice_iter(s);
        }
        s.iter()
    }

    /// Give up the sequence and hand out the elements as a plain vector, in
    /// index order.
    pub fn into_inner(self) -> (r: Vec<T>)
        ensures
            r@ == self@,
    {
        self.elements
    }

    /// Build a sequence from a plain vector, keeping the given order.
    pub fn from_vec(vec: Vec<T>) -> (r: Self)
        ensures
            r@ == vec@,
    {
        Self { elements: vec }
    }
}

impl<T> Default for Vector<T> {
    /// The empty sequence.
    fn default() -> (r: Self)
        ensures
            r@ == Seq::<T>::empty(),
    {
        Self::new()
    }
}

/// Inserting a value at any valid index and then removing it at the same
/// index is a no-op on the sequence's observable contents.
pub proof fn lemma_insert_then_remove_is_noop<T>(s: Seq<T>, index: int, value: T)
    requires
        0 <= index <= s.len(),
    ensures
        s.insert(index, value).remove(index) == s,
{
    assert(s.insert(index, value).remove(index) =~= s);
}

/// Reversing a sequence twice restores the original element order.
pub proof fn lemma_reverse_twice_is_identity<T>(s: Seq<T>)
    ensures
        s.reverse().reverse() == s,
{
    assert(s.reverse().reverse() =~= s);
}

} // verus!
