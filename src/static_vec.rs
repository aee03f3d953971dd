//! A sequence with a capacity fixed by its type: it holds at most `N`
//! elements and refuses to grow past that.
use vstd::prelude::*;
use crate::utils::{lex_cmp, partial_compare, reverse_copy};
use core::cmp::Ordering;
use vstd::std_specs::cmp::PartialOrdSpec;

verus! {

/// Why an insertion or a removal was refused.
#[derive(PartialEq, Eq, Structural, Debug, Clone, Copy)]
pub enum ErrorKind {
    /// The sequence already holds `N` elements.
    Capacity,
    /// The index lies outside the live elements.
    Index,
}

/// What a checked push leaves behind: the value appended when there is room,
/// else the sequence as it was.
pub open spec fn pushed<T>(s: Seq<T>, cap: nat, v: T) -> Seq<T> {
    if s.len() < cap {
        s.push(v)
    } else {
        s
    }
}

/// The result of pushing each of `vs` in turn.
pub open spec fn pushed_all<T>(s: Seq<T>, cap: nat, vs: Seq<T>) -> Seq<T>
    decreases vs.len(),
{
    if vs.len() == 0 {
        s
    } else {
        pushed_all(pushed(s, cap, vs[0]), cap, vs.drop_first())
    }
}

/// What `truncate` leaves: the first `n` elements, or all of them when there
/// are no more than `n`.
pub open spec fn truncated<T>(s: Seq<T>, n: nat) -> Seq<T> {
    if n < s.len() {
        s.take(n as int)
    } else {
        s
    }
}

/// Pushing values one at a time into a sequence with room for all of them
/// appends them in push order, and the length grows by their number.
pub proof fn lemma_pushes_keep_order<T>(s: Seq<T>, cap: nat, vs: Seq<T>)
    requires
        s.len() + vs.len() <= cap,
    ensures
        pushed_all(s, cap, vs) == s + vs,
        pushed_all(s, cap, vs).len() == s.len() + vs.len(),
    decreases vs.len(),
{
    if vs.len() == 0 {
        assert(s + vs =~= s);
    } else {
        lemma_pushes_keep_order(s.push(vs[0]), cap, vs.drop_first());
        assert(s.push(vs[0]) + vs.drop_first() =~= s + vs);
    }
}

/// A push that succeeds, followed by a pop, gives back the pushed value and
/// leaves the sequence, and so its length, as before.
pub proof fn lemma_push_then_pop<T>(s: Seq<T>, cap: nat, v: T)
    requires
        s.len() < cap,
    ensures
        pushed(s, cap, v).len() > 0,
        pushed(s, cap, v).last() == v,
        pushed(s, cap, v).drop_last() == s,
{
    assert(s.push(v).drop_last() =~= s);
}

/// A push into a full sequence changes nothing: the length stays at the
/// capacity.
pub proof fn lemma_push_when_full<T>(s: Seq<T>, cap: nat, v: T)
    requires
        s.len() == cap,
    ensures
        pushed(s, cap, v) == s,
        pushed(s, cap, v).len() == cap,
{
}

/// Inserting `v` at `i` and then removing at `i` gives back `v` and the
/// sequence as it was.
pub proof fn lemma_insert_then_remove<T>(s: Seq<T>, i: int, v: T)
    requires
        0 <= i <= s.len(),
    ensures
        s.insert(i, v)[i] == v,
        s.insert(i, v).remove(i) == s,
{
    assert(s.insert(i, v).remove(i) =~= s);
}

/// A sequence of at most `N` live elements. Room for all `N` is reserved when
/// the sequence is made, so it never reallocates. Its view is the sequence of
/// live elements in index order.
pub struct StaticVec<T, const N: usize> {
    data: Vec<T>,
}

impl<T, const N: usize> View for StaticVec<T, N> {
    type V = Seq<T>;

    closed spec fn view(&self) -> Seq<T> {
        self.data@
    }
}

impl<T, const N: usize> StaticVec<T, N> {
    /// The live elements never outnumber the capacity.
    pub open spec fn wf(&self) -> bool {
        self@.len() <= N
    }

    /// An empty sequence.
    pub fn new() -> (r: Self)
        ensures
            r.wf(),
            r@ == Seq::<T>::empty(),
    {
        StaticVec { data: Vec::with_capacity(N) }
    }

    /// A sequence holding the first `N` elements of `values`, or all of them
    /// when there are fewer.
    pub fn from_vec(values: Vec<T>) -> (r: Self)
        ensures
            r.wf(),
            r@ == truncated(values@, N as nat),
    {
        let mut data: Vec<T> = Vec::with_capacity(N);
        let mut rest = values;
        rest.truncate(N);
        data.append(&mut rest);
        StaticVec { data }
    }

    /// A full sequence whose slots are filled, in index order, by `N` calls
    /// of `generator`.
    pub fn filled_with<F: Fn() -> T>(generator: F) -> (r: Self)
        requires
            generator.requires(()),
        ensures
            r.wf(),
            r@.len() == N,
            forall|i: int| 0 <= i < N ==> generator.ensures((), #[trigger] r@[i]),
    {
        let mut data: Vec<T> = Vec::with_capacity(N);
        let mut i: usize = 0;
        while i < N
            invariant
                i <= N,
                data@.len() == i,
                generator.requires(()),
                forall|k: int| 0 <= k < i ==> generator.ensures((), #[trigger] data@[k]),
            decreases N - i,
        {
            data.push(generator());
            i += 1;
        }
        StaticVec { data }
    }

    /// The fixed capacity `N`.
    pub fn capacity(&self) -> (r: usize)
        ensures
            r == N,
    {
        N
    }

    /// The number of live elements.
    pub fn len(&self) -> (r: usize)
        ensures
            r == self@.len(),
    {
        self.data.len()
    }

    pub fn is_empty(&self) -> (r: bool)
        ensures
            r == (self@.len() == 0),
    {
        self.data.len() == 0
    }

    pub fn is_full(&self) -> (r: bool)
        requires
            self.wf(),
        ensures
            r == (self@.len() == N),
    {
        self.data.len() == N
    }

    /// The number of free slots.
    pub fn remaining_capacity(&self) -> (r: usize)
        requires
            self.wf(),
        ensures
            r == N - self@.len(),
    {
        N - self.data.len()
    }

    /// Appends `value` when there is room; otherwise hands it back with a
    /// capacity error and leaves the sequence as it was.
    pub fn push(&mut self, value: T) -> (r: Result<(), (ErrorKind, T)>)
        requires
            old(self).wf(),
        ensures
            final(self).wf(),
            final(self)@ == pushed(old(self)@, N as nat, value),
            r is Ok <==> old(self)@.len() < N,
            r is Err ==> r == Err::<(), (ErrorKind, T)>((ErrorKind::Capacity, value)),
    {
        if self.data.len() < N {
            self.data.push(value);
            Ok(())
        } else {
            Err((ErrorKind::Capacity, value))
        }
    }

    /// Appends `value`; the caller guarantees that there is room.
    pub fn push_unchecked(&mut self, value: T)
        requires
            old(self).wf(),
            old(self)@.len() < N,
        ensures
            final(self).wf(),
            final(self)@ == old(self)@.push(value),
    {
        self.data.push(value);
    }

    /// Removes and returns the last element, or `None` when empty.
    pub fn pop(&mut self) -> (r: Option<T>)
        requires
            old(self).wf(),
        ensures
            final(self).wf(),
            old(self)@.len() == 0 ==> r is None && final(self)@ == old(self)@,
            old(self)@.len() > 0 ==> r == Some(old(self)@.last()) && final(self)@
                == old(self)@.drop_last(),
    {
        self.data.pop()
    }

    /// Inserts `value` at `index`, moving the elements from `index` on one
    /// slot toward the end. An index past the end is refused first, then a
    /// full sequence; either way the value comes back and nothing changes.
    pub fn insert(&mut self, index: usize, value: T) -> (r: Result<(), (ErrorKind, T)>)
        requires
            old(self).wf(),
        ensures
            final(self).wf(),
            index > old(self)@.len() ==> r == Err::<(), (ErrorKind, T)>((ErrorKind::Index, value)),
            index <= old(self)@.len() && old(self)@.len() == N ==> r == Err::<(), (ErrorKind, T)>(
                (ErrorKind::Capacity, value),
            ),
            r is Ok <==> index <= old(self)@.len() && old(self)@.len() < N,
            r is Ok ==> final(self)@ == old(self)@.insert(index as int, value),
            r is Err ==> final(self)@ == old(self)@,
    {
        if index > self.data.len() {
            Err((ErrorKind::Index, value))
        } else if self.data.len() == N {
            Err((ErrorKind::Capacity, value))
        } else {
            self.data.insert(index, value);
            Ok(())
        }
    }

    /// Removes and returns the element at `index`, moving the later elements
    /// one slot toward the start.
    pub fn remove(&mut self, index: usize) -> (r: Result<T, ErrorKind>)
        requires
            old(self).wf(),
        ensures
            final(self).wf(),
            index >= old(self)@.len() ==> r == Err::<T, ErrorKind>(ErrorKind::Index) && final(self)@
                == old(self)@,
            index < old(self)@.len() ==> r == Ok::<T, ErrorKind>(old(self)@[index as int])
                && final(self)@ == old(self)@.remove(index as int),
    {
        if index >= self.data.len() {
            Err(ErrorKind::Index)
        } else {
            Ok(self.data.remove(index))
        }
    }

    /// Removes and returns the element at `index`, moving the last element
    /// into its slot.
    pub fn swap_remove(&mut self, index: usize) -> (r: Result<T, ErrorKind>)
        requires
            old(self).wf(),
        ensures
            final(self).wf(),
            index >= old(self)@.len() ==> r == Err::<T, ErrorKind>(ErrorKind::Index) && final(self)@
                == old(self)@,
            index < old(self)@.len() ==> r == Ok::<T, ErrorKind>(old(self)@[index as int])
                && final(self)@ == old(self)@.update(index as int, old(self)@.last()).drop_last(),
    {
        if index >= self.data.len() {
            Err(ErrorKind::Index)
        } else {
            Ok(self.data.swap_remove(index))
        }
    }

    /// Drops the elements from `new_length` on, if there are any.
    pub fn truncate(&mut self, new_length: usize)
        requires
            old(self).wf(),
        ensures
            final(self).wf(),
            final(self)@ == truncated(old(self)@, new_length as nat),
    {
        self.data.truncate(new_length);
    }

    /// Drops every element.
    pub fn clear(&mut self)
        requires
            old(self).wf(),
        ensures
            final(self).wf(),
            final(self)@ == Seq::<T>::empty(),
    {
        self.data.clear();
    }

    /// The element at `index`, if it is live.
    pub fn get(&self, index: usize) -> (r: Option<&T>)
        ensures
            index < self@.len() ==> r == Some(&self@[index as int]),
            index >= self@.len() ==> r is None,
    {
        if index < self.data.len() {
            Some(&self.data[index])
        } else {
            None
        }
    }

    /// The live elements as a slice.
    pub fn as_slice(&self) -> (r: &[T])
        ensures
            r@ == self@,
    {
        self.data.as_slice()
    }

    /// Gives up the live elements, in index order.
    pub fn into_vec(self) -> (r: Vec<T>)
        ensures
            r@ == self@,
    {
        self.data
    }
}

impl<T: Copy, const N: usize> StaticVec<T, N> {
    /// Appends elements of `other` in order until the sequence is full; the
    /// rest of `other` is left out. Returns how many were taken.
    pub fn extend_from_slice(&mut self, other: &[T]) -> (r: usize)
        requires
            old(self).wf(),
        ensures
            final(self).wf(),
            r == if other@.len() <= N - old(self)@.len() {
                other@.len() as int
            } else {
                N - old(self)@.len()
            },
            final(self)@ == old(self)@ + other@.take(r as int),
    {
        let mut i: usize = 0;
        while i < other.len() && self.data.len() < N
            invariant
                self@.len() <= N,
                i <= other@.len(),
                self@.len() == old(self)@.len() + i,
                self@ == old(self)@ + other@.take(i as int),
            decreases other@.len() - i,
        {
            self.data.push(other[i]);
            assert(other@.take(i + 1) =~= other@.take(i as int).push(other@[i as int]));
            i += 1;
        }
        i
    }

    /// Exchanges the elements at `a` and `b`.
    pub fn swap(&mut self, a: usize, b: usize)
        requires
            old(self).wf(),
            a < old(self)@.len(),
            b < old(self)@.len(),
        ensures
            final(self).wf(),
            final(self)@ == old(self)@.update(a as int, old(self)@[b as int]).update(
                b as int,
                old(self)@[a as int],
            ),
    {
        let x = self.data[a];
        let y = self.data[b];
        self.data.set(a, y);
        self.data.set(b, x);
    }

    /// A new sequence holding the elements in reverse order; `self` is left
    /// as it is.
    pub fn reversed(&self) -> (r: Self)
        requires
            self.wf(),
        ensures
            r.wf(),
            r@ == self@.reverse(),
    {
        let data = reverse_copy(self.data.len(), self.data.as_slice());
        assert(self@.take(self@.len() as int) =~= self@);
        StaticVec { data }
    }
}

impl<T: PartialOrd, const N: usize> StaticVec<T, N> {
    /// Lexicographic comparison with a sequence of any capacity, over the
    /// live elements only.
    pub fn partial_cmp_with<const M: usize>(&self, other: &StaticVec<T, M>) -> (r: Option<
        Ordering,
    >)
        requires
            T::obeys_partial_cmp_spec(),
        ensures
            r == lex_cmp(self@, other@),
    {
        partial_compare(self.data.as_slice(), other.data.as_slice())
    }
}

} // verus!
