//! Helpers shared by the containers: index distances, reversal of an
//! initialized prefix and lexicographic comparison.
use vstd::prelude::*;
use core::cmp::Ordering;
use vstd::std_specs::cmp::PartialOrdSpec;
use crate::static_vec::StaticVec;

verus! {

/// Number of slots between `origin` and `dest`, both logical indices into the
/// same storage, where `dest` is not before `origin`.
pub fn distance_between(dest: usize, origin: usize) -> (r: usize)
    requires
        origin <= dest,
    ensures
        r == dest - origin,
{
    dest - origin
}

/// A copy of the first `length` elements of `this`, in reverse order.
pub fn reverse_copy<T: Copy>(length: usize, this: &[T]) -> (r: Vec<T>)
    requires
        length <= this@.len(),
    ensures
        r@ == this@.take(length as int).reverse(),
{
    let mut res: Vec<T> = Vec::with_capacity(length);
    let mut i: usize = length;
    while i > 0
        invariant
            i <= length,
            length <= this@.len(),
            res@.len() == length - i,
            forall|k: int| 0 <= k < res@.len() ==> res@[k] == this@[length - 1 - k],
        decreases i,
    {
        res.push(this[i - 1]);
        i -= 1;
    }
    assert(res@ =~= this@.take(length as int).reverse());
    res
}

/// A full sequence in which every slot holds `value`.
pub fn new_from_value<T: Copy, const COUNT: usize>(value: T) -> (r: StaticVec<T, COUNT>)
    ensures
        r.wf(),
        r@ == Seq::new(COUNT as nat, |_i: int| value),
{
    let mut res: StaticVec<T, COUNT> = StaticVec::new();
    let mut i: usize = 0;
    while i < COUNT
        invariant
            i <= COUNT,
            res.wf(),
            res@ == Seq::new(i as nat, |_i: int| value),
        decreases COUNT - i,
    {
        res.push_unchecked(value);
        assert(res@ =~= Seq::new((i + 1) as nat, |_i: int| value));
        i += 1;
    }
    res
}

/// Three-way comparison of two integers.
pub open spec fn cmp_int(a: int, b: int) -> Ordering {
    if a < b {
        Ordering::Less
    } else if a > b {
        Ordering::Greater
    } else {
        Ordering::Equal
    }
}

/// Lexicographic order of two sequences under the elements' own partial
/// order: the first pair that is not equal decides (and an unordered pair
/// makes the whole result unordered); when one is a prefix of the other the
/// shorter one is less.
pub open spec fn lex_cmp<T: PartialOrd>(a: Seq<T>, b: Seq<T>) -> Option<Ordering>
    decreases a.len(),
{
    if a.len() == 0 || b.len() == 0 {
        Some(cmp_int(a.len() as int, b.len() as int))
    } else if a[0].partial_cmp_spec(&b[0]) != Some(Ordering::Equal) {
        a[0].partial_cmp_spec(&b[0])
    } else {
        lex_cmp(a.drop_first(), b.drop_first())
    }
}

fn compare_lengths(a: usize, b: usize) -> (r: Ordering)
    ensures
        r == cmp_int(a as int, b as int),
{
    if a < b {
        Ordering::Less
    } else if a > b {
        Ordering::Greater
    } else {
        Ordering::Equal
    }
}

/// Lexicographic comparison of two slices that may differ in length.
pub fn partial_compare<T: PartialOrd>(this: &[T], other: &[T]) -> (r: Option<Ordering>)
    requires
        T::obeys_partial_cmp_spec(),
    ensures
        r == lex_cmp(this@, other@),
{
    let min_length: usize = if this.len() < other.len() { this.len() } else { other.len() };
    let mut i: usize = 0;
    assert(this@.skip(0) =~= this@);
    assert(other@.skip(0) =~= other@);
    while i < min_length
        invariant
            i <= min_length,
            T::obeys_partial_cmp_spec(),
            min_length == if this@.len() < other@.len() { this@.len() } else { other@.len() },
            lex_cmp(this@, other@) == lex_cmp(this@.skip(i as int), other@.skip(i as int)),
        decreases min_length - i,
    {
        let c = this[i].partial_cmp(&other[i]);
        assert(c == this@[i as int].partial_cmp_spec(&other@[i as int]));
        assert(this@.skip(i as int)[0] == this@[i as int] && other@.skip(i as int)[0] == other@[i as int]);
        match c {
            Some(Ordering::Equal) => {},
            _ => {
                return c;
            },
        }
        assert(this@.skip(i as int).drop_first() =~= this@.skip(i + 1));
        assert(other@.skip(i as int).drop_first() =~= other@.skip(i + 1));
        i += 1;
    }
    assert(this@.skip(i as int).len() == 0 || other@.skip(i as int).len() == 0);
    Some(compare_lengths(this.len(), other.len()))
}

} // verus!
