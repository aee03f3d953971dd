//! A binary max-heap of totally ordered keys stored in a fixed-capacity sequence,
//! read as a complete binary tree in array order.
use vstd::prelude::*;
use vstd::seq_lib::group_to_multiset_ensures;
use vstd::multiset::{group_multiset_properties, Multiset};
use vstd::std_specs::cmp::OrdSpec;
use core::cmp::Ordering;
use crate::static_vec::{ErrorKind, StaticVec};

verus! {

broadcast use {group_to_multiset_ensures, group_multiset_properties};

/// The slot of the parent of slot `i > 0`.
pub open spec fn parent(i: int) -> int {
    (i - 1) / 2
}

/// `a` does not exceed `b` in the keys' order.
pub open spec fn le<T: Ord>(a: T, b: T) -> bool {
    a.cmp_spec(&b) != Ordering::Greater
}

/// The keys' `cmp` is a total order: what it returns is given by `cmp_spec`,
/// swapping the operands swaps `Less` and `Greater`, and `le` is transitive.
pub open spec fn total_order<T: Ord>() -> bool {
    &&& T::obeys_cmp_spec()
    &&& forall|a: T, b: T|
        (#[trigger] a.cmp_spec(&b) == Ordering::Less) <==> (b.cmp_spec(&a) == Ordering::Greater)
    &&& forall|a: T, b: T, c: T| #[trigger] le(a, b) && #[trigger] le(b, c) ==> le(a, c)
}

/// Integer keys are totally ordered.
pub proof fn lemma_u64_total_order()
    ensures
        total_order::<u64>(),
{
}

/// Max-heap order: no element exceeds its parent.
pub open spec fn is_max_heap<T: Ord>(s: Seq<T>) -> bool {
    forall|i: int| 0 < i < s.len() ==> #[trigger] le(s[i], s[parent(i)])
}

/// `x` is one of the keys of `m` and no key of `m` exceeds it.
pub open spec fn is_max_of<T: Ord>(m: Multiset<T>, x: T) -> bool {
    m.contains(x) && forall|y: T| #[trigger] m.contains(y) ==> le(y, x)
}

/// Keys in non-increasing order.
pub open spec fn is_descending<T: Ord>(s: Seq<T>) -> bool {
    forall|i: int, j: int| 0 <= i < j < s.len() ==> #[trigger] le(s[j], s[i])
}

/// In a max-heap the root is at least as large as every element.
pub proof fn lemma_root_is_max<T: Ord>(s: Seq<T>, i: int)
    requires
        total_order::<T>(),
        is_max_heap(s),
        0 <= i < s.len(),
    ensures
        le(s[i], s[0]),
    decreases i,
{
    if i > 0 {
        lemma_root_is_max(s, parent(i));
        assert(le(s[i], s[parent(i)]));
    } else {
        assert(s[0].cmp_spec(&s[0]) != Ordering::Less);
    }
}

/// The root of a non-empty max-heap is the maximum of its keys.
pub proof fn lemma_root_is_max_of<T: Ord>(s: Seq<T>)
    requires
        total_order::<T>(),
        is_max_heap(s),
        s.len() > 0,
    ensures
        is_max_of(s.to_multiset(), s[0]),
{
    assert(s.contains(s[0]));
    assert forall|y: T| #[trigger] s.to_multiset().contains(y) implies le(y, s[0]) by {
        assert(s.contains(y));
        let i = choose|i: int| 0 <= i < s.len() && s[i] == y;
        lemma_root_is_max(s, i);
    }
}

proof fn lemma_swap_keeps_keys<T>(s: Seq<T>, a: int, b: int)
    requires
        0 <= a < s.len(),
        0 <= b < s.len(),
    ensures
        s.update(a, s[b]).update(b, s[a]).to_multiset() == s.to_multiset(),
{
    let t = s.update(a, s[b]);
    assert(t.to_multiset() == s.to_multiset().insert(s[b]).remove(s[a]));
    assert(t.update(b, s[a]).to_multiset() == t.to_multiset().insert(s[a]).remove(t[b]));
    if a == b {
        assert(t.update(b, s[a]) =~= s);
    } else {
        assert(t[b] == s[b]);
        assert(t.to_multiset().insert(s[a]).remove(s[b]) =~= s.to_multiset());
    }
}

/// A max-heap of at most `N` keys. Its view is the multiset of its keys.
pub struct StaticHeap<T, const N: usize> {
    data: StaticVec<T, N>,
}

impl<T, const N: usize> View for StaticHeap<T, N> {
    type V = Multiset<T>;

    open spec fn view(&self) -> Multiset<T> {
        self.slots().to_multiset()
    }
}

impl<T, const N: usize> StaticHeap<T, N> {
    /// The keys in array order.
    pub closed spec fn slots(&self) -> Seq<T> {
        self.data@
    }
}

impl<T: Ord + Copy, const N: usize> StaticHeap<T, N> {
    /// At most `N` keys of a totally ordered type, in max-heap order.
    pub open spec fn wf(&self) -> bool {
        &&& total_order::<T>()
        &&& self.slots().len() <= N
        &&& is_max_heap(self.slots())
    }

    /// An empty heap.
    pub fn new() -> (r: Self)
        requires
            total_order::<T>(),
        ensures
            r.wf(),
            r@ == Multiset::<T>::empty(),
    {
        let r = StaticHeap { data: StaticVec::new() };
        assert(r.slots() =~= Seq::<T>::empty());
        r
    }

    /// The number of keys.
    pub fn len(&self) -> (r: usize)
        ensures
            r == self@.len(),
    {
        self.data.len()
    }

    pub fn is_empty(&self) -> (r: bool)
        ensures
            r == (self@.len() == 0),
    {
        self.data.is_empty()
    }

    /// The fixed capacity `N`.
    pub fn capacity(&self) -> (r: usize)
        ensures
            r == N,
    {
        N
    }

    /// The largest key, or `None` when the heap is empty.
    pub fn peek(&self) -> (r: Option<T>)
        requires
            self.wf(),
        ensures
            self@.len() == 0 ==> r is None,
            self@.len() > 0 ==> (r matches Some(x) && is_max_of(self@, x)),
    {
        if self.data.len() == 0 {
            None
        } else {
            proof {
                lemma_root_is_max_of(self.slots());
            }
            Some(self.data.as_slice()[0])
        }
    }

    /// Adds `value` when there is room, moving it up past every smaller
    /// parent; otherwise hands it back with a capacity error.
    pub fn push(&mut self, value: T) -> (r: Result<(), (ErrorKind, T)>)
        requires
            old(self).wf(),
        ensures
            final(self).wf(),
            r is Ok <==> old(self)@.len() < N,
            r is Ok ==> final(self)@ == old(self)@.insert(value),
            r is Err ==> r == Err::<(), (ErrorKind, T)>((ErrorKind::Capacity, value))
                && final(self)@ == old(self)@,
    {
        if self.data.len() == N {
            return Err((ErrorKind::Capacity, value));
        }
        self.data.push_unchecked(value);
        let n: usize = self.data.len();
        let mut k: usize = n - 1;
        let mut done: bool = false;
        while k > 0 && !done
            invariant
                total_order::<T>(),
                self.data.wf(),
                self.slots().len() == n,
                0 <= k < n,
                self@ == old(self)@.insert(value),
                forall|i: int| 0 < i < n && i != k ==> #[trigger] le(self.slots()[i], self.slots()[parent(i)]),
                k > 0 ==> forall|c: int|
                    0 < c < n && parent(c) == k ==> #[trigger] le(self.slots()[c], self.slots()[parent(k as int)]),
                done && k > 0 ==> le(self.slots()[k as int], self.slots()[parent(k as int)]),
            decreases k + if done { 0int } else { 1int },
        {
            let p: usize = (k - 1) / 2;
            let sk = self.data.as_slice()[k];
            let sp = self.data.as_slice()[p];
            match sk.cmp(&sp) {
                Ordering::Greater => {
                    let ghost s = self.slots();
                    assert(le(sp, sk)) by {
                        assert(sp.cmp_spec(&sk) == Ordering::Less);
                    }
                    proof {
                        lemma_swap_keeps_keys(s, k as int, p as int);
                    }
                    self.data.swap(k, p);
                    let ghost t = self.slots();
                    assert forall|i: int| 0 < i < n && i != p implies #[trigger] le(t[i], t[parent(i)]) by {
                        if i == k {
                        } else if parent(i) == k {
                            assert(le(s[i], s[parent(k as int)]));
                        } else if parent(i) == p {
                            assert(le(s[i], s[p as int]));
                            assert(le(s[i], sk));
                        } else {
                            assert(le(s[i], s[parent(i)]));
                        }
                    }
                    if p > 0 {
                        assert(le(s[p as int], s[parent(p as int)]));
                        assert forall|c: int| 0 < c < n && parent(c) == p implies #[trigger] le(t[c], t[parent(p as int)]) by {
                            if c != k {
                                assert(le(s[c], s[p as int]));
                            }
                        }
                    }
                    k = p;
                },
                _ => {
                    done = true;
                },
            }
        }
        assert(is_max_heap(self.slots()));
        Ok(())
    }

    /// Removes and returns the largest key, or `None` when the heap is
    /// empty. The last key takes the root's slot and moves down past every
    /// larger child.
    pub fn pop(&mut self) -> (r: Option<T>)
        requires
            old(self).wf(),
        ensures
            final(self).wf(),
            old(self)@.len() == 0 ==> r is None && final(self)@ == old(self)@,
            old(self)@.len() > 0 ==> (r matches Some(x) && is_max_of(old(self)@, x) && final(self)@
                == old(self)@.remove(x)),
    {
        let len = self.data.len();
        if len == 0 {
            return None;
        }
        proof {
            lemma_root_is_max_of(self.slots());
            lemma_swap_keeps_keys(self.slots(), 0, len - 1);
        }
        let ghost s0 = self.slots();
        self.data.swap(0, len - 1);
        let top = match self.data.pop() {
            Some(x) => x,
            None => {
                return None;
            },
        };
        let ghost s1 = self.slots();
        proof {
            let t = s0.update(0, s0[len - 1]).update(len - 1, s0[0]);
            assert(t =~= s1.push(top));
            assert(t.to_multiset() == s1.to_multiset().insert(top));
            assert(self@ =~= old(self)@.remove(top));
        }
        let n: usize = len - 1;
        let mut k: usize = 0;
        let mut done: bool = false;
        while !done
            invariant
                total_order::<T>(),
                self.data.wf(),
                self.slots().len() == n,
                n == 0 || k < n,
                self@ == old(self)@.remove(top),
                forall|i: int| 0 < i < n && parent(i) != k ==> #[trigger] le(self.slots()[i], self.slots()[parent(i)]),
                k > 0 ==> forall|c: int|
                    0 < c < n && parent(c) == k ==> #[trigger] le(self.slots()[c], self.slots()[parent(k as int)]),
                done ==> forall|c: int| 0 < c < n && parent(c) == k ==> #[trigger] le(self.slots()[c], self.slots()[k as int]),
            decreases n - k, if done { 0int } else { 1int },
        {
            if k >= n / 2 {
                done = true;
            } else {
                assert(2 * k + 1 < n);
                let l: usize = 2 * k + 1;
                let mut m: usize = l;
                if l + 1 < n {
                    let a = self.data.as_slice()[l];
                    let b = self.data.as_slice()[l + 1];
                    match a.cmp(&b) {
                        Ordering::Less => {
                            m = l + 1;
                        },
                        _ => {
                            assert(b.cmp_spec(&a) != Ordering::Greater);
                        },
                    }
                }
                let ghost s = self.slots();
                assert(k < m < n);
                assert(forall|c: int| 0 < c < n && parent(c) == k ==> #[trigger] le(s[c], s[m as int]));
                let sm = self.data.as_slice()[m];
                let sk = self.data.as_slice()[k];
                match sm.cmp(&sk) {
                    Ordering::Greater => {
                        assert(le(sk, sm)) by {
                            assert(sk.cmp_spec(&sm) == Ordering::Less);
                        }
                        proof {
                            lemma_swap_keeps_keys(s, k as int, m as int);
                        }
                        self.data.swap(k, m);
                        let ghost t = self.slots();
                        assert forall|i: int| 0 < i < n && parent(i) != m implies #[trigger] le(t[i], t[parent(i)]) by {
                            if i == m {
                            } else if parent(i) == k {
                            } else if i == k {
                            } else {
                            }
                        }
                        assert forall|c: int| 0 < c < n && parent(c) == m implies #[trigger] le(t[c], t[parent(m as int)]) by {
                            assert(le(s[c], s[m as int]));
                        }
                        k = m;
                    },
                    _ => {
                        assert forall|c: int| 0 < c < n && parent(c) == k implies #[trigger] le(s[c], s[k as int]) by {
                            assert(le(s[c], s[m as int]));
                            assert(le(sm, sk));
                        }
                        done = true;
                    },
                }
            }
        }
        assert(is_max_heap(self.slots()));
        Some(top)
    }

    /// A heap holding the elements of `values`.
    pub fn from_staticvec(values: &StaticVec<T, N>) -> (r: Self)
        requires
            total_order::<T>(),
            values.wf(),
        ensures
            r.wf(),
            r@ == values@.to_multiset(),
    {
        let mut heap = StaticHeap::new();
        let src = values.as_slice();
        let mut i: usize = 0;
        while i < src.len()
            invariant
                heap.wf(),
                src@ == values@,
                values@.len() <= N,
                i <= src@.len(),
                heap@ == src@.take(i as int).to_multiset(),
            decreases src@.len() - i,
        {
            assert(src@.take(i + 1) =~= src@.take(i as int).push(src@[i as int]));
            match heap.push(src[i]) {
                Ok(()) => {},
                Err(_) => {
                    assert(false);
                },
            }
            i += 1;
        }
        assert(src@.take(src@.len() as int) =~= src@);
        heap
    }

    /// The keys in non-increasing order, taken out one `pop` at a time.
    pub fn into_sorted_staticvec(self) -> (r: StaticVec<T, N>)
        requires
            self.wf(),
        ensures
            r.wf(),
            is_descending(r@),
            r@.to_multiset() == self@,
    {
        let mut heap = self;
        let mut res: StaticVec<T, N> = StaticVec::new();
        while !heap.is_empty()
            invariant
                heap.wf(),
                res.wf(),
                res@.len() + heap@.len() == self@.len(),
                self@.len() <= N,
                res@.to_multiset().add(heap@) == self@,
                is_descending(res@),
                forall|i: int, y: T| 0 <= i < res@.len() && #[trigger] heap@.contains(y) ==> le(y, #[trigger] res@[i]),
            decreases heap@.len(),
        {
            let ghost rest = heap@;
            match heap.pop() {
                Some(x) => {
                    assert(res@.push(x).to_multiset() == res@.to_multiset().insert(x));
                    assert(res@.to_multiset().insert(x).add(rest.remove(x)) =~= res@.to_multiset().add(rest));
                    assert forall|y: T| #[trigger] heap@.contains(y) implies rest.contains(y) by {
                        assert(heap@.count(y) <= rest.count(y));
                    }
                    res.push_unchecked(x);
                },
                None => {},
            }
        }
        assert(heap@ =~= Multiset::<T>::empty());
        assert(res@.to_multiset().add(heap@) =~= res@.to_multiset());
        res
    }
}

} // verus!
