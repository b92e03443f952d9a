//! In-place heap sort by a `u32` key: iterative, without further memory.

use vstd::prelude::*;
use vstd::seq_lib::to_multiset_remove;

verus! {

/// An element with a `u32` key.
pub trait U32Key: Sized {
    /// The key.
    spec fn key(&self) -> u32;

    /// The key.
    fn u32_key(&self) -> (r: u32)
        ensures
            r == self.key(),
    ;
}

impl U32Key for u32 {
    open spec fn key(&self) -> u32 {
        *self
    }

    fn u32_key(&self) -> (r: u32) {
        *self
    }
}

impl<V> U32Key for (u32, V) {
    open spec fn key(&self) -> u32 {
        self.0
    }

    fn u32_key(&self) -> (r: u32) {
        self.0
    }
}

/// The keys of `s` ascend.
pub open spec fn ascending<T: U32Key>(s: Seq<T>) -> bool {
    forall|i: int, j: int| 0 <= i <= j < s.len() ==> #[trigger] s[i].key() <= #[trigger] s[j].key()
}

/// `s` with the elements at `i` and `j` swapped.
pub open spec fn swapped<T>(s: Seq<T>, i: int, j: int) -> Seq<T> {
    s.update(i, s[j]).update(j, s[i])
}

/// No element from `p` on that has children among the first `n` has a
/// smaller key than one of them.
spec fn heap_from<T: U32Key>(s: Seq<T>, p: int, n: int) -> bool {
    forall|a: int| p <= a ==> #[trigger] heap_at(s, a, n)
}

/// The element at `a` has no smaller key than its children.
spec fn heap_at<T: U32Key>(s: Seq<T>, a: int, n: int) -> bool {
    &&& 2 * a + 1 < n ==> s[a].key() >= s[2 * a + 1].key()
    &&& 2 * a + 2 < n ==> s[a].key() >= s[2 * a + 2].key()
}

/// No key among the first `n` is above `k`.
spec fn below<T: U32Key>(s: Seq<T>, n: int, k: u32) -> bool {
    forall|a: int| 0 <= a < n ==> (#[trigger] s[a]).key() <= k
}

/// Putting `a` at `i` takes out what was there and adds `a`.
proof fn lemma_update_multiset<T>(s: Seq<T>, i: int, a: T)
    requires
        0 <= i < s.len(),
    ensures
        s.update(i, a).to_multiset() == s.to_multiset().remove(s[i]).insert(a),
{
    broadcast use vstd::seq_lib::group_to_multiset_ensures;

    let t = s.update(i, a);
    assert(t.remove(i) =~= s.remove(i));
    to_multiset_remove(t, i);
    to_multiset_remove(s, i);
    assert(t.contains(t[i]));
    assert(t.to_multiset().count(a) > 0);
    assert(t.to_multiset() =~= t.to_multiset().remove(a).insert(a));
}

/// A swap changes only the order.
pub proof fn lemma_swap_multiset<T>(s: Seq<T>, i: int, j: int)
    requires
        0 <= i < s.len(),
        0 <= j < s.len(),
    ensures
        swapped(s, i, j).to_multiset() == s.to_multiset(),
{
    broadcast use vstd::seq_lib::group_to_multiset_ensures;

    if i == j {
        assert(swapped(s, i, j) =~= s);
    } else {
        let u = s.update(i, s[j]);
        lemma_update_multiset(s, i, s[j]);
        lemma_update_multiset(u, j, s[i]);
        assert(s.contains(s[i]));
        assert(s.contains(s[j]));
        assert(swapped(s, i, j).to_multiset() =~= s.to_multiset());
    }
}

/// Swaps two elements.
pub fn swap_at<T>(s: &mut [T], i: usize, j: usize)
    requires
        i < j < old(s)@.len(),
    ensures
        final(s)@ == swapped(old(s)@, i as int, j as int),
{
    let (left, right) = s.split_at_mut(j);
    core::mem::swap(&mut left[i], &mut right[0]);
    assert(final(s)@ =~= swapped(old(s)@, i as int, j as int));
}

/// Lets the element at `start` sink until no child of it has a larger key, in
/// a heap of the first `n` elements.
fn sift_down<T: U32Key>(s: &mut [T], start: usize, n: usize)
    requires
        n <= old(s)@.len(),
        heap_from(old(s)@, start + 1, n as int),
    ensures
        final(s)@.len() == old(s)@.len(),
        final(s)@.to_multiset() == old(s)@.to_multiset(),
        heap_from(final(s)@, start as int, n as int),
        forall|a: int| n <= a < old(s)@.len() ==> #[trigger] final(s)@[a] == old(s)@[a],
        forall|k: u32| below(old(s)@, n as int, k) ==> #[trigger] below(final(s)@, n as int, k),
{
    let mut i: usize = start;
    while i < n / 2
        invariant
            start <= i,
            n <= s@.len(),
            s@.len() == old(s)@.len(),
            s@.to_multiset() == old(s)@.to_multiset(),
            forall|a: int| start <= a && a != i ==> #[trigger] heap_at(s@, a, n as int),
            i > start ==> (i - 1) / 2 >= start,
            i > start && 2 * i + 1 < n ==> s@[(i - 1) / 2].key() >= s@[2 * i + 1].key(),
            i > start && 2 * i + 2 < n ==> s@[(i - 1) / 2].key() >= s@[2 * i + 2].key(),
            forall|a: int| n <= a < s@.len() ==> #[trigger] s@[a] == old(s)@[a],
            forall|k: u32| below(old(s)@, n as int, k) ==> #[trigger] below(s@, n as int, k),
        ensures
            heap_at(s@, i as int, n as int),
        decreases n - i,
    {
        let left: usize = 2 * i + 1;
        let right: usize = left + 1;
        let mut max: usize = left;
        if right < n && s[right].u32_key() > s[left].u32_key() {
            max = right;
        }
        if s[i].u32_key() >= s[max].u32_key() {
            break;
        }
        let ghost before = s@;
        swap_at(s, i, max);
        proof {
            lemma_swap_multiset(before, i as int, max as int);
            assert(heap_at(before, max as int, n as int));
            assert forall|a: int| start <= a && a != max implies #[trigger] heap_at(
                s@,
                a,
                n as int,
            ) by {
                if a != i {
                    assert(heap_at(before, a, n as int));
                }
            }
            assert forall|k: u32| below(old(s)@, n as int, k) implies #[trigger] below(
                s@,
                n as int,
                k,
            ) by {
                assert(below(before, n as int, k));
                assert(before[i as int].key() <= k && before[max as int].key() <= k);
            }
        }
        i = max;
    }
}

/// Every element of a heap is at most its root.
proof fn lemma_root_is_max<T: U32Key>(s: Seq<T>, n: int, a: int)
    requires
        heap_from(s, 0, n),
        0 <= a < n <= s.len(),
    ensures
        s[a].key() <= s[0].key(),
    decreases a,
{
    if a > 0 {
        let p = (a - 1) / 2;
        assert(heap_at(s, p, n));
        lemma_root_is_max(s, n, p);
    }
}

/// Sorts `slice` by key, ascending. The order of equal keys is open.
pub fn sort_by_u32_key<T: U32Key>(slice: &mut [T])
    ensures
        final(slice)@.len() == old(slice)@.len(),
        final(slice)@.to_multiset() == old(slice)@.to_multiset(),
        ascending(final(slice)@),
{
    let len: usize = slice.len();
    let mut i: usize = len / 2;
    while i > 0
        invariant
            i <= len / 2,
            len == slice@.len(),
            slice@.len() == old(slice)@.len(),
            slice@.to_multiset() == old(slice)@.to_multiset(),
            heap_from(slice@, i as int, len as int),
        decreases i,
    {
        i = i - 1;
        sift_down(slice, i, len);
    }
    let mut n: usize = len;
    while n > 1
        invariant
            n <= len,
            len == slice@.len(),
            slice@.len() == old(slice)@.len(),
            slice@.to_multiset() == old(slice)@.to_multiset(),
            heap_from(slice@, 0, n as int),
            forall|a: int, b: int|
                n <= a <= b < len ==> #[trigger] slice@[a].key() <= #[trigger] slice@[b].key(),
            forall|b: int| n <= b < len ==> below(slice@, n as int, (#[trigger] slice@[b]).key()),
        decreases n,
    {
        n = n - 1;
        let ghost before = slice@;
        swap_at(slice, 0, n);
        let ghost mid = slice@;
        proof {
            lemma_swap_multiset(before, 0, n as int);
            assert forall|a: int| 1 <= a implies #[trigger] heap_at(mid, a, n as int) by {
                assert(heap_at(before, a, n + 1));
            }
            assert forall|a: int| 0 <= a < n implies (#[trigger] mid[a]).key() <= mid[n as int].key() by {
                if a == 0 {
                    lemma_root_is_max(before, n + 1, n as int);
                } else {
                    lemma_root_is_max(before, n + 1, a);
                }
            }
            assert(below(mid, n as int, mid[n as int].key()));
            assert forall|b: int| n <= b < len implies below(
                mid,
                n as int,
                (#[trigger] mid[b]).key(),
            ) by {
                if b > n {
                    assert(below(before, n + 1, before[b].key()));
                    assert(before[n as int].key() <= before[b].key());
                    assert(before[0].key() <= before[b].key());
                }
            }
        }
        sift_down(slice, 0, n);
        proof {
            assert forall|b: int| n <= b < len implies below(
                slice@,
                n as int,
                (#[trigger] slice@[b]).key(),
            ) by {
                assert(slice@[b] == mid[b]);
                assert(below(mid, n as int, mid[b].key()));
            }
            assert forall|a: int, b: int| n <= a <= b < len implies #[trigger] slice@[a].key()
                <= #[trigger] slice@[b].key() by {
                assert(slice@[a] == mid[a] && slice@[b] == mid[b]);
                if a > n {
                    assert(before[a].key() <= before[b].key());
                } else if b > n {
                    assert(below(before, n + 1, before[b].key()));
                    assert(before[0].key() <= before[b].key());
                }
            }
        }
    }
    proof {
        assert forall|a: int, b: int| 0 <= a <= b < len implies #[trigger] slice@[a].key()
            <= #[trigger] slice@[b].key() by {
            if a == 0 && 0 < b {
                assert(below(slice@, n as int, slice@[b].key()) || n == 0);
            }
        }
    }
}

} // verus!
