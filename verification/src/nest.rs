//! Grouping of numbered items into buckets that lie one behind the other in a
//! single run of elements.

use crate::arena::FSpan;
use vstd::prelude::*;
use vstd::std_specs::iter::IteratorSpec;

verus! {

/// The values of the items that go into bucket `b`, in the order of the items.
pub open spec fn bucket_of<T>(items: Seq<(u32, T)>, b: int) -> Seq<T>
    decreases items.len(),
{
    if items.len() == 0 {
        Seq::empty()
    } else {
        let rest = bucket_of(items.drop_last(), b);
        if items.last().0 == b {
            rest.push(items.last().1)
        } else {
            rest
        }
    }
}

/// How many items go into the buckets below `b`.
pub open spec fn start_of<T>(items: Seq<(u32, T)>, b: nat) -> nat
    decreases b,
{
    if b == 0 {
        0
    } else {
        start_of(items, (b - 1) as nat) + bucket_of(items, b - 1).len()
    }
}

/// Every item names one of `n` buckets.
pub open spec fn in_buckets<T>(items: Seq<(u32, T)>, n: nat) -> bool {
    forall|k: int| 0 <= k < items.len() ==> (#[trigger] items[k]).0 < n
}

/// All buckets, one behind the other.
pub open spec fn joined<T>(buckets: Seq<Seq<T>>) -> Seq<T>
    decreases buckets.len(),
{
    if buckets.len() == 0 {
        Seq::empty()
    } else {
        joined(buckets.drop_last()) + buckets.last()
    }
}

/// With no item, every bucket is empty.
proof fn lemma_start_of_empty<T>(b: nat)
    ensures
        start_of(Seq::<(u32, T)>::empty(), b) == 0,
    decreases b,
{
    if b > 0 {
        lemma_start_of_empty::<T>((b - 1) as nat);
    }
}

/// One more item shifts the starts of the buckets behind its own.
proof fn lemma_start_of_push<T>(items: Seq<(u32, T)>, item: (u32, T), b: nat)
    ensures
        start_of(items.push(item), b) == start_of(items, b) + (if item.0 < b { 1int } else { 0 }),
    decreases b,
{
    assert(items.push(item).drop_last() =~= items);
    if b > 0 {
        lemma_start_of_push(items, item, (b - 1) as nat);
    }
}

/// All buckets together hold all items.
pub(crate) proof fn lemma_start_of_total<T>(items: Seq<(u32, T)>, n: nat)
    requires
        in_buckets(items, n),
    ensures
        start_of(items, n) == items.len(),
    decreases items.len(),
{
    if items.len() == 0 {
        assert(items =~= Seq::empty());
        lemma_start_of_empty::<T>(n);
    } else {
        let rest = items.drop_last();
        assert(items =~= rest.push(items.last()));
        assert(in_buckets(rest, n));
        lemma_start_of_total(rest, n);
        lemma_start_of_push(rest, items.last(), n);
    }
}

/// Starts only grow.
pub(crate) proof fn lemma_start_of_mono<T>(items: Seq<(u32, T)>, a: nat, b: nat)
    requires
        a <= b,
    ensures
        start_of(items, a) <= start_of(items, b),
    decreases b,
{
    if a < b {
        lemma_start_of_mono(items, a, (b - 1) as nat);
    }
}

/// A beginning of the items fills a bucket no further than all of them, and
/// less far while an item of that bucket is still to come.
proof fn lemma_bucket_prefix<T>(items: Seq<(u32, T)>, k: int, b: int)
    requires
        0 <= k <= items.len(),
    ensures
        bucket_of(items.take(k), b).len() <= bucket_of(items, b).len(),
        k < items.len() && items[k].0 == b ==> bucket_of(items.take(k), b).len() < bucket_of(
            items,
            b,
        ).len(),
    decreases items.len(),
{
    if k == items.len() {
        assert(items.take(k) =~= items);
    } else {
        let rest = items.drop_last();
        assert(rest.take(k) =~= items.take(k));
        lemma_bucket_prefix(rest, k, b);
        if k == rest.len() {
            assert(rest.take(k) =~= rest);
        }
    }
}

/// One step further along the items.
proof fn lemma_bucket_step<T>(items: Seq<(u32, T)>, k: int, b: int)
    requires
        0 <= k < items.len(),
    ensures
        bucket_of(items.take(k + 1), b) == (if items[k].0 == b {
            bucket_of(items.take(k), b).push(items[k].1)
        } else {
            bucket_of(items.take(k), b)
        }),
{
    assert(items.take(k + 1).drop_last() =~= items.take(k));
}

/// Counts the items of each bucket and adds up where each bucket starts.
pub(crate) fn bucket_starts<T, I: Iterator<Item = (u32, T)>>(items: I, n: u32) -> (r: Vec<u32>)
    requires
        items.obeys_prophetic_iter_laws(),
        items.decrease() is Some,
        in_buckets(items.remaining(), n as nat),
        items.remaining().len() <= u32::MAX,
        n < usize::MAX,
    ensures
        r@.len() == n + 1,
        forall|j: int| 0 <= j <= n ==> #[trigger] r@[j] == start_of(items.remaining(), j as nat),
{
    let ghost all = items.remaining();
    let count: usize = n as usize;
    let mut starts: Vec<u32> = Vec::new();
    let mut i: usize = 0;
    while i <= count
        invariant
            i <= count + 1,
            starts@.len() == i,
            count < usize::MAX,
            forall|j: int| 0 <= j < i ==> starts@[j] == 0,
        decreases count + 1 - i,
    {
        starts.push(0);
        i = i + 1;
    }
    let mut rest = items;
    let ghost mut k: int = 0;
    assert(all.take(0) =~= Seq::empty());
    assert(rest.remaining() =~= all.skip(0));
    loop
        invariant
            rest.obeys_prophetic_iter_laws(),
            rest.decrease() is Some,
            count == n,
            in_buckets(all, n as nat),
            all.len() <= u32::MAX,
            0 <= k <= all.len(),
            rest.remaining() == all.skip(k),
            starts@.len() == count + 1,
            starts@[0] == 0,
            forall|b: int|
                0 <= b < count ==> #[trigger] starts@[b + 1] == bucket_of(all.take(k), b).len(),
        ensures
            k == all.len(),
            starts@.len() == count + 1,
            starts@[0] == 0,
            forall|b: int|
                0 <= b < count ==> #[trigger] starts@[b + 1] == bucket_of(all.take(k), b).len(),
        decreases rest.decrease()->0,
    {
        match rest.next() {
            Some(item) => {
                let b: usize = item.0 as usize;
                assert(item == all[k]);
                proof {
                    lemma_bucket_prefix(all, k, b as int);
                    lemma_start_of_total(all, n as nat);
                    lemma_start_of_mono(all, (b + 1) as nat, n as nat);
                    assert(start_of(all, (b + 1) as nat) >= bucket_of(all, b as int).len());
                    assert forall|j: int| 0 <= j < count implies bucket_of(all.take(k + 1), j).len()
                        == bucket_of(all.take(k), j).len() + (if j == b { 1int } else { 0 }) by {
                        lemma_bucket_step(all, k, j);
                    }
                }
                assert(starts@[b + 1] == bucket_of(all.take(k), b as int).len());
                starts[b + 1] = starts[b + 1] + 1;
                proof {
                    k = k + 1;
                }
                assert(rest.remaining() =~= all.skip(k));
            },
            None => {
                break;
            },
        }
    }
    assert(all.take(k) =~= all);
    assert forall|i: int| 1 <= i <= count implies #[trigger] starts@[i] == bucket_of(all, i - 1).len() by {
        assert(starts@[(i - 1) + 1] == bucket_of(all.take(k), i - 1).len());
    }
    let mut j: usize = 1;
    while j <= count
        invariant
            1 <= j <= count + 1,
            count == n,
            count < usize::MAX,
            in_buckets(all, n as nat),
            all.len() <= u32::MAX,
            starts@.len() == count + 1,
            forall|i: int| 0 <= i < j ==> #[trigger] starts@[i] == start_of(all, i as nat),
            forall|i: int|
                j <= i <= count ==> #[trigger] starts@[i] == bucket_of(all, i - 1).len(),
        decreases count + 1 - j,
    {
        proof {
            lemma_start_of_total(all, n as nat);
            lemma_start_of_mono(all, j as nat, n as nat);
            assert(start_of(all, j as nat) == start_of(all, (j - 1) as nat) + bucket_of(
                all,
                j - 1,
            ).len());
        }
        assert(starts@[j - 1] == start_of(all, (j - 1) as nat));
        assert(starts@[j as int] == bucket_of(all, j - 1).len());
        starts[j] = starts[j] + starts[j - 1];
        j = j + 1;
    }
    starts
}

/// Puts each item into its bucket; bucket `b` has the places from `starts[b]`
/// up to `starts[b + 1]`.
pub(crate) fn bucket_fill<T: Copy, I: Iterator<Item = (u32, T)>>(
    items: I,
    starts: &Vec<u32>,
    data: &mut Vec<T>,
)
    requires
        items.obeys_prophetic_iter_laws(),
        items.decrease() is Some,
        starts@.len() > 0,
        in_buckets(items.remaining(), (starts@.len() - 1) as nat),
        starts@[0] == 0,
        old(data)@.len() == starts@.last(),
        forall|b: int|
            0 <= b < starts@.len() - 1 ==> #[trigger] starts@[b + 1] == starts@[b] + bucket_of(
                items.remaining(),
                b,
            ).len(),
    ensures
        final(data)@.len() == old(data)@.len(),
        forall|b: int|
            0 <= b < starts@.len() - 1 ==> #[trigger] bucket_of(items.remaining(), b)
                == final(data)@.subrange(starts@[b] as int, starts@[b + 1] as int),
{
    let ghost all = items.remaining();
    let n: usize = starts.len() - 1;
    let mut cursors: Vec<u32> = Vec::new();
    for i in 0..n
        invariant
            n < starts@.len(),
            cursors@ == starts@.take(i as int),
    {
        cursors.push(starts[i]);
        assert(cursors@ =~= starts@.take(i + 1));
    }
    proof {
        lemma_starts_ordered(starts@, all);
    }
    let mut rest = items;
    let ghost mut k: int = 0;
    assert(all.take(0) =~= Seq::empty());
    assert(rest.remaining() =~= all.skip(0));
    loop
        invariant
            rest.obeys_prophetic_iter_laws(),
            rest.decrease() is Some,
            0 <= k <= all.len(),
            rest.remaining() == all.skip(k),
            n == starts@.len() - 1,
            in_buckets(all, n as nat),
            cursors@.len() == n,
            data@.len() == old(data)@.len(),
            forall|b: int|
                0 <= b < n ==> #[trigger] starts@[b + 1] == starts@[b] + bucket_of(all, b).len(),
            forall|a: int, b: int|
                0 <= a <= b <= n ==> #[trigger] starts@[a] <= #[trigger] starts@[b] <= data@.len(),
            forall|b: int|
                0 <= b < n ==> #[trigger] cursors@[b] == starts@[b] + bucket_of(all.take(k), b).len(),
            forall|b: int, p: int|
                0 <= b < n && 0 <= p < bucket_of(all.take(k), b).len() ==> data@[starts@[b] + p]
                    == #[trigger] bucket_of(all.take(k), b)[p],
        ensures
            k == all.len(),
            data@.len() == old(data)@.len(),
            forall|b: int, p: int|
                0 <= b < n && 0 <= p < bucket_of(all.take(k), b).len() ==> data@[starts@[b] + p]
                    == #[trigger] bucket_of(all.take(k), b)[p],
        decreases rest.decrease()->0,
    {
        match rest.next() {
            Some(item) => {
                let b: usize = item.0 as usize;
                assert(item == all[k]);
                proof {
                    lemma_bucket_prefix(all, k, b as int);
                    assert(starts@[b + 1] == starts@[b as int] + bucket_of(all, b as int).len());
                }
                let at: u32 = cursors[b];
                assert(at < starts@[b + 1]);
                assert(starts@[b + 1] <= data@.len()) by {
                    assert(starts@[b + 1] <= starts@[n as int]);
                }
                let ghost before = data@;
                data[at as usize] = item.1;
                cursors[b] = at + 1;
                proof {
                    assert forall|c: int| 0 <= c < n implies #[trigger] cursors@[c] == starts@[c]
                        + bucket_of(all.take(k + 1), c).len() by {
                        lemma_bucket_step(all, k, c);
                    }
                    assert forall|c: int, p: int|
                        0 <= c < n && 0 <= p < bucket_of(all.take(k + 1), c).len() implies data@[starts@[c]
                        + p] == #[trigger] bucket_of(all.take(k + 1), c)[p] by {
                        lemma_bucket_step(all, k, c);
                        lemma_bucket_prefix(all, k, c);
                        lemma_bucket_prefix(all, k + 1, c);
                        assert(starts@[c + 1] == starts@[c] + bucket_of(all, c).len());
                        if c == b {
                            if p < bucket_of(all.take(k), c).len() {
                                assert(before[starts@[c] + p] == bucket_of(all.take(k), c)[p]);
                            }
                        } else {
                            assert(before[starts@[c] + p] == bucket_of(all.take(k), c)[p]);
                            if c < b {
                                assert(starts@[c + 1] <= starts@[b as int]);
                            } else {
                                assert(starts@[b + 1] <= starts@[c]);
                            }
                        }
                    }
                    k = k + 1;
                }
                assert(rest.remaining() =~= all.skip(k));
            },
            None => {
                break;
            },
        }
    }
    assert(all.take(k) =~= all);
    assert forall|b: int| 0 <= b < n implies #[trigger] bucket_of(all, b) == data@.subrange(
        starts@[b] as int,
        starts@[b + 1] as int,
    ) by {
        assert(starts@[b + 1] == starts@[b] + bucket_of(all, b).len());
        assert(starts@[b + 1] <= starts@[n as int]);
        assert forall|p: int| 0 <= p < bucket_of(all, b).len() implies bucket_of(all, b)[p]
            == data@.subrange(starts@[b] as int, starts@[b + 1] as int)[p] by {
            assert(data@[starts@[b] + p] == bucket_of(all.take(k), b)[p]);
        }
        assert(bucket_of(all, b) =~= data@.subrange(starts@[b] as int, starts@[b + 1] as int));
    }
}

/// Starts that differ by bucket sizes are in order.
proof fn lemma_starts_ordered<T>(starts: Seq<u32>, items: Seq<(u32, T)>)
    requires
        starts.len() > 0,
        forall|b: int|
            0 <= b < starts.len() - 1 ==> #[trigger] starts[b + 1] == starts[b] + bucket_of(
                items,
                b,
            ).len(),
    ensures
        forall|a: int, b: int|
            0 <= a <= b < starts.len() ==> #[trigger] starts[a] <= #[trigger] starts[b]
                <= starts.last(),
{
    assert forall|a: int, b: int| 0 <= a <= b < starts.len() implies #[trigger] starts[a]
        <= #[trigger] starts[b] by {
        lemma_starts_step(starts, items, a, b);
    }
}

proof fn lemma_starts_step<T>(starts: Seq<u32>, items: Seq<(u32, T)>, a: int, b: int)
    requires
        0 <= a <= b < starts.len(),
        forall|c: int|
            0 <= c < starts.len() - 1 ==> #[trigger] starts[c + 1] == starts[c] + bucket_of(
                items,
                c,
            ).len(),
    ensures
        starts[a] <= starts[b],
    decreases b - a,
{
    if a < b {
        lemma_starts_step(starts, items, a, b - 1);
        assert(starts[(b - 1) + 1] == starts[b - 1] + bucket_of(items, b - 1).len());
    }
}

/// Buckets of elements, all in one run.
pub struct FNest<'id, T> {
    offsets: FSpan<'id, u32>,
    data: FSpan<'id, T>,
}

impl<'id, T> FNest<'id, T> {
    /// Where each bucket starts, and behind that where the last one ends.
    pub closed spec fn starts(&self) -> Seq<u32> {
        self.offsets@
    }

    /// All elements, bucket by bucket.
    pub closed spec fn elements(&self) -> Seq<T> {
        self.data@
    }

    /// The starts divide the elements.
    pub open spec fn wf(&self) -> bool {
        &&& self.starts().len() > 0
        &&& self.starts()[0] == 0
        &&& self.starts().last() == self.elements().len()
        &&& forall|a: int, b: int|
            0 <= a <= b < self.starts().len() ==> #[trigger] self.starts()[a]
                <= #[trigger] self.starts()[b]
    }

    /// The buckets.
    pub open spec fn view(&self) -> Seq<Seq<T>> {
        Seq::new(
            (self.starts().len() - 1) as nat,
            |b: int|
                self.elements().subrange(self.starts()[b] as int, self.starts()[b + 1] as int),
        )
    }

    pub(crate) fn from_parts(offsets: FSpan<'id, u32>, data: FSpan<'id, T>) -> (r: FNest<'id, T>)
        ensures
            r.starts() == offsets@,
            r.elements() == data@,
    {
        FNest { offsets, data }
    }

    /// How many buckets there are.
    pub fn len(&self) -> (r: usize)
        requires
            self.wf(),
        ensures
            r == self@.len(),
    {
        self.offsets.len() - 1
    }

    /// Whether there is no bucket.
    pub fn is_empty(&self) -> (r: bool)
        requires
            self.wf(),
        ensures
            r == (self@.len() == 0),
    {
        self.len() == 0
    }

    /// The elements of bucket `i`.
    pub fn bucket(&self, i: usize) -> (r: &[T])
        requires
            self.wf(),
            i < self@.len(),
        ensures
            r@ == self@[i as int],
    {
        let start: u32 = self.offsets.as_slice()[i];
        let end: u32 = self.offsets.as_slice()[i + 1];
        assert(self.starts()[i as int] <= self.starts()[i + 1]);
        assert(self.starts()[i + 1] <= self.starts()[self.starts().len() - 1]);
        vstd::slice::slice_subrange(self.data.as_slice(), start as usize, end as usize)
    }

    /// The buckets in order.
    pub fn iter(&self) -> (r: Vec<&[T]>)
        requires
            self.wf(),
        ensures
            r@.len() == self@.len(),
            forall|i: int| 0 <= i < r@.len() ==> (#[trigger] r@[i])@ == self@[i],
    {
        let mut r: Vec<&[T]> = Vec::new();
        let n: usize = self.len();
        for i in 0..n
            invariant
                self.wf(),
                n == self@.len(),
                r@.len() == i,
                forall|j: int| 0 <= j < i ==> (#[trigger] r@[j])@ == self@[j],
        {
            r.push(self.bucket(i));
        }
        r
    }

    /// All elements, bucket by bucket.
    pub fn flat(&self) -> (r: &[T])
        ensures
            r@ == self.elements(),
    {
        self.data.as_slice()
    }
}

/// Read one behind the other, the buckets are all the elements.
pub proof fn law_flat_joins_buckets<'id, T>(nest: FNest<'id, T>)
    requires
        nest.wf(),
    ensures
        nest.elements() == joined(nest@),
{
    lemma_joined_prefix(nest, nest@.len());
    assert(nest@.take(nest@.len() as int) =~= nest@);
    assert(nest.elements().take(nest.elements().len() as int) =~= nest.elements());
}

proof fn lemma_joined_prefix<'id, T>(nest: FNest<'id, T>, k: nat)
    requires
        nest.wf(),
        k <= nest@.len(),
    ensures
        joined(nest@.take(k as int)) == nest.elements().take(nest.starts()[k as int] as int),
    decreases k,
{
    let last = nest.starts().len() - 1;
    assert(nest.starts()[k as int] <= nest.starts()[last]);
    if k == 0 {
        assert(nest@.take(0) =~= Seq::empty());
        assert(nest.elements().take(0) =~= Seq::empty());
    } else {
        let head = nest@.take(k as int);
        lemma_joined_prefix(nest, (k - 1) as nat);
        assert(head.drop_last() =~= nest@.take(k - 1));
        assert(nest.starts()[k - 1] <= nest.starts()[k as int]);
        assert(joined(head) =~= nest.elements().take(nest.starts()[k as int] as int));
    }
}

/// An item stands in the bucket that it names, behind exactly those before it
/// that name the same one.
pub proof fn law_item_stands_in_its_bucket<T>(items: Seq<(u32, T)>, i: int)
    requires
        0 <= i < items.len(),
    ensures
        ({
            let b = items[i].0 as int;
            let before = bucket_of(items.take(i), b).len();
            before < bucket_of(items, b).len() && bucket_of(items, b)[before as int] == items[i].1
        }),
    decreases items.len(),
{
    let less = items.drop_last();
    if i < less.len() {
        law_item_stands_in_its_bucket(less, i);
        assert(less.take(i) =~= items.take(i));
    } else {
        assert(items.take(i) =~= less);
    }
}

/// A bucket holds only what names it.
pub proof fn law_bucket_holds_its_items<T>(items: Seq<(u32, T)>, b: int, k: int) -> (j: int)
    requires
        0 <= k < bucket_of(items, b).len(),
    ensures
        0 <= j < items.len(),
        items[j].0 == b,
        items[j].1 == bucket_of(items, b)[k],
    decreases items.len(),
{
    if k < bucket_of(items.drop_last(), b).len() {
        law_bucket_holds_its_items(items.drop_last(), b, k)
    } else {
        items.len() - 1
    }
}

} // verus!
