//! Sorted runs of `u32` keys with binary search: a map and a set.
//!
//! The backing storage belongs to the caller, who pushes into it freely and
//! then freezes it: freezing sorts it and folds equal keys into one.

use crate::arena::{has_index, FVec};
use crate::sort::{ascending, sort_by_u32_key, U32Key};
use vstd::prelude::*;

verus! {

/// The keys of `s` ascend, and none occurs twice.
pub open spec fn strictly_ascending<T: U32Key>(s: Seq<T>) -> bool {
    forall|i: int, j: int| 0 <= i < j < s.len() ==> #[trigger] s[i].key() < #[trigger] s[j].key()
}

/// `k` is the key of an element of `s`.
pub open spec fn has_key<T: U32Key>(s: Seq<T>, k: u32) -> bool {
    exists|i: int| 0 <= i < s.len() && (#[trigger] s[i]).key() == k
}

/// The value under `k` in `s`, if there is one.
pub open spec fn value_of<V>(s: Seq<(u32, V)>, k: u32) -> Option<V> {
    if has_key(s, k) {
        Some(s[choose|i: int| 0 <= i < s.len() && (#[trigger] s[i]).key() == k].1)
    } else {
        None
    }
}

/// A map from `u32` over a sorted slice.
pub struct U32Map<'a, V> {
    entries: &'a [(u32, V)],
}

/// A set of `u32` over a sorted slice.
pub struct U32Set<'a> {
    keys: &'a [u32],
}

impl<'a, V> Copy for U32Map<'a, V> {

}

impl<'a, V> Clone for U32Map<'a, V> {
    fn clone(&self) -> (r: U32Map<'a, V>)
        ensures
            r == *self,
    {
        *self
    }
}

impl<'a> Copy for U32Set<'a> {

}

impl<'a> Clone for U32Set<'a> {
    fn clone(&self) -> (r: U32Set<'a>)
        ensures
            r == *self,
    {
        *self
    }
}

/// The position in `s` whose key is `k`, if there is one.
fn search<T: U32Key>(s: &[T], k: u32) -> (r: Option<usize>)
    requires
        strictly_ascending(s@),
    ensures
        match r {
            Some(i) => i < s@.len() && s@[i as int].key() == k,
            None => !has_key(s@, k),
        },
{
    let mut lo: usize = 0;
    let mut hi: usize = s.len();
    while lo < hi
        invariant
            lo <= hi <= s@.len(),
            strictly_ascending(s@),
            forall|i: int| 0 <= i < lo ==> (#[trigger] s@[i]).key() < k,
            forall|i: int| hi <= i < s@.len() ==> (#[trigger] s@[i]).key() > k,
        decreases hi - lo,
    {
        let mid: usize = lo + (hi - lo) / 2;
        let found: u32 = s[mid].u32_key();
        if found == k {
            return Some(mid);
        }
        if found < k {
            lo = mid + 1;
        } else {
            hi = mid;
        }
    }
    None
}

impl<'a, V> U32Map<'a, V> {
    /// The entries, by ascending key.
    pub closed spec fn view(&self) -> Seq<(u32, V)> {
        self.entries@
    }

    #[verifier::type_invariant]
    spec fn inv(self) -> bool {
        strictly_ascending(self.entries@)
    }

    /// The map with the entries of `sorted`.
    pub fn new(sorted: &'a [(u32, V)]) -> (r: U32Map<'a, V>)
        requires
            strictly_ascending(sorted@),
        ensures
            r@ == sorted@,
    {
        U32Map { entries: sorted }
    }

    /// The value under `k`.
    pub fn get(&self, k: &u32) -> (r: Option<&'a V>)
        ensures
            match r {
                Some(v) => value_of(self@, *k) == Some(*v),
                None => value_of(self@, *k) is None,
            },
            strictly_ascending(self@),
    {
        proof {
            use_type_invariant(self);
        }
        match search(self.entries, *k) {
            Some(i) => {
                assert(has_key(self@, *k)) by {
                    assert(self@[i as int].key() == *k);
                }
                let ghost j = choose|j: int|
                    0 <= j < self@.len() && (#[trigger] self@[j]).key() == *k;
                assert(j == i) by {
                    if j < i {
                        assert(self@[j].key() < self@[i as int].key());
                    } else if i < j {
                        assert(self@[i as int].key() < self@[j].key());
                    }
                }
                Some(&self.entries[i].1)
            },
            None => None,
        }
    }

    /// Whether there is a value under `k`.
    pub fn contains_key(&self, k: &u32) -> (r: bool)
        ensures
            r == has_key(self@, *k),
    {
        self.get(k).is_some()
    }

    /// How many entries there are.
    pub fn len(&self) -> (r: usize)
        ensures
            r == self@.len(),
    {
        self.entries.len()
    }

    /// Whether there is no entry.
    pub fn is_empty(&self) -> (r: bool)
        ensures
            r == (self@.len() == 0),
    {
        self.entries.len() == 0
    }

    /// The entries, by ascending key.
    pub fn iter(&self) -> (r: &'a [(u32, V)])
        ensures
            r@ == self@,
            strictly_ascending(r@),
    {
        proof {
            use_type_invariant(self);
        }
        self.entries
    }
}

impl<'a> U32Set<'a> {
    /// The keys, ascending.
    pub closed spec fn view(&self) -> Seq<u32> {
        self.keys@
    }

    #[verifier::type_invariant]
    spec fn inv(self) -> bool {
        strictly_ascending(self.keys@)
    }

    /// The set of the keys in `sorted`.
    pub fn new(sorted: &'a [u32]) -> (r: U32Set<'a>)
        requires
            strictly_ascending(sorted@),
        ensures
            r@ == sorted@,
    {
        U32Set { keys: sorted }
    }

    /// Whether `k` is in the set.
    pub fn contains(&self, k: &u32) -> (r: bool)
        ensures
            r == self@.contains(*k),
    {
        proof {
            use_type_invariant(self);
        }
        match search(self.keys, *k) {
            Some(i) => {
                assert(self@[i as int] == *k);
                true
            },
            None => {
                assert(!self@.contains(*k)) by {
                    if self@.contains(*k) {
                        let i = choose|i: int| 0 <= i < self@.len() && self@[i] == *k;
                        assert(self@[i].key() == *k);
                    }
                }
                false
            },
        }
    }

    /// How many keys there are.
    pub fn len(&self) -> (r: usize)
        ensures
            r == self@.len(),
    {
        self.keys.len()
    }

    /// Whether there is none.
    pub fn is_empty(&self) -> (r: bool)
        ensures
            r == (self@.len() == 0),
    {
        self.keys.len() == 0
    }

    /// The keys, ascending.
    pub fn iter(&self) -> (r: &'a [u32])
        ensures
            r@ == self@,
            strictly_ascending(r@),
    {
        proof {
            use_type_invariant(self);
        }
        self.keys
    }
}

/// `states` starts empty and has one state behind each item of `sorted`.
pub open spec fn fold_states<V>(sorted: Seq<(u32, V)>, states: Seq<Seq<(u32, V)>>) -> bool {
    &&& states.len() == sorted.len() + 1
    &&& states[0] == Seq::<(u32, V)>::empty()
}

/// `item` has a new key and comes behind `before`.
pub open spec fn appends<V>(
    before: Seq<(u32, V)>,
    item: (u32, V),
    after: Seq<(u32, V)>,
) -> bool {
    &&& before.len() == 0 || before.last().0 != item.0
    &&& after == before.push(item)
}

/// `item` has the key of the last entry, whose value becomes `value`.
pub open spec fn merges<V>(
    before: Seq<(u32, V)>,
    item: (u32, V),
    value: V,
    after: Seq<(u32, V)>,
) -> bool {
    &&& before.len() > 0
    &&& before.last().0 == item.0
    &&& after == before.update(before.len() - 1, (item.0, value))
}

/// What is known of the folded beginning `state` of the first `i` items.
spec fn folded<V>(sorted: Seq<(u32, V)>, i: int, state: Seq<(u32, V)>) -> bool {
    &&& strictly_ascending(state)
    &&& state.len() <= i
    &&& i > 0 ==> state.len() > 0 && state.last().0 == sorted[i - 1].0
    &&& forall|k: u32| #[trigger] has_key(state, k) == has_key(sorted.take(i), k)
}

/// One more item was taken in.
proof fn lemma_take_more<V>(sorted: Seq<(u32, V)>, i: int)
    requires
        0 <= i < sorted.len(),
    ensures
        forall|k: u32| #[trigger]
            has_key(sorted.take(i + 1), k) == (has_key(sorted.take(i), k) || sorted[i].0 == k),
{
    let less = sorted.take(i);
    let more = sorted.take(i + 1);
    assert forall|k: u32| #[trigger] has_key(more, k) == (has_key(less, k) || sorted[i].0 == k) by {
        if has_key(more, k) {
            let j = choose|j: int| 0 <= j < more.len() && (#[trigger] more[j]).key() == k;
            if j < i {
                assert(less[j].key() == k);
            }
        }
        if has_key(less, k) {
            let j = choose|j: int| 0 <= j < less.len() && (#[trigger] less[j]).key() == k;
            assert(more[j].key() == k);
        }
        if sorted[i].0 == k {
            assert(more[i].key() == k);
        }
    }
}

proof fn lemma_fold_append<V>(sorted: Seq<(u32, V)>, i: int, state: Seq<(u32, V)>)
    requires
        0 <= i < sorted.len(),
        ascending(sorted),
        folded(sorted, i, state),
        state.len() == 0 || state.last().0 != sorted[i].0,
    ensures
        folded(sorted, i + 1, state.push(sorted[i])),
{
    let after = state.push(sorted[i]);
    if i > 0 {
        assert(sorted[i - 1].key() <= sorted[i].key());
    }
    assert forall|a: int, b: int| 0 <= a < b < after.len() implies #[trigger] after[a].key()
        < #[trigger] after[b].key() by {
        if b == state.len() {
            if a < state.len() - 1 {
                assert(state[a].key() < state[state.len() - 1].key());
            }
        } else {
            assert(state[a].key() < state[b].key());
        }
    }
    lemma_take_more(sorted, i);
    assert forall|k: u32| #[trigger] has_key(after, k) == has_key(sorted.take(i + 1), k) by {
        assert(has_key(state, k) == has_key(sorted.take(i), k));
        if has_key(after, k) {
            let j = choose|j: int| 0 <= j < after.len() && (#[trigger] after[j]).key() == k;
            if j < state.len() {
                assert(state[j].key() == k);
            }
        }
        if has_key(state, k) {
            let j = choose|j: int| 0 <= j < state.len() && (#[trigger] state[j]).key() == k;
            assert(after[j].key() == k);
        }
        if sorted[i].0 == k {
            assert(after[state.len() as int].key() == k);
        }
    }
}

proof fn lemma_fold_merge<V>(sorted: Seq<(u32, V)>, i: int, state: Seq<(u32, V)>, value: V)
    requires
        0 <= i < sorted.len(),
        ascending(sorted),
        folded(sorted, i, state),
        state.len() > 0,
        state.last().0 == sorted[i].0,
    ensures
        folded(sorted, i + 1, state.update(state.len() - 1, (sorted[i].0, value))),
{
    let last = state.len() - 1;
    let after = state.update(last, (sorted[i].0, value));
    assert forall|a: int| 0 <= a < state.len() implies #[trigger] after[a].key() == state[a].key() by {}
    assert forall|a: int, b: int| 0 <= a < b < after.len() implies #[trigger] after[a].key()
        < #[trigger] after[b].key() by {
        assert(state[a].key() < state[b].key());
    }
    lemma_take_more(sorted, i);
    assert forall|k: u32| #[trigger] has_key(after, k) == has_key(sorted.take(i + 1), k) by {
        assert(has_key(state, k) == has_key(sorted.take(i), k));
        if has_key(after, k) {
            let j = choose|j: int| 0 <= j < after.len() && (#[trigger] after[j]).key() == k;
            assert(state[j].key() == k);
        }
        if has_key(state, k) {
            let j = choose|j: int| 0 <= j < state.len() && (#[trigger] state[j]).key() == k;
            assert(after[j].key() == k);
        }
        if sorted[i].0 == k {
            assert(after[last].key() == k);
        }
    }
}

/// Folds neighbours with one key into the first of them and moves what is left
/// to the front. Returns how many are left.
fn dedup_in_place<V: Copy, F: FnMut(&mut V, &mut V)>(
    slice: &mut [(u32, V)],
    merge: F,
) -> (r: usize)
    requires
        ascending(old(slice)@),
        forall|a: &mut V, b: &mut V| #[trigger] call_requires(merge, (a, b)),
    ensures
        final(slice)@.len() == old(slice)@.len(),
        r <= final(slice)@.len(),
        strictly_ascending(final(slice)@.take(r as int)),
        forall|k: u32| #[trigger]
            has_key(final(slice)@.take(r as int), k) == has_key(old(slice)@, k),
        exists|states: Seq<Seq<(u32, V)>>| #[trigger]
            fold_states(old(slice)@, states) && states.last() == final(slice)@.take(r as int)
                && forall|k: int| #[trigger]
                has_index(old(slice)@, k) ==> appends(states[k], old(slice)@[k], states[k + 1])
                    || exists|a: &mut V, b: &mut V|
 #![trigger call_ensures(merge, (a, b), ())]
 call_ensures(merge, (a, b), ()) && *a == states[k].last().1 && *b == old(
                        slice,
                    )@[k].1 && merges(states[k], old(slice)@[k], *final(a), states[k + 1]),
{
    let mut merge = merge;
    let ghost rule = merge;
    let ghost sorted = slice@;
    let ghost mut states: Seq<Seq<(u32, V)>> = seq![Seq::empty()];
    let n: usize = slice.len();
    let mut w: usize = 0;
    assert(slice@.take(0) =~= Seq::empty());
    assert(sorted.take(0) =~= Seq::empty());
    let mut i: usize = 0;
    while i < n
        invariant
            i <= n,
            n == sorted.len(),
            sorted == old(slice)@,
            slice@.len() == n,
            w <= i,
            states.len() == i + 1,
            states[0] == Seq::<(u32, V)>::empty(),
            states.last() == slice@.take(w as int),
            ascending(sorted),
            forall|j: int| i <= j < n ==> #[trigger] slice@[j] == sorted[j],
            folded(sorted, i as int, slice@.take(w as int)),
            merge == rule,
            forall|a: &mut V, b: &mut V| #[trigger] call_requires(rule, (a, b)),
            forall|k: int| #[trigger]
                has_index(sorted.take(i as int), k) ==> appends(states[k], sorted[k], states[k + 1])
                    || exists|a: &mut V, b: &mut V|
 #![trigger call_ensures(rule, (a, b), ())]
 call_ensures(rule, (a, b), ()) && *a == states[k].last().1 && *b == sorted[k].1
                        && merges(states[k], sorted[k], *final(a), states[k + 1]),
        decreases n - i,
    {
        let item: (u32, V) = slice[i];
        let ghost state = slice@.take(w as int);
        let ghost was = states;
        assert(w > 0 ==> state.last() == slice@[w - 1]);
        if w > 0 && slice[w - 1].0 == item.0 {
            let mut a: V = slice[w - 1].1;
            let mut b: V = item.1;
            let ghost a0 = a;
            let ghost b0 = b;
            merge(&mut a, &mut b);
            slice[w - 1] = (item.0, a);
            proof {
                states = states.push(slice@.take(w as int));
                assert(slice@.take(w as int) =~= state.update(state.len() - 1, (item.0, a)));
                lemma_fold_merge(sorted, i as int, state, a);
                assert(exists|x: &mut V, y: &mut V|
 #![trigger call_ensures(rule, (x, y), ())]
 call_ensures(rule, (x, y), ()) && *x == a0 && *y == b0 && *final(x) == a);
                assert(exists|x: &mut V, y: &mut V|
 #![trigger call_ensures(rule, (x, y), ())]
 call_ensures(rule, (x, y), ()) && *x == was[i as int].last().1 && *y
                        == sorted[i as int].1 && merges(
                        was[i as int],
                        sorted[i as int],
                        *final(x),
                        states[i + 1],
                    ));
            }
        } else {
            slice[w] = item;
            w = w + 1;
            proof {
                states = states.push(slice@.take(w as int));
                assert(slice@.take(w as int) =~= state.push(item));
                lemma_fold_append(sorted, i as int, state);
            }
        }
        proof {
            assert forall|k: int| #[trigger] has_index(sorted.take(i + 1), k) implies appends(
                states[k],
                sorted[k],
                states[k + 1],
            ) || exists|a: &mut V, b: &mut V|
 #![trigger call_ensures(rule, (a, b), ())]
 call_ensures(rule, (a, b), ()) && *a == states[k].last().1 && *b == sorted[k].1
                    && merges(states[k], sorted[k], *final(a), states[k + 1]) by {
                if k < i {
                    assert(has_index(sorted.take(i as int), k));
                    assert(states[k] == was[k] && states[k + 1] == was[k + 1]);
                    if !appends(was[k], sorted[k], was[k + 1]) {
                        let (a, b) = choose|a: &mut V, b: &mut V|
                            #![trigger call_ensures(rule, (a, b), ())]
                            call_ensures(rule, (a, b), ()) && *a == was[k].last().1 && *b
                                == sorted[k].1 && merges(was[k], sorted[k], *final(a), was[k + 1]);
                        assert(call_ensures(rule, (a, b), ()));
                        assert(merges(states[k], sorted[k], *final(a), states[k + 1]));
                    }
                }
            }
        }
        i = i + 1;
    }
    assert(sorted.take(i as int) =~= sorted);
    assert(fold_states(sorted, states));
    w
}

/// Sorts `entries` by key and folds those with one key into the first of
/// them: `merge` is shown the value that stays and the one that goes.
pub fn freeze_map<'a, 'id, V: Copy, F: FnMut(&mut V, &mut V)>(
    entries: &'a mut FVec<'id, (u32, V)>,
    merge: F,
) -> (r: U32Map<'a, V>)
    requires
        old(entries).wf(),
        forall|a: &mut V, b: &mut V| #[trigger] call_requires(merge, (a, b)),
    ensures
        final(entries).wf(),
        final(entries).same_room(old(entries)),
        final(entries)@ == r@,
        strictly_ascending(r@),
        forall|k: u32| #[trigger] has_key(r@, k) == has_key(old(entries)@, k),
        exists|sorted: Seq<(u32, V)>, states: Seq<Seq<(u32, V)>>| #[trigger]
            fold_states(sorted, states) && ascending(sorted) && sorted.to_multiset()
                == old(entries)@.to_multiset() && states.last() == r@ && forall|k: int| #[trigger]
                has_index(sorted, k) ==> appends(states[k], sorted[k], states[k + 1])
                    || exists|a: &mut V, b: &mut V|
 #![trigger call_ensures(merge, (a, b), ())]
 call_ensures(merge, (a, b), ()) && *a == states[k].last().1 && *b == sorted[k].1
                        && merges(states[k], sorted[k], *final(a), states[k + 1]),
{
    sort_by_u32_key(entries.as_mut_slice());
    let ghost sorted = entries@;
    let kept: usize = dedup_in_place(entries.as_mut_slice(), merge);
    entries.truncate(kept as u32);
    proof {
        lemma_same_keys(sorted, old(entries)@);
        assert(entries@ =~= entries@.take(kept as int));
    }
    U32Map::new(entries.as_slice())
}

/// Reordering changes no key.
proof fn lemma_same_keys<T: U32Key>(a: Seq<T>, b: Seq<T>)
    requires
        a.to_multiset() == b.to_multiset(),
    ensures
        forall|k: u32| #[trigger] has_key(a, k) == has_key(b, k),
{
    broadcast use vstd::seq_lib::group_to_multiset_ensures;

    assert forall|k: u32| #[trigger] has_key(a, k) == has_key(b, k) by {
        if has_key(a, k) {
            let i = choose|i: int| 0 <= i < a.len() && (#[trigger] a[i]).key() == k;
            assert(a.contains(a[i]));
            assert(a.to_multiset().count(a[i]) > 0);
            assert(b.to_multiset().count(a[i]) > 0);
            assert(b.contains(a[i]));
        }
        if has_key(b, k) {
            let i = choose|i: int| 0 <= i < b.len() && (#[trigger] b[i]).key() == k;
            assert(b.contains(b[i]));
            assert(b.to_multiset().count(b[i]) > 0);
            assert(a.to_multiset().count(b[i]) > 0);
            assert(a.contains(b[i]));
        }
    }
}

/// A frozen map that owns its storage.
pub struct FrozenMap<'id, V> {
    entries: FVec<'id, (u32, V)>,
}

impl<'id, V> FrozenMap<'id, V> {
    /// The entries, by ascending key.
    pub closed spec fn view(&self) -> Seq<(u32, V)> {
        self.entries@
    }

    #[verifier::type_invariant]
    spec fn inv(self) -> bool {
        strictly_ascending(self.entries@)
    }

    /// The map.
    pub fn as_map(&self) -> (r: U32Map<'_, V>)
        ensures
            r@ == self@,
            strictly_ascending(r@),
    {
        proof {
            use_type_invariant(self);
        }
        U32Map::new(self.entries.as_slice())
    }
}

/// [`freeze_map`] for a caller who gives the storage away.
pub fn freeze_map_owned<'id, V: Copy, F: FnMut(&mut V, &mut V)>(
    entries: FVec<'id, (u32, V)>,
    merge: F,
) -> (r: FrozenMap<'id, V>)
    requires
        entries.wf(),
        forall|a: &mut V, b: &mut V| #[trigger] call_requires(merge, (a, b)),
    ensures
        strictly_ascending(r@),
        forall|k: u32| #[trigger] has_key(r@, k) == has_key(entries@, k),
        exists|sorted: Seq<(u32, V)>, states: Seq<Seq<(u32, V)>>| #[trigger]
            fold_states(sorted, states) && ascending(sorted) && sorted.to_multiset()
                == entries@.to_multiset() && states.last() == r@ && forall|k: int| #[trigger]
                has_index(sorted, k) ==> appends(states[k], sorted[k], states[k + 1])
                    || exists|a: &mut V, b: &mut V|
                    #![trigger call_ensures(merge, (a, b), ())]
                    call_ensures(merge, (a, b), ()) && *a == states[k].last().1 && *b == sorted[k].1
                        && merges(states[k], sorted[k], *final(a), states[k + 1]),
{
    let mut entries = entries;
    let _ = freeze_map(&mut entries, merge);
    FrozenMap { entries }
}

/// Sorts `entries` by key and puts what `f` makes of all values under one key
/// in their place.
pub(crate) fn fold_entries<V: Copy, F: FnMut(&mut V, &mut V)>(
    entries: Vec<(u32, V)>,
    merge: F,
    Ghost(f): Ghost<spec_fn(V, V) -> V>,
) -> (r: Vec<(u32, V)>)
    requires
        order_free(f),
        forall|a: &mut V, b: &mut V| #[trigger] call_requires(merge, (a, b)),
        forall|a: &mut V, b: &mut V| #[trigger]
            call_ensures(merge, (a, b), ()) ==> *final(a) == f(*a, *b),
    ensures
        r@.len() <= entries@.len(),
        strictly_ascending(r@),
        forall|k: u32| #[trigger] has_key(r@, k) == has_key(entries@, k),
        forall|k: u32| #[trigger] value_of(r@, k) == total(entries@, k, f),
{
    let mut v: Vec<(u32, V)> = entries;
    sort_by_u32_key(v.as_mut_slice());
    let ghost sorted = v@;
    let kept: usize = dedup_in_place(v.as_mut_slice(), merge);
    let ghost folded = v@.take(kept as int);
    v.truncate(kept);
    proof {
        lemma_same_keys(sorted, entries@);
        assert(v@ =~= folded);
        let states = choose|states: Seq<Seq<(u32, V)>>| #[trigger]
            fold_states(sorted, states) && states.last() == folded && forall|k: int| #[trigger]
                has_index(sorted, k) ==> appends(states[k], sorted[k], states[k + 1])
                    || exists|a: &mut V, b: &mut V|
                    #![trigger call_ensures(merge, (a, b), ())]
                    call_ensures(merge, (a, b), ()) && *a == states[k].last().1 && *b == sorted[k].1
                        && merges(states[k], sorted[k], *final(a), states[k + 1]);
        assert forall|k: int| #[trigger] has_index(sorted, k) implies appends(
            states[k],
            sorted[k],
            states[k + 1],
        ) || merges(states[k], sorted[k], f(states[k].last().1, sorted[k].1), states[k + 1]) by {}
        law_fold_is_total(sorted, states, f);
        assert forall|k: u32| #[trigger] value_of(v@, k) == total(entries@, k, f) by {
            law_total_ignores_order(sorted, entries@, k, f);
        }
    }
    v
}

/// Sorts `keys` and drops those that occur before.
pub fn freeze_set<'a, 'id>(keys: &'a mut FVec<'id, u32>) -> (r: U32Set<'a>)
    requires
        old(keys).wf(),
    ensures
        final(keys).wf(),
        final(keys).same_room(old(keys)),
        final(keys)@ == r@,
        strictly_ascending(r@),
        forall|k: u32| #[trigger] r@.contains(k) == old(keys)@.contains(k),
{
    sort_by_u32_key(keys.as_mut_slice());
    let ghost sorted = keys@;
    let n: usize = keys.len();
    let mut w: usize = 0;
    let slice = keys.as_mut_slice();
    assert(slice@.take(0) =~= Seq::empty());
    assert(sorted.take(0) =~= Seq::empty());
    let mut i: usize = 0;
    while i < n
        invariant
            i <= n,
            n == sorted.len(),
            slice@.len() == n,
            w <= i,
            i > 0 ==> w > 0 && slice@[w - 1] == sorted[i - 1],
            ascending(sorted),
            forall|j: int| i <= j < n ==> #[trigger] slice@[j] == sorted[j],
            forall|a: int, b: int| 0 <= a < b < w ==> #[trigger] slice@[a] < #[trigger] slice@[b],
            forall|a: int| 0 <= a < w ==> sorted.contains(#[trigger] slice@[a]),
            forall|a: int| 0 <= a < i ==> slice@.take(w as int).contains(#[trigger] sorted[a]),
        decreases n - i,
    {
        let item: u32 = slice[i];
        let ghost was = slice@.take(w as int);
        assert(item == sorted[i as int]);
        if w > 0 && slice[w - 1] == item {
            assert(was[w - 1] == item);
        } else {
            if i > 0 {
                assert(sorted[i - 1].key() <= sorted[i as int].key());
            }
            let ghost before = slice@;
            slice[w] = item;
            w = w + 1;
            proof {
                assert(slice@.take(w as int) =~= was.push(item));
                assert(slice@.take(w as int)[w - 1] == item);
                assert forall|a: int| 0 <= a < i implies slice@.take(w as int).contains(
                    #[trigger] sorted[a],
                ) by {
                    let j = choose|j: int| 0 <= j < was.len() && was[j] == sorted[a];
                    assert(slice@.take(w as int)[j] == sorted[a]);
                }
                assert forall|a: int, b: int| 0 <= a < b < w implies #[trigger] slice@[a]
                    < #[trigger] slice@[b] by {
                    assert(slice@[a] == before[a]);
                    if b == w - 1 {
                        assert(before[a] <= before[w - 2]);
                    } else {
                        assert(slice@[b] == before[b]);
                    }
                }
                assert(sorted.contains(item));
            }
        }
        i = i + 1;
    }
    let ghost kept = slice@.take(w as int);
    keys.truncate(w as u32);
    proof {
        broadcast use vstd::seq_lib::group_to_multiset_ensures;

        assert(keys@ =~= kept);
        assert forall|k: u32| #[trigger] keys@.contains(k) == old(keys)@.contains(k) by {
            assert(old(keys)@.contains(k) == (old(keys)@.to_multiset().count(k) > 0));
            assert(sorted.contains(k) == (sorted.to_multiset().count(k) > 0));
            if sorted.contains(k) {
                let a = choose|a: int| 0 <= a < sorted.len() && sorted[a] == k;
                assert(kept.contains(sorted[a]));
            }
            if kept.contains(k) {
                let a = choose|a: int| 0 <= a < kept.len() && kept[a] == k;
                assert(sorted.contains(kept[a]));
            }
        }
    }
    U32Set::new(keys.as_slice())
}

/// What `f` makes of all values under `k` in `s`, taken in order.
pub open spec fn total<V>(s: Seq<(u32, V)>, k: u32, f: spec_fn(V, V) -> V) -> Option<V>
    decreases s.len(),
{
    if s.len() == 0 {
        None
    } else {
        take_in(total(s.drop_last(), k, f), s.last(), k, f)
    }
}

/// What `f` makes of `so_far` and `item`, if `item` is under `k`.
pub open spec fn take_in<V>(
    so_far: Option<V>,
    item: (u32, V),
    k: u32,
    f: spec_fn(V, V) -> V,
) -> Option<V> {
    if item.0 == k {
        match so_far {
            None => Some(item.1),
            Some(v) => Some(f(v, item.1)),
        }
    } else {
        so_far
    }
}

/// The order in which `f` takes its arguments is of no account.
pub open spec fn order_free<V>(f: spec_fn(V, V) -> V) -> bool {
    &&& forall|x: V, y: V| #[trigger] f(x, y) == f(y, x)
    &&& forall|x: V, y: V, z: V| #[trigger] f(f(x, y), z) == f(x, f(y, z))
}

proof fn lemma_take_in_swap<V>(
    so_far: Option<V>,
    x: (u32, V),
    y: (u32, V),
    k: u32,
    f: spec_fn(V, V) -> V,
)
    requires
        order_free(f),
    ensures
        take_in(take_in(so_far, x, k, f), y, k, f) == take_in(take_in(so_far, y, k, f), x, k, f),
{
    if x.0 == k && y.0 == k {
        match so_far {
            None => {
                assert(f(x.1, y.1) == f(y.1, x.1));
            },
            Some(v) => {
                assert(f(f(v, x.1), y.1) == f(v, f(x.1, y.1)));
                assert(f(f(v, y.1), x.1) == f(v, f(y.1, x.1)));
            },
        }
    }
}

proof fn lemma_total_move<V>(s: Seq<(u32, V)>, j: int, k: u32, f: spec_fn(V, V) -> V)
    requires
        order_free(f),
        0 <= j < s.len(),
    ensures
        total(s, k, f) == take_in(total(s.remove(j), k, f), s[j], k, f),
    decreases s.len(),
{
    if j == s.len() - 1 {
        assert(s.remove(j) =~= s.drop_last());
    } else {
        let c = s.drop_last();
        lemma_total_move(c, j, k, f);
        assert(s.remove(j).drop_last() =~= c.remove(j));
        assert(s.remove(j).last() == s.last());
        lemma_take_in_swap(total(c.remove(j), k, f), s[j], s.last(), k, f);
    }
}

/// Totals do not depend on the order of the entries.
pub proof fn law_total_ignores_order<V>(
    a: Seq<(u32, V)>,
    b: Seq<(u32, V)>,
    k: u32,
    f: spec_fn(V, V) -> V,
)
    requires
        order_free(f),
        a.to_multiset() == b.to_multiset(),
    ensures
        total(a, k, f) == total(b, k, f),
    decreases a.len(),
{
    broadcast use vstd::seq_lib::group_to_multiset_ensures;

    assert(a.len() == a.to_multiset().len() && b.len() == b.to_multiset().len());
    if a.len() > 0 {
        let x = a.last();
        assert(a.contains(x));
        assert(a.to_multiset().count(x) > 0);
        assert(b.contains(x));
        let j = choose|j: int| 0 <= j < b.len() && b[j] == x;
        lemma_total_move(b, j, k, f);
        assert(a.drop_last() =~= a.remove(a.len() - 1));
        vstd::seq_lib::to_multiset_remove(a, a.len() - 1);
        vstd::seq_lib::to_multiset_remove(b, j);
        law_total_ignores_order(a.drop_last(), b.remove(j), k, f);
    }
}

/// In a strictly ascending run the value under a key is that of any entry
/// with that key.
pub proof fn lemma_value_at<V>(s: Seq<(u32, V)>, i: int)
    requires
        strictly_ascending(s),
        0 <= i < s.len(),
    ensures
        value_of(s, s[i].0) == Some(s[i].1),
{
    let k = s[i].0;
    assert(s[i].key() == k);
    let j = choose|j: int| 0 <= j < s.len() && (#[trigger] s[j]).key() == k;
    if j < i {
        assert(s[j].key() < s[i].key());
    } else if i < j {
        assert(s[i].key() < s[j].key());
    }
}

proof fn lemma_fold_prefix<V>(
    sorted: Seq<(u32, V)>,
    states: Seq<Seq<(u32, V)>>,
    f: spec_fn(V, V) -> V,
    i: int,
    key: u32,
)
    requires
        fold_states(sorted, states),
        ascending(sorted),
        0 <= i <= sorted.len(),
        forall|k: int| #[trigger]
            has_index(sorted, k) ==> appends(states[k], sorted[k], states[k + 1]) || merges(
                states[k],
                sorted[k],
                f(states[k].last().1, sorted[k].1),
                states[k + 1],
            ),
    ensures
        folded(sorted, i, states[i]),
        value_of(states[i], key) == total(sorted.take(i), key, f),
    decreases i,
{
    if i == 0 {
        assert(sorted.take(0) =~= Seq::empty());
    } else {
        let p = i - 1;
        lemma_fold_prefix(sorted, states, f, p, key);
        assert(has_index(sorted, p));
        assert(sorted.take(i).drop_last() =~= sorted.take(p));
        let before = states[p];
        let after = states[i];
        let item = sorted[p];
        if appends(before, item, after) {
            lemma_fold_append(sorted, p, before);
            if key == item.0 {
                assert(!has_key(before, key)) by {
                    if has_key(before, key) {
                        let j = choose|j: int|
                            0 <= j < before.len() && (#[trigger] before[j]).key() == key;
                        assert(after[j].key() < after[before.len() as int].key());
                    }
                }
                lemma_value_at(after, before.len() as int);
            }
        } else {
            let value = f(before.last().1, item.1);
            lemma_fold_merge(sorted, p, before, value);
            if key == item.0 {
                lemma_value_at(before, before.len() - 1);
                lemma_value_at(after, before.len() - 1);
            }
        }
        if key != item.0 {
            if has_key(before, key) {
                let j = choose|j: int| 0 <= j < before.len() && (#[trigger] before[j]).key() == key;
                lemma_value_at(before, j);
                assert(after[j] == before[j]);
                lemma_value_at(after, j);
            } else {
                assert(!has_key(after, key)) by {
                    if has_key(after, key) {
                        let j = choose|j: int|
                            0 <= j < after.len() && (#[trigger] after[j]).key() == key;
                        assert(before[j].key() == key);
                    }
                }
            }
        }
    }
}

/// If every merge puts `f` of the two values in place of the first, then the
/// frozen value under a key is what `f` makes of all values under it.
pub proof fn law_fold_is_total<V>(
    sorted: Seq<(u32, V)>,
    states: Seq<Seq<(u32, V)>>,
    f: spec_fn(V, V) -> V,
)
    requires
        fold_states(sorted, states),
        ascending(sorted),
        forall|k: int| #[trigger]
            has_index(sorted, k) ==> appends(states[k], sorted[k], states[k + 1]) || merges(
                states[k],
                sorted[k],
                f(states[k].last().1, sorted[k].1),
                states[k + 1],
            ),
    ensures
        forall|key: u32| #[trigger] value_of(states.last(), key) == total(sorted, key, f),
{
    assert forall|key: u32| #[trigger] value_of(states.last(), key) == total(sorted, key, f) by {
        lemma_fold_prefix(sorted, states, f, sorted.len() as int, key);
        assert(sorted.take(sorted.len() as int) =~= sorted);
    }
}

} // verus!
