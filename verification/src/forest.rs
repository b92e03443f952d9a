//! Who stands below whom: parents, ancestors and levels in a list of
//! children.

use vstd::prelude::*;

verus! {

/// `x` is listed below `b`.
pub open spec fn holds(kids: Seq<Seq<u32>>, b: int, x: u32) -> bool {
    0 <= b < kids.len() && kids[b].contains(x)
}

/// `kids[b]` lists who stands directly below `b`; nobody stands below two, or
/// twice below one.
pub open spec fn tree_shaped(kids: Seq<Seq<u32>>) -> bool {
    &&& kids.len() <= u32::MAX
    &&& forall|b: int, x: u32| #[trigger] holds(kids, b, x) ==> x < kids.len()
    &&& forall|a: int, b: int, x: u32| #[trigger]
        holds(kids, a, x) && #[trigger] holds(kids, b, x) ==> a == b
    &&& forall|b: int| 0 <= b < kids.len() ==> (#[trigger] kids[b]).no_duplicates()
}

/// Whom `x` stands directly below.
pub open spec fn parent(kids: Seq<Seq<u32>>, x: u32) -> Option<u32> {
    if exists|b: int| holds(kids, b, x) {
        Some((choose|b: int| holds(kids, b, x)) as u32)
    } else {
        None
    }
}

/// Who stands `d` steps above `x`.
pub open spec fn up(kids: Seq<Seq<u32>>, x: u32, d: nat) -> Option<u32>
    decreases d,
{
    if d == 0 {
        Some(x)
    } else {
        match parent(kids, x) {
            None => None,
            Some(p) => up(kids, p, (d - 1) as nat),
        }
    }
}

/// `x` stands `l` steps below one that stands below nobody.
pub open spec fn has_level(kids: Seq<Seq<u32>>, x: u32, l: nat) -> bool {
    match up(kids, x, l) {
        None => false,
        Some(r) => parent(kids, r) is None,
    }
}

/// `x` stands below one that stands below nobody, or is such a one.
pub open spec fn rooted(kids: Seq<Seq<u32>>, x: u32) -> bool {
    exists|l: nat| has_level(kids, x, l)
}

/// How many steps `x` stands below the top.
pub open spec fn level(kids: Seq<Seq<u32>>, x: u32) -> nat {
    choose|l: nat| has_level(kids, x, l)
}

/// A listing names the parent.
pub proof fn lemma_holds_parent(kids: Seq<Seq<u32>>, b: int, x: u32)
    requires
        tree_shaped(kids),
        holds(kids, b, x),
    ensures
        parent(kids, x) == Some(b as u32),
        b < kids.len() <= u32::MAX,
{
}

/// A parent is a place in the list, and lists the child.
pub proof fn lemma_parent_holds(kids: Seq<Seq<u32>>, x: u32)
    requires
        tree_shaped(kids),
        parent(kids, x) is Some,
    ensures
        holds(kids, parent(kids, x)->0 as int, x),
        x < kids.len(),
{
    let b = choose|b: int| holds(kids, b, x);
    assert(holds(kids, b, x));
}

/// Steps up add.
pub proof fn lemma_up_add(kids: Seq<Seq<u32>>, x: u32, a: nat, b: nat)
    requires
        up(kids, x, a) is Some,
    ensures
        up(kids, x, a + b) == up(kids, up(kids, x, a)->0, b),
    decreases a,
{
    if a > 0 {
        lemma_up_add(kids, parent(kids, x)->0, (a - 1) as nat, b);
        assert((a + b - 1) as nat == (a - 1) as nat + b);
    }
}

/// A longer way up passes all shorter ones.
pub proof fn lemma_up_shorter(kids: Seq<Seq<u32>>, x: u32, a: nat, b: nat)
    requires
        up(kids, x, b) is Some,
        a <= b,
    ensures
        up(kids, x, a) is Some,
    decreases a,
{
    if a > 0 {
        lemma_up_shorter(kids, parent(kids, x)->0, (a - 1) as nat, (b - 1) as nat);
    }
}

/// There is one level.
pub proof fn lemma_level(kids: Seq<Seq<u32>>, x: u32, l: nat)
    requires
        has_level(kids, x, l),
    ensures
        level(kids, x) == l,
        rooted(kids, x),
{
    let m = level(kids, x);
    assert(has_level(kids, x, m));
    let (a, b) = if l < m {
        (l, m)
    } else {
        (m, l)
    };
    if a < b {
        lemma_up_add(kids, x, a, (b - a) as nat);
        assert(up(kids, up(kids, x, a)->0, (b - a) as nat) is None);
    }
}

/// A child stands one step below its parent.
pub proof fn lemma_child_level(kids: Seq<Seq<u32>>, x: u32)
    requires
        parent(kids, x) is Some,
    ensures
        rooted(kids, x) == rooted(kids, parent(kids, x)->0),
        rooted(kids, x) ==> level(kids, x) == level(kids, parent(kids, x)->0) + 1,
{
    let p = parent(kids, x)->0;
    if rooted(kids, x) {
        let l = level(kids, x);
        assert(has_level(kids, x, l));
        assert(l > 0);
        assert(up(kids, x, l) == up(kids, p, (l - 1) as nat));
        assert(has_level(kids, p, (l - 1) as nat));
        lemma_level(kids, p, (l - 1) as nat);
    }
    if rooted(kids, p) {
        let l = level(kids, p);
        assert(has_level(kids, p, l));
        assert(up(kids, x, l + 1) == up(kids, p, l));
        assert(has_level(kids, x, l + 1));
        lemma_level(kids, x, l + 1);
    }
}

/// One that stands below nobody is at the top.
pub proof fn lemma_top_level(kids: Seq<Seq<u32>>, x: u32)
    requires
        parent(kids, x) is None,
    ensures
        rooted(kids, x),
        level(kids, x) == 0,
{
    assert(up(kids, x, 0) == Some(x));
    assert(has_level(kids, x, 0));
    lemma_level(kids, x, 0);
}

/// Who stands `d` steps above `x` is that much nearer to the top.
pub proof fn lemma_up_level(kids: Seq<Seq<u32>>, x: u32, d: nat)
    requires
        rooted(kids, x),
        up(kids, x, d) is Some,
    ensures
        rooted(kids, up(kids, x, d)->0),
        level(kids, x) == level(kids, up(kids, x, d)->0) + d,
    decreases d,
{
    if d > 0 {
        lemma_child_level(kids, x);
        lemma_up_level(kids, parent(kids, x)->0, (d - 1) as nat);
    }
}

/// As many different numbers below `n` as `s` has are at most `n`.
pub proof fn lemma_few_below(s: Seq<u32>, n: nat)
    requires
        s.no_duplicates(),
        forall|i: int| 0 <= i < s.len() ==> #[trigger] s[i] < n,
    ensures
        s.len() <= n,
{
    let t = s.map_values(|x: u32| x as int);
    assert(t.no_duplicates()) by {
        assert forall|i: int, j: int| 0 <= i < t.len() && 0 <= j < t.len() && i != j implies t[i]
            != t[j] by {
            assert(s[i] != s[j]);
        }
    }
    t.unique_seq_to_set();
    vstd::set_lib::lemma_int_range(0, n as int);
    assert(t.to_set().subset_of(vstd::set_lib::set_int_range(0, n as int))) by {
        assert forall|v: int| t.to_set().contains(v) implies 0 <= v < n by {
            let i = choose|i: int| 0 <= i < t.len() && t[i] == v;
            assert(s[i] < n);
        }
    }
    vstd::set_lib::lemma_len_subset(t.to_set(), vstd::set_lib::set_int_range(0, n as int));
}

/// Nobody stands as many steps below the top as there are in all.
pub proof fn lemma_level_bounded(kids: Seq<Seq<u32>>, x: u32)
    requires
        tree_shaped(kids),
        rooted(kids, x),
        x < kids.len(),
    ensures
        level(kids, x) < kids.len(),
{
    let l = level(kids, x);
    assert(has_level(kids, x, l));
    let chain = Seq::new(l + 1, |d: int| up(kids, x, d as nat)->0);
    assert forall|d: int| 0 <= d < chain.len() implies #[trigger] chain[d] < kids.len() && level(
        kids,
        chain[d],
    ) == l - d by {
        lemma_up_shorter(kids, x, d as nat, l);
        lemma_up_level(kids, x, d as nat);
        lemma_up_in_list(kids, x, d as nat);
    }
    assert(chain.no_duplicates()) by {
        assert forall|i: int, j: int| 0 <= i < chain.len() && 0 <= j < chain.len() && i != j implies
            chain[i] != chain[j] by {
            assert(level(kids, chain[i]) == l - i);
            assert(level(kids, chain[j]) == l - j);
        }
    }
    lemma_few_below(chain, kids.len());
}

/// Who stands above a place in the list is one.
pub proof fn lemma_up_in_list(kids: Seq<Seq<u32>>, x: u32, d: nat)
    requires
        tree_shaped(kids),
        x < kids.len(),
        up(kids, x, d) is Some,
    ensures
        up(kids, x, d)->0 < kids.len(),
    decreases d,
{
    if d > 0 {
        lemma_parent_holds(kids, x);
        lemma_up_in_list(kids, parent(kids, x)->0, (d - 1) as nat);
    }
}

} // verus!
